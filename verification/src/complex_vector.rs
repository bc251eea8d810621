//! Elementwise operations on vectors of complex numbers, and on vectors of
//! such vectors.
//!
//! Where two vectors are combined, the elements at the same index meet; the
//! result is as long as the shorter of the two, at both levels of nesting.
use crate::binary32::Binary32;
use crate::complex::Complex;
use vstd::prelude::*;
use vstd::string::StringExecFns;

verus! {

/// The encoding of -1.
pub const MINUS_ONE_BITS: u32 = 0xbf80_0000;

/// The factor that turns a value into its additive inverse: -1 + 0i.
pub open spec fn minus_one() -> Complex {
    Complex { real: Binary32 { bits: MINUS_ONE_BITS }, imaginary: Binary32 { bits: 0 } }
}

/// The length of the shorter of two sequences.
pub open spec fn shorter<A>(a: Seq<A>, b: Seq<A>) -> nat {
    if a.len() <= b.len() {
        a.len()
    } else {
        b.len()
    }
}

/// The sums of the elements that meet at one index.
pub open spec fn sums_of(a: Seq<Complex>, b: Seq<Complex>) -> Seq<Complex> {
    Seq::new(shorter(a, b), |i: int| Complex::sum_of(a[i], b[i]))
}

/// Each element times -1 + 0i.
pub open spec fn inverses_of(a: Seq<Complex>) -> Seq<Complex> {
    Seq::new(a.len(), |i: int| Complex::product_of(a[i], minus_one()))
}

/// The scalar times each element.
pub open spec fn multiples_of(scalar: Complex, a: Seq<Complex>) -> Seq<Complex> {
    Seq::new(a.len(), |i: int| Complex::product_of(scalar, a[i]))
}

/// The elementwise sum of two rows.
pub fn add_rows(a: &Vec<Complex>, b: &Vec<Complex>) -> (r: Vec<Complex>)
    ensures
        r@ == sums_of(a@, b@),
{
    let n: usize = if a.len() <= b.len() {
        a.len()
    } else {
        b.len()
    };
    let mut out: Vec<Complex> = Vec::new();
    let mut i: usize = 0;
    while i < n
        invariant
            i <= n,
            n == shorter(a@, b@),
            out@ == Seq::new(i as nat, |j: int| Complex::sum_of(a@[j], b@[j])),
        decreases n - i,
    {
        let sum = a[i].add(&b[i]);
        out.push(sum);
        i = i + 1;
        assert(out@ =~= Seq::new(i as nat, |j: int| Complex::sum_of(a@[j], b@[j])));
    }
    out
}

/// Each element of a row times -1 + 0i.
pub fn invert_row(a: &Vec<Complex>) -> (r: Vec<Complex>)
    ensures
        r@ == inverses_of(a@),
{
    let factor = Complex::new(Binary32::from_bits(MINUS_ONE_BITS), Binary32::from_bits(0));
    let mut out: Vec<Complex> = Vec::new();
    let mut i: usize = 0;
    while i < a.len()
        invariant
            i <= a.len(),
            factor == minus_one(),
            out@ == Seq::new(i as nat, |j: int| Complex::product_of(a@[j], minus_one())),
        decreases a.len() - i,
    {
        let product = a[i].mul(&factor);
        out.push(product);
        i = i + 1;
        assert(out@ =~= Seq::new(i as nat, |j: int| Complex::product_of(a@[j], minus_one())));
    }
    out
}

/// The scalar times each element of a row.
pub fn scale_row(scalar: &Complex, a: &Vec<Complex>) -> (r: Vec<Complex>)
    ensures
        r@ == multiples_of(*scalar, a@),
{
    let mut out: Vec<Complex> = Vec::new();
    let mut i: usize = 0;
    while i < a.len()
        invariant
            i <= a.len(),
            out@ == Seq::new(i as nat, |j: int| Complex::product_of(*scalar, a@[j])),
        decreases a.len() - i,
    {
        let product = scalar.mul(&a[i]);
        out.push(product);
        i = i + 1;
        assert(out@ =~= Seq::new(i as nat, |j: int| Complex::product_of(*scalar, a@[j])));
    }
    out
}

/// The structural texts of the elements, each but the first behind a comma
/// and a space.
pub open spec fn listed(a: Seq<Complex>) -> Seq<char>
    decreases a.len(),
{
    if a.len() == 0 {
        Seq::empty()
    } else if a.len() == 1 {
        a[0].debug_of()
    } else {
        listed(a.drop_last()) + ", "@ + a.last().debug_of()
    }
}

/// A vector of complex numbers.
#[derive(Debug)]
pub struct CVec {
    pub vector: Vec<Complex>,
}

impl View for CVec {
    type V = Seq<Complex>;

    open spec fn view(&self) -> Seq<Complex> {
        self.vector@
    }
}

impl CVec {
    /// The vector of the given elements.
    pub fn new(v: Vec<Complex>) -> (r: CVec)
        ensures
            r.vector == v,
    {
        CVec { vector: v }
    }

    /// The text of the vector: the structural texts of its elements in
    /// square brackets, a comma and a space between them.
    pub open spec fn display_of(self) -> Seq<char> {
        "["@ + listed(self@) + "]"@
    }

    /// The text of the vector.
    pub fn to_display_string(&self) -> (text: String)
        ensures
            text@ == self.display_of(),
    {
        let mut text = String::from_str("[");
        let mut i: usize = 0;
        proof {
            assert(self@.subrange(0, 0).len() == 0);
            assert(text@ =~= "["@ + listed(self@.subrange(0, 0)));
        }
        while i < self.vector.len()
            invariant
                i <= self.vector.len(),
                text@ == "["@ + listed(self@.subrange(0, i as int)),
            decreases self.vector.len() - i,
        {
            let ghost before = self@.subrange(0, i as int);
            let ghost after = self@.subrange(0, i + 1);
            if i > 0 {
                text.append(", ");
            }
            let item = self.vector[i].to_debug_string();
            text.append(item.as_str());
            proof {
                assert(after.drop_last() =~= before);
                assert(after.last() == self@[i as int]);
                assert(text@ =~= "["@ + listed(after));
            }
            i = i + 1;
        }
        proof {
            assert(self@.subrange(0, i as int) =~= self@);
        }
        text.append("]");
        text
    }

    /// The elementwise sum, as long as the shorter of the two.
    pub fn add(self, b: &CVec) -> (r: CVec)
        ensures
            r@ == sums_of(self@, b@),
    {
        CVec::new(add_rows(&self.vector, &b.vector))
    }

    /// The additive inverse: each element times -1 + 0i.
    pub fn inverse(&self) -> (r: CVec)
        ensures
            r@ == inverses_of(self@),
    {
        CVec::new(invert_row(&self.vector))
    }

    /// The scalar times each element.
    pub fn scalar_mul(&self, scalar: &Complex) -> (r: CVec)
        ensures
            r@ == multiples_of(*scalar, self@),
    {
        CVec::new(scale_row(scalar, &self.vector))
    }
}

/// A vector of vectors of complex numbers.
#[derive(Debug)]
pub struct CVec2 {
    pub vector: Vec<Vec<Complex>>,
}

impl View for CVec2 {
    type V = Seq<Seq<Complex>>;

    open spec fn view(&self) -> Seq<Seq<Complex>> {
        Seq::new(self.vector@.len(), |i: int| self.vector@[i]@)
    }
}

impl CVec2 {
    /// The rows that meet at one index, summed element by element.
    pub open spec fn sums_of(a: Seq<Seq<Complex>>, b: Seq<Seq<Complex>>) -> Seq<Seq<Complex>> {
        Seq::new(shorter(a, b), |i: int| sums_of(a[i], b[i]))
    }

    /// Each element of each row times -1 + 0i.
    pub open spec fn inverses_of(a: Seq<Seq<Complex>>) -> Seq<Seq<Complex>> {
        Seq::new(a.len(), |i: int| inverses_of(a[i]))
    }

    /// The scalar times each element of each row.
    pub open spec fn multiples_of(scalar: Complex, a: Seq<Seq<Complex>>) -> Seq<Seq<Complex>> {
        Seq::new(a.len(), |i: int| multiples_of(scalar, a[i]))
    }

    /// The vector of the given rows.
    pub fn new(v: Vec<Vec<Complex>>) -> (r: CVec2)
        ensures
            r.vector == v,
    {
        CVec2 { vector: v }
    }

    /// The elementwise sum: as many rows as the shorter of the two has, each
    /// as long as the shorter of the two rows that meet.
    pub fn add(self, b: &CVec2) -> (r: CVec2)
        ensures
            r@ == CVec2::sums_of(self@, b@),
    {
        let n: usize = if self.vector.len() <= b.vector.len() {
            self.vector.len()
        } else {
            b.vector.len()
        };
        let mut out: Vec<Vec<Complex>> = Vec::new();
        let mut i: usize = 0;
        while i < n
            invariant
                i <= n,
                n == shorter(self@, b@),
                out@.len() == i,
                forall|j: int| 0 <= j < i ==> (#[trigger] out@[j])@ == sums_of(self@[j], b@[j]),
            decreases n - i,
        {
            let row = add_rows(&self.vector[i], &b.vector[i]);
            out.push(row);
            i = i + 1;
        }
        let r = CVec2::new(out);
        assert(r@ =~= CVec2::sums_of(self@, b@));
        r
    }

    /// The additive inverse: each element times -1 + 0i.
    pub fn inverse(&self) -> (r: CVec2)
        ensures
            r@ == CVec2::inverses_of(self@),
    {
        let mut out: Vec<Vec<Complex>> = Vec::new();
        let mut i: usize = 0;
        while i < self.vector.len()
            invariant
                i <= self.vector.len(),
                out@.len() == i,
                forall|j: int| 0 <= j < i ==> (#[trigger] out@[j])@ == inverses_of(self@[j]),
            decreases self.vector.len() - i,
        {
            let row = invert_row(&self.vector[i]);
            out.push(row);
            i = i + 1;
        }
        let r = CVec2::new(out);
        assert(r@ =~= CVec2::inverses_of(self@));
        r
    }

    /// The scalar times each element.
    pub fn scalar_mul(&self, scalar: &Complex) -> (r: CVec2)
        ensures
            r@ == CVec2::multiples_of(*scalar, self@),
    {
        let mut out: Vec<Vec<Complex>> = Vec::new();
        let mut i: usize = 0;
        while i < self.vector.len()
            invariant
                i <= self.vector.len(),
                out@.len() == i,
                forall|j: int|
                    0 <= j < i ==> (#[trigger] out@[j])@ == multiples_of(*scalar, self@[j]),
            decreases self.vector.len() - i,
        {
            let row = scale_row(scalar, &self.vector[i]);
            out.push(row);
            i = i + 1;
        }
        let r = CVec2::new(out);
        assert(r@ =~= CVec2::multiples_of(*scalar, self@));
        r
    }
}

} // verus!
