use vstd::prelude::*;

use crate::fraction::{
    frac_eq, frac_mul, frac_sub, mul_fits, recip, sub_fits, Fraction,
};
use crate::fraction::lemma_mul_then_div;
use crate::SolveError;

verus! {

/// The mathematical content of a row: the coefficient sequence (`l`) and the
/// constant-column sequence (`r`).
pub struct RowModel {
    pub l: Seq<Fraction>,
    pub r: Seq<Fraction>,
}

impl RowModel {
    /// All entries are well-formed fractions.
    pub open spec fn wf(self) -> bool {
        &&& forall|i: int| 0 <= i < self.l.len() ==> (#[trigger] self.l[i]).wf()
        &&& forall|i: int| 0 <= i < self.r.len() ==> (#[trigger] self.r[i]).wf()
    }
}

/// One equation of the system: an ordered coefficient sequence (`left`) and
/// one or more constant columns (`right`).
#[derive(Debug)]
pub struct Row {
    pub left: Vec<Fraction>,
    pub right: Vec<Fraction>,
}

impl View for Row {
    type V = RowModel;

    open spec fn view(&self) -> RowModel {
        RowModel { l: self.left@, r: self.right@ }
    }
}

/// Elementwise scaling of a row by a fraction.
pub open spec fn row_scale(m: RowModel, f: Fraction) -> RowModel {
    RowModel { l: m.l.map_values(|x: Fraction| frac_mul(x, f)), r: m.r.map_values(
        |x: Fraction| frac_mul(x, f),
    ) }
}

/// Whether every elementwise product of the scaling fits.
pub open spec fn row_scale_fits(m: RowModel, f: Fraction) -> bool {
    &&& forall|i: int| 0 <= i < m.l.len() ==> mul_fits(#[trigger] m.l[i], f)
    &&& forall|i: int| 0 <= i < m.r.len() ==> mul_fits(#[trigger] m.r[i], f)
}

/// Elementwise division: scaling by the sign-preserving reciprocal.
pub open spec fn row_div(m: RowModel, f: Fraction) -> RowModel {
    row_scale(m, recip(f))
}

/// Whether every elementwise quotient of the division fits.
pub open spec fn row_div_fits(m: RowModel, f: Fraction) -> bool {
    row_scale_fits(m, recip(f))
}

/// Elementwise difference of two rows of equal shape.
pub open spec fn row_sub(a: RowModel, b: RowModel) -> RowModel {
    RowModel {
        l: Seq::new(a.l.len(), |i: int| frac_sub(a.l[i], b.l[i])),
        r: Seq::new(a.r.len(), |i: int| frac_sub(a.r[i], b.r[i])),
    }
}

/// Whether every elementwise difference fits.
pub open spec fn row_sub_fits(a: RowModel, b: RowModel) -> bool {
    &&& forall|i: int| 0 <= i < a.l.len() ==> sub_fits(#[trigger] a.l[i], b.l[i])
    &&& forall|i: int| 0 <= i < a.r.len() ==> sub_fits(#[trigger] a.r[i], b.r[i])
}

/// The cross-multiplication elimination step on rows: `a*p - b*f`.
pub open spec fn row_elim(a: RowModel, p: Fraction, b: RowModel, f: Fraction) -> RowModel {
    row_sub(row_scale(a, p), row_scale(b, f))
}

/// Whether every arithmetic step of the elimination fits.
pub open spec fn row_elim_fits(a: RowModel, p: Fraction, b: RowModel, f: Fraction) -> bool {
    &&& row_scale_fits(a, p)
    &&& row_scale_fits(b, f)
    &&& row_sub_fits(row_scale(a, p), row_scale(b, f))
}

/// Copy a vector of fractions element by element.
fn copy_fracs(v: &Vec<Fraction>) -> (r: Vec<Fraction>)
    ensures
        r@ == v@,
{
    let mut out: Vec<Fraction> = Vec::new();
    let mut i: usize = 0;
    while i < v.len()
        invariant
            i <= v.len(),
            out@ == v@.subrange(0, i as int),
        decreases v.len() - i,
    {
        out.push(v[i]);
        proof {
            assert(out@ =~= v@.subrange(0, i + 1));
        }
        i = i + 1;
    }
    proof {
        assert(out@ =~= v@);
    }
    out
}

impl Clone for Row {
    /// Copies the row; the copy has the same mathematical content.
    fn clone(&self) -> (r: Row)
        ensures
            r@ == self@,
    {
        Row { left: copy_fracs(&self.left), right: copy_fracs(&self.right) }
    }
}

impl Row {
    /// Assemble a row from its two sides.
    pub fn new(left: Vec<Fraction>, right: Vec<Fraction>) -> (r: Row)
        ensures
            r@.l == left@,
            r@.r == right@,
    {
        Row { left, right }
    }

    /// The coefficient side.
    pub fn left(&self) -> (r: &Vec<Fraction>)
        ensures
            r@ == self@.l,
    {
        &self.left
    }

    /// The constant-column side.
    pub fn right(&self) -> (r: &Vec<Fraction>)
        ensures
            r@ == self@.r,
    {
        &self.right
    }

    /// The single signed index: non-negative indices address the coefficient
    /// side, negative indices the constant side counting backward from the
    /// end, so -1 is the last constant-column entry.
    pub fn at(&self, index: isize) -> (r: Fraction)
        requires
            index >= 0 ==> index < self@.l.len(),
            index < 0 ==> -(index as int) <= self@.r.len(),
        ensures
            index >= 0 ==> r == self@.l[index as int],
            index < 0 ==> r == self@.r[self@.r.len() + index],
    {
        if index < 0 {
            let off = (-(index as i128)) as usize;
            self.right[self.right.len() - off]
        } else {
            self.left[index as usize]
        }
    }

    /// Scale every entry by `f`, reporting overflow if any reduced product
    /// does not fit.
    pub fn times(&self, f: Fraction) -> (r: Result<Row, SolveError>)
        requires
            self@.wf(),
            f.wf(),
        ensures
            (r is Ok <==> row_scale_fits(self@, f)),
            r matches Ok(out) ==> out@ == row_scale(self@, f) && out@.wf() && out@.l.len()
                == self@.l.len() && out@.r.len() == self@.r.len(),
            r matches Err(e) ==> e == SolveError::ArithmeticOverflow,
    {
        let mut l: Vec<Fraction> = Vec::new();
        let mut i: usize = 0;
        while i < self.left.len()
            invariant
                self@.wf(),
                f.wf(),
                i <= self@.l.len(),
                l@.len() == i,
                forall|j: int| 0 <= j < i ==> mul_fits(#[trigger] self@.l[j], f) && l@[j]
                    == frac_mul(self@.l[j], f) && l@[j].wf(),
            decreases self@.l.len() - i,
        {
            match self.left[i].times(f) {
                Ok(x) => l.push(x),
                Err(e) => {
                    return Err(e);
                },
            }
            i = i + 1;
        }
        let mut r: Vec<Fraction> = Vec::new();
        let mut k: usize = 0;
        while k < self.right.len()
            invariant
                self@.wf(),
                f.wf(),
                k <= self@.r.len(),
                r@.len() == k,
                forall|j: int| 0 <= j < k ==> mul_fits(#[trigger] self@.r[j], f) && r@[j]
                    == frac_mul(self@.r[j], f) && r@[j].wf(),
            decreases self@.r.len() - k,
        {
            match self.right[k].times(f) {
                Ok(x) => r.push(x),
                Err(e) => {
                    return Err(e);
                },
            }
            k = k + 1;
        }
        proof {
            assert(l@ =~= self@.l.map_values(|x: Fraction| frac_mul(x, f)));
            assert(r@ =~= self@.r.map_values(|x: Fraction| frac_mul(x, f)));
        }
        Ok(Row { left: l, right: r })
    }

    /// Divide every entry by the non-zero fraction `f`.
    pub fn div_by(&self, f: Fraction) -> (r: Result<Row, SolveError>)
        requires
            self@.wf(),
            f.wf(),
            f.num() != 0,
        ensures
            (r is Ok <==> row_div_fits(self@, f)),
            r matches Ok(out) ==> out@ == row_div(self@, f) && out@.wf() && out@.l.len()
                == self@.l.len() && out@.r.len() == self@.r.len(),
            r matches Err(e) ==> e == SolveError::ArithmeticOverflow,
    {
        let s = f.swapped();
        proof {
            crate::fraction::lemma_gcd_comm(f.numerator as nat, f.denominator as nat);
        }
        self.times(s)
    }

    /// Elementwise difference with a row of the same shape.
    pub fn minus(&self, rhs: &Row) -> (r: Result<Row, SolveError>)
        requires
            self@.wf(),
            rhs@.wf(),
            self@.l.len() == rhs@.l.len(),
            self@.r.len() == rhs@.r.len(),
        ensures
            (r is Ok <==> row_sub_fits(self@, rhs@)),
            r matches Ok(out) ==> out@ == row_sub(self@, rhs@) && out@.wf() && out@.l.len()
                == self@.l.len() && out@.r.len() == self@.r.len(),
            r matches Err(e) ==> e == SolveError::ArithmeticOverflow,
    {
        let mut l: Vec<Fraction> = Vec::new();
        let mut i: usize = 0;
        while i < self.left.len()
            invariant
                self@.wf(),
                rhs@.wf(),
                self@.l.len() == rhs@.l.len(),
                i <= self@.l.len(),
                l@.len() == i,
                forall|j: int| 0 <= j < i ==> sub_fits(#[trigger] self@.l[j], rhs@.l[j]) && l@[j]
                    == frac_sub(self@.l[j], rhs@.l[j]) && l@[j].wf(),
            decreases self@.l.len() - i,
        {
            match self.left[i].minus(rhs.left[i]) {
                Ok(x) => l.push(x),
                Err(e) => {
                    return Err(e);
                },
            }
            i = i + 1;
        }
        let mut r: Vec<Fraction> = Vec::new();
        let mut k: usize = 0;
        while k < self.right.len()
            invariant
                self@.wf(),
                rhs@.wf(),
                self@.r.len() == rhs@.r.len(),
                k <= self@.r.len(),
                r@.len() == k,
                forall|j: int| 0 <= j < k ==> sub_fits(#[trigger] self@.r[j], rhs@.r[j]) && r@[j]
                    == frac_sub(self@.r[j], rhs@.r[j]) && r@[j].wf(),
            decreases self@.r.len() - k,
        {
            match self.right[k].minus(rhs.right[k]) {
                Ok(x) => r.push(x),
                Err(e) => {
                    return Err(e);
                },
            }
            k = k + 1;
        }
        proof {
            assert(l@ =~= row_sub(self@, rhs@).l);
            assert(r@ =~= row_sub(self@, rhs@).r);
        }
        Ok(Row { left: l, right: r })
    }

    /// The cross-multiplication elimination step: `self*p - rhs*f`.
    pub fn elim(&self, p: Fraction, rhs: &Row, f: Fraction) -> (r: Result<Row, SolveError>)
        requires
            self@.wf(),
            rhs@.wf(),
            p.wf(),
            f.wf(),
            self@.l.len() == rhs@.l.len(),
            self@.r.len() == rhs@.r.len(),
        ensures
            (r is Ok <==> row_elim_fits(self@, p, rhs@, f)),
            r matches Ok(out) ==> out@ == row_elim(self@, p, rhs@, f) && out@.wf() && out@.l.len()
                == self@.l.len() && out@.r.len() == self@.r.len(),
            r matches Err(e) ==> e == SolveError::ArithmeticOverflow,
    {
        let a = match self.times(p) {
            Ok(a) => a,
            Err(e) => {
                return Err(e);
            },
        };
        let b = match rhs.times(f) {
            Ok(b) => b,
            Err(e) => {
                return Err(e);
            },
        };
        a.minus(&b)
    }
}

impl PartialEq for Row {
    fn eq(&self, other: &Row) -> (r: bool) {
        if self.left.len() != other.left.len() || self.right.len() != other.right.len() {
            return false;
        }
        let mut i: usize = 0;
        while i < self.left.len()
            invariant
                self@.l.len() == other@.l.len(),
                self@.r.len() == other@.r.len(),
                i <= self@.l.len(),
                forall|j: int| 0 <= j < i ==> crate::fraction::frac_eq_exec(
                    #[trigger] self@.l[j],
                    other@.l[j],
                ),
            decreases self@.l.len() - i,
        {
            if !(self.left[i] == other.left[i]) {
                return false;
            }
            i = i + 1;
        }
        let mut k: usize = 0;
        while k < self.right.len()
            invariant
                self@.l.len() == other@.l.len(),
                self@.r.len() == other@.r.len(),
                forall|j: int| 0 <= j < self@.l.len() ==> crate::fraction::frac_eq_exec(
                    #[trigger] self@.l[j],
                    other@.l[j],
                ),
                k <= self@.r.len(),
                forall|j: int| 0 <= j < k ==> crate::fraction::frac_eq_exec(
                    #[trigger] self@.r[j],
                    other@.r[j],
                ),
            decreases self@.r.len() - k,
        {
            if !(self.right[k] == other.right[k]) {
                return false;
            }
            k = k + 1;
        }
        true
    }
}

/// The exact meaning of the executable `==` on rows: equal shapes and
/// entrywise equal rational values.
pub open spec fn row_eq_exec(a: RowModel, b: RowModel) -> bool {
    &&& a.l.len() == b.l.len()
    &&& a.r.len() == b.r.len()
    &&& forall|j: int| 0 <= j < a.l.len() ==> crate::fraction::frac_eq_exec(
        #[trigger] a.l[j],
        b.l[j],
    )
    &&& forall|j: int| 0 <= j < a.r.len() ==> crate::fraction::frac_eq_exec(
        #[trigger] a.r[j],
        b.r[j],
    )
}

impl vstd::std_specs::cmp::PartialEqSpecImpl for Row {
    open spec fn obeys_eq_spec() -> bool {
        true
    }

    open spec fn eq_spec(&self, other: &Row) -> bool {
        row_eq_exec(self@, other@)
    }
}

/// Law: scaling a row by a non-zero fraction and then dividing by the same
/// fraction recovers the original row, entry by entry (whenever every reduced
/// intermediate fits the fixed-width fields).
pub proof fn lemma_row_scale_then_div(m: RowModel, f: Fraction)
    requires
        m.wf(),
        f.wf(),
        f.num() != 0,
        row_scale_fits(m, f),
        row_div_fits(row_scale(m, f), f),
    ensures
        row_div(row_scale(m, f), f).l.len() == m.l.len(),
        row_div(row_scale(m, f), f).r.len() == m.r.len(),
        forall|i: int| 0 <= i < m.l.len() ==> frac_eq(
            #[trigger] row_div(row_scale(m, f), f).l[i],
            m.l[i],
        ),
        forall|i: int| 0 <= i < m.r.len() ==> frac_eq(
            #[trigger] row_div(row_scale(m, f), f).r[i],
            m.r[i],
        ),
{
    let s = row_scale(m, f);
    let d = row_div(s, f);
    assert forall|i: int| 0 <= i < m.l.len() implies frac_eq(#[trigger] d.l[i], m.l[i]) by {
        assert(s.l[i] == frac_mul(m.l[i], f));
        assert(d.l[i] == frac_mul(s.l[i], recip(f)));
        lemma_mul_then_div(m.l[i], f);
    }
    assert forall|i: int| 0 <= i < m.r.len() implies frac_eq(#[trigger] d.r[i], m.r[i]) by {
        assert(s.r[i] == frac_mul(m.r[i], f));
        assert(d.r[i] == frac_mul(s.r[i], recip(f)));
        lemma_mul_then_div(m.r[i], f);
    }
}

} // verus!
