//! The assembled linear system: a dense square operator and a load vector,
//! owned by one solve. Assembly accumulates into it; the boundary enforcer
//! overwrites designated rows with exact identity rows.

use vstd::prelude::*;
use crate::FemError;
use crate::rat::{Frac, Rat, rat_zero, rat_one, f_wf, feq, fadd, iabs};
use crate::linalg::{wf_fvec, ent, lemma_flat_index};

verus! {

/// The fraction values of a sequence of rational scalars.
pub open spec fn rvals(v: Seq<Rat>) -> Seq<Frac> {
    v.map_values(|r: Rat| r@)
}

/// Every scalar in the sequence is well-formed.
pub open spec fn wf_rvec(v: Seq<Rat>) -> bool {
    forall|i: int| 0 <= i < v.len() ==> (#[trigger] v[i]).wf()
}

/// A well-formed scalar sequence yields well-formed fraction values.
pub proof fn lemma_rvals_wf(v: Seq<Rat>)
    requires
        wf_rvec(v),
    ensures
        wf_fvec(rvals(v)),
        rvals(v).len() == v.len(),
{
    assert forall|i: int| 0 <= i < rvals(v).len() implies f_wf(#[trigger] rvals(v)[i]) by {
        assert(v[i].wf());
    }
}

/// Indexing the value sequence reads the scalar's value.
pub proof fn lemma_rvals_index(v: Seq<Rat>, q: int)
    requires
        0 <= q < v.len(),
    ensures
        rvals(v)[q] == v[q]@,
        rvals(v).len() == v.len(),
{
}

/// Copies a vector of scalars.
pub fn copy_rats(v: &Vec<Rat>) -> (r: Vec<Rat>)
    ensures
        r@ == v@,
{
    let mut r: Vec<Rat> = Vec::new();
    let mut i: usize = 0;
    while i < v.len()
        invariant
            i <= v.len(),
            r@.len() == i,
            forall|p: int| 0 <= p < i ==> r@[p] == v@[p],
        decreases v.len() - i,
    {
        r.push(v[i]);
        i = i + 1;
    }
    proof {
        assert(r@ =~= v@);
    }
    r
}

/// A dense `n`-by-`n` operator (flat, row-major) with its load vector.
pub struct System {
    pub n: usize,
    pub a: Vec<Rat>,
    pub b: Vec<Rat>,
}

impl System {
    /// The ghost matrix of operator values.
    pub open spec fn av(self) -> Seq<Frac> {
        rvals(self.a@)
    }

    /// The ghost load vector values.
    pub open spec fn bv(self) -> Seq<Frac> {
        rvals(self.b@)
    }

    pub open spec fn wf(self) -> bool {
        &&& self.n >= 1
        &&& self.n * self.n <= usize::MAX
        &&& self.a@.len() == self.n * self.n
        &&& self.b@.len() == self.n
        &&& wf_rvec(self.a@)
        &&& wf_rvec(self.b@)
    }

    /// The all-zero system of a given size.
    pub fn new_zero(n: usize) -> (s: System)
        requires
            1 <= n,
            n * n <= usize::MAX,
        ensures
            s.wf(),
            s.n == n,
            forall|p: int| 0 <= p < n * n ==> s.a@[p] == rat_zero(),
            forall|p: int| 0 <= p < n ==> s.b@[p] == rat_zero(),
    {
        proof {
            assert(n * n >= n) by (nonlinear_arith)
                requires
                    n >= 1,
            ;
        }
        let nn: usize = n * n;
        let mut a: Vec<Rat> = Vec::new();
        let mut i: usize = 0;
        while i < nn
            invariant
                i <= nn,
                a@.len() == i,
                forall|p: int| 0 <= p < i ==> a@[p] == rat_zero(),
            decreases nn - i,
        {
            a.push(Rat::zero());
            i = i + 1;
        }
        let mut b: Vec<Rat> = Vec::new();
        let mut j: usize = 0;
        while j < n
            invariant
                j <= n,
                b@.len() == j,
                forall|p: int| 0 <= p < j ==> b@[p] == rat_zero(),
            decreases n - j,
        {
            b.push(Rat::zero());
            j = j + 1;
        }
        System { n, a, b }
    }

    /// Reads entry `(r, c)` of the operator.
    pub fn get(&self, r: usize, c: usize) -> (v: Rat)
        requires
            self.wf(),
            r < self.n,
            c < self.n,
        ensures
            v == self.a@[r * self.n + c],
            v.wf(),
            v@ == ent(self.av(), self.n as int, r as int, c as int),
    {
        proof {
            lemma_flat_index(self.n as int, r as int, c as int);
        }
        self.a[r * self.n + c]
    }

    /// Overwrites entry `(r, c)` of the operator.
    pub fn set(&mut self, r: usize, c: usize, v: Rat)
        requires
            old(self).wf(),
            r < old(self).n,
            c < old(self).n,
            v.wf(),
        ensures
            final(self).n == old(self).n,
            final(self).b == old(self).b,
            final(self).a@ == old(self).a@.update(r * old(self).n + c, v),
            final(self).wf(),
    {
        proof {
            lemma_flat_index(self.n as int, r as int, c as int);
        }
        let idx: usize = r * self.n + c;
        self.a.set(idx, v);
    }

    /// Adds `v` into entry `(r, c)` of the operator, exactly. On failure the
    /// operator is left untouched; the addition succeeds whenever the
    /// unreduced sum fits the scalar range.
    pub fn add_at(&mut self, r: usize, c: usize, v: Rat) -> (ok: Result<(), FemError>)
        requires
            old(self).wf(),
            r < old(self).n,
            c < old(self).n,
            v.wf(),
        ensures
            final(self).n == old(self).n,
            final(self).b == old(self).b,
            final(self).wf(),
            ok matches Err(e) ==> e == FemError::Overflow && final(self).a == old(self).a,
            ({
                let e = old(self).a@[r * old(self).n + c]@;
                iabs(e.n * v@.d + v@.n * e.d) <= 0x7fff_ffff_ffff_ffff && e.d * v@.d
                    <= 0x7fff_ffff_ffff_ffff
            }) ==> ok matches Ok(()),
            ok matches Ok(()) ==> {
                &&& final(self).a@.len() == old(self).a@.len()
                &&& feq(
                    final(self).a@[r * old(self).n + c]@,
                    fadd(old(self).a@[r * old(self).n + c]@, v@),
                )
                &&& forall|p: int|
                    0 <= p < old(self).a@.len() && p != r * old(self).n + c
                        ==> final(self).a@[p] == old(self).a@[p]
            },
    {
        proof {
            lemma_flat_index(self.n as int, r as int, c as int);
        }
        let idx: usize = r * self.n + c;
        let cur = self.a[idx];
        match cur.add(&v) {
            Some(s) => {
                self.a.set(idx, s);
                Ok(())
            },
            None => Err(FemError::Overflow),
        }
    }

    /// Adds `v` into entry `k` of the load vector, exactly: the load is
    /// assembled by accumulation, like the operator. On failure the load is
    /// left untouched.
    pub fn add_load(&mut self, k: usize, v: Rat) -> (ok: Result<(), FemError>)
        requires
            old(self).wf(),
            k < old(self).n,
            v.wf(),
        ensures
            final(self).n == old(self).n,
            final(self).a == old(self).a,
            final(self).wf(),
            ok matches Err(e) ==> e == FemError::Overflow && final(self).b == old(self).b,
            ({
                let e = old(self).b@[k as int]@;
                iabs(e.n * v@.d + v@.n * e.d) <= 0x7fff_ffff_ffff_ffff && e.d * v@.d
                    <= 0x7fff_ffff_ffff_ffff
            }) ==> ok matches Ok(()),
            ok matches Ok(()) ==> {
                &&& final(self).b@.len() == old(self).b@.len()
                &&& feq(final(self).b@[k as int]@, fadd(old(self).b@[k as int]@, v@))
                &&& forall|p: int|
                    0 <= p < old(self).b@.len() && p != k
                        ==> final(self).b@[p] == old(self).b@[p]
            },
    {
        let cur = self.b[k];
        match cur.add(&v) {
            Some(s) => {
                self.b.set(k, s);
                Ok(())
            },
            None => Err(FemError::Overflow),
        }
    }

    /// Overwrites entry `k` of the load vector.
    pub fn set_load(&mut self, k: usize, v: Rat)
        requires
            old(self).wf(),
            k < old(self).n,
            v.wf(),
        ensures
            final(self).n == old(self).n,
            final(self).a == old(self).a,
            final(self).b@ == old(self).b@.update(k as int, v),
            final(self).wf(),
    {
        self.b.set(k, v);
    }

    /// Enforces the Dirichlet condition `u[k] == g`: row `k` of the operator
    /// becomes the exact identity row (one at the diagonal, zero elsewhere)
    /// and load entry `k` becomes `g`. Every other row and load entry is left
    /// untouched. This is meant to run strictly after assembly.
    pub fn apply_dirichlet(&mut self, k: usize, g: Rat)
        requires
            old(self).wf(),
            k < old(self).n,
            g.wf(),
        ensures
            final(self).wf(),
            final(self).n == old(self).n,
            final(self).a@.len() == old(self).a@.len(),
            forall|p: int|
                k * old(self).n <= p < k * old(self).n + old(self).n
                    ==> #[trigger] final(self).a@[p] == (if p == k * old(self).n + k {
                    rat_one()
                } else {
                    rat_zero()
                }),
            forall|p: int|
                0 <= p < old(self).a@.len() && !(k * old(self).n <= p < k * old(self).n
                    + old(self).n) ==> #[trigger] final(self).a@[p] == old(self).a@[p],
            final(self).b@ == old(self).b@.update(k as int, g),
    {
        let n = self.n;
        let mut c: usize = 0;
        while c < n
            invariant
                self.wf(),
                self.n == n,
                k < n,
                c <= n,
                self.n == old(self).n,
                self.b == old(self).b,
                self.a@.len() == old(self).a@.len(),
                forall|p: int|
                    k * n <= p < k * n + c ==> #[trigger] self.a@[p] == (if p == k * n + k {
                        rat_one()
                    } else {
                        rat_zero()
                    }),
                forall|p: int|
                    0 <= p < self.a@.len() && !(k * n <= p < k * n + c)
                        ==> #[trigger] self.a@[p] == old(self).a@[p],
            decreases n - c,
        {
            let v = if c == k {
                Rat::one()
            } else {
                Rat::zero()
            };
            proof {
                lemma_flat_index(n as int, k as int, c as int);
            }
            self.set(k, c, v);
            c = c + 1;
        }
        self.set_load(k, g);
    }
}

} // verus!
