//! Commitments to witnesses: the private values of a round are committed to
//! by a multi-scalar multiplication with the round's key points, the public
//! values are kept as they are.

use vstd::prelude::*;
use halo2curves::bn256::{Fr, G1Affine};
use crate::field::{Fe, vals};
use crate::witness::{RoundWtns, CSWtns};

verus! {

#[verifier::external_type_specification]
#[verifier::external_body]
pub struct ExG1Affine(G1Affine);

/// The point that `msm_best` gives for the scalars and the bases, in affine
/// form: `sum_i scalars[i] * bases[i]`.
pub uninterp spec fn msm_point(scalars: Seq<nat>, bases: Seq<G1Affine>) -> G1Affine;

/// halo2curves' `msm_best` on the scalars, as `Fr`, and the bases, turned
/// into affine form. `msm_best` panics on lengths that differ; its result is
/// a function of the scalars' values and of the bases.
#[verifier::external_body]
fn msm(scalars: &[Fe], bases: &[G1Affine]) -> (r: G1Affine)
    requires
        scalars@.len() == bases@.len(),
    ensures
        r == msm_point(vals(scalars@), bases@),
{
    let coeffs: Vec<Fr> = scalars.iter().map(|s| Fr::from_bytes(&s.to_bytes()).unwrap()).collect();
    halo2curves::msm::msm_best(&coeffs, bases).into()
}

/// A commitment key: commits to scalars of its kind.
pub trait CommitmentKey: Sized {
    type Scalars;
    type Target;

    /// The scalars fit the key.
    spec fn fits(&self, wtns: &Self::Scalars) -> bool;

    /// `r` is the commitment to the scalars.
    spec fn committed(&self, wtns: &Self::Scalars, r: &Self::Target) -> bool;

    /// Commits to the scalars.
    fn commit(&self, wtns: &Self::Scalars) -> (r: Self::Target)
        requires
            self.fits(wtns),
        ensures
            self.committed(wtns, &r),
    ;
}

/// The commitment key of a round: a point for every private value.
pub struct CkRound(pub Vec<G1Affine>);

/// The commitment to a round: its public values and the point.
pub struct CtRound {
    pub pubs: Vec<Fe>,
    pub pt: G1Affine,
}

/// The values of a sequence of slots that are all set.
pub open spec fn unwrapped(s: Seq<Option<Fe>>) -> Seq<Fe> {
    s.map_values(|x: Option<Fe>| x.unwrap())
}

/// Every slot is set.
pub open spec fn all_set(s: Seq<Option<Fe>>) -> bool {
    forall|i: int| 0 <= i < s.len() ==> (#[trigger] s[i]) is Some
}

/// The values of the slots, which must all be set.
fn unwrap_all(s: &Vec<Option<Fe>>) -> (r: Vec<Fe>)
    requires
        all_set(s@),
    ensures
        r@ == unwrapped(s@),
{
    let mut out: Vec<Fe> = Vec::new();
    let mut i: usize = 0;
    while i < s.len()
        invariant
            all_set(s@),
            i <= s@.len(),
            out@ == unwrapped(s@).take(i as int),
        decreases s@.len() - i,
    {
        let x = s[i].unwrap();
        proof {
            assert(unwrapped(s@).take(i + 1) =~= unwrapped(s@).take(i as int).push(x));
        }
        out.push(x);
        i = i + 1;
    }
    proof {
        assert(unwrapped(s@).take(i as int) =~= unwrapped(s@));
    }
    out
}

impl CommitmentKey for CkRound {
    type Scalars = RoundWtns;
    type Target = CtRound;

    open spec fn fits(&self, wtns: &RoundWtns) -> bool {
        &&& all_set(wtns.pubs@)
        &&& all_set(wtns.privs@)
        &&& wtns.privs@.len() == self.0@.len()
    }

    open spec fn committed(&self, wtns: &RoundWtns, r: &CtRound) -> bool {
        &&& r.pubs@ == unwrapped(wtns.pubs@)
        &&& r.pt == msm_point(vals(unwrapped(wtns.privs@)), self.0@)
    }

    fn commit(&self, wtns: &RoundWtns) -> (r: CtRound) {
        let pubs = unwrap_all(&wtns.pubs);
        let scalars = unwrap_all(&wtns.privs);
        let pt = msm(scalars.as_slice(), self.0.as_slice());
        CtRound { pubs, pt }
    }
}

/// A sequence of keys commits to a sequence of scalars, one by one.
impl<CK: CommitmentKey> CommitmentKey for Vec<CK> {
    type Scalars = Vec<CK::Scalars>;
    type Target = Vec<CK::Target>;

    open spec fn fits(&self, wtns: &Vec<CK::Scalars>) -> bool {
        &&& self@.len() == wtns@.len()
        &&& forall|i: int| 0 <= i < self@.len() ==> #[trigger] self@[i].fits(&wtns@[i])
    }

    open spec fn committed(&self, wtns: &Vec<CK::Scalars>, r: &Vec<CK::Target>) -> bool {
        &&& r@.len() == self@.len()
        &&& forall|i: int| 0 <= i < self@.len() ==> #[trigger] self@[i].committed(&wtns@[i], &r@[i])
    }

    fn commit(&self, wtns: &Vec<CK::Scalars>) -> (r: Vec<CK::Target>) {
        let mut out: Vec<CK::Target> = Vec::new();
        let mut i: usize = 0;
        while i < self.len()
            invariant
                self.fits(wtns),
                i <= self@.len(),
                out@.len() == i,
                forall|k: int| 0 <= k < i ==> #[trigger] self@[k].committed(&wtns@[k], &out@[k]),
            decreases self@.len() - i,
        {
            let t = self[i].commit(&wtns[i]);
            out.push(t);
            i = i + 1;
        }
        out
    }
}

/// A system whose witness can be committed to with keys of kind `CK`.
pub trait CSSystemCommit<CK: CommitmentKey> {
    /// The witness fits the key.
    spec fn commit_fits(&self, ck: &CK) -> bool;

    /// `r` is the commitment to the witness.
    spec fn commit_result(&self, ck: &CK, r: &CK::Target) -> bool;

    /// Commits to the witness.
    fn commit(&self, ck: &CK) -> (r: CK::Target)
        requires
            self.commit_fits(ck),
        ensures
            self.commit_result(ck, &r),
    ;
}

/// The rounds of a witness are committed to with a key per round.
impl CSSystemCommit<Vec<CkRound>> for CSWtns {
    open spec fn commit_fits(&self, ck: &Vec<CkRound>) -> bool {
        ck.fits(&self.wtns)
    }

    open spec fn commit_result(&self, ck: &Vec<CkRound>, r: &Vec<CtRound>) -> bool {
        ck.committed(&self.wtns, r)
    }

    fn commit(&self, ck: &Vec<CkRound>) -> (r: Vec<CtRound>) {
        ck.commit(&self.wtns)
    }
}

} // verus!
