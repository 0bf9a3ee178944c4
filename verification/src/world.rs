//! The distributed coordinator: a fixed world of cooperating processes,
//! each owning a shard of the computation.
//!
//! The coordinator gathers every member's public input vector to the
//! distinguished root in rank order before verification, and offers a
//! finalize operation at session end.  A missing contribution is a fatal
//! session abort.

use crate::field::Fr;
use vstd::prelude::*;

verus! {

/// Why a collective operation failed.
#[derive(Clone, Copy, PartialEq, Eq, Structural, Debug)]
pub enum WorldError {
    /// A world member failed to contribute; the whole session aborts.
    DistributedSessionAbort,
}

/// A session's world: the number of cooperating processes and this
/// process's rank within them.  Rank zero is the root.
#[derive(Clone, Copy, PartialEq, Eq, Structural, Debug)]
pub struct World {
    pub world_size: usize,
    pub rank: usize,
}

/// The concatenation of every member's shard, in rank order.
pub open spec fn concat_shards(shards: Seq<Seq<Fr>>) -> Seq<Fr>
    decreases shards.len(),
{
    if shards.len() == 0 {
        Seq::empty()
    } else {
        concat_shards(shards.drop_last()) + shards.last()
    }
}

impl World {
    /// A valid world has at least one member and this process inside it.
    pub open spec fn wf(self) -> bool {
        self.world_size >= 1 && self.rank < self.world_size
    }

    /// A single-process session: one member, which is the root.
    pub fn single() -> (r: World)
        ensures
            r.wf(),
            r.world_size == 1,
            r.rank == 0,
    {
        World { world_size: 1, rank: 0 }
    }

    /// A world of the externally configured size, seen from the given
    /// rank.  Fails exactly when the rank is not inside the world.
    pub fn with_rank(world_size: usize, rank: usize) -> (r: Option<World>)
        ensures
            r is Some <==> world_size >= 1 && rank < world_size,
            r is Some ==> r->0.wf() && r->0.world_size == world_size && r->0.rank == rank,
    {
        if world_size >= 1 && rank < world_size {
            Some(World { world_size, rank })
        } else {
            None
        }
    }

    /// Whether this process is the distinguished root.
    pub fn is_root(&self) -> (r: bool)
        ensures
            r == (self.rank == 0),
    {
        self.rank == 0
    }

    /// Gathers every member's public input vector to the root, in rank
    /// order: the root receives the concatenation, every other member
    /// receives nothing.  Fails with `DistributedSessionAbort` exactly
    /// when some member's contribution is missing or extra.
    pub fn gather_public_inputs(&self, contributions: &Vec<Vec<Fr>>) -> (r: Result<
        Option<Vec<Fr>>,
        WorldError,
    >)
        requires
            self.wf(),
        ensures
            r is Ok <==> contributions@.len() == self.world_size,
            r is Err ==> r->Err_0 == WorldError::DistributedSessionAbort,
            r is Ok ==> ((r->Ok_0 is Some) <==> self.rank == 0),
            r is Ok && self.rank == 0 ==> r->Ok_0->0@ == concat_shards(
                contributions@.map_values(|v: Vec<Fr>| v@),
            ),
    {
        if contributions.len() != self.world_size {
            return Err(WorldError::DistributedSessionAbort);
        }
        if self.rank != 0 {
            return Ok(None);
        }
        let ghost shards = contributions@.map_values(|v: Vec<Fr>| v@);
        let mut out: Vec<Fr> = Vec::new();
        let mut i: usize = 0;
        proof {
            assert(out@ =~= concat_shards(shards.take(0)));
        }
        while i < contributions.len()
            invariant
                0 <= i <= contributions@.len(),
                shards == contributions@.map_values(|v: Vec<Fr>| v@),
                out@ == concat_shards(shards.take(i as int)),
            decreases contributions@.len() - i,
        {
            let shard = &contributions[i];
            let mut j: usize = 0;
            while j < shard.len()
                invariant
                    0 <= j <= shard@.len(),
                    shard == &contributions[i as int],
                    i < contributions@.len(),
                    shards == contributions@.map_values(|v: Vec<Fr>| v@),
                    out@ == concat_shards(shards.take(i as int)) + shard@.subrange(0, j as int),
                decreases shard@.len() - j,
            {
                out.push(shard[j]);
                proof {
                    assert(concat_shards(shards.take(i as int)) + shard@.subrange(0, j + 1 as int)
                        =~= (concat_shards(shards.take(i as int)) + shard@.subrange(
                        0,
                        j as int,
                    )).push(shard@[j as int]));
                }
                j = j + 1;
            }
            proof {
                assert(shards.take(i + 1 as int).drop_last() =~= shards.take(i as int));
                assert(shards.take(i + 1 as int).last() == shard@);
                assert(shard@.subrange(0, shard@.len() as int) =~= shard@);
                assert(out@ =~= concat_shards(shards.take(i + 1 as int)));
            }
            i = i + 1;
        }
        proof {
            assert(shards.take(contributions@.len() as int) =~= shards);
        }
        Ok(Some(out))
    }

    /// Releases the session's world-wide resources.  In this in-process
    /// model there is nothing to release; the operation marks the barrier
    /// at which every member's participation ends.
    pub fn finalize(self) {
    }
}

/// Gathering two members' shards is exactly their concatenation in rank
/// order: what the root receives equals the manually concatenated
/// reference vector.
pub proof fn lemma_gather_two(a: Seq<Fr>, b: Seq<Fr>)
    ensures
        concat_shards(seq![a, b]) == a + b,
{
    let s = seq![a, b];
    assert(s.drop_last() =~= seq![a]);
    assert(seq![a].drop_last() =~= Seq::<Seq<Fr>>::empty());
    assert(concat_shards(Seq::<Seq<Fr>>::empty()) == Seq::<Fr>::empty());
    assert(concat_shards(seq![a]) =~= a);
    assert(concat_shards(s) =~= a + b);
}

} // verus!
