//! The replicated-state layer's decidable core: the local keyed store, the
//! action each consistency mode demands of a write, and quorum sizing.

use vstd::prelude::*;
use crate::crdt::{entries_map, find_key, keys_unique, lemma_entries_map_domain,
    lemma_entries_map_index, lemma_entries_map_push, lemma_entries_map_update};
use crate::{ConsensusError, ConsistencyLevel};

verus! {

/// The node-local keyed table behind every consistency mode: each key holds
/// the bytes last written to it.
pub struct LocalStore {
    entries: Vec<(String, Vec<u8>)>,
}

impl View for LocalStore {
    type V = Map<Seq<char>, Vec<u8>>;

    closed spec fn view(&self) -> Map<Seq<char>, Vec<u8>> {
        entries_map(self.entries@)
    }
}

impl LocalStore {
    pub closed spec fn wf(self) -> bool {
        keys_unique(self.entries@)
    }

    pub fn new() -> (r: LocalStore)
        ensures
            r.wf(),
            r@ == Map::<Seq<char>, Vec<u8>>::empty(),
    {
        LocalStore { entries: Vec::new() }
    }

    /// Write `value` under `key`, superseding whatever the key held.
    pub fn set(&mut self, key: String, value: Vec<u8>)
        requires
            old(self).wf(),
        ensures
            final(self).wf(),
            final(self)@ == old(self)@.insert(key@, value),
    {
        match find_key(&self.entries, &key) {
            Some(i) => {
                let ghost s = self.entries@;
                self.entries[i] = (key, value);
                proof {
                    lemma_entries_map_update(
                        s,
                        i as int,
                        (self.entries@[i as int].0, self.entries@[i as int].1),
                    );
                }
            },
            None => {
                proof {
                    lemma_entries_map_push(self.entries@, (key, value));
                }
                self.entries.push((key, value));
            },
        }
    }

    /// Read the bytes currently held under `key`, if any.
    pub fn get(&self, key: &String) -> (r: Option<&Vec<u8>>)
        requires
            self.wf(),
        ensures
            match r {
                Some(v) => self@.contains_key(key@) && v@ == self@[key@]@,
                None => !self@.contains_key(key@),
            },
    {
        proof {
            lemma_entries_map_domain(self.entries@);
        }
        match find_key(&self.entries, key) {
            Some(i) => {
                proof {
                    lemma_entries_map_index(self.entries@, i as int);
                }
                Some(&self.entries[i].1)
            },
            None => None,
        }
    }
}

/// What a write must do before it completes, by consistency mode.
#[derive(Debug, Clone, Copy, PartialEq, Eq, Structural)]
pub enum WriteAction {
    /// Route the write through the consensus engine; done on commit.
    ProposeStrong,
    /// Apply locally at once and disseminate by gossip.
    ApplyLocallyAndGossip,
    /// Broadcast with the writer's vector clock; replicas apply when every
    /// causally prior write is in.
    BroadcastCausal,
    /// Broadcast and wait for this many acknowledgements.
    CollectQuorum { needed: u64 },
}

/// The action a write takes under each consistency mode: strong writes go
/// through consensus, eventual writes apply locally and gossip, causal
/// writes carry a clock, and quorum writes wait for the threshold's share
/// of the replicas.
pub fn plan_write(mode: ConsistencyLevel, replicas: u64) -> (r: WriteAction)
    requires
        mode matches ConsistencyLevel::Quorum { numerator, denominator } ==> 1 <= numerator
            <= denominator && replicas * numerator <= u64::MAX - denominator,
    ensures
        mode == ConsistencyLevel::Strong ==> r == WriteAction::ProposeStrong,
        mode == ConsistencyLevel::Eventual ==> r == WriteAction::ApplyLocallyAndGossip,
        mode == ConsistencyLevel::Causal ==> r == WriteAction::BroadcastCausal,
        mode matches ConsistencyLevel::Quorum { numerator, denominator } ==> (
        r matches WriteAction::CollectQuorum { needed } && needed * denominator >= replicas
            * numerator && (needed > 0 ==> (needed - 1) * denominator < replicas * numerator)
            && needed <= replicas),
{
    match mode {
        ConsistencyLevel::Strong => WriteAction::ProposeStrong,
        ConsistencyLevel::Eventual => WriteAction::ApplyLocallyAndGossip,
        ConsistencyLevel::Causal => WriteAction::BroadcastCausal,
        ConsistencyLevel::Quorum { numerator, denominator } => WriteAction::CollectQuorum {
            needed: required_acks(replicas, numerator, denominator),
        },
    }
}

/// How many acknowledgements a quorum write needs: the least count whose
/// share of the replicas reaches the threshold `num / den`.
pub fn required_acks(replicas: u64, num: u64, den: u64) -> (r: u64)
    requires
        den > 0,
        num <= den,
        replicas * num <= u64::MAX - den,
    ensures
        r * den >= replicas * num,
        r > 0 ==> (r - 1) * den < replicas * num,
        r <= replicas,
{
    proof {
        assert(replicas * num <= replicas * den) by (nonlinear_arith)
            requires
                num <= den,
                replicas >= 0,
        ;
    }
    let product = replicas * num;
    let r = (product + den - 1) / den;
    proof {
        assert(r * den >= product && (r > 0 ==> (r - 1) * den < product) && r <= replicas) by (
        nonlinear_arith)
            requires
                den > 0,
                product == replicas * num,
                product <= replicas * den,
                r == (product + den - 1) / (den as int),
        ;
    }
    r
}

/// Decide a quorum write from the acknowledgements gathered before its
/// timeout: it succeeds exactly when their share of the replicas reaches
/// the threshold `num / den`, and fails with `QuorumNotReached` otherwise.
pub fn quorum_write_outcome(acks: u64, replicas: u64, num: u64, den: u64) -> (r: Result<
    (),
    ConsensusError,
>)
    requires
        den > 0,
        num <= den,
        replicas * num <= u64::MAX - den,
    ensures
        r is Ok <==> acks * den >= replicas * num,
        r is Err ==> (r matches Result::Err(e) && e == ConsensusError::QuorumNotReached),
{
    let needed = required_acks(replicas, num, den);
    if acks >= needed {
        proof {
            assert(acks * den >= needed * den) by (nonlinear_arith)
                requires
                    acks >= needed,
                    den > 0,
            ;
        }
        Ok(())
    } else {
        proof {
            assert(acks * den < replicas * num) by (nonlinear_arith)
                requires
                    den > 0,
                    acks < needed,
                    needed > 0 ==> (needed - 1) * den < replicas * num,
            ;
        }
        Err(ConsensusError::QuorumNotReached)
    }
}

} // verus!
