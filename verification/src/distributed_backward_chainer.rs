//! Distributed backward-chaining prover configuration, and the choice of
//! remote peers a sub-goal is delegated to.
//!
//! When the local knowledge base cannot resolve a goal, the chainer looks up
//! the providers of the relevant rules, one rule at a time, and sends the goal
//! to at most `max_remote_peers` distinct peers: providers are taken in the
//! order they are reported, repeats skipped, until enough peers are chosen.

use vstd::prelude::*;

verus! {

/// Distributed backward-chaining prover.
#[derive(Debug, Clone, Copy, PartialEq, Eq)]
pub struct DistributedBackwardChainer {
    /// Maximum chaining depth.
    pub max_depth: usize,
    /// Maximum number of peers to contact per unresolved sub-goal.
    pub max_remote_peers: usize,
    /// Per-peer query timeout in milliseconds.
    pub timeout_ms: u64,
}

impl Default for DistributedBackwardChainer {
    fn default() -> (c: Self)
        ensures
            c == (DistributedBackwardChainer { max_depth: 10, max_remote_peers: 3, timeout_ms: 5000 }),
    {
        DistributedBackwardChainer { max_depth: 10, max_remote_peers: 3, timeout_ms: 5000 }
    }
}

impl DistributedBackwardChainer {
    /// Create a chainer with explicit parameters.
    pub fn new(max_depth: usize, max_remote_peers: usize, timeout_ms: u64) -> (c: Self)
        ensures
            c == (DistributedBackwardChainer { max_depth, max_remote_peers, timeout_ms }),
    {
        DistributedBackwardChainer { max_depth, max_remote_peers, timeout_ms }
    }

    /// More providers are wanted while fewer than `max_remote_peers` peers
    /// have been chosen.
    pub fn wants_more_peers(&self, chosen: &Vec<String>) -> (b: bool)
        ensures
            b == (chosen@.len() < self.max_remote_peers),
    {
        chosen.len() < self.max_remote_peers
    }
}

/// The names of a list of peers.
pub open spec fn names(v: Seq<String>) -> Seq<Seq<char>> {
    v.map_values(|s: String| s@)
}

/// The peers chosen after taking `providers` in order, starting from `chosen`:
/// a provider already chosen is skipped, a new one is added, and the choice
/// stops once `max` peers are chosen.
pub open spec fn absorb(chosen: Seq<Seq<char>>, providers: Seq<Seq<char>>, max: nat) -> Seq<Seq<char>>
    decreases providers.len(),
{
    if providers.len() == 0 {
        chosen
    } else if chosen.contains(providers[0]) {
        absorb(chosen, providers.drop_first(), max)
    } else if chosen.len() + 1 >= max {
        chosen.push(providers[0])
    } else {
        absorb(chosen.push(providers[0]), providers.drop_first(), max)
    }
}

fn contains_name(v: &Vec<String>, s: &String) -> (b: bool)
    ensures
        b == names(v@).contains(s@),
{
    let mut k: usize = 0;
    while k < v.len()
        invariant
            k <= v.len(),
            forall|j: int| 0 <= j < k ==> v@[j]@ != s@,
        decreases v.len() - k,
    {
        if v[k] == *s {
            assert(names(v@)[k as int] == s@);
            return true;
        }
        k += 1;
    }
    proof {
        if names(v@).contains(s@) {
            let j = choose|j: int| 0 <= j < names(v@).len() && names(v@)[j] == s@;
            assert(v@[j]@ == s@);
        }
    }
    false
}

/// Take the providers of one rule into the chosen peers: each provider not yet
/// chosen is added, in order, until `max_remote_peers` peers are chosen.
pub fn absorb_providers(chainer: &DistributedBackwardChainer, chosen: &mut Vec<String>, providers: Vec<String>)
    requires
        old(chosen)@.len() < chainer.max_remote_peers,
    ensures
        names(final(chosen)@) == absorb(
            names(old(chosen)@),
            names(providers@),
            chainer.max_remote_peers as nat,
        ),
{
    let max = chainer.max_remote_peers;
    let mut k: usize = 0;
    proof {
        assert(names(providers@).skip(0) =~= names(providers@));
    }
    while k < providers.len()
        invariant
            k <= providers@.len(),
            max == chainer.max_remote_peers,
            chosen@.len() < max,
            absorb(names(old(chosen)@), names(providers@), max as nat) == absorb(
                names(chosen@),
                names(providers@).skip(k as int),
                max as nat,
            ),
        decreases providers@.len() - k,
    {
        let p = &providers[k];
        let ghost rest = names(providers@).skip(k as int);
        proof {
            assert(rest[0] == p@);
            assert(rest.drop_first() =~= names(providers@).skip(k + 1));
        }
        if !contains_name(chosen, p) {
            let ghost before = names(chosen@);
            chosen.push(p.clone());
            proof {
                assert(names(chosen@) =~= before.push(p@));
            }
            if chosen.len() >= max {
                return;
            }
        }
        k += 1;
    }
    proof {
        assert(names(providers@).skip(k as int) =~= Seq::<Seq<char>>::empty());
    }
}

} // verus!
