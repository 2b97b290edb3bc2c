//! The strategy interface the coordinator implements.

use vstd::prelude::*;
use crate::cache::CacheEntry;
use crate::error::Error;
use crate::layer::Layer;
use crate::layer::LayerCoordinator;
use crate::layer::purged;
use crate::layer::store_get;
use crate::ownership::contains_str;
use crate::ownership::reaches;
use crate::ownership::str_views;
use crate::pattern::Pattern;
use crate::pattern::template_ok;

verus! {

/// The decisions a cache strategy answers: where a key lives, and what
/// an invalidation of a pattern must purge.
pub trait CacheStrategy: Sized {
    /// The strategy's own well-formedness condition.
    spec fn strategy_wf(&self) -> bool;

    /// The layer a registered claim assigns the key, when one governs it.
    spec fn governed_layer(&self, key: Seq<char>) -> Option<Layer>;

    /// The layer for keys nothing governs, if one is configured.
    spec fn unresolved_layer(&self) -> Option<Layer>;

    /// Determines the cache layer for a key: the governing claim's
    /// layer, else the configured layer for unresolved keys, else a
    /// strategy error.
    fn determine_location(&self, key: &str) -> (r: Result<Layer, Error>)
        requires
            self.strategy_wf(),
        ensures
            match self.governed_layer(key@) {
                Option::Some(l) => r == Result::<Layer, Error>::Ok(l),
                Option::None => match self.unresolved_layer() {
                    Option::Some(d) => r == Result::<Layer, Error>::Ok(d),
                    Option::None => r matches Err(e) && e is StrategyError,
                },
            },
    ;

    /// The dependency-closure relation of the strategy's registry:
    /// whether an invalidation rooted at one template reaches another.
    spec fn reaches_from(&self, root: Seq<char>, t: Seq<char>) -> bool;

    /// The entry the strategy's tier `l` currently stores under `k`.
    spec fn stored_at(&self, l: Layer, k: Seq<char>) -> Option<CacheEntry>;

    /// Whether an invalidation rooted at the template must purge the
    /// key through the registry's dependency closure.
    spec fn closure_purged(&self, root: Seq<char>, k: Seq<char>) -> bool;

    /// Handles invalidation for a pattern template. It succeeds exactly
    /// on well-formed templates; a malformed one is a strategy error
    /// and changes nothing. On success the returned templates are the
    /// given one first and then exactly the dependency closure of the
    /// registry, each once; every stored key the closure covers reads
    /// as absent from every tier afterwards, and a key neither the
    /// closure nor any compilation of the given template covers is
    /// unchanged.
    fn handle_invalidation(&mut self, pattern: &str) -> (r: Result<Vec<String>, Error>)
        requires
            old(self).strategy_wf(),
        ensures
            final (self).strategy_wf(),
            r is Ok <==> template_ok(pattern@),
            r matches Err(e) ==> e is StrategyError && *final (self) == *old(self),
            r matches Ok(ts) ==> ts@.len() >= 1 && ts@[0]@ == pattern@ && str_views(
                ts@,
            ).no_duplicates() && (forall|m: int|
                0 <= m < ts@.len() ==> old(self).reaches_from(pattern@, (#[trigger] ts@[m])@)) && (
            forall|t: Seq<char>|
                #[trigger] old(self).reaches_from(pattern@, t) ==> contains_str(ts@, t)),
            r is Ok ==> forall|l: Layer, k: Seq<char>|
                old(self).closure_purged(pattern@, k) ==> #[trigger] final (self).stored_at(
                    l,
                    k,
                ) is None,
            r is Ok ==> forall|l: Layer, k: Seq<char>|
                !old(self).closure_purged(pattern@, k) && !(exists|p: Pattern|
                    p.wf() && p.template@ == pattern@ && #[trigger] p.spec_matches(k)) ==> #[trigger] final (self).stored_at(l, k) == old(self).stored_at(l, k),
    ;
}

/// What a layer answered to one dispatch.
#[derive(Debug, Clone, Copy, PartialEq, Eq, Structural)]
pub enum OpEvent {
    /// The layer returned a value.
    Hit,
    /// The layer answered authoritatively that the key is absent.
    Miss,
    /// The layer failed or timed out; treated as recoverable, the
    /// operation advances along the fallback chain.
    Failure,
}

/// The state of one operation as it walks a layer chain. Exhaustion of
/// the chain by failures surfaces as its own terminal state, never
/// silently as a miss: absence is reported only when a layer answered.
#[derive(Debug, Clone, Copy, PartialEq, Eq, Structural)]
pub enum OpState {
    /// Not yet resolved to a layer chain.
    Pending,
    /// Resolved; the indexed chain position is next to try.
    Resolved(usize),
    /// A dispatch to the indexed chain position is in flight.
    Dispatched(usize),
    /// A layer returned a value.
    Completed,
    /// A layer answered that the key is absent: a true miss.
    NotFound,
    /// The previous layer failed; the indexed position is next.
    FailedOver(usize),
    /// Every layer of the chain was tried and failed.
    Exhausted,
}

/// Tracks one get/set/delete operation across a layer chain. A driver
/// that performs the actual layer calls feeds each outcome back through
/// [`OpTracker::observe`] and dispatches wherever the state directs.
#[derive(Debug)]
pub struct OpTracker {
    /// The layer chain, primary first, then the fallback chain in order.
    pub chain: Vec<Layer>,
    /// Where the operation stands.
    pub state: OpState,
}

impl OpTracker {
    /// Starts an operation over a resolved chain. An empty chain is
    /// exhausted from the outset.
    pub fn start(chain: Vec<Layer>) -> (r: OpTracker)
        ensures
            r.chain == chain,
            chain@.len() > 0 ==> r.state == OpState::Resolved(0usize),
            chain@.len() == 0 ==> r.state == OpState::Exhausted,
    {
        if chain.len() > 0 {
            OpTracker { chain, state: OpState::Resolved(0) }
        } else {
            OpTracker { chain, state: OpState::Exhausted }
        }
    }

    /// The layer to dispatch to next, if the operation is ready for one.
    pub fn dispatch(&mut self) -> (r: Option<Layer>)
        ensures
            final(self).chain == old(self).chain,
            match old(self).state {
                OpState::Resolved(i) => if i < old(self).chain@.len() {
                    r == Some(old(self).chain@[i as int]) && final(self).state
                        == OpState::Dispatched(i)
                } else {
                    r is None && final(self).state == old(self).state
                },
                OpState::FailedOver(i) => if i < old(self).chain@.len() {
                    r == Some(old(self).chain@[i as int]) && final(self).state
                        == OpState::Dispatched(i)
                } else {
                    r is None && final(self).state == old(self).state
                },
                _ => r is None && final(self).state == old(self).state,
            },
    {
        match self.state {
            OpState::Resolved(i) => {
                if i < self.chain.len() {
                    self.state = OpState::Dispatched(i);
                    Some(self.chain[i])
                } else {
                    None
                }
            },
            OpState::FailedOver(i) => {
                if i < self.chain.len() {
                    self.state = OpState::Dispatched(i);
                    Some(self.chain[i])
                } else {
                    None
                }
            },
            _ => None,
        }
    }

    /// Feeds back what the dispatched layer answered. A hit completes
    /// the operation; an authoritative miss advances the chain and, at
    /// its end, reports a true miss; a failure advances the chain and,
    /// at its end, reports exhaustion — a typed error distinct from
    /// absence.
    pub fn observe(&mut self, ev: OpEvent)
        ensures
            final(self).chain == old(self).chain,
            match old(self).state {
                OpState::Dispatched(i) => final(self).state == match ev {
                    OpEvent::Hit => OpState::Completed,
                    OpEvent::Miss => if i + 1 < old(self).chain@.len() {
                        OpState::FailedOver((i + 1) as usize)
                    } else {
                        OpState::NotFound
                    },
                    OpEvent::Failure => if i + 1 < old(self).chain@.len() {
                        OpState::FailedOver((i + 1) as usize)
                    } else {
                        OpState::Exhausted
                    },
                },
                _ => final(self).state == old(self).state,
            },
    {
        let n = self.chain.len();
        match self.state {
            OpState::Dispatched(i) => {
                match ev {
                    OpEvent::Hit => {
                        self.state = OpState::Completed;
                    },
                    OpEvent::Miss => {
                        if i < n && n - i > 1 {
                            self.state = OpState::FailedOver(i + 1);
                        } else {
                            self.state = OpState::NotFound;
                        }
                    },
                    OpEvent::Failure => {
                        if i < n && n - i > 1 {
                            self.state = OpState::FailedOver(i + 1);
                        } else {
                            self.state = OpState::Exhausted;
                        }
                    },
                }
            },
            _ => {},
        }
    }
}

impl CacheStrategy for LayerCoordinator {
    open spec fn strategy_wf(&self) -> bool {
        self.wf()
    }

    open spec fn governed_layer(&self, key: Seq<char>) -> Option<Layer> {
        if exists|i: int| crate::ownership::best_index(self.graph.owners@, key, i) {
            Some(
                self.graph.owners@[choose|i: int|
                    crate::ownership::best_index(self.graph.owners@, key, i)].layer,
            )
        } else {
            None
        }
    }

    open spec fn unresolved_layer(&self) -> Option<Layer> {
        self.default_layer
    }

    open spec fn reaches_from(&self, root: Seq<char>, t: Seq<char>) -> bool {
        reaches(self.graph.owners@, root, t)
    }

    open spec fn stored_at(&self, l: Layer, k: Seq<char>) -> Option<CacheEntry> {
        store_get(self.store_of(l), k)
    }

    open spec fn closure_purged(&self, root: Seq<char>, k: Seq<char>) -> bool {
        purged(self.graph.owners@, root, k)
    }

    fn determine_location(&self, key: &str) -> (r: Result<Layer, Error>) {
        let r = LayerCoordinator::determine_location(self, key);
        proof {
            if exists|i: int|
                0 <= i < self.graph.owners@.len() && (
                #[trigger] self.graph.owners@[i]).pattern.spec_matches(key@) {
                crate::ownership::lemma_best_exists(self.graph.owners@, key@);
                let b = choose|i: int|
                    crate::ownership::best_index(self.graph.owners@, key@, i);
                assert(r == Result::<Layer, Error>::Ok(self.graph.owners@[b].layer));
            }
        }
        r
    }

    fn handle_invalidation(&mut self, pattern: &str) -> (r: Result<Vec<String>, Error>) {
        match Pattern::new(pattern) {
            Result::Ok(p) => {
                let ts = self.invalidate(&p);
                proof {
                    assert forall|l: Layer, k: Seq<char>|
                        old(self).closure_purged(pattern@, k) implies #[trigger] self.stored_at(
                        l,
                        k,
                    ) is None by {
                        assert(store_get(self.store_of(l), k) is None);
                    }
                    assert forall|l: Layer, k: Seq<char>|
                        !old(self).closure_purged(pattern@, k) && !(exists|p2: Pattern|
                            p2.wf() && p2.template@ == pattern@ && #[trigger] p2.spec_matches(
                                k,
                            )) implies #[trigger] self.stored_at(l, k) == old(self).stored_at(
                        l,
                        k,
                    ) by {
                        assert(p.wf() && p.template@ == pattern@);
                        assert(!p.spec_matches(k));
                        assert(store_get(self.store_of(l), k) == store_get(
                            old(self).store_of(l),
                            k,
                        ));
                    }
                }
                Ok(ts)
            },
            Result::Err(e) => Err(e),
        }
    }
}

} // verus!
