//! Cache tiers, in-memory layer stores, and the layer coordinator.
//!
//! The coordinator routes each operation to the tier its governing
//! ownership names, walks the fallback chain on a miss, and propagates
//! invalidation across every tier after a mutation.

use vstd::prelude::*;
use crate::cache::CacheEntry;
use crate::error::Error;
use crate::ownership::Ownership;
use crate::ownership::OwnershipGraph;
use crate::ownership::best_index;
use crate::ownership::contains_str;
use crate::ownership::str_views;
use crate::ownership::reaches;
use crate::pattern::Pattern;

verus! {

/// A logical cache tier, ordered by proximity: the client is nearest,
/// the server most authoritative.
#[derive(Debug, Clone, Copy, PartialEq, Eq, Structural)]
pub enum Layer {
    Client,
    Edge,
    Server,
}

impl Layer {
    /// Proximity rank: 0 nearest (client), 2 most authoritative (server).
    pub open spec fn spec_rank(self) -> int {
        match self {
            Layer::Client => 0,
            Layer::Edge => 1,
            Layer::Server => 2,
        }
    }

    /// Proximity rank as a value.
    pub fn rank(&self) -> (r: u8)
        ensures
            r as int == self.spec_rank(),
    {
        match self {
            Layer::Client => 0,
            Layer::Edge => 1,
            Layer::Server => 2,
        }
    }
}

/// The capability interface a layer backend offers: byte-oriented
/// get/set/delete keyed by string, with no knowledge of ownership
/// semantics.
pub trait CacheLayer {
    /// Reads the bytes stored under the key, if any.
    fn get(&self, key: &str) -> Result<Option<Vec<u8>>, Error>;

    /// Stores bytes under the key.
    fn set(&mut self, key: &str, value: Vec<u8>) -> Result<(), Error>;

    /// Removes the key.
    fn delete(&mut self, key: &str) -> Result<(), Error>;
}

// ------------------------------------------------------------------
// In-memory layer stores
// ------------------------------------------------------------------

/// The entry stored under `k`, taking the latest insertion when a key
/// was written more than once.
pub open spec fn store_get(es: Seq<(String, CacheEntry)>, k: Seq<char>) -> Option<CacheEntry>
    decreases es.len(),
{
    if es.len() == 0 {
        None
    } else if es.last().0@ == k {
        Some(es.last().1)
    } else {
        store_get(es.drop_last(), k)
    }
}

/// An in-memory store backing one cache tier. Writes append; reads take
/// the latest write for a key.
#[derive(Debug)]
pub struct MemoryLayer {
    /// The stored entries, oldest first.
    pub entries: Vec<(String, CacheEntry)>,
}

impl MemoryLayer {
    /// An empty store.
    pub fn new() -> (r: MemoryLayer)
        ensures
            r.entries@.len() == 0,
    {
        MemoryLayer { entries: Vec::new() }
    }

    /// The entry under the key, if any.
    pub fn lookup(&self, key: &str) -> (r: Option<&CacheEntry>)
        ensures
            match r {
                Option::None => store_get(self.entries@, key@) is None,
                Option::Some(e) => store_get(self.entries@, key@) == Some(*e),
            },
    {
        let k = key.to_owned();
        let mut i: usize = self.entries.len();
        proof {
            assert(self.entries@.take(self.entries@.len() as int) =~= self.entries@);
        }
        #[verifier::loop_isolation(false)]
        while i > 0
            invariant
                i <= self.entries@.len(),
                k@ == key@,
                store_get(self.entries@, key@) == store_get(self.entries@.take(i as int), key@),
            decreases i,
        {
            i -= 1;
            proof {
                assert(self.entries@.take(i + 1).drop_last() =~= self.entries@.take(i as int));
                assert(self.entries@.take(i + 1).last() == self.entries@[i as int]);
            }
            if self.entries[i].0 == k {
                return Some(&self.entries[i].1);
            }
        }
        proof {
            assert(self.entries@.take(0) =~= Seq::<(String, CacheEntry)>::empty());
        }
        None
    }

    /// Stores the entry under the key, shadowing any earlier write.
    pub fn insert(&mut self, key: &str, e: CacheEntry)
        ensures
            store_get(final(self).entries@, key@) == Some(e),
            forall|k: Seq<char>| k != key@ ==> store_get(final(self).entries@, k) == store_get(
                old(self).entries@,
                k,
            ),
    {
        let ghost e0 = self.entries@;
        let pair = (key.to_owned(), e);
        self.entries.push(pair);
        proof {
            assert(self.entries@.drop_last() =~= e0);
        }
    }

}

/// The entry stored under `k`, searching front-first: the front is the
/// newest entry while a store is being rebuilt.
pub open spec fn store_get_first(es: Seq<(String, CacheEntry)>, k: Seq<char>) -> Option<CacheEntry>
    decreases es.len(),
{
    if es.len() == 0 {
        None
    } else if es[0].0@ == k {
        Some(es[0].1)
    } else {
        store_get_first(es.skip(1), k)
    }
}

/// Appending an entry at the back answers a lookup only when nothing in
/// front of it already does.
proof fn lemma_first_push(es: Seq<(String, CacheEntry)>, p: (String, CacheEntry), k: Seq<char>)
    ensures
        store_get_first(es.push(p), k) == match store_get_first(es, k) {
            Option::Some(e) => Some(e),
            Option::None => if p.0@ == k {
                Some(p.1)
            } else {
                None
            },
        },
    decreases es.len(),
{
    reveal_with_fuel(store_get_first, 3);
    if es.len() == 0 {
        assert(es.push(p)[0] == p);
        assert(es.push(p).skip(1) =~= Seq::<(String, CacheEntry)>::empty());
    } else {
        assert(es.push(p)[0] == es[0]);
        assert(es.push(p).skip(1) =~= es.skip(1).push(p));
        lemma_first_push(es.skip(1), p, k);
    }
}

// ------------------------------------------------------------------
// The invalidation closure over stored patterns
// ------------------------------------------------------------------

/// Whether some pattern stored in the graph under the template `t` —
/// as an owner's own pattern or as a compiled `invalidates` entry —
/// matches the key.
pub open spec fn stored_pattern_matches(owners: Seq<Ownership>, t: Seq<char>, k: Seq<char>) -> bool {
    (exists|j: int|
        0 <= j < owners.len() && (#[trigger] owners[j]).template@ == t
            && owners[j].pattern.spec_matches(k)) || (exists|j: int, m: int|
        0 <= j < owners.len() && 0 <= m < owners[j].invalidates@.len() && (
        #[trigger] owners[j].invalidates@[m])@ == t && owners[j].invalidates_pats@[m].spec_matches(
            k,
        ))
}

/// Whether a mutation under the root template must purge the key: some
/// stored pattern whose template the root reaches matches it. The root's
/// own match set is included (the root reaches itself).
pub open spec fn purged(owners: Seq<Ownership>, root: Seq<char>, k: Seq<char>) -> bool {
    exists|t: Seq<char>| reaches(owners, root, t) && #[trigger] stored_pattern_matches(owners, t, k)
}

/// Whether a stored pattern under any of the listed templates matches
/// the key.
pub open spec fn in_closure(owners: Seq<Ownership>, tpls: Seq<String>, k: Seq<char>) -> bool {
    exists|ti: int|
        0 <= ti < tpls.len() && stored_pattern_matches(owners, (#[trigger] tpls[ti])@, k)
}

/// Whether some stored pattern under template `t` matches the key.
fn tpl_match_one(owners: &Vec<Ownership>, t: &String, k: &String) -> (r: bool)
    requires
        forall|j: int| 0 <= j < owners@.len() ==> (#[trigger] owners@[j]).wf(),
    ensures
        r == stored_pattern_matches(owners@, t@, k@),
{
    let mut j: usize = 0;
    #[verifier::loop_isolation(false)]
    while j < owners.len()
        invariant
            j <= owners@.len(),
            forall|q: int| 0 <= q < owners@.len() ==> (#[trigger] owners@[q]).wf(),
            forall|q: int| 0 <= q < j ==> !((#[trigger] owners@[q]).template@ == t@
                && owners@[q].pattern.spec_matches(k@)),
        decreases owners.len() - j,
    {
        if owners[j].template == *t {
            if owners[j].pattern.matches(k.as_str()) {
                return true;
            }
        }
        j += 1;
    }
    let mut j2: usize = 0;
    #[verifier::loop_isolation(false)]
    while j2 < owners.len()
        invariant
            j2 <= owners@.len(),
            forall|q: int| 0 <= q < owners@.len() ==> (#[trigger] owners@[q]).wf(),
            forall|q: int| 0 <= q < owners@.len() ==> !((#[trigger] owners@[q]).template@ == t@
                && owners@[q].pattern.spec_matches(k@)),
            forall|q: int, m: int|
                0 <= q < j2 && 0 <= m < owners@[q].invalidates@.len() ==> !((
                #[trigger] owners@[q].invalidates@[m])@ == t@
                    && owners@[q].invalidates_pats@[m].spec_matches(k@)),
        decreases owners.len() - j2,
    {
        let o = &owners[j2];
        let mut m: usize = 0;
        #[verifier::loop_isolation(false)]
        while m < o.invalidates.len()
            invariant
                j2 < owners@.len(),
                o == owners@[j2 as int],
                o.wf(),
                m <= o.invalidates@.len(),
                forall|q: int| 0 <= q < owners@.len() ==> !((#[trigger] owners@[q]).template@ == t@
                    && owners@[q].pattern.spec_matches(k@)),
                forall|mm: int| 0 <= mm < m ==> !((#[trigger] o.invalidates@[mm])@ == t@
                    && o.invalidates_pats@[mm].spec_matches(k@)),
            decreases o.invalidates.len() - m,
        {
            if o.invalidates[m] == *t {
                if o.invalidates_pats[m].matches(k.as_str()) {
                    return true;
                }
            }
            m += 1;
        }
        j2 += 1;
    }
    false
}

/// Whether a stored pattern under any of the listed templates matches
/// the key.
fn key_in_closure(owners: &Vec<Ownership>, tpls: &Vec<String>, k: &String) -> (r: bool)
    requires
        forall|j: int| 0 <= j < owners@.len() ==> (#[trigger] owners@[j]).wf(),
    ensures
        r == in_closure(owners@, tpls@, k@),
{
    let mut ti: usize = 0;
    #[verifier::loop_isolation(false)]
    while ti < tpls.len()
        invariant
            ti <= tpls@.len(),
            forall|j: int| 0 <= j < owners@.len() ==> (#[trigger] owners@[j]).wf(),
            forall|q: int| 0 <= q < ti ==> !stored_pattern_matches(owners@, (
            #[trigger] tpls@[q])@, k@),
        decreases tpls.len() - ti,
    {
        if tpl_match_one(owners, &tpls[ti], k) {
            return true;
        }
        ti += 1;
    }
    false
}

/// Whether the key must go when purging the closure, sparing the kept
/// key if one is given. An extra root pattern, when given, purges its
/// own match set as well.
pub open spec fn purge_cond(
    owners: Seq<Ownership>,
    tpls: Seq<String>,
    rp: Option<Pattern>,
    keep: Option<Seq<char>>,
    k: Seq<char>,
) -> bool {
    (in_closure(owners, tpls, k) || match rp {
        Option::Some(p) => p.spec_matches(k),
        Option::None => false,
    }) && match keep {
        Option::Some(kk) => k != kk,
        Option::None => true,
    }
}

/// The value of an optional extra root pattern.
pub open spec fn spec_rp(rp: Option<&Pattern>) -> Option<Pattern> {
    match rp {
        Option::Some(p) => Some(*p),
        Option::None => None,
    }
}

/// Removes from the store every entry whose key a stored pattern under
/// one of the listed templates matches, sparing the kept key if one is
/// given. Every other entry is kept unchanged.
fn purge_store(
    entries: &mut Vec<(String, CacheEntry)>,
    owners: &Vec<Ownership>,
    tpls: &Vec<String>,
    rp: Option<&Pattern>,
    keep: Option<&String>,
)
    requires
        forall|j: int| 0 <= j < owners@.len() ==> (#[trigger] owners@[j]).wf(),
    ensures
        forall|k: Seq<char>|
            purge_cond(owners@, tpls@, spec_rp(rp), spec_keep(keep), k) ==> store_get(
                final(entries)@,
                k,
            ) is None,
        forall|k: Seq<char>|
            !purge_cond(owners@, tpls@, spec_rp(rp), spec_keep(keep), k) ==> store_get(
                final(entries)@,
                k,
            ) == store_get(old(entries)@, k),
{
    let ghost orig = entries@;
    let ghost kp = spec_keep(keep);
    let ghost rpg = spec_rp(rp);
    let mut rev: Vec<(String, CacheEntry)> = Vec::new();
    #[verifier::loop_isolation(false)]
    while entries.len() > 0
        invariant
            forall|j: int| 0 <= j < owners@.len() ==> (#[trigger] owners@[j]).wf(),
            kp == spec_keep(keep),
            rpg == spec_rp(rp),
            forall|k: Seq<char>|
                purge_cond(owners@, tpls@, rpg, kp, k) ==> store_get_first(rev@, k) is None,
            forall|k: Seq<char>|
                !purge_cond(owners@, tpls@, rpg, kp, k) ==> store_get(orig, k) == match store_get_first(
                    rev@,
                    k,
                ) {
                    Option::Some(e) => Some(e),
                    Option::None => store_get(entries@, k),
                },
        decreases entries.len(),
    {
        let ghost es0 = entries@;
        let ghost rev0 = rev@;
        let p = entries.pop().unwrap();
        let c = key_in_closure(owners, tpls, &p.0) || match rp {
            Option::Some(pat) => pat.matches(p.0.as_str()),
            Option::None => false,
        };
        let keep_this = match keep {
            Option::Some(s) => p.0 == *s,
            Option::None => false,
        };
        if !c || keep_this {
            rev.push(p);
            proof {
                assert forall|k: Seq<char>|
                    !purge_cond(owners@, tpls@, rpg, kp, k) implies store_get(orig, k)
                    == match store_get_first(rev@, k) {
                    Option::Some(e) => Some(e),
                    Option::None => store_get(entries@, k),
                } by {
                    lemma_first_push(rev0, es0.last(), k);
                    assert(entries@ =~= es0.drop_last());
                }
                assert forall|k: Seq<char>|
                    purge_cond(owners@, tpls@, rpg, kp, k) implies store_get_first(
                    rev@,
                    k,
                ) is None by {
                    lemma_first_push(rev0, es0.last(), k);
                }
            }
        } else {
            proof {
                assert forall|k: Seq<char>|
                    !purge_cond(owners@, tpls@, rpg, kp, k) implies store_get(orig, k)
                    == match store_get_first(rev@, k) {
                    Option::Some(e) => Some(e),
                    Option::None => store_get(entries@, k),
                } by {
                    assert(entries@ =~= es0.drop_last());
                    assert(es0.last().0@ != k);
                }
            }
        }
    }
    proof {
        assert(entries@.len() == 0);
    }
    #[verifier::loop_isolation(false)]
    while rev.len() > 0
        invariant
            forall|k: Seq<char>|
                purge_cond(owners@, tpls@, rpg, kp, k) ==> store_get_first(rev@, k) is None && store_get(
                    entries@,
                    k,
                ) is None,
            forall|k: Seq<char>|
                !purge_cond(owners@, tpls@, rpg, kp, k) ==> store_get(orig, k) == match store_get_first(
                    rev@,
                    k,
                ) {
                    Option::Some(e) => Some(e),
                    Option::None => store_get(entries@, k),
                },
        decreases rev.len(),
    {
        let ghost es0 = entries@;
        let ghost rev0 = rev@;
        let p = rev.pop().unwrap();
        entries.push(p);
        proof {
            assert(rev0 =~= rev@.push(rev0.last()));
            assert forall|k: Seq<char>| purge_cond(owners@, tpls@, rpg, kp, k) implies store_get_first(
                rev@,
                k,
            ) is None && store_get(entries@, k) is None by {
                lemma_first_push(rev@, rev0.last(), k);
                assert(entries@.drop_last() =~= es0);
            }
            assert forall|k: Seq<char>| !purge_cond(owners@, tpls@, rpg, kp, k) implies store_get(
                orig,
                k,
            ) == match store_get_first(rev@, k) {
                Option::Some(e) => Some(e),
                Option::None => store_get(entries@, k),
            } by {
                lemma_first_push(rev@, rev0.last(), k);
                assert(entries@.drop_last() =~= es0);
                assert(entries@.last() == rev0.last());
            }
        }
    }
}

/// The view of an optional kept key.
pub open spec fn spec_keep(keep: Option<&String>) -> Option<Seq<char>> {
    match keep {
        Option::Some(s) => Some(s@),
        Option::None => None,
    }
}


// ------------------------------------------------------------------
// The layer coordinator
// ------------------------------------------------------------------

/// The stores were purged of the closure's match set, except for one
/// spared key: a purged key reads as absent, every other key unchanged.
pub open spec fn purge_post(
    owners: Seq<Ownership>,
    root: Seq<char>,
    old_es: Seq<(String, CacheEntry)>,
    new_es: Seq<(String, CacheEntry)>,
    except: Option<Seq<char>>,
) -> bool {
    forall|k: Seq<char>|
        (match except {
            Option::Some(x) => k != x,
            Option::None => true,
        }) ==> if purged(owners, root, k) {
            store_get(new_es, k) is None
        } else {
            #[trigger] store_get(new_es, k) == store_get(old_es, k)
        }
}

/// Invalidation of a pattern purged this store: every key of the
/// pattern's own match set or of its dependency closure reads as absent,
/// every other key is unchanged.
pub open spec fn inv_post(
    owners: Seq<Ownership>,
    pat: Pattern,
    old_es: Seq<(String, CacheEntry)>,
    new_es: Seq<(String, CacheEntry)>,
) -> bool {
    (forall|k: Seq<char>|
        (pat.spec_matches(k) || purged(owners, pat.template@, k)) ==> #[trigger] store_get(
            new_es,
            k,
        ) is None) && (forall|k: Seq<char>|
        !(pat.spec_matches(k) || purged(owners, pat.template@, k)) ==> #[trigger] store_get(
            new_es,
            k,
        ) == store_get(old_es, k))
}

/// A purge whose condition coincides with the root's closure yields the
/// purge postcondition.
proof fn lemma_purge_to_post(
    owners: Seq<Ownership>,
    tpls: Seq<String>,
    root: Seq<char>,
    old_es: Seq<(String, CacheEntry)>,
    new_es: Seq<(String, CacheEntry)>,
    except: Option<Seq<char>>,
)
    requires
        forall|k: Seq<char>|
            purge_cond(owners, tpls, None, None, k) ==> #[trigger] store_get(new_es, k) is None,
        forall|k: Seq<char>|
            !purge_cond(owners, tpls, None, None, k) ==> #[trigger] store_get(new_es, k)
                == store_get(old_es, k),
        forall|k: Seq<char>| #[trigger] in_closure(owners, tpls, k) <==> purged(owners, root, k),
    ensures
        purge_post(owners, root, old_es, new_es, except),
{
    assert forall|k: Seq<char>|
        (match except {
            Option::Some(x) => k != x,
            Option::None => true,
        }) implies (if purged(owners, root, k) {
        store_get(new_es, k) is None
    } else {
        #[trigger] store_get(new_es, k) == store_get(old_es, k)
    }) by {
        assert(in_closure(owners, tpls, k) <==> purged(owners, root, k));
        if purged(owners, root, k) {
            assert(purge_cond(owners, tpls, None, None, k));
            assert(store_get(new_es, k) is None);
        } else {
            assert(!purge_cond(owners, tpls, None, None, k));
            assert(store_get(new_es, k) == store_get(old_es, k));
        }
    }
}

/// A later write that changes one key only keeps the purge postcondition
/// outside that key.
proof fn lemma_post_update(
    owners: Seq<Ownership>,
    root: Seq<char>,
    old_es: Seq<(String, CacheEntry)>,
    mid_es: Seq<(String, CacheEntry)>,
    new_es: Seq<(String, CacheEntry)>,
    x: Seq<char>,
)
    requires
        purge_post(owners, root, old_es, mid_es, None),
        forall|k: Seq<char>| k != x ==> #[trigger] store_get(new_es, k) == store_get(mid_es, k),
    ensures
        purge_post(owners, root, old_es, new_es, Some(x)),
{
    assert forall|k: Seq<char>|
        (match Some(x) {
            Option::Some(xx) => k != xx,
            Option::None => true,
        }) implies (if purged(owners, root, k) {
        store_get(new_es, k) is None
    } else {
        #[trigger] store_get(new_es, k) == store_get(old_es, k)
    }) by {
        assert(store_get(mid_es, k) == if purged(owners, root, k) {
            None
        } else {
            store_get(old_es, k)
        });
    }
}

/// A purge that also carries the root pattern yields the invalidation
/// postcondition.
proof fn lemma_purge_to_inv_post(
    owners: Seq<Ownership>,
    tpls: Seq<String>,
    pat: Pattern,
    old_es: Seq<(String, CacheEntry)>,
    new_es: Seq<(String, CacheEntry)>,
)
    requires
        forall|k: Seq<char>|
            purge_cond(owners, tpls, Some(pat), None, k) ==> #[trigger] store_get(
                new_es,
                k,
            ) is None,
        forall|k: Seq<char>|
            !purge_cond(owners, tpls, Some(pat), None, k) ==> #[trigger] store_get(new_es, k)
                == store_get(old_es, k),
        forall|k: Seq<char>| #[trigger] in_closure(owners, tpls, k) <==> purged(
            owners,
            pat.template@,
            k,
        ),
    ensures
        inv_post(owners, pat, old_es, new_es),
{
    assert forall|k: Seq<char>|
        (pat.spec_matches(k) || purged(owners, pat.template@, k)) implies #[trigger] store_get(
        new_es,
        k,
    ) is None by {
        assert(in_closure(owners, tpls, k) <==> purged(owners, pat.template@, k));
        assert(purge_cond(owners, tpls, Some(pat), None, k));
    }
    assert forall|k: Seq<char>|
        !(pat.spec_matches(k) || purged(owners, pat.template@, k)) implies #[trigger] store_get(
        new_es,
        k,
    ) == store_get(old_es, k) by {
        assert(in_closure(owners, tpls, k) <==> purged(owners, pat.template@, k));
        assert(!purge_cond(owners, tpls, Some(pat), None, k));
    }
}

/// Routes operations to the tier the governing ownership names, walks
/// the fallback chain on a miss, and propagates invalidation across all
/// tiers after a mutation. Holds one in-memory store per tier.
#[derive(Debug)]
pub struct LayerCoordinator {
    /// The ownership registry consulted for every key.
    pub graph: OwnershipGraph,
    /// The client-tier store.
    pub client: MemoryLayer,
    /// The edge-tier store.
    pub edge: MemoryLayer,
    /// The server-tier store.
    pub server: MemoryLayer,
    /// The layer used for keys no registered ownership governs.
    pub default_layer: Option<Layer>,
}

impl LayerCoordinator {
    /// The registry's claims are well formed.
    pub open spec fn wf(self) -> bool {
        self.graph.wf()
    }

    /// The entries of the given tier's store.
    pub open spec fn store_of(self, l: Layer) -> Seq<(String, CacheEntry)> {
        match l {
            Layer::Client => self.client.entries@,
            Layer::Edge => self.edge.entries@,
            Layer::Server => self.server.entries@,
        }
    }

    /// The layer chain an ownership prescribes: its primary layer, then
    /// its fallback chain in declared order.
    pub open spec fn owner_chain(o: Ownership) -> Seq<Layer> {
        seq![o.layer] + o.fallback@
    }

    /// The first hit walking the given layers in order.
    pub open spec fn lookup_chain(self, ls: Seq<Layer>, k: Seq<char>) -> Option<CacheEntry>
        decreases ls.len(),
    {
        if ls.len() == 0 {
            None
        } else {
            match store_get(self.store_of(ls[0]), k) {
                Option::Some(e) => Some(e),
                Option::None => self.lookup_chain(ls.skip(1), k),
            }
        }
    }

    /// An empty coordinator with the given default layer.
    pub fn new(default_layer: Option<Layer>) -> (r: LayerCoordinator)
        ensures
            r.wf(),
            r.graph.owners@.len() == 0,
            r.graph.borrows@.len() == 0,
            r.client.entries@.len() == 0,
            r.edge.entries@.len() == 0,
            r.server.entries@.len() == 0,
            r.default_layer == default_layer,
    {
        LayerCoordinator {
            graph: OwnershipGraph::new(),
            client: MemoryLayer::new(),
            edge: MemoryLayer::new(),
            server: MemoryLayer::new(),
            default_layer,
        }
    }

    /// The store backing a tier.
    fn store_ref(&self, l: Layer) -> (r: &MemoryLayer)
        ensures
            r.entries@ == self.store_of(l),
    {
        match l {
            Layer::Client => &self.client,
            Layer::Edge => &self.edge,
            Layer::Server => &self.server,
        }
    }

    /// Determines the layer that governs the key: the resolved
    /// ownership's primary layer, else the configured default, else a
    /// strategy error.
    pub fn determine_location(&self, key: &str) -> (r: Result<Layer, Error>)
        ensures
            forall|i: int|
                best_index(self.graph.owners@, key@, i) ==> r == Result::<Layer, Error>::Ok(
                    self.graph.owners@[i].layer,
                ),
            (forall|i: int|
                0 <= i < self.graph.owners@.len() ==> !(
                #[trigger] self.graph.owners@[i]).pattern.spec_matches(key@)) ==> match self
                .default_layer {
                Option::Some(d) => r == Result::<Layer, Error>::Ok(d),
                Option::None => r matches Err(e) && e is StrategyError,
            },
            r is Err ==> (forall|i: int|
                0 <= i < self.graph.owners@.len() ==> !(
                #[trigger] self.graph.owners@[i]).pattern.spec_matches(key@))
                && self.default_layer is None,
    {
        match self.graph.resolve_index(key) {
            Option::Some(i) => Ok(self.graph.owners[i].layer),
            Option::None => match self.default_layer {
                Option::Some(d) => Ok(d),
                Option::None => Err(
                    Error::StrategyError(key.to_owned()),
                ),
            },
        }
    }

    /// Reads the key: the governing ownership's primary layer first,
    /// then its fallback chain in declared order. A miss everywhere is
    /// `Ok(None)`, not an error; with an empty fallback chain no other
    /// layer is consulted. A key no ownership governs reads from the
    /// default layer, or fails with a strategy error if none is set.
    pub fn get(&self, key: &str) -> (r: Result<Option<&CacheEntry>, Error>)
        ensures
            forall|i: int|
                best_index(self.graph.owners@, key@, i) ==> result_entry(r) == Result::<
                    Option<CacheEntry>,
                    Error,
                >::Ok(self.lookup_chain(Self::owner_chain(self.graph.owners@[i]), key@)),
            (forall|i: int|
                0 <= i < self.graph.owners@.len() ==> !(
                #[trigger] self.graph.owners@[i]).pattern.spec_matches(key@)) ==> match self
                .default_layer {
                Option::Some(d) => result_entry(r) == Result::<Option<CacheEntry>, Error>::Ok(
                    self.lookup_chain(seq![d], key@),
                ),
                Option::None => r matches Err(e) && e is StrategyError,
            },
            r is Err ==> (forall|i: int|
                0 <= i < self.graph.owners@.len() ==> !(
                #[trigger] self.graph.owners@[i]).pattern.spec_matches(key@))
                && self.default_layer is None,
    {
        let mut chain: Vec<Layer> = Vec::new();
        match self.graph.resolve_index(key) {
            Option::Some(i) => {
                let o = &self.graph.owners[i];
                chain.push(o.layer);
                let mut f: usize = 0;
                #[verifier::loop_isolation(false)]
                while f < o.fallback.len()
                    invariant
                        f <= o.fallback@.len(),
                        chain@ == seq![o.layer] + o.fallback@.take(f as int),
                    decreases o.fallback.len() - f,
                {
                    chain.push(o.fallback[f]);
                    proof {
                        assert(seq![o.layer] + o.fallback@.take(f + 1) =~= (seq![o.layer]
                            + o.fallback@.take(f as int)).push(o.fallback@[f as int]));
                    }
                    f += 1;
                }
                proof {
                    assert(o.fallback@.take(o.fallback@.len() as int) =~= o.fallback@);
                    assert(chain@ == Self::owner_chain(self.graph.owners@[i as int]));
                    assert forall|i2: int|
                        best_index(self.graph.owners@, key@, i2) implies i2 == i as int by {
                        crate::ownership::lemma_best_index_unique(
                            self.graph.owners@,
                            key@,
                            i2,
                            i as int,
                        );
                    }
                }
            },
            Option::None => match self.default_layer {
                Option::Some(d) => {
                    chain.push(d);
                    proof {
                        assert(chain@ =~= seq![d]);
                    }
                },
                Option::None => {
                    return Err(Error::StrategyError(key.to_owned()));
                },
            },
        }
        let ghost full = chain@;
        proof {
            assert(full.skip(0) =~= full);
        }
        let mut j: usize = 0;
        #[verifier::loop_isolation(false)]
        while j < chain.len()
            invariant
                j <= chain@.len(),
                chain@ == full,
                self.lookup_chain(full, key@) == self.lookup_chain(full.skip(j as int), key@),
            decreases chain.len() - j,
        {
            proof {
                assert(full.skip(j as int)[0] == full[j as int]);
                assert(full.skip(j as int).skip(1) =~= full.skip(j as int + 1));
            }
            match self.store_ref(chain[j]).lookup(key) {
                Option::Some(e) => {
                    return Ok(Some(e));
                },
                Option::None => {},
            }
            j += 1;
        }
        proof {
            assert(full.skip(full.len() as int) =~= Seq::<Layer>::empty());
        }
        Ok(None)
    }

    /// Writes the entry through to the governing ownership's primary
    /// layer, then purges every key in the match sets of the
    /// ownership's invalidation closure — the written key alone
    /// survives, freshly stored on the primary layer. The purge covers
    /// every tier, not only the chain's layers: a conservative superset
    /// that leaves no stale copy anywhere. A key no ownership
    /// governs is written to the default layer with no invalidation, or
    /// fails with a strategy error if none is set.
    #[verifier::rlimit(80)]
    pub fn set(&mut self, key: &str, entry: CacheEntry) -> (r: Result<(), Error>)
        requires
            old(self).wf(),
        ensures
            final(self).wf(),
            final(self).graph == old(self).graph,
            final(self).default_layer == old(self).default_layer,
            r matches Err(e) ==> *final(self) == *old(self) && e is StrategyError,
            r is Err <==> (forall|i: int|
                0 <= i < old(self).graph.owners@.len() ==> !(
                #[trigger] old(self).graph.owners@[i]).pattern.spec_matches(key@)) && old(self).default_layer is None,
            forall|i: int|
                best_index(old(self).graph.owners@, key@, i) ==> {
                    let o = old(self).graph.owners@[i];
                    store_get(final(self).store_of(o.layer), key@) == Some(entry) && purge_post(
                        old(self).graph.owners@,
                        o.template@,
                        old(self).client.entries@,
                        final(self).client.entries@,
                        if o.layer == Layer::Client {
                            Some(key@)
                        } else {
                            None
                        },
                    ) && purge_post(
                        old(self).graph.owners@,
                        o.template@,
                        old(self).edge.entries@,
                        final(self).edge.entries@,
                        if o.layer == Layer::Edge {
                            Some(key@)
                        } else {
                            None
                        },
                    ) && purge_post(
                        old(self).graph.owners@,
                        o.template@,
                        old(self).server.entries@,
                        final(self).server.entries@,
                        if o.layer == Layer::Server {
                            Some(key@)
                        } else {
                            None
                        },
                    )
                },
            ((forall|i: int|
                0 <= i < old(self).graph.owners@.len() ==> !(
                #[trigger] old(self).graph.owners@[i]).pattern.spec_matches(key@)) && old(self).default_layer is Some) ==> store_get(
                final(self).store_of(old(self).default_layer->0),
                key@,
            ) == Some(entry) && (forall|l: Layer, k: Seq<char>|
                !(l == old(self).default_layer->0 && k == key@) ==> #[trigger] store_get(
                    final(self).store_of(l),
                    k,
                ) == store_get(old(self).store_of(l), k)),
    {
        match self.graph.resolve_index(key) {
            Option::Some(i) => {
                let primary = self.graph.owners[i].layer;
                let ghost root = self.graph.owners@[i as int].template@;
                let tpls = self.graph.invalidate(self.graph.owners[i].template.as_str());
                proof {
                    lemma_closure_purged(self.graph.owners@, tpls@, root);
                }
                purge_store(
                    &mut self.client.entries,
                    &self.graph.owners,
                    &tpls,
                    None,
                    None,
                );
                purge_store(&mut self.edge.entries, &self.graph.owners, &tpls, None, None);
                purge_store(
                    &mut self.server.entries,
                    &self.graph.owners,
                    &tpls,
                    None,
                    None,
                );
                let ghost mc = self.client.entries@;
                let ghost me = self.edge.entries@;
                let ghost ms = self.server.entries@;
                proof {
                    let owners0 = old(self).graph.owners@;
                    lemma_purge_to_post(
                        owners0,
                        tpls@,
                        root,
                        old(self).client.entries@,
                        mc,
                        None,
                    );
                    lemma_purge_to_post(owners0, tpls@, root, old(self).edge.entries@, me, None);
                    lemma_purge_to_post(
                        owners0,
                        tpls@,
                        root,
                        old(self).server.entries@,
                        ms,
                        None,
                    );
                }
                match primary {
                    Layer::Client => self.client.insert(key, entry),
                    Layer::Edge => self.edge.insert(key, entry),
                    Layer::Server => self.server.insert(key, entry),
                }
                proof {
                    let owners0 = old(self).graph.owners@;
                    assert forall|i2: int|
                        best_index(owners0, key@, i2) implies i2 == i as int by {
                        crate::ownership::lemma_best_index_unique(owners0, key@, i2, i as int);
                    }
                    if primary == Layer::Client {
                        lemma_post_update(
                            owners0,
                            root,
                            old(self).client.entries@,
                            mc,
                            self.client.entries@,
                            key@,
                        );
                    } else if primary == Layer::Edge {
                        lemma_post_update(
                            owners0,
                            root,
                            old(self).edge.entries@,
                            me,
                            self.edge.entries@,
                            key@,
                        );
                    } else {
                        lemma_post_update(
                            owners0,
                            root,
                            old(self).server.entries@,
                            ms,
                            self.server.entries@,
                            key@,
                        );
                    }
                }
                Ok(())
            },
            Option::None => match self.default_layer {
                Option::Some(d) => {
                    match d {
                        Layer::Client => self.client.insert(key, entry),
                        Layer::Edge => self.edge.insert(key, entry),
                        Layer::Server => self.server.insert(key, entry),
                    }
                    Ok(())
                },
                Option::None => Err(Error::StrategyError(key.to_owned())),
            },
        }
    }

    /// Deletes the key and purges every key in the match sets of the
    /// governing ownership's invalidation closure. The purge covers
    /// every tier, not only the chain's layers: a conservative superset
    /// that leaves no stale copy anywhere. A
    /// key no ownership governs is removed from the default layer only,
    /// or fails with a strategy error if none is set.
    #[verifier::rlimit(80)]
    pub fn delete(&mut self, key: &str) -> (r: Result<(), Error>)
        requires
            old(self).wf(),
        ensures
            final(self).wf(),
            final(self).graph == old(self).graph,
            final(self).default_layer == old(self).default_layer,
            r matches Err(e) ==> *final(self) == *old(self) && e is StrategyError,
            r is Err <==> (forall|i: int|
                0 <= i < old(self).graph.owners@.len() ==> !(
                #[trigger] old(self).graph.owners@[i]).pattern.spec_matches(key@)) && old(self).default_layer is None,
            forall|i: int|
                best_index(old(self).graph.owners@, key@, i) ==> purge_post(
                    old(self).graph.owners@,
                    old(self).graph.owners@[i].template@,
                    old(self).client.entries@,
                    final(self).client.entries@,
                    None,
                ) && purge_post(
                    old(self).graph.owners@,
                    old(self).graph.owners@[i].template@,
                    old(self).edge.entries@,
                    final(self).edge.entries@,
                    None,
                ) && purge_post(
                    old(self).graph.owners@,
                    old(self).graph.owners@[i].template@,
                    old(self).server.entries@,
                    final(self).server.entries@,
                    None,
                ),
            ((forall|i: int|
                0 <= i < old(self).graph.owners@.len() ==> !(
                #[trigger] old(self).graph.owners@[i]).pattern.spec_matches(key@)) && old(self).default_layer is Some) ==> store_get(
                final(self).store_of(old(self).default_layer->0),
                key@,
            ) is None && (forall|l: Layer, k: Seq<char>|
                !(l == old(self).default_layer->0 && k == key@) ==> #[trigger] store_get(
                    final(self).store_of(l),
                    k,
                ) == store_get(old(self).store_of(l), k)),
    {
        match self.graph.resolve_index(key) {
            Option::Some(i) => {
                let ghost root = self.graph.owners@[i as int].template@;
                let tpls = self.graph.invalidate(self.graph.owners[i].template.as_str());
                proof {
                    lemma_closure_purged(self.graph.owners@, tpls@, root);
                }
                purge_store(
                    &mut self.client.entries,
                    &self.graph.owners,
                    &tpls,
                    None,
                    None,
                );
                purge_store(&mut self.edge.entries, &self.graph.owners, &tpls, None, None);
                purge_store(
                    &mut self.server.entries,
                    &self.graph.owners,
                    &tpls,
                    None,
                    None,
                );
                proof {
                    let owners0 = old(self).graph.owners@;
                    assert forall|i2: int|
                        best_index(owners0, key@, i2) implies i2 == i as int by {
                        crate::ownership::lemma_best_index_unique(owners0, key@, i2, i as int);
                    }
                    lemma_purge_to_post(
                        owners0,
                        tpls@,
                        root,
                        old(self).client.entries@,
                        self.client.entries@,
                        None,
                    );
                    lemma_purge_to_post(
                        owners0,
                        tpls@,
                        root,
                        old(self).edge.entries@,
                        self.edge.entries@,
                        None,
                    );
                    lemma_purge_to_post(
                        owners0,
                        tpls@,
                        root,
                        old(self).server.entries@,
                        self.server.entries@,
                        None,
                    );
                }
                Ok(())
            },
            Option::None => match self.default_layer {
                Option::Some(d) => {
                    let kstr = key.to_owned();
                    match d {
                        Layer::Client => remove_key(&mut self.client.entries, &kstr),
                        Layer::Edge => remove_key(&mut self.edge.entries, &kstr),
                        Layer::Server => remove_key(&mut self.server.entries, &kstr),
                    }
                    Ok(())
                },
                Option::None => Err(Error::StrategyError(key.to_owned())),
            },
        }
    }

    /// Purges, from every tier, the pattern's own match set and the
    /// match sets of everything its template reaches through
    /// `invalidates` edges. Returns the affected templates,
    /// breadth-first, the root first: exactly the reachable closure,
    /// each template once.
    #[verifier::rlimit(80)]
    pub fn invalidate(&mut self, pattern: &Pattern) -> (r: Vec<String>)
        requires
            old(self).wf(),
        ensures
            final(self).wf(),
            final(self).graph == old(self).graph,
            final(self).default_layer == old(self).default_layer,
            r@.len() >= 1 && r@[0]@ == pattern.template@,
            str_views(r@).no_duplicates(),
            forall|m: int|
                0 <= m < r@.len() ==> reaches(old(self).graph.owners@, pattern.template@, (
                #[trigger] r@[m])@),
            forall|t: Seq<char>|
                reaches(old(self).graph.owners@, pattern.template@, t) ==> contains_str(r@, t),
            inv_post(
                old(self).graph.owners@,
                *pattern,
                old(self).client.entries@,
                final(self).client.entries@,
            ),
            inv_post(
                old(self).graph.owners@,
                *pattern,
                old(self).edge.entries@,
                final(self).edge.entries@,
            ),
            inv_post(
                old(self).graph.owners@,
                *pattern,
                old(self).server.entries@,
                final(self).server.entries@,
            ),
    {
        let tpls = self.graph.invalidate(pattern.template.as_str());
        proof {
            lemma_closure_purged(self.graph.owners@, tpls@, pattern.template@);
        }
        purge_store(
            &mut self.client.entries,
            &self.graph.owners,
            &tpls,
            Some(pattern),
            None,
        );
        purge_store(
            &mut self.edge.entries,
            &self.graph.owners,
            &tpls,
            Some(pattern),
            None,
        );
        purge_store(
            &mut self.server.entries,
            &self.graph.owners,
            &tpls,
            Some(pattern),
            None,
        );
        proof {
            let owners0 = old(self).graph.owners@;
            lemma_purge_to_inv_post(
                owners0,
                tpls@,
                *pattern,
                old(self).client.entries@,
                self.client.entries@,
            );
            lemma_purge_to_inv_post(
                owners0,
                tpls@,
                *pattern,
                old(self).edge.entries@,
                self.edge.entries@,
            );
            lemma_purge_to_inv_post(
                owners0,
                tpls@,
                *pattern,
                old(self).server.entries@,
                self.server.entries@,
            );
        }
        tpls
    }

    /// Registers an owner; see [`OwnershipGraph::register_owner`].
    pub fn register_owner(&mut self, o: Ownership) -> (r: Result<(), Error>)
        requires
            o.wf(),
            old(self).wf(),
        ensures
            final(self).wf(),
            final(self).client == old(self).client,
            final(self).edge == old(self).edge,
            final(self).server == old(self).server,
            final(self).default_layer == old(self).default_layer,
            r is Ok <==> !crate::ownership::owner_conflict(old(self).graph.owners@, o)
                && !crate::ownership::borrow_conflict(old(self).graph.borrows@, o)
                && !crate::ownership::creates_cycle(old(self).graph.owners@, o),
            r is Ok ==> final(self).graph.owners@ == old(self).graph.owners@.push(o) && final(self).graph.borrows@ == old(self).graph.borrows@,
            r matches Err(e) ==> final(self).graph == old(self).graph && e is PatternConflict
                && crate::ownership::conflict_named(
                old(self).graph.owners@,
                old(self).graph.borrows@,
                o,
                e.payload(),
            ),
    {
        self.graph.register_owner(o)
    }

    /// Registers a borrow; see [`OwnershipGraph::register_borrow`].
    pub fn register_borrow(&mut self, pattern: Pattern, borrower: &str) -> (r: Result<(), Error>)
        requires
            pattern.wf(),
            old(self).wf(),
        ensures
            final(self).wf(),
            final(self).client == old(self).client,
            final(self).edge == old(self).edge,
            final(self).server == old(self).server,
            final(self).default_layer == old(self).default_layer,
            final(self).graph.owners@ == old(self).graph.owners@,
            r is Ok <==> exists|i: int|
                0 <= i < old(self).graph.owners@.len() && (
                #[trigger] old(self).graph.owners@[i]).pattern.spec_overlaps(pattern),
            r is Ok && crate::ownership::borrow_present(
                old(self).graph.borrows@,
                pattern.template@,
                borrower@,
            ) ==> final(self).graph == old(self).graph,
            r matches Err(e) ==> final(self).graph == old(self).graph && e is InvalidBorrowing,
    {
        self.graph.register_borrow(pattern, borrower)
    }
}

/// The entry value of a get result, with the reference read off.
pub open spec fn result_entry(r: Result<Option<&CacheEntry>, Error>) -> Result<
    Option<CacheEntry>,
    Error,
> {
    match r {
        Result::Ok(Option::Some(e)) => Ok(Some(*e)),
        Result::Ok(Option::None) => Ok(None),
        Result::Err(e) => Err(e),
    }
}

/// The closure a walk returned purges exactly what the root's
/// invalidation must purge.
proof fn lemma_closure_purged(owners: Seq<Ownership>, tpls: Seq<String>, root: Seq<char>)
    requires
        tpls.len() >= 1,
        tpls[0]@ == root,
        forall|i: int| 0 <= i < tpls.len() ==> reaches(owners, root, (#[trigger] tpls[i])@),
        forall|t: Seq<char>| reaches(owners, root, t) ==> contains_str(tpls, t),
    ensures
        forall|k: Seq<char>| in_closure(owners, tpls, k) <==> purged(owners, root, k),
{
    assert forall|k: Seq<char>| in_closure(owners, tpls, k) implies purged(owners, root, k) by {
        let ti = choose|ti: int|
            0 <= ti < tpls.len() && stored_pattern_matches(owners, (#[trigger] tpls[ti])@, k);
        assert(reaches(owners, root, tpls[ti]@));
    }
    assert forall|k: Seq<char>| purged(owners, root, k) implies in_closure(owners, tpls, k) by {
        let t = choose|t: Seq<char>|
            reaches(owners, root, t) && #[trigger] stored_pattern_matches(owners, t, k);
        assert(contains_str(tpls, t));
        let i = choose|i: int| 0 <= i < tpls.len() && tpls[i]@ == t;
        assert(stored_pattern_matches(owners, tpls[i]@, k));
    }
}

/// Removes the single key from the store, leaving every other key
/// unchanged.
fn remove_key(entries: &mut Vec<(String, CacheEntry)>, key: &String)
    ensures
        store_get(final(entries)@, key@) is None,
        forall|k: Seq<char>| k != key@ ==> store_get(final(entries)@, k) == store_get(
            old(entries)@,
            k,
        ),
{
    let ghost orig = entries@;
    let mut rev: Vec<(String, CacheEntry)> = Vec::new();
    #[verifier::loop_isolation(false)]
    while entries.len() > 0
        invariant
            store_get_first(rev@, key@) is None,
            forall|k: Seq<char>|
                k != key@ ==> store_get(orig, k) == match store_get_first(rev@, k) {
                    Option::Some(e) => Some(e),
                    Option::None => store_get(entries@, k),
                },
        decreases entries.len(),
    {
        let ghost es0 = entries@;
        let ghost rev0 = rev@;
        let p = entries.pop().unwrap();
        if p.0 == *key {
            proof {
                assert forall|k: Seq<char>|
                    k != key@ implies store_get(orig, k) == match store_get_first(rev@, k) {
                    Option::Some(e) => Some(e),
                    Option::None => store_get(entries@, k),
                } by {
                    assert(entries@ =~= es0.drop_last());
                }
            }
        } else {
            rev.push(p);
            proof {
                assert forall|k: Seq<char>|
                    k != key@ implies store_get(orig, k) == match store_get_first(rev@, k) {
                    Option::Some(e) => Some(e),
                    Option::None => store_get(entries@, k),
                } by {
                    lemma_first_push(rev0, es0.last(), k);
                    assert(entries@ =~= es0.drop_last());
                }
                assert(store_get_first(rev@, key@) is None) by {
                    lemma_first_push(rev0, es0.last(), key@);
                }
            }
        }
    }
    proof {
        assert(store_get(entries@, key@) is None);
    }
    #[verifier::loop_isolation(false)]
    while rev.len() > 0
        invariant
            store_get_first(rev@, key@) is None,
            store_get(entries@, key@) is None,
            forall|k: Seq<char>|
                k != key@ ==> store_get(orig, k) == match store_get_first(rev@, k) {
                    Option::Some(e) => Some(e),
                    Option::None => store_get(entries@, k),
                },
        decreases rev.len(),
    {
        let ghost es0 = entries@;
        let ghost rev0 = rev@;
        let p = rev.pop().unwrap();
        entries.push(p);
        proof {
            assert(rev0 =~= rev@.push(rev0.last()));
            assert(store_get_first(rev@, key@) is None && store_get(entries@, key@) is None) by {
                lemma_first_push(rev@, rev0.last(), key@);
                assert(entries@.drop_last() =~= es0);
            }
            assert forall|k: Seq<char>| k != key@ implies store_get(orig, k)
                == match store_get_first(rev@, k) {
                Option::Some(e) => Some(e),
                Option::None => store_get(entries@, k),
            } by {
                lemma_first_push(rev@, rev0.last(), k);
                assert(entries@.drop_last() =~= es0);
                assert(entries@.last() == rev0.last());
            }
        }
    }
}

/// A coordinator ready for immediate use: an empty registry with the
/// client layer as the default for unresolved keys.
pub fn quick_start() -> (r: LayerCoordinator)
    ensures
        r.wf(),
        r.graph.owners@.len() == 0,
        r.graph.borrows@.len() == 0,
        r.client.entries@.len() == 0,
        r.edge.entries@.len() == 0,
        r.server.entries@.len() == 0,
        r.default_layer == Some(Layer::Client),
{
    LayerCoordinator::new(Some(Layer::Client))
}

/// A coordinator with the server layer as the default, for
/// installations that treat the server as authoritative for unclaimed
/// keys.
pub fn auto() -> (r: LayerCoordinator)
    ensures
        r.wf(),
        r.graph.owners@.len() == 0,
        r.graph.borrows@.len() == 0,
        r.client.entries@.len() == 0,
        r.edge.entries@.len() == 0,
        r.server.entries@.len() == 0,
        r.default_layer == Some(Layer::Server),
{
    LayerCoordinator::new(Some(Layer::Server))
}

} // verus!
