//! The owner/borrow registry with conflict detection and the
//! invalidation-dependency graph.
//!
//! At most one owner governs any overlapping namespace; many read-only
//! borrowers may coexist. Registration is all-or-nothing: an overlap or a
//! dependency cycle rejects the whole call with no mutation.

use vstd::prelude::*;
use crate::error::Error;
use crate::layer::Layer;
use crate::pattern::Pattern;
use crate::pattern::template_ok;

verus! {

/// The lifetime scope of an ownership claim.
#[derive(Debug, Clone, Copy, PartialEq, Eq, Structural)]
pub enum Lifetime {
    /// Purged when the request ends.
    Request,
    /// Purged when the session ends.
    Session,
    /// Kept until explicitly removed.
    Persistent,
}

/// An exclusive claim over a pattern's namespace, bound to a primary
/// layer, a fallback chain, and declared invalidation dependencies.
/// Immutable once registered.
#[derive(Debug)]
pub struct Ownership {
    /// The owning pattern's template text.
    pub template: String,
    /// The owning pattern, compiled.
    pub pattern: Pattern,
    /// The primary layer for keys under this pattern.
    pub layer: Layer,
    /// Secondary layers consulted in order on a miss or failure.
    pub fallback: Vec<Layer>,
    /// Optional time-to-live, in seconds.
    pub ttl: Option<u64>,
    /// The lifetime scope of the claim.
    pub lifetime: Lifetime,
    /// Templates of the dependent patterns this claim invalidates.
    pub invalidates: Vec<String>,
    /// The dependent patterns, compiled, aligned with `invalidates`.
    pub invalidates_pats: Vec<Pattern>,
}

impl Ownership {
    /// The compiled patterns agree with their template texts.
    pub open spec fn wf(self) -> bool {
        self.pattern.wf() && self.pattern.template@ == self.template@
            && self.invalidates_pats@.len() == self.invalidates@.len() && forall|k: int|
            0 <= k < self.invalidates@.len() ==> (#[trigger] self.invalidates_pats@[k]).wf()
                && self.invalidates_pats@[k].template@ == self.invalidates@[k]@
    }

    /// Builds an ownership claim, compiling its pattern and every
    /// dependent pattern. Fails with a strategy error on any malformed
    /// template.
    pub fn new(
        template: &str,
        layer: Layer,
        fallback: Vec<Layer>,
        ttl: Option<u64>,
        lifetime: Lifetime,
        invalidates: Vec<String>,
    ) -> (r: Result<Ownership, Error>)
        ensures
            r is Ok <==> template_ok(template@) && (forall|k: int|
                0 <= k < invalidates@.len() ==> template_ok(#[trigger] invalidates@[k]@)),
            r matches Ok(o) ==> o.wf() && o.template@ == template@ && o.layer == layer
                && o.fallback == fallback && o.ttl == ttl && o.lifetime == lifetime
                && o.invalidates == invalidates,
            r matches Err(e) ==> e is StrategyError,
    {
        let pattern = match Pattern::new(template) {
            Result::Ok(p) => p,
            Result::Err(e) => {
                return Err(e);
            },
        };
        let mut invalidates_pats: Vec<Pattern> = Vec::new();
        let mut k: usize = 0;
        #[verifier::loop_isolation(false)]
        while k < invalidates.len()
            invariant
                k <= invalidates@.len(),
                invalidates_pats@.len() == k,
                forall|m: int| 0 <= m < k ==> (#[trigger] invalidates_pats@[m]).wf()
                    && invalidates_pats@[m].template@ == invalidates@[m]@,
                forall|m: int| 0 <= m < k ==> template_ok(#[trigger] invalidates@[m]@),
            decreases invalidates.len() - k,
        {
            match Pattern::new(invalidates[k].as_str()) {
                Result::Ok(p) => {
                    invalidates_pats.push(p);
                },
                Result::Err(e) => {
                    return Err(e);
                },
            }
            k += 1;
        }
        Ok(
            Ownership {
                template: template.to_owned(),
                pattern,
                layer,
                fallback,
                ttl,
                lifetime,
                invalidates,
                invalidates_pats,
            },
        )
    }
}

/// A non-exclusive, read-oriented claim over a pattern's namespace.
#[derive(Debug)]
pub struct Borrow {
    /// The borrowed pattern, compiled.
    pub pattern: Pattern,
    /// The borrower's identity.
    pub borrower: String,
}

// ------------------------------------------------------------------
// The dependency graph over templates
// ------------------------------------------------------------------

/// Whether the graph has an invalidation edge from template `a` to
/// template `b`.
pub open spec fn edge(owners: Seq<Ownership>, a: Seq<char>, b: Seq<char>) -> bool {
    exists|j: int, k: int|
        0 <= j < owners.len() && 0 <= k < owners[j].invalidates@.len() && owners[j].template@ == a
            && (#[trigger] owners[j].invalidates@[k])@ == b
}

/// Whether `b` is reachable from `a` in exactly `n` invalidation edges.
pub open spec fn reach_n(owners: Seq<Ownership>, a: Seq<char>, b: Seq<char>, n: nat) -> bool
    decreases n,
{
    if n == 0 {
        a == b
    } else {
        exists|t: Seq<char>|
            #[trigger] edge(owners, a, t) && reach_n(owners, t, b, (n - 1) as nat)
    }
}

/// Whether `b` is reachable from `a` along invalidation edges.
pub open spec fn reaches(owners: Seq<Ownership>, a: Seq<char>, b: Seq<char>) -> bool {
    exists|n: nat| reach_n(owners, a, b, n)
}

/// One edge extends a reachable chain.
pub proof fn lemma_reach_step(owners: Seq<Ownership>, a: Seq<char>, b: Seq<char>, c: Seq<char>)
    requires
        reaches(owners, a, b),
        edge(owners, b, c),
    ensures
        reaches(owners, a, c),
{
    let n = choose|n: nat| reach_n(owners, a, b, n);
    lemma_reach_step_n(owners, a, b, c, n);
    assert(reach_n(owners, a, c, (n + 1) as nat));
}

proof fn lemma_reach_step_n(
    owners: Seq<Ownership>,
    a: Seq<char>,
    b: Seq<char>,
    c: Seq<char>,
    n: nat,
)
    requires
        reach_n(owners, a, b, n),
        edge(owners, b, c),
    ensures
        reach_n(owners, a, c, (n + 1) as nat),
    decreases n,
{
    if n == 0 {
        assert(edge(owners, a, c));
        assert(reach_n(owners, c, c, 0));
    } else {
        let t = choose|t: Seq<char>| edge(owners, a, t) && reach_n(owners, t, b, (n - 1) as nat);
        lemma_reach_step_n(owners, t, b, c, (n - 1) as nat);
    }
}

/// Whether a sequence of strings holds the template `t`.
pub open spec fn contains_str(qs: Seq<String>, t: Seq<char>) -> bool {
    exists|i: int| 0 <= i < qs.len() && qs[i]@ == t
}

/// Appending never removes a template from a sequence.
proof fn lemma_contains_str_mono(qs: Seq<String>, x: String, t: Seq<char>)
    requires
        contains_str(qs, t),
    ensures
        contains_str(qs.push(x), t),
{
    let i = choose|i: int| 0 <= i < qs.len() && qs[i]@ == t;
    assert(qs.push(x)[i]@ == t);
}

/// Whether `t` stands in some owner's `invalidates` list.
pub open spec fn in_some_invalidates(owners: Seq<Ownership>, t: Seq<char>) -> bool {
    exists|j: int, k: int|
        0 <= j < owners.len() && 0 <= k < owners[j].invalidates@.len() && (
        #[trigger] owners[j].invalidates@[k])@ == t
}

/// The views of a sequence of strings.
pub open spec fn str_views(qs: Seq<String>) -> Seq<Seq<char>> {
    Seq::new(qs.len(), |i: int| qs[i]@)
}

/// The template views of one owner's `invalidates` list.
pub open spec fn inv_views(o: Ownership) -> Seq<Seq<char>> {
    Seq::new(o.invalidates@.len(), |k: int| o.invalidates@[k]@)
}

/// Every template that can appear in an invalidation walk from `root`:
/// the root itself and every entry of every owner's `invalidates` list.
pub open spec fn universe_seq(owners: Seq<Ownership>, root: Seq<char>) -> Seq<Seq<char>>
    decreases owners.len(),
{
    if owners.len() == 0 {
        seq![root]
    } else {
        universe_seq(owners.drop_last(), root) + inv_views(owners.last())
    }
}

proof fn lemma_universe_root(owners: Seq<Ownership>, root: Seq<char>)
    ensures
        universe_seq(owners, root).contains(root),
    decreases owners.len(),
{
    if owners.len() == 0 {
        assert(universe_seq(owners, root)[0] == root);
    } else {
        lemma_universe_root(owners.drop_last(), root);
        let u = universe_seq(owners.drop_last(), root);
        let i = choose|i: int| 0 <= i < u.len() && u[i] == root;
        assert(universe_seq(owners, root)[i] == root);
    }
}

proof fn lemma_universe_inv(owners: Seq<Ownership>, root: Seq<char>, j: int, k: int)
    requires
        0 <= j < owners.len(),
        0 <= k < owners[j].invalidates@.len(),
    ensures
        universe_seq(owners, root).contains(owners[j].invalidates@[k]@),
    decreases owners.len(),
{
    let u = universe_seq(owners, root);
    let prev = universe_seq(owners.drop_last(), root);
    if j == owners.len() - 1 {
        assert(owners.drop_last().len() == owners.len() - 1);
        assert(u[prev.len() + k] == inv_views(owners.last())[k]);
        assert(inv_views(owners.last())[k] == owners[j].invalidates@[k]@);
    } else {
        assert(owners.drop_last()[j] == owners[j]);
        lemma_universe_inv(owners.drop_last(), root, j, k);
        let i = choose|i: int|
            0 <= i < prev.len() && prev[i] == owners.drop_last()[j].invalidates@[k]@;
        assert(u[i] == prev[i]);
    }
}

/// Distinct strings drawn from a finite universe are no more numerous
/// than the universe.
proof fn lemma_distinct_bound(qs: Seq<Seq<char>>, uni: Seq<Seq<char>>)
    requires
        qs.no_duplicates(),
        forall|i: int| 0 <= i < qs.len() ==> uni.contains(#[trigger] qs[i]),
    ensures
        qs.len() <= uni.len(),
{
    broadcast use vstd::seq_lib::group_seq_properties;

    qs.unique_seq_to_set();
    assert forall|x: Seq<char>| qs.to_set().contains(x) implies uni.to_set().contains(x) by {
        let i = choose|i: int| 0 <= i < qs.len() && qs[i] == x;
        assert(uni.contains(x));
    }
    assert(qs.to_set().subset_of(uni.to_set()));
    uni.lemma_cardinality_of_set();
    vstd::set_lib::lemma_len_subset(qs.to_set(), uni.to_set());
}

// ------------------------------------------------------------------
// The graph itself
// ------------------------------------------------------------------

/// Registry of owner and borrow claims, with the invalidation-dependency
/// graph derived from the owners' `invalidates` declarations. The single
/// source of truth for ownership state: all state lives in an explicitly
/// constructed instance, passed by reference to callers.
#[derive(Debug)]
pub struct OwnershipGraph {
    /// The registered owners, in registration order.
    pub owners: Vec<Ownership>,
    /// The registered borrows, in registration order.
    pub borrows: Vec<Borrow>,
}

/// Whether a new owner clashes with an already registered one: equal
/// template or overlapping pattern.
pub open spec fn owner_conflict(owners: Seq<Ownership>, o: Ownership) -> bool {
    exists|i: int|
        0 <= i < owners.len() && ((#[trigger] owners[i]).pattern.spec_overlaps(o.pattern)
            || owners[i].template@ == o.template@)
}

/// Whether a new owner clashes with an active borrow: spec invariant 3's
/// second arm — an ownership registered after the fact that overlaps an
/// active borrow's pattern (necessarily under a different owner) is a
/// conflict.
pub open spec fn borrow_conflict(borrows: Seq<Borrow>, o: Ownership) -> bool {
    exists|b: int|
        0 <= b < borrows.len() && o.pattern.spec_overlaps((#[trigger] borrows[b]).pattern)
}

/// The pattern-conflict payload names what the registration clashed
/// with: a pre-existing owner's template, an overlapped active borrow's
/// template, or the `invalidates` edge target that closes a cycle.
pub open spec fn conflict_named(
    owners: Seq<Ownership>,
    borrows: Seq<Borrow>,
    o: Ownership,
    p: Seq<char>,
) -> bool {
    (exists|i: int|
        0 <= i < owners.len() && (#[trigger] owners[i]).template@ == p && (
        owners[i].pattern.spec_overlaps(o.pattern) || owners[i].template@ == o.template@)) || (
    exists|b: int|
        0 <= b < borrows.len() && (#[trigger] borrows[b]).pattern.template@ == p
            && o.pattern.spec_overlaps(borrows[b].pattern)) || (exists|k: int|
        0 <= k < o.invalidates@.len() && (#[trigger] o.invalidates@[k])@ == p && (
        o.invalidates@[k]@ == o.template@ || reaches(owners, o.invalidates@[k]@, o.template@)))
}

/// Whether adding `o` would close an invalidation cycle through `o`.
pub open spec fn creates_cycle(owners: Seq<Ownership>, o: Ownership) -> bool {
    exists|k: int|
        0 <= k < o.invalidates@.len() && ((#[trigger] o.invalidates@[k])@ == o.template@ || reaches(
            owners,
            o.invalidates@[k]@,
            o.template@,
        ))
}

/// Whether `i` names a registered owner matching `key` that no other
/// matching owner beats: higher specificity wins, and on a tie the
/// earlier registration wins.
pub open spec fn best_index(owners: Seq<Ownership>, key: Seq<char>, i: int) -> bool {
    0 <= i < owners.len() && owners[i].pattern.spec_matches(key) && forall|j: int|
        0 <= j < owners.len() && (#[trigger] owners[j].pattern).spec_matches(key)
            ==> owners[i].pattern.spec_more_specific(owners[j].pattern) || (
        !owners[j].pattern.spec_more_specific(owners[i].pattern) && i <= j)
}

impl OwnershipGraph {
    /// Every stored claim is well formed.
    pub open spec fn wf(self) -> bool {
        (forall|i: int| 0 <= i < self.owners@.len() ==> (#[trigger] self.owners@[i]).wf())
            && (forall|i: int| 0 <= i < self.borrows@.len() ==> (
        #[trigger] self.borrows@[i]).pattern.wf())
    }

    /// No two registered owners overlap, and their templates are
    /// pairwise distinct.
    pub open spec fn exclusive(self) -> bool {
        forall|i: int, j: int|
            0 <= i < j < self.owners@.len() ==> !(#[trigger] self.owners@[i]).pattern.spec_overlaps(
                (#[trigger] self.owners@[j]).pattern,
            ) && self.owners@[i].template@ != self.owners@[j].template@
    }

    /// An empty graph.
    pub fn new() -> (r: OwnershipGraph)
        ensures
            r.owners@.len() == 0,
            r.borrows@.len() == 0,
            r.wf(),
            r.exclusive(),
    {
        OwnershipGraph { owners: Vec::new(), borrows: Vec::new() }
    }

    /// Registers an owner. For each existing owner and each active
    /// borrow the overlap test runs; any overlap (or equal template)
    /// fails with a pattern conflict naming the pre-existing pattern,
    /// and applies no mutation. The `invalidates` edges introduced must
    /// not close a cycle; on a cycle the call fails the same way, naming
    /// the edge target. All-or-nothing.
    pub fn register_owner(&mut self, o: Ownership) -> (r: Result<(), Error>)
        requires
            o.wf(),
            old(self).wf(),
        ensures
            final(self).wf(),
            r is Ok <==> !owner_conflict(old(self).owners@, o) && !borrow_conflict(
                old(self).borrows@,
                o,
            ) && !creates_cycle(old(self).owners@, o),
            r is Ok ==> final(self).owners@ == old(self).owners@.push(o) && final(self).borrows@
                == old(self).borrows@,
            r matches Err(e) ==> *final(self) == *old(self) && e is PatternConflict
                && conflict_named(old(self).owners@, old(self).borrows@, o, e.payload()),
            old(self).exclusive() && r is Ok ==> final(self).exclusive(),
    {
        let ghost owners0 = self.owners@;
        // Overlap and template-equality check against every existing owner.
        let mut i: usize = 0;
        #[verifier::loop_isolation(false)]
        while i < self.owners.len()
            invariant
                *self == *old(self),
                i <= self.owners@.len(),
                forall|m: int| 0 <= m < i ==> !(#[trigger] self.owners@[m]).pattern.spec_overlaps(
                    o.pattern,
                ) && self.owners@[m].template@ != o.template@,
            decreases self.owners.len() - i,
        {
            if self.owners[i].pattern.overlaps(&o.pattern) || self.owners[i].template
                == o.template {
                return Err(Error::PatternConflict(self.owners[i].template.clone()));
            }
            i += 1;
        }
        // Overlap check against every active borrow.
        let mut b: usize = 0;
        #[verifier::loop_isolation(false)]
        while b < self.borrows.len()
            invariant
                *self == *old(self),
                b <= self.borrows@.len(),
                forall|m: int| 0 <= m < b ==> !o.pattern.spec_overlaps(
                    (#[trigger] self.borrows@[m]).pattern,
                ),
            decreases self.borrows.len() - b,
        {
            if o.pattern.overlaps(&self.borrows[b].pattern) {
                return Err(Error::PatternConflict(self.borrows[b].pattern.template.clone()));
            }
            b += 1;
        }
        // Cycle check: an edge of the new owner must not lead back to it.
        let mut k: usize = 0;
        #[verifier::loop_isolation(false)]
        while k < o.invalidates.len()
            invariant
                *self == *old(self),
                k <= o.invalidates@.len(),
                forall|m: int| 0 <= m < k ==> !((#[trigger] o.invalidates@[m])@ == o.template@
                    || reaches(self.owners@, o.invalidates@[m]@, o.template@)),
                self.owners@ == owners0,
                forall|m: int| 0 <= m < owners0.len() ==> !(
                #[trigger] owners0[m]).pattern.spec_overlaps(o.pattern) && owners0[m].template@
                    != o.template@,
                forall|m: int| 0 <= m < self.borrows@.len() ==> !o.pattern.spec_overlaps(
                    (#[trigger] self.borrows@[m]).pattern,
                ),
            decreases o.invalidates.len() - k,
        {
            if o.invalidates[k] == o.template {
                return Err(Error::PatternConflict(o.invalidates[k].clone()));
            }
            let reach = reachable_set(&self.owners, &o.invalidates[k]);
            let mut m: usize = 0;
            let mut found = false;
            #[verifier::loop_isolation(false)]
            while m < reach.len()
                invariant
                    m <= reach@.len(),
                    found == exists|q: int| 0 <= q < m && reach@[q]@ == o.template@,
                decreases reach.len() - m,
            {
                if reach[m] == o.template {
                    found = true;
                }
                m += 1;
            }
            if found {
                proof {
                    let q = choose|q: int| 0 <= q < reach@.len() && reach@[q]@ == o.template@;
                    assert(reaches(self.owners@, o.invalidates@[k as int]@, reach@[q]@));
                }
                return Err(Error::PatternConflict(o.invalidates[k].clone()));
            }
            proof {
                // The walk found every template reachable from this edge
                // target; the new owner's template is not among them.
                if reaches(self.owners@, o.invalidates@[k as int]@, o.template@) {
                    lemma_reachable_complete(
                        self.owners@,
                        reach@,
                        o.invalidates@[k as int]@,
                        o.template@,
                    );
                }
            }
            k += 1;
        }
        self.owners.push(o);
        Ok(())
    }
}

/// Whether a borrow with this pattern template and borrower is present.
pub open spec fn borrow_present(bs: Seq<Borrow>, tpl: Seq<char>, who: Seq<char>) -> bool {
    exists|i: int|
        0 <= i < bs.len() && (#[trigger] bs[i]).pattern.template@ == tpl && bs[i].borrower@ == who
}

/// Whether the ownership permits access from the layer: its primary
/// layer or any layer of its fallback chain.
pub open spec fn layer_permitted(o: Ownership, l: Layer) -> bool {
    o.layer == l || exists|i: int| 0 <= i < o.fallback@.len() && o.fallback@[i] == l
}

impl OwnershipGraph {
    /// Registers a read-only borrow. It succeeds exactly when some
    /// registered ownership governs an overlapping namespace; without one
    /// the call fails with an invalid-borrowing error. Re-registering the
    /// same pattern and borrower is a no-op, not an error.
    pub fn register_borrow(&mut self, pattern: Pattern, borrower: &str) -> (r: Result<(), Error>)
        requires
            pattern.wf(),
            old(self).wf(),
        ensures
            final(self).wf(),
            final(self).owners@ == old(self).owners@,
            r is Ok <==> exists|i: int|
                0 <= i < old(self).owners@.len() && (
                #[trigger] old(self).owners@[i]).pattern.spec_overlaps(pattern),
            r is Ok && borrow_present(old(self).borrows@, pattern.template@, borrower@) ==> *final(self) == *old(self),
            r is Ok && !borrow_present(old(self).borrows@, pattern.template@, borrower@) ==> final(self).borrows@.len() == old(self).borrows@.len() + 1 && final(self).borrows@.last().pattern
                == pattern && final(self).borrows@.last().borrower@ == borrower@ && forall|i: int|
                0 <= i < old(self).borrows@.len() ==> final(self).borrows@[i] == old(self).borrows@[i],
            r matches Err(e) ==> *final(self) == *old(self) && e is InvalidBorrowing,
    {
        let mut i: usize = 0;
        let mut governed = false;
        #[verifier::loop_isolation(false)]
        while i < self.owners.len()
            invariant
                *self == *old(self),
                i <= self.owners@.len(),
                governed == exists|m: int|
                    0 <= m < i && (#[trigger] self.owners@[m]).pattern.spec_overlaps(pattern),
            decreases self.owners.len() - i,
        {
            if self.owners[i].pattern.overlaps(&pattern) {
                governed = true;
            }
            i += 1;
        }
        if !governed {
            return Err(Error::InvalidBorrowing(pattern.template.clone()));
        }
        let who = borrower.to_owned();
        let mut b: usize = 0;
        #[verifier::loop_isolation(false)]
        while b < self.borrows.len()
            invariant
                *self == *old(self),
                b <= self.borrows@.len(),
                who@ == borrower@,
                forall|m: int| 0 <= m < b ==> !((#[trigger] self.borrows@[m]).pattern.template@
                    == pattern.template@ && self.borrows@[m].borrower@ == borrower@),
            decreases self.borrows.len() - b,
        {
            if self.borrows[b].pattern.template == pattern.template && self.borrows[b].borrower
                == who {
                return Ok(());
            }
            b += 1;
        }
        self.borrows.push(Borrow { pattern, borrower: who });
        Ok(())
    }

    /// Registers a read-only borrow from a given layer. Beyond the rules
    /// of [`Self::register_borrow`], the layer must be the governing
    /// ownership's primary layer or stand in its fallback chain; a borrow
    /// from elsewhere fails with a layer violation.
    pub fn register_borrow_at(&mut self, pattern: Pattern, borrower: &str, at: Layer) -> (r: Result<
        (),
        Error,
    >)
        requires
            pattern.wf(),
            old(self).wf(),
        ensures
            final(self).wf(),
            final(self).owners@ == old(self).owners@,
            r is Ok <==> exists|i: int|
                0 <= i < old(self).owners@.len() && (
                #[trigger] old(self).owners@[i]).pattern.spec_overlaps(pattern) && layer_permitted(
                    old(self).owners@[i],
                    at,
                ),
            r is Ok && borrow_present(old(self).borrows@, pattern.template@, borrower@) ==> *final(self) == *old(self),
            r is Ok && !borrow_present(old(self).borrows@, pattern.template@, borrower@) ==> final(self).borrows@.len() == old(self).borrows@.len() + 1 && final(self).borrows@.last().pattern
                == pattern && final(self).borrows@.last().borrower@ == borrower@ && forall|i: int|
                0 <= i < old(self).borrows@.len() ==> final(self).borrows@[i] == old(self).borrows@[i],
            r matches Err(e) ==> *final(self) == *old(self) && (e is InvalidBorrowing
                || e is LayerViolation),
            r matches Err(e) && e is InvalidBorrowing ==> !exists|i: int|
                0 <= i < old(self).owners@.len() && (
                #[trigger] old(self).owners@[i]).pattern.spec_overlaps(pattern),
            r matches Err(e) && e is LayerViolation ==> exists|i: int|
                0 <= i < old(self).owners@.len() && (
                #[trigger] old(self).owners@[i]).pattern.spec_overlaps(pattern),
    {
        let mut i: usize = 0;
        let mut governed = false;
        let mut permitted = false;
        #[verifier::loop_isolation(false)]
        while i < self.owners.len()
            invariant
                *self == *old(self),
                i <= self.owners@.len(),
                governed == exists|m: int|
                    0 <= m < i && (#[trigger] self.owners@[m]).pattern.spec_overlaps(pattern),
                permitted == exists|m: int|
                    0 <= m < i && (#[trigger] self.owners@[m]).pattern.spec_overlaps(pattern)
                        && layer_permitted(self.owners@[m], at),
            decreases self.owners.len() - i,
        {
            if self.owners[i].pattern.overlaps(&pattern) {
                governed = true;
                let o = &self.owners[i];
                let mut lp = o.layer == at;
                let mut f: usize = 0;
                #[verifier::loop_isolation(false)]
                while f < o.fallback.len()
                    invariant
                        f <= o.fallback@.len(),
                        lp == (o.layer == at || exists|q: int|
                            0 <= q < f && o.fallback@[q] == at),
                    decreases o.fallback.len() - f,
                {
                    if o.fallback[f] == at {
                        lp = true;
                    }
                    f += 1;
                }
                if lp {
                    permitted = true;
                }
            }
            i += 1;
        }
        if !governed {
            return Err(Error::InvalidBorrowing(pattern.template.clone()));
        }
        if !permitted {
            return Err(Error::LayerViolation(pattern.template.clone()));
        }
        let who = borrower.to_owned();
        let mut b: usize = 0;
        #[verifier::loop_isolation(false)]
        while b < self.borrows.len()
            invariant
                *self == *old(self),
                b <= self.borrows@.len(),
                who@ == borrower@,
                forall|m: int| 0 <= m < b ==> !((#[trigger] self.borrows@[m]).pattern.template@
                    == pattern.template@ && self.borrows@[m].borrower@ == borrower@),
            decreases self.borrows.len() - b,
        {
            if self.borrows[b].pattern.template == pattern.template && self.borrows[b].borrower
                == who {
                return Ok(());
            }
            b += 1;
        }
        self.borrows.push(Borrow { pattern, borrower: who });
        Ok(())
    }

    /// Finds the most specific registered ownership whose pattern matches
    /// the key. Ties in specificity go to the earlier registration.
    pub fn resolve(&self, key: &str) -> (r: Option<&Ownership>)
        ensures
            match r {
                Option::None => forall|i: int|
                    0 <= i < self.owners@.len() ==> !(
                    #[trigger] self.owners@[i]).pattern.spec_matches(key@),
                Option::Some(o) => exists|i: int|
                    best_index(self.owners@, key@, i) && *o == self.owners@[i],
            },
    {
        match self.resolve_index(key) {
            Option::Some(i) => Some(&self.owners[i]),
            Option::None => None,
        }
    }

    /// The index of the ownership [`Self::resolve`] would return.
    pub fn resolve_index(&self, key: &str) -> (r: Option<usize>)
        ensures
            match r {
                Option::None => forall|i: int|
                    0 <= i < self.owners@.len() ==> !(
                    #[trigger] self.owners@[i]).pattern.spec_matches(key@),
                Option::Some(i) => best_index(self.owners@, key@, i as int),
            },
    {
        let mut best: usize = 0;
        let mut have = false;
        let mut i: usize = 0;
        #[verifier::loop_isolation(false)]
        while i < self.owners.len()
            invariant
                i <= self.owners@.len(),
                !have ==> forall|j: int| 0 <= j < i ==> !(
                #[trigger] self.owners@[j]).pattern.spec_matches(key@),
                have ==> best < i && self.owners@[best as int].pattern.spec_matches(key@) && forall|
                    j: int,
                |
                    0 <= j < i && (#[trigger] self.owners@[j].pattern).spec_matches(key@) ==> (
                    self.owners@[best as int].pattern.spec_more_specific(self.owners@[j].pattern)
                        || (!self.owners@[j].pattern.spec_more_specific(
                        self.owners@[best as int].pattern,
                    ) && best <= j)),
            decreases self.owners.len() - i,
        {
            if self.owners[i].pattern.matches(key) {
                if !have {
                    best = i;
                    have = true;
                } else if self.owners[i].pattern.more_specific(&self.owners[best].pattern) {
                    best = i;
                }
            }
            i += 1;
        }
        if have {
            Some(best)
        } else {
            None
        }
    }

    /// The templates whose match sets a mutation under `template` must
    /// purge: the template itself first, then every pattern reachable
    /// through `invalidates` edges, breadth-first, each listed once.
    /// The contract pins the root-first position, the exact membership
    /// and the absence of duplicates; the breadth-first order of the
    /// remaining templates is how the walk proceeds, deliberately left
    /// unstated, as callers purge the whole set at once.
    pub fn invalidate(&self, template: &str) -> (r: Vec<String>)
        ensures
            r@.len() >= 1,
            r@[0]@ == template@,
            str_views(r@).no_duplicates(),
            forall|i: int| 0 <= i < r@.len() ==> reaches(self.owners@, template@, (
            #[trigger] r@[i])@),
            forall|i: int, t: Seq<char>|
                0 <= i < r@.len() && #[trigger] edge(self.owners@, r@[i]@, t) ==> contains_str(
                    r@,
                    t,
                ),
            forall|t: Seq<char>| reaches(self.owners@, template@, t) ==> contains_str(r@, t),
    {
        let root = template.to_owned();
        let r = reachable_set(&self.owners, &root);
        proof {
            assert forall|t: Seq<char>| reaches(self.owners@, template@, t) implies contains_str(
                r@,
                t,
            ) by {
                lemma_reachable_complete(self.owners@, r@, template@, t);
            }
        }
        r
    }

    /// Removes the ownership registered under the template, atomically.
    /// Without `force` the call fails when an active borrow still
    /// references the ownership and no other registered owner governs
    /// that borrow's namespace.
    pub fn unregister(&mut self, template: &str, force: bool) -> (r: Result<(), Error>)
        requires
            old(self).wf(),
        ensures
            final(self).wf(),
            final(self).borrows@ == old(self).borrows@,
            r matches Err(e) ==> *final(self) == *old(self) && e is StrategyError,
            r is Ok ==> exists|i: int|
                0 <= i < old(self).owners@.len() && (#[trigger] old(self).owners@[i]).template@
                    == template@ && final(self).owners@ == old(self).owners@.remove(i),
            r is Err ==> (forall|i: int|
                0 <= i < old(self).owners@.len() ==> (#[trigger] old(self).owners@[i]).template@
                    != template@) || (!force && exists|i: int|
                0 <= i < old(self).owners@.len() && (#[trigger] old(self).owners@[i]).template@
                    == template@ && blocked(old(self).owners@, old(self).borrows@, i)),
    {
        let tpl = template.to_owned();
        let mut idx: usize = 0;
        let mut found = false;
        #[verifier::loop_isolation(false)]
        while idx < self.owners.len()
            invariant
                *self == *old(self),
                idx <= self.owners@.len(),
                tpl@ == template@,
                !found ==> forall|m: int| 0 <= m < idx ==> (#[trigger] self.owners@[m]).template@
                    != template@,
                found ==> idx < self.owners@.len() && self.owners@[idx as int].template@
                    == template@,
            decreases self.owners.len() - idx,
        {
            if self.owners[idx].template == tpl {
                found = true;
                break ;
            }
            idx += 1;
        }
        if !found {
            return Err(Error::StrategyError(tpl));
        }
        if !force {
            let mut b: usize = 0;
            #[verifier::loop_isolation(false)]
            while b < self.borrows.len()
                invariant
                    *self == *old(self),
                    b <= self.borrows@.len(),
                    idx < self.owners@.len(),
                    self.owners@[idx as int].template@ == template@,
                    forall|m: int| 0 <= m < b ==> !((
                    #[trigger] self.owners@[idx as int].pattern.spec_overlaps(
                        self.borrows@[m].pattern,
                    )) && !(exists|j: int|
                        0 <= j < self.owners@.len() && j != idx && (
                        #[trigger] self.owners@[j]).pattern.spec_overlaps(
                            self.borrows@[m].pattern,
                        ))),
                decreases self.borrows.len() - b,
            {
                if self.owners[idx].pattern.overlaps(&self.borrows[b].pattern) {
                    let mut j: usize = 0;
                    let mut other = false;
                    #[verifier::loop_isolation(false)]
                    while j < self.owners.len()
                        invariant
                            *self == *old(self),
                            j <= self.owners@.len(),
                            idx < self.owners@.len(),
                            b < self.borrows@.len(),
                            other == exists|q: int|
                                0 <= q < j && q != idx && (
                                #[trigger] self.owners@[q]).pattern.spec_overlaps(
                                    self.borrows@[b as int].pattern,
                                ),
                        decreases self.owners.len() - j,
                    {
                        if j != idx && self.owners[j].pattern.overlaps(&self.borrows[b].pattern) {
                            other = true;
                        }
                        j += 1;
                    }
                    if !other {
                        return Err(Error::StrategyError(tpl));
                    }
                }
                b += 1;
            }
        }
        self.owners.remove(idx);
        Ok(())
    }
}

/// Whether removing owner `i` is blocked: some borrow overlaps it and no
/// other owner governs that borrow's namespace.
pub open spec fn blocked(owners: Seq<Ownership>, borrows: Seq<Borrow>, i: int) -> bool {
    exists|b: int|
        0 <= b < borrows.len() && owners[i].pattern.spec_overlaps((#[trigger] borrows[b]).pattern)
            && !(exists|j: int|
            0 <= j < owners.len() && j != i && (#[trigger] owners[j]).pattern.spec_overlaps(
                borrows[b].pattern,
            ))
}

/// Owners whose patterns begin with distinct literal prefixes never
/// conflict, whichever of the two is registered first; with no
/// `invalidates` edges declared, neither can close a cycle, so both
/// registrations succeed in either order.
pub proof fn lemma_disjoint_prefix_registration(a: Ownership, b: Ownership)
    requires
        a.wf(),
        b.wf(),
        a.pattern.segments@.len() > 0,
        b.pattern.segments@.len() > 0,
        a.pattern.segments@[0] is Literal,
        b.pattern.segments@[0] is Literal,
        a.pattern.segments@[0]->Literal_0@ != b.pattern.segments@[0]->Literal_0@,
        a.invalidates@.len() == 0,
        b.invalidates@.len() == 0,
    ensures
        !owner_conflict(seq![a], b),
        !creates_cycle(seq![a], b),
        !owner_conflict(seq![b], a),
        !creates_cycle(seq![b], a),
{
    crate::pattern::lemma_disjoint_prefix_patterns(a.pattern, b.pattern);
    if a.template@ == b.template@ {
        crate::pattern::lemma_split_nonempty(a.template@);
        let part0 = crate::pattern::spec_split(a.template@)[0];
        assert(crate::pattern::seg_from_part(a.pattern.segments@[0], part0));
        assert(crate::pattern::seg_from_part(b.pattern.segments@[0], part0));
        assert(false);
    }
    assert forall|i: int| 0 <= i < seq![a].len() implies !((#[trigger] seq![a][i]).pattern.spec_overlaps(
        b.pattern,
    ) || seq![a][i].template@ == b.template@) by {
        assert(seq![a][i] == a);
    }
    assert forall|i: int| 0 <= i < seq![b].len() implies !((#[trigger] seq![b][i]).pattern.spec_overlaps(
        a.pattern,
    ) || seq![b][i].template@ == a.template@) by {
        assert(seq![b][i] == b);
    }
}

/// Whenever some registered ownership matches the key, a best one
/// exists: the earliest of maximal specificity.
pub proof fn lemma_best_exists(owners: Seq<Ownership>, key: Seq<char>)
    requires
        exists|i: int|
            0 <= i < owners.len() && (#[trigger] owners[i]).pattern.spec_matches(key),
    ensures
        exists|i: int| best_index(owners, key, i),
{
    lemma_best_exists_take(owners, key, owners.len() as int);
    assert(owners.take(owners.len() as int) =~= owners);
}

proof fn lemma_best_exists_take(owners: Seq<Ownership>, key: Seq<char>, n: int)
    requires
        0 <= n <= owners.len(),
        exists|i: int| 0 <= i < n && (#[trigger] owners[i]).pattern.spec_matches(key),
    ensures
        exists|i: int| best_index(owners.take(n), key, i),
    decreases n,
{
    let pre = owners.take(n);
    assert(forall|i: int| 0 <= i < n ==> pre[i] == owners[i]);
    if exists|i: int| 0 <= i < n - 1 && (#[trigger] owners[i]).pattern.spec_matches(key) {
        lemma_best_exists_take(owners, key, n - 1);
        let b = choose|i: int| #[trigger] best_index(owners.take(n - 1), key, i);
        assert(forall|i: int| 0 <= i < n - 1 ==> owners.take(n - 1)[i] == owners[i]);
        if owners[n - 1].pattern.spec_matches(key) && owners[n - 1].pattern.spec_more_specific(
            owners[b].pattern,
        ) {
            assert forall|j: int|
                0 <= j < pre.len() && (#[trigger] pre[j].pattern).spec_matches(key) implies
                pre[n - 1].pattern.spec_more_specific(pre[j].pattern) || (
            !pre[j].pattern.spec_more_specific(pre[n - 1].pattern) && n - 1 <= j) by {
                if j < n - 1 {
                    assert(owners.take(n - 1)[j].pattern.spec_matches(key));
                }
            }
            assert(best_index(pre, key, n - 1));
        } else {
            assert forall|j: int|
                0 <= j < pre.len() && (#[trigger] pre[j].pattern).spec_matches(key) implies
                pre[b].pattern.spec_more_specific(pre[j].pattern) || (
            !pre[j].pattern.spec_more_specific(pre[b].pattern) && b <= j) by {
                if j < n - 1 {
                    assert(owners.take(n - 1)[j].pattern.spec_matches(key));
                }
            }
            assert(best_index(pre, key, b));
        }
    } else {
        let m = choose|i: int|
            0 <= i < n && (#[trigger] owners[i]).pattern.spec_matches(key);
        assert(m == n - 1);
        assert forall|j: int|
            0 <= j < pre.len() && (#[trigger] pre[j].pattern).spec_matches(key) implies
            pre[m].pattern.spec_more_specific(pre[j].pattern) || (
        !pre[j].pattern.spec_more_specific(pre[m].pattern) && m <= j) by {
            assert(j == n - 1);
        }
        assert(best_index(pre, key, m));
    }
}

/// At most one registered ownership can be the best match for a key.
pub proof fn lemma_best_index_unique(owners: Seq<Ownership>, key: Seq<char>, i1: int, i2: int)
    requires
        best_index(owners, key, i1),
        best_index(owners, key, i2),
    ensures
        i1 == i2,
{
    assert(owners[i1].pattern.spec_matches(key));
    assert(owners[i2].pattern.spec_matches(key));
}

/// A pair of mutual `invalidates` declarations closes a cycle: if a
/// registered owner invalidates the new owner's template while the new
/// owner invalidates the registered one's, registration must reject the
/// new owner.
pub proof fn lemma_mutual_invalidates_cycle(
    owners: Seq<Ownership>,
    i: int,
    ka: int,
    o: Ownership,
    ko: int,
)
    requires
        0 <= i < owners.len(),
        0 <= ka < owners[i].invalidates@.len(),
        0 <= ko < o.invalidates@.len(),
        o.invalidates@[ko]@ == owners[i].template@,
        owners[i].invalidates@[ka]@ == o.template@,
    ensures
        creates_cycle(owners, o),
{
    let start = o.invalidates@[ko]@;
    assert(edge(owners, start, o.template@));
    assert(reach_n(owners, o.template@, o.template@, 0));
    assert(reach_n(owners, start, o.template@, 1));
    assert(reaches(owners, start, o.template@));
}

/// Closing a cycle depends only on the new owner's template and the
/// views of its `invalidates` templates: owners that agree on both are
/// interchangeable in the cycle check.
pub proof fn lemma_cycle_template_determined(owners: Seq<Ownership>, o1: Ownership, o2: Ownership)
    requires
        o1.template@ == o2.template@,
        str_views(o1.invalidates@) == str_views(o2.invalidates@),
    ensures
        creates_cycle(owners, o1) == creates_cycle(owners, o2),
{
    assert(str_views(o1.invalidates@).len() == o1.invalidates@.len());
    assert(str_views(o2.invalidates@).len() == o2.invalidates@.len());
    assert forall|k: int| 0 <= k < o1.invalidates@.len() implies (
    #[trigger] o1.invalidates@[k])@ == o2.invalidates@[k]@ by {
        assert(str_views(o1.invalidates@)[k] == o1.invalidates@[k]@);
        assert(str_views(o2.invalidates@)[k] == o2.invalidates@[k]@);
    }
    if creates_cycle(owners, o1) {
        let k = choose|k: int|
            0 <= k < o1.invalidates@.len() && ((#[trigger] o1.invalidates@[k])@ == o1.template@
                || reaches(owners, o1.invalidates@[k]@, o1.template@));
        assert(o2.invalidates@[k]@ == o1.invalidates@[k]@);
        assert(creates_cycle(owners, o2));
    }
    if creates_cycle(owners, o2) {
        let k = choose|k: int|
            0 <= k < o2.invalidates@.len() && ((#[trigger] o2.invalidates@[k])@ == o2.template@
                || reaches(owners, o2.invalidates@[k]@, o2.template@));
        assert(o1.invalidates@[k]@ == o2.invalidates@[k]@);
        assert(creates_cycle(owners, o1));
    }
}

/// The set of templates reachable from `root` along invalidation edges:
/// a breadth-first walk from the root, the root first, each template
/// listed once.
pub fn reachable_set(owners: &Vec<Ownership>, root: &String) -> (r: Vec<String>)
    ensures
        r@.len() >= 1,
        r@[0]@ == root@,
        str_views(r@).no_duplicates(),
        forall|i: int| 0 <= i < r@.len() ==> reaches(owners@, root@, (#[trigger] r@[i])@),
        forall|i: int, t: Seq<char>|
            0 <= i < r@.len() && #[trigger] edge(owners@, r@[i]@, t) ==> contains_str(r@, t),
        forall|i: int| 0 < i < r@.len() ==> in_some_invalidates(owners@, (#[trigger] r@[i])@),
{
    let ghost uni = universe_seq(owners@, root@);
    let mut queue: Vec<String> = Vec::new();
    queue.push(root.clone());
    proof {
        lemma_universe_root(owners@, root@);
        assert(reach_n(owners@, root@, root@, 0));
    }
    let mut idx: usize = 0;
    #[verifier::loop_isolation(false)]
    while idx < queue.len()
        invariant
            idx <= queue@.len(),
            queue@.len() >= 1,
            queue@[0]@ == root@,
            str_views(queue@).no_duplicates(),
            forall|i: int| 0 <= i < queue@.len() ==> reaches(owners@, root@, (#[trigger] queue@[i])@),
            forall|i: int, t: Seq<char>|
                0 <= i < idx && #[trigger] edge(owners@, queue@[i]@, t) ==> contains_str(
                    queue@,
                    t,
                ),
            forall|i: int| 0 < i < queue@.len() ==> in_some_invalidates(
                owners@,
                (#[trigger] queue@[i])@,
            ),
            uni == universe_seq(owners@, root@),
        decreases uni.len() - idx,
    {
        proof {
            assert forall|i: int| 0 <= i < queue@.len() implies uni.contains(
                (#[trigger] queue@[i])@,
            ) by {
                if i == 0 {
                    lemma_universe_root(owners@, root@);
                } else {
                    let (j, k): (int, int) = choose|j: int, k: int|
                        0 <= j < owners@.len() && 0 <= k < owners@[j].invalidates@.len() && (
                        #[trigger] owners@[j].invalidates@[k])@ == queue@[i]@;
                    lemma_universe_inv(owners@, root@, j, k);
                }
            }
            assert forall|i: int| 0 <= i < str_views(queue@).len() implies uni.contains(
                #[trigger] str_views(queue@)[i],
            ) by {
                assert(str_views(queue@)[i] == queue@[i]@);
            }
            lemma_distinct_bound(str_views(queue@), uni);
        }
        let mut j: usize = 0;
        #[verifier::loop_isolation(false)]
        while j < owners.len()
            invariant
                idx < queue@.len(),
                j <= owners@.len(),
                queue@[0]@ == root@,
                str_views(queue@).no_duplicates(),
                forall|i: int| 0 <= i < queue@.len() ==> reaches(
                    owners@,
                    root@,
                    (#[trigger] queue@[i])@,
                ),
                forall|i: int, t: Seq<char>|
                    0 <= i < idx && #[trigger] edge(owners@, queue@[i]@, t) ==> contains_str(
                        queue@,
                        t,
                    ),
                forall|i: int| 0 < i < queue@.len() ==> in_some_invalidates(
                    owners@,
                    (#[trigger] queue@[i])@,
                ),
                forall|jj: int, kk: int|
                    0 <= jj < j && 0 <= kk < owners@[jj].invalidates@.len()
                        && owners@[jj].template@ == queue@[idx as int]@ ==> contains_str(
                        queue@,
                        (#[trigger] owners@[jj].invalidates@[kk])@,
                    ),
            decreases owners.len() - j,
        {
            if owners[j].template == queue[idx] {
                let mut k: usize = 0;
                #[verifier::loop_isolation(false)]
                while k < owners[j].invalidates.len()
                    invariant
                        idx < queue@.len(),
                        j < owners@.len(),
                        owners@[j as int].template@ == queue@[idx as int]@,
                        k <= owners@[j as int].invalidates@.len(),
                        queue@[0]@ == root@,
                        str_views(queue@).no_duplicates(),
                        forall|i: int| 0 <= i < queue@.len() ==> reaches(
                            owners@,
                            root@,
                            (#[trigger] queue@[i])@,
                        ),
                        forall|i: int, t: Seq<char>|
                            0 <= i < idx && #[trigger] edge(owners@, queue@[i]@, t)
                                ==> contains_str(queue@, t),
                        forall|i: int| 0 < i < queue@.len() ==> in_some_invalidates(
                            owners@,
                            (#[trigger] queue@[i])@,
                        ),
                        forall|jj: int, kk: int|
                            0 <= jj < j && 0 <= kk < owners@[jj].invalidates@.len()
                                && owners@[jj].template@ == queue@[idx as int]@ ==> contains_str(
                                queue@,
                                (#[trigger] owners@[jj].invalidates@[kk])@,
                            ),
                        forall|kk: int|
                            0 <= kk < k ==> contains_str(
                                queue@,
                                (#[trigger] owners@[j as int].invalidates@[kk])@,
                            ),
                    decreases owners[j as int].invalidates.len() - k,
                {
                    let cand = &owners[j].invalidates[k];
                    let mut present = false;
                    let mut m: usize = 0;
                    #[verifier::loop_isolation(false)]
                    while m < queue.len()
                        invariant
                            m <= queue@.len(),
                            present == exists|q: int| 0 <= q < m && queue@[q]@ == cand@,
                        decreases queue.len() - m,
                    {
                        if queue[m] == *cand {
                            present = true;
                        }
                        m += 1;
                    }
                    if !present {
                        let ghost q0 = queue@;
                        let ghost candg = cand;
                        queue.push(cand.clone());
                        proof {
                            assert(queue@[q0.len() as int]@ == cand@);
                            assert forall|jj: int, kk: int|
                                0 <= jj < j && 0 <= kk < owners@[jj].invalidates@.len()
                                    && owners@[jj].template@ == queue@[idx as int]@ implies
                                contains_str(queue@, (#[trigger] owners@[jj].invalidates@[kk])@) by {
                                lemma_contains_str_mono(
                                    q0,
                                    queue@.last(),
                                    owners@[jj].invalidates@[kk]@,
                                );
                                assert(queue@ =~= q0.push(queue@.last()));
                            }
                            assert forall|kk: int| 0 <= kk < k implies contains_str(
                                queue@,
                                (#[trigger] owners@[j as int].invalidates@[kk])@,
                            ) by {
                                lemma_contains_str_mono(
                                    q0,
                                    queue@.last(),
                                    owners@[j as int].invalidates@[kk]@,
                                );
                                assert(queue@ =~= q0.push(queue@.last()));
                            }
                            assert forall|a: int, b: int|
                                0 <= a < b < str_views(queue@).len() implies str_views(queue@)[a]
                                != str_views(queue@)[b] by {
                                if b < q0.len() {
                                    assert(str_views(q0)[a] != str_views(q0)[b]);
                                } else {
                                    assert(str_views(queue@)[b] == cand@);
                                    assert(!(exists|q: int|
                                        0 <= q < q0.len() && q0[q]@ == cand@));
                                    assert(str_views(queue@)[a] == q0[a]@);
                                }
                            }
                            assert(edge(owners@, queue@[idx as int]@, cand@));
                            lemma_reach_step(owners@, root@, q0[idx as int]@, cand@);
                            assert forall|i: int, t: Seq<char>|
                                0 <= i < idx && #[trigger] edge(owners@, queue@[i]@, t) implies
                                contains_str(queue@, t) by {
                                assert(contains_str(q0, t));
                                let q = choose|q: int| 0 <= q < q0.len() && q0[q]@ == t;
                                assert(queue@[q]@ == t);
                            }
                        }
                    }
                    proof {
                        assert(contains_str(queue@, owners@[j as int].invalidates@[k as int]@));
                    }
                    k += 1;
                }
            }
            j += 1;
        }
        idx += 1;
    }
    queue
}

/// A closed walk from the root holds everything the root reaches.
proof fn lemma_reachable_complete(
    owners: Seq<Ownership>,
    qs: Seq<String>,
    root: Seq<char>,
    t: Seq<char>,
)
    requires
        qs.len() >= 1,
        qs[0]@ == root,
        forall|i: int, u: Seq<char>|
            0 <= i < qs.len() && #[trigger] edge(owners, qs[i]@, u) ==> contains_str(qs, u),
        reaches(owners, root, t),
    ensures
        contains_str(qs, t),
{
    let n = choose|n: nat| reach_n(owners, root, t, n);
    lemma_reachable_complete_n(owners, qs, root, t, n);
}

proof fn lemma_reachable_complete_n(
    owners: Seq<Ownership>,
    qs: Seq<String>,
    root: Seq<char>,
    t: Seq<char>,
    n: nat,
)
    requires
        qs.len() >= 1,
        qs[0]@ == root,
        forall|i: int, u: Seq<char>|
            0 <= i < qs.len() && #[trigger] edge(owners, qs[i]@, u) ==> contains_str(qs, u),
        reach_n(owners, root, t, n),
    ensures
        contains_str(qs, t),
    decreases n,
{
    if n == 0 {
        assert(qs[0]@ == t);
    } else {
        lemma_reachable_complete_rev(owners, qs, root, t, n);
    }
}

/// Peels the last edge off a chain of length `n`.
proof fn lemma_reachable_complete_rev(
    owners: Seq<Ownership>,
    qs: Seq<String>,
    root: Seq<char>,
    t: Seq<char>,
    n: nat,
)
    requires
        qs.len() >= 1,
        qs[0]@ == root,
        forall|i: int, u: Seq<char>|
            0 <= i < qs.len() && #[trigger] edge(owners, qs[i]@, u) ==> contains_str(qs, u),
        reach_n(owners, root, t, n),
        n >= 1,
    ensures
        contains_str(qs, t),
    decreases n,
{
    let mid = choose|mid: Seq<char>|
        #[trigger] edge(owners, root, mid) && reach_n(owners, mid, t, (n - 1) as nat);
    assert(contains_str(qs, mid));
    if n == 1 {
        assert(mid == t);
    } else {
        let i = choose|i: int| 0 <= i < qs.len() && qs[i]@ == mid;
        lemma_reachable_complete_from(owners, qs, mid, t, (n - 1) as nat, i);
    }
}

/// Completeness from any element of the walk, not only the root.
proof fn lemma_reachable_complete_from(
    owners: Seq<Ownership>,
    qs: Seq<String>,
    a: Seq<char>,
    t: Seq<char>,
    n: nat,
    i: int,
)
    requires
        0 <= i < qs.len(),
        qs[i]@ == a,
        forall|m: int, u: Seq<char>|
            0 <= m < qs.len() && #[trigger] edge(owners, qs[m]@, u) ==> contains_str(qs, u),
        reach_n(owners, a, t, n),
    ensures
        contains_str(qs, t),
    decreases n,
{
    if n == 0 {
        assert(qs[i]@ == t);
    } else {
        let mid = choose|mid: Seq<char>|
            #[trigger] edge(owners, a, mid) && reach_n(owners, mid, t, (n - 1) as nat);
        assert(contains_str(qs, mid));
        let m = choose|m: int| 0 <= m < qs.len() && qs[m]@ == mid;
        lemma_reachable_complete_from(owners, qs, mid, t, (n - 1) as nat, m);
    }
}


// ------------------------------------------------------------------
// Registration descriptors
// ------------------------------------------------------------------

/// Whether some registered owner carries the template.
pub open spec fn has_owner_tpl(owners: Seq<Ownership>, t: Seq<char>) -> bool {
    exists|i: int| 0 <= i < owners.len() && (#[trigger] owners[i]).template@ == t
}

/// Registered owners are never removed by registration, so a template
/// once present stays present.
proof fn lemma_has_owner_mono(o1: Seq<Ownership>, o2: Seq<Ownership>, t: Seq<char>)
    requires
        has_owner_tpl(o1, t),
        o2.len() >= o1.len(),
        forall|i: int| 0 <= i < o1.len() ==> o2[i] == o1[i],
    ensures
        has_owner_tpl(o2, t),
{
    let i = choose|i: int| 0 <= i < o1.len() && o1[i].template@ == t;
    assert(o2[i].template@ == t);
}

/// A borrow once registered stays registered.
proof fn lemma_borrow_present_mono(b1: Seq<Borrow>, b2: Seq<Borrow>, tpl: Seq<char>, who: Seq<char>)
    requires
        borrow_present(b1, tpl, who),
        b2.len() >= b1.len(),
        forall|i: int| 0 <= i < b1.len() ==> b2[i] == b1[i],
    ensures
        borrow_present(b2, tpl, who),
{
    let i = choose|i: int|
        0 <= i < b1.len() && (#[trigger] b1[i]).pattern.template@ == tpl && b1[i].borrower@ == who;
    assert(b2[i] == b1[i]);
}

/// Copies a vector of strings.
fn copy_strings(v: &Vec<String>) -> (r: Vec<String>)
    ensures
        r@ == v@,
{
    let mut r: Vec<String> = Vec::new();
    let mut i: usize = 0;
    #[verifier::loop_isolation(false)]
    while i < v.len()
        invariant
            i <= v@.len(),
            r@ == v@.take(i as int),
        decreases v.len() - i,
    {
        r.push(v[i].clone());
        proof {
            assert(v@.take(i + 1) =~= v@.take(i as int).push(v@[i as int]));
        }
        i += 1;
    }
    proof {
        assert(v@.take(v@.len() as int) =~= v@);
    }
    r
}

/// One actor's cache claims, as plain structured registration data: an
/// optional exclusive `owns` pattern, read-only `borrows`, and the
/// dependent patterns the owned namespace invalidates.
#[derive(Debug)]
pub struct CacheArgs {
    /// The pattern template this actor owns exclusively, if any.
    pub owns: Option<String>,
    /// Pattern templates this actor borrows read-only.
    pub borrows: Vec<String>,
    /// Templates the owned namespace invalidates on mutation.
    pub invalidates: Vec<String>,
}

/// Every template the claim names compiles: the owns template and its
/// dependents (which accompany the owns claim), and every borrow.
pub open spec fn args_templates_ok(a: CacheArgs) -> bool {
    (match a.owns {
        Option::Some(t) => template_ok(t@) && (forall|k: int|
            0 <= k < a.invalidates@.len() ==> template_ok((#[trigger] a.invalidates@[k])@)),
        Option::None => true,
    }) && (forall|b: int| 0 <= b < a.borrows@.len() ==> template_ok((#[trigger] a.borrows@[b])@))
}

/// Some owner compiled from the claim is one the registry rejects:
/// it overlaps a registered owner or active borrow, repeats a template,
/// or closes an invalidation cycle.
pub open spec fn args_owner_obstacle(
    owners: Seq<Ownership>,
    borrows: Seq<Borrow>,
    a: CacheArgs,
) -> bool {
    a.owns is Some && exists|o: Ownership|
        (#[trigger] o.wf()) && o.template@ == a.owns->0@ && str_views(o.invalidates@) == str_views(
            a.invalidates@,
        ) && (owner_conflict(owners, o) || borrow_conflict(borrows, o) || creates_cycle(owners, o))
}

/// No owner compiled from the claim is rejected by the registry.
/// Compilation is deterministic, so this is the complement of
/// [`args_owner_obstacle`] whenever the templates compile at all.
pub open spec fn args_owner_clear(
    owners: Seq<Ownership>,
    borrows: Seq<Borrow>,
    a: CacheArgs,
) -> bool {
    a.owns matches Some(t) ==> forall|o: Ownership|
        ((#[trigger] o.wf()) && o.template@ == t@ && str_views(o.invalidates@) == str_views(
            a.invalidates@,
        )) ==> !owner_conflict(owners, o) && !borrow_conflict(borrows, o) && !creates_cycle(
            owners,
            o,
        )
}

/// The claim asks one actor to both own and borrow overlapping
/// namespaces in conflicting roles: its owns pattern overlaps one of
/// its own borrow patterns.
pub open spec fn args_role_obstacle(a: CacheArgs) -> bool {
    a.owns is Some && exists|op: Pattern, bp: Pattern, b: int|
        #![trigger op.spec_overlaps(bp), a.borrows@[b]]
        op.wf() && bp.wf() && op.template@ == a.owns->0@ && 0 <= b < a.borrows@.len()
            && bp.template@ == a.borrows@[b]@ && op.spec_overlaps(bp)
}

/// The claim's owns pattern overlaps none of its own borrow patterns.
pub open spec fn args_roles_clear(a: CacheArgs) -> bool {
    a.owns matches Some(t) ==> forall|op: Pattern, bp: Pattern, b: int|
        #![trigger op.spec_overlaps(bp), a.borrows@[b]]
        (op.wf() && bp.wf() && op.template@ == t@ && 0 <= b < a.borrows@.len() && bp.template@
            == a.borrows@[b]@) ==> !op.spec_overlaps(bp)
}

/// Some borrow of the claim has no governing registered owner: no
/// registered owner's pattern overlaps its compiled pattern.
pub open spec fn args_borrow_obstacle(owners: Seq<Ownership>, a: CacheArgs) -> bool {
    exists|bp: Pattern, b: int|
        #![trigger bp.wf(), a.borrows@[b]]
        bp.wf() && 0 <= b < a.borrows@.len() && bp.template@ == a.borrows@[b]@ && (forall|i: int|
            0 <= i < owners.len() ==> !(#[trigger] owners[i]).pattern.spec_overlaps(bp))
}

/// Whether some registered owner's pattern overlaps the borrow pattern.
pub open spec fn governed_by(owners: Seq<Ownership>, bp: Pattern) -> bool {
    exists|i: int| 0 <= i < owners.len() && (#[trigger] owners[i]).pattern.spec_overlaps(bp)
}

/// Every borrow of the claim is governed by some registered owner.
pub open spec fn args_borrows_clear(owners: Seq<Ownership>, a: CacheArgs) -> bool {
    forall|bp: Pattern, b: int|
        #![trigger bp.wf(), a.borrows@[b]]
        (bp.wf() && 0 <= b < a.borrows@.len() && bp.template@ == a.borrows@[b]@) ==> exists|i: int|
            0 <= i < owners.len() && (#[trigger] owners[i]).pattern.spec_overlaps(bp)
}

impl CacheArgs {
    /// Applies the claims to the registry, atomically: everything is
    /// validated first, and on any error nothing is registered. The
    /// `owns` pattern is registered as an owner under the given layer,
    /// fallback chain, ttl and lifetime scope, and each `borrows`
    /// pattern as a borrow under the actor's name. A malformed template
    /// is a strategy error; an actor owning and borrowing overlapping
    /// namespaces in conflicting roles, or a borrow no registered owner
    /// governs, is an invalid borrowing; an owns pattern the registry
    /// rejects is a pattern conflict.
    pub fn apply(
        &self,
        graph: &mut OwnershipGraph,
        layer: Layer,
        fallback: Vec<Layer>,
        ttl: Option<u64>,
        lifetime: Lifetime,
        actor: &str,
    ) -> (r: Result<(), Error>)
        requires
            old(graph).wf(),
        ensures
            final(graph).wf(),
            r matches Err(_) ==> *final(graph) == *old(graph),
            r is Ok ==> match self.owns {
                Option::Some(t) => final(graph).owners@.len() == old(graph).owners@.len() + 1
                    && final(graph).owners@.last().template@ == t@ && final(graph).owners@.last().layer == layer && final(graph).owners@.last().fallback == fallback
                    && final(graph).owners@.last().ttl == ttl && final(graph).owners@.last().lifetime == lifetime && str_views(
                    final(graph).owners@.last().invalidates@,
                ) == str_views(self.invalidates@) && (forall|i: int|
                    0 <= i < old(graph).owners@.len() ==> final(graph).owners@[i] == old(graph).owners@[i]),
                Option::None => final(graph).owners@ == old(graph).owners@,
            },
            r is Ok ==> (forall|b: int|
                0 <= b < self.borrows@.len() ==> borrow_present(
                    final(graph).borrows@,
                    (#[trigger] self.borrows@[b])@,
                    actor@,
                )) && (forall|i: int|
                0 <= i < old(graph).borrows@.len() ==> final(graph).borrows@[i] == old(graph).borrows@[i]) && final(graph).borrows@.len() >= old(graph).borrows@.len(),
            r is Ok ==> forall|m: int|
                old(graph).borrows@.len() <= m < final(graph).borrows@.len() ==> (
                #[trigger] final(graph).borrows@[m]).borrower@ == actor@ && (exists|b: int|
                    0 <= b < self.borrows@.len() && final(graph).borrows@[m].pattern.template@
                        == (#[trigger] self.borrows@[b])@),
            !args_templates_ok(*self) ==> (r matches Err(e) && e is StrategyError),
            r matches Err(e) && e is StrategyError ==> !args_templates_ok(*self),
            r matches Err(e) && e is InvalidBorrowing ==> args_templates_ok(*self) && (
            args_role_obstacle(*self) || args_borrow_obstacle(old(graph).owners@, *self)),
            r matches Err(e) && e is PatternConflict ==> args_templates_ok(*self)
                && args_owner_obstacle(old(graph).owners@, old(graph).borrows@, *self),
            r matches Err(e) ==> (e is StrategyError || e is InvalidBorrowing
                || e is PatternConflict),
            args_templates_ok(*self) && args_roles_clear(*self) && args_owner_clear(
                old(graph).owners@,
                old(graph).borrows@,
                *self,
            ) && args_borrows_clear(old(graph).owners@, *self) ==> r is Ok,
            args_role_obstacle(*self) ==> r is Err,
            args_owner_obstacle(old(graph).owners@, old(graph).borrows@, *self) ==> r is Err,
            args_borrow_obstacle(old(graph).owners@, *self) ==> r is Err,
    {
        // Compile the owns claim and its dependents.
        let owned: Option<Ownership> = match &self.owns {
            Option::Some(t) => {
                match Ownership::new(
                    t.as_str(),
                    layer,
                    fallback,
                    ttl,
                    lifetime,
                    copy_strings(&self.invalidates),
                ) {
                    Result::Ok(o) => {
                        proof {
                            assert(str_views(o.invalidates@) =~= str_views(self.invalidates@));
                        }
                        Some(o)
                    },
                    Result::Err(e) => {
                        return Err(e);
                    },
                }
            },
            Option::None => None,
        };
        let ghost owned0 = owned;
        // Compile every borrow pattern.
        let mut bps: Vec<Pattern> = Vec::new();
        let mut b: usize = 0;
        #[verifier::loop_isolation(false)]
        while b < self.borrows.len()
            invariant
                b <= self.borrows@.len(),
                bps@.len() == b,
                forall|m: int| 0 <= m < b ==> (#[trigger] bps@[m]).wf() && bps@[m].template@
                    == self.borrows@[m]@,
                forall|m: int| 0 <= m < b ==> template_ok((#[trigger] self.borrows@[m])@),
            decreases self.borrows.len() - b,
        {
            match Pattern::new(self.borrows[b].as_str()) {
                Result::Ok(p) => {
                    bps.push(p);
                },
                Result::Err(e) => {
                    return Err(e);
                },
            }
            b += 1;
        }
        // Conflicting roles: the owns pattern may not overlap the
        // actor's own borrows.
        match &owned {
            Option::Some(o) => {
                let mut m: usize = 0;
                #[verifier::loop_isolation(false)]
                while m < bps.len()
                    invariant
                        m <= bps@.len(),
                        forall|q: int| 0 <= q < m ==> !o.pattern.spec_overlaps(
                            #[trigger] bps@[q],
                        ),
                    decreases bps.len() - m,
                {
                    if o.pattern.overlaps(&bps[m]) {
                        proof {
                            assert(args_role_obstacle(*self));
                        }
                        return Err(Error::InvalidBorrowing(self.borrows[m].clone()));
                    }
                    m += 1;
                }
                proof {
                    assert(*o == owned0->0);
                    assert(forall|q: int|
                        0 <= q < bps@.len() ==> !owned0->0.pattern.spec_overlaps(
                            #[trigger] bps@[q],
                        ));
                }
            },
            Option::None => {},
        }
        // Governance: every borrow needs an already registered owner.
        let mut m: usize = 0;
        #[verifier::loop_isolation(false)]
        while m < bps.len()
            invariant
                m <= bps@.len(),
                forall|q: int| 0 <= q < m ==> governed_by(graph.owners@, #[trigger] bps@[q]),
            decreases bps.len() - m,
        {
            let mut governed = false;
            let mut i: usize = 0;
            #[verifier::loop_isolation(false)]
            while i < graph.owners.len()
                invariant
                    i <= graph.owners@.len(),
                    m < bps@.len(),
                    governed == exists|q: int|
                        0 <= q < i && (#[trigger] graph.owners@[q]).pattern.spec_overlaps(
                            bps@[m as int],
                        ),
                decreases graph.owners.len() - i,
            {
                if graph.owners[i].pattern.overlaps(&bps[m]) {
                    governed = true;
                }
                i += 1;
            }
            if !governed {
                proof {
                    assert(args_borrow_obstacle(graph.owners@, *self));
                }
                return Err(Error::InvalidBorrowing(self.borrows[m].clone()));
            }
            m += 1;
        }
        // All checks passed: mutate, owner first.
        let ghost owners0 = graph.owners@;
        let ghost borrows0 = graph.borrows@;
        let ghost bps0 = bps@;
        proof {
            assert(forall|q: int| 0 <= q < bps0.len() ==> governed_by(owners0, #[trigger] bps0[q]));
        }
        match owned {
            Option::Some(o) => {
                let ghost og = o;
                match graph.register_owner(o) {
                    Result::Ok(()) => {
                        proof {
                            assert(graph.owners@.last() == og);
                            assert forall|q: int|
                                0 <= q < bps@.len() implies governed_by(
                                graph.owners@,
                                #[trigger] bps@[q],
                            ) by {
                                let i = choose|i: int|
                                    0 <= i < owners0.len() && (
                                    #[trigger] owners0[i]).pattern.spec_overlaps(bps@[q]);
                                assert(graph.owners@[i] == owners0[i]);
                                assert(graph.owners@[i].pattern.spec_overlaps(bps@[q]));
                            }
                        }
                    },
                    Result::Err(e) => {
                        return Err(e);
                    },
                }
            },
            Option::None => {},
        }
        let ghost owners1 = graph.owners@;
        let ghost nb = self.borrows@.len();
        // Register the borrows, last first; none can fail, every one is
        // governed.
        #[verifier::loop_isolation(false)]
        while bps.len() > 0
            invariant
                graph.wf(),
                bps@.len() <= nb,
                nb == self.borrows@.len(),
                graph.owners@ == owners1,
                forall|m2: int| 0 <= m2 < bps@.len() ==> (#[trigger] bps@[m2]).wf()
                    && bps@[m2].template@ == self.borrows@[m2]@,
                forall|q: int| 0 <= q < bps@.len() ==> governed_by(
                    graph.owners@,
                    #[trigger] bps@[q],
                ),
                forall|m2: int| bps@.len() <= m2 < nb ==> borrow_present(
                    graph.borrows@,
                    (#[trigger] self.borrows@[m2])@,
                    actor@,
                ),
                graph.borrows@.len() >= borrows0.len(),
                forall|i: int| 0 <= i < borrows0.len() ==> graph.borrows@[i] == borrows0[i],
                forall|m2: int|
                    borrows0.len() <= m2 < graph.borrows@.len() ==> (
                    #[trigger] graph.borrows@[m2]).borrower@ == actor@ && (exists|b: int|
                        0 <= b < self.borrows@.len() && graph.borrows@[m2].pattern.template@ == (
                        #[trigger] self.borrows@[b])@),
            decreases bps.len(),
        {
            let ghost g0 = *graph;
            let ghost bidx = bps@.len() - 1;
            let bp = bps.pop().unwrap();
            let ghost tplv = bp.template@;
            let res = graph.register_borrow(bp, actor);
            proof {
                assert(res is Ok);
                assert forall|m2: int|
                    borrows0.len() <= m2 < graph.borrows@.len() implies (
                    #[trigger] graph.borrows@[m2]).borrower@ == actor@ && (exists|b: int|
                        0 <= b < self.borrows@.len() && graph.borrows@[m2].pattern.template@ == (
                        #[trigger] self.borrows@[b])@) by {
                    if m2 < g0.borrows@.len() {
                        assert(graph.borrows@[m2] == g0.borrows@[m2]);
                    } else {
                        assert(graph.borrows@[m2] == graph.borrows@.last());
                        assert(graph.borrows@.last().pattern.template@ == self.borrows@[bidx]@);
                    }
                }
                assert forall|m2: int|
                    bps@.len() <= m2 < nb implies borrow_present(
                    graph.borrows@,
                    (#[trigger] self.borrows@[m2])@,
                    actor@,
                ) by {
                    if m2 == bps@.len() {
                        if !borrow_present(g0.borrows@, tplv, actor@) {
                            assert(graph.borrows@.last().pattern.template@ == tplv);
                        } else {
                            lemma_borrow_present_mono(
                                g0.borrows@,
                                graph.borrows@,
                                tplv,
                                actor@,
                            );
                        }
                    } else {
                        lemma_borrow_present_mono(
                            g0.borrows@,
                            graph.borrows@,
                            self.borrows@[m2]@,
                            actor@,
                        );
                    }
                }
            }
            match res {
                Result::Ok(()) => {},
                Result::Err(e) => {
                    // Unreachable: every borrow was checked as governed
                    // before any registration began.
                    return Err(e);
                },
            }
        }
        proof {
            // Compilation determines overlap and cycle behaviour, so the
            // checks made on the compiled values rule out every
            // compilation: no obstacle can remain on this path.
            if args_role_obstacle(*self) {
                let (op, bp, b): (Pattern, Pattern, int) = choose|op: Pattern, bp: Pattern, b: int|
                    #![trigger op.spec_overlaps(bp), self.borrows@[b]]
                    op.wf() && bp.wf() && op.template@ == self.owns->0@ && 0 <= b
                        < self.borrows@.len() && bp.template@ == self.borrows@[b]@
                        && op.spec_overlaps(bp);
                let og = owned0->0;
                crate::pattern::lemma_overlap_template_determined(op, og.pattern, bp);
                crate::pattern::lemma_overlap_template_determined(bp, bps0[b], og.pattern);
                assert(!og.pattern.spec_overlaps(bps0[b]));
                assert(false);
            }
            if args_borrow_obstacle(owners0, *self) {
                let (bp, b): (Pattern, int) = choose|bp: Pattern, b: int|
                    #![trigger bp.wf(), self.borrows@[b]]
                    bp.wf() && 0 <= b < self.borrows@.len() && bp.template@ == self.borrows@[b]@
                        && (forall|i2: int|
                        0 <= i2 < owners0.len() ==> !(#[trigger] owners0[i2]).pattern.spec_overlaps(
                            bp,
                        ));
                assert(governed_by(owners0, bps0[b]));
                let i2 = choose|i2: int|
                    0 <= i2 < owners0.len() && (#[trigger] owners0[i2]).pattern.spec_overlaps(
                        bps0[b],
                    );
                crate::pattern::lemma_overlap_template_determined(
                    bp,
                    bps0[b],
                    owners0[i2].pattern,
                );
                assert(owners0[i2].pattern.spec_overlaps(bp));
                assert(false);
            }
            if args_owner_obstacle(owners0, borrows0, *self) {
                let o2 = choose|o2: Ownership|
                    (#[trigger] o2.wf()) && o2.template@ == self.owns->0@ && str_views(
                        o2.invalidates@,
                    ) == str_views(self.invalidates@) && (owner_conflict(owners0, o2)
                        || borrow_conflict(borrows0, o2) || creates_cycle(owners0, o2));
                let og = owned0->0;
                assert(str_views(og.invalidates@) == str_views(self.invalidates@));
                if owner_conflict(owners0, o2) {
                    let i2 = choose|i2: int|
                        0 <= i2 < owners0.len() && ((#[trigger] owners0[i2]).pattern.spec_overlaps(
                            o2.pattern,
                        ) || owners0[i2].template@ == o2.template@);
                    crate::pattern::lemma_overlap_template_determined(
                        o2.pattern,
                        og.pattern,
                        owners0[i2].pattern,
                    );
                    assert(owner_conflict(owners0, og));
                    assert(false);
                } else if borrow_conflict(borrows0, o2) {
                    let b2 = choose|b2: int|
                        0 <= b2 < borrows0.len() && o2.pattern.spec_overlaps(
                            (#[trigger] borrows0[b2]).pattern,
                        );
                    crate::pattern::lemma_overlap_template_determined(
                        o2.pattern,
                        og.pattern,
                        borrows0[b2].pattern,
                    );
                    assert(borrow_conflict(borrows0, og));
                    assert(false);
                } else {
                    lemma_cycle_template_determined(owners0, o2, og);
                    assert(creates_cycle(owners0, og));
                    assert(false);
                }
            }
        }
        Ok(())
    }
}

/// Whether a claim's effects stand in the registry: its owns template
/// has a registered owner and each of its borrows is present under the
/// actor's name.
pub open spec fn applied_claim(g: OwnershipGraph, a: CacheArgs, who: Seq<char>) -> bool {
    (a.owns matches Some(t) ==> has_owner_tpl(g.owners@, t@)) && (forall|b: int|
        0 <= b < a.borrows@.len() ==> borrow_present(g.borrows@, (#[trigger] a.borrows@[b])@, who))
}

/// Why a claim failed against the given registry state, by error kind.
pub open spec fn claim_obstructed(g: OwnershipGraph, a: CacheArgs, e: Error) -> bool {
    (e is StrategyError ==> !args_templates_ok(a)) && (e is InvalidBorrowing ==> args_role_obstacle(
        a,
    ) || args_borrow_obstacle(g.owners@, a)) && (e is PatternConflict ==> args_owner_obstacle(
        g.owners@,
        g.borrows@,
        a,
    )) && (e is StrategyError || e is InvalidBorrowing || e is PatternConflict)
}

/// The owners grew only by what the first `upto` claims can add: the
/// original owners preserved, every added one carrying an earlier
/// claim's owns template.
pub open spec fn owners_extended(
    base: Seq<Ownership>,
    cur: Seq<Ownership>,
    ps: Seq<CacheArgs>,
    upto: int,
) -> bool {
    cur.len() >= base.len() && (forall|m: int| 0 <= m < base.len() ==> cur[m] == base[m]) && (
    forall|m: int|
        base.len() <= m < cur.len() ==> exists|j: int|
            0 <= j < upto && (#[trigger] ps[j]).owns is Some && (#[trigger] cur[m]).template@
                == ps[j].owns->0@)
}

/// The borrows grew only by what the first `upto` claims can add under
/// the actor: the original borrows preserved, every added one carrying
/// the actor's name and an earlier claim's borrow template.
pub open spec fn borrows_extended(
    base: Seq<Borrow>,
    cur: Seq<Borrow>,
    ps: Seq<CacheArgs>,
    upto: int,
    who: Seq<char>,
) -> bool {
    cur.len() >= base.len() && (forall|m: int| 0 <= m < base.len() ==> cur[m] == base[m]) && (
    forall|m: int|
        base.len() <= m < cur.len() ==> (#[trigger] cur[m]).borrower@ == who && exists|
            j: int,
            b: int,
        |
            0 <= j < upto && 0 <= b < ps[j].borrows@.len() && cur[m].pattern.template@ == (
            #[trigger] ps[j].borrows@[b])@)
}

/// A registry state that extends `g` with exactly what applying the
/// first `upto` claims of the manifest under `who` can add, with every
/// earlier claim applied in it.
pub open spec fn manifest_extension(
    g: OwnershipGraph,
    gx: OwnershipGraph,
    ps: Seq<CacheArgs>,
    upto: int,
    who: Seq<char>,
) -> bool {
    gx.wf() && owners_extended(g.owners@, gx.owners@, ps, upto) && borrows_extended(
        g.borrows@,
        gx.borrows@,
        ps,
        upto,
        who,
    ) && (forall|j: int| 0 <= j < upto ==> applied_claim(gx, #[trigger] ps[j], who))
}

/// A whole manifest of cache claims: each actor's claims with the layer
/// hint, fallback chain, ttl and lifetime scope they share.
#[derive(Debug)]
pub struct ManifestArgs {
    /// The declared claims, one entry per actor.
    pub patterns: Vec<CacheArgs>,
    /// The primary layer the manifest assigns its owners.
    pub layer: Option<Layer>,
    /// The fallback chain the manifest assigns its owners.
    pub fallback: Vec<Layer>,
    /// The time-to-live the manifest assigns, in seconds.
    pub ttl: Option<u64>,
    /// The lifetime scope the manifest assigns.
    pub lifetime: Lifetime,
}

impl ManifestArgs {
    /// Applies the whole manifest under one actor name, all-or-nothing:
    /// on any error the registry holds exactly what it held before the
    /// call — registration errors abort the entire registration call
    /// with no partial graph mutation. The claims register in order;
    /// a failure names the first claim rejected, against the registry
    /// state the earlier claims had built (which the rollback then
    /// undoes). Owners take the manifest's layer hint, or the server
    /// layer when none is given.
    pub fn apply(&self, graph: &mut OwnershipGraph, actor: &str) -> (r: Result<(), Error>)
        requires
            old(graph).wf(),
        ensures
            final(graph).wf(),
            r matches Err(_) ==> final(graph).owners@ == old(graph).owners@ && final(graph).borrows@ == old(graph).borrows@,
            r is Ok ==> forall|i: int|
                0 <= i < self.patterns@.len() ==> applied_claim(
                    *final(graph),
                    #[trigger] self.patterns@[i],
                    actor@,
                ),
            r matches Err(e) && e is StrategyError ==> exists|i: int|
                0 <= i < self.patterns@.len() && !args_templates_ok(#[trigger] self.patterns@[i]),
            r matches Err(e) ==> exists|i: int, gx: OwnershipGraph|
                0 <= i < self.patterns@.len() && #[trigger] manifest_extension(
                    *old(graph),
                    gx,
                    self.patterns@,
                    i,
                    actor@,
                ) && claim_obstructed(gx, self.patterns@[i], e),
            r matches Err(e) ==> (e is StrategyError || e is InvalidBorrowing
                || e is PatternConflict),
    {
        let layer = match self.layer {
            Option::Some(l) => l,
            Option::None => Layer::Server,
        };
        let on0 = graph.owners.len();
        let bn0 = graph.borrows.len();
        let ghost owners0 = graph.owners@;
        let ghost borrows0 = graph.borrows@;
        let mut i: usize = 0;
        #[verifier::loop_isolation(false)]
        while i < self.patterns.len()
            invariant
                i <= self.patterns@.len(),
                graph.wf(),
                on0 == owners0.len(),
                bn0 == borrows0.len(),
                owners_extended(owners0, graph.owners@, self.patterns@, i as int),
                borrows_extended(borrows0, graph.borrows@, self.patterns@, i as int, actor@),
                forall|j: int| 0 <= j < i ==> applied_claim(
                    *graph,
                    #[trigger] self.patterns@[j],
                    actor@,
                ),
            decreases self.patterns.len() - i,
        {
            let ghost g0 = *graph;
            let fb = copy_layers(&self.fallback);
            let res = self.patterns[i].apply(graph, layer, fb, self.ttl, self.lifetime, actor);
            proof {
                assert forall|j: int| 0 <= j < i implies applied_claim(
                    *graph,
                    #[trigger] self.patterns@[j],
                    actor@,
                ) by {
                    let a = self.patterns@[j];
                    match a.owns {
                        Option::Some(t) => {
                            lemma_has_owner_mono(g0.owners@, graph.owners@, t@);
                        },
                        Option::None => {},
                    }
                    assert forall|b2: int| 0 <= b2 < a.borrows@.len() implies borrow_present(
                        graph.borrows@,
                        (#[trigger] a.borrows@[b2])@,
                        actor@,
                    ) by {
                        lemma_borrow_present_mono(
                            g0.borrows@,
                            graph.borrows@,
                            a.borrows@[b2]@,
                            actor@,
                        );
                    }
                }
            }
            match res {
                Result::Ok(()) => {},
                Result::Err(e) => {
                    let ghost gx = *graph;
                    proof {
                        assert(manifest_extension(*old(graph), gx, self.patterns@, i as int, actor@));
                    }
                    graph.owners.truncate(on0);
                    graph.borrows.truncate(bn0);
                    proof {
                        assert(graph.owners@ =~= owners0);
                        assert(graph.borrows@ =~= borrows0);
                        assert(claim_obstructed(gx, self.patterns@[i as int], e));
                    }
                    return Err(e);
                },
            }
            proof {
                let a = self.patterns@[i as int];
                match a.owns {
                    Option::Some(t) => {
                        assert(graph.owners@.last().template@ == t@);
                    },
                    Option::None => {},
                }
                assert(owners_extended(owners0, graph.owners@, self.patterns@, i as int + 1)) by {
                    assert forall|m: int|
                        owners0.len() <= m < graph.owners@.len() implies exists|j: int|
                        0 <= j < i as int + 1 && (#[trigger] self.patterns@[j]).owns is Some && (
                        #[trigger] graph.owners@[m]).template@ == self.patterns@[j].owns->0@ by {
                        if m < g0.owners@.len() {
                            assert(graph.owners@[m] == g0.owners@[m]);
                        } else {
                            assert(a.owns is Some);
                            assert(graph.owners@[m] == graph.owners@.last());
                            assert((#[trigger] self.patterns@[i as int]).owns is Some);
                        }
                    }
                }
                assert(borrows_extended(
                    borrows0,
                    graph.borrows@,
                    self.patterns@,
                    i as int + 1,
                    actor@,
                )) by {
                    assert forall|m: int|
                        borrows0.len() <= m < graph.borrows@.len() implies (
                        #[trigger] graph.borrows@[m]).borrower@ == actor@ && exists|j: int, b: int|
                        0 <= j < i as int + 1 && 0 <= b < self.patterns@[j].borrows@.len()
                            && graph.borrows@[m].pattern.template@ == (
                        #[trigger] self.patterns@[j].borrows@[b])@ by {
                        if m < g0.borrows@.len() {
                            assert(graph.borrows@[m] == g0.borrows@[m]);
                            let (j, b) = choose|j: int, b: int|
                                0 <= j < i && 0 <= b < self.patterns@[j].borrows@.len()
                                    && g0.borrows@[m].pattern.template@ == (
                                #[trigger] self.patterns@[j].borrows@[b])@;
                            assert(graph.borrows@[m].pattern.template@ == (
                            #[trigger] self.patterns@[j].borrows@[b])@);
                        } else {
                            let b = choose|b: int|
                                0 <= b < a.borrows@.len() && graph.borrows@[m].pattern.template@
                                    == (#[trigger] a.borrows@[b])@;
                            assert(graph.borrows@[m].pattern.template@ == (
                            #[trigger] self.patterns@[i as int].borrows@[b])@);
                        }
                    }
                }
            }
            i += 1;
        }
        Ok(())
    }
}

/// Copies a chain of layers.
fn copy_layers(v: &Vec<Layer>) -> (r: Vec<Layer>)
    ensures
        r@ == v@,
{
    let mut r: Vec<Layer> = Vec::new();
    let mut i: usize = 0;
    #[verifier::loop_isolation(false)]
    while i < v.len()
        invariant
            i <= v@.len(),
            r@ == v@.take(i as int),
        decreases v.len() - i,
    {
        r.push(v[i]);
        proof {
            assert(v@.take(i + 1) =~= v@.take(i as int).push(v@[i as int]));
        }
        i += 1;
    }
    proof {
        assert(v@.take(v@.len() as int) =~= v@);
    }
    r
}

} // verus!
