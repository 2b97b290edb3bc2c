//! Pattern templates over delimiter-split cache keys.
//!
//! A template such as `user:{id}:profile` is compiled into a sequence of
//! segment matchers over the `:`-split key. Segment kinds: a literal, a
//! trailing wildcard `*` (matching any suffix, the empty suffix included),
//! a named variable `{name}` (matching exactly one segment), and a small
//! anchored regular-expression segment (character classes, `.`, and the
//! `+`, `*`, `?` quantifiers).

use vstd::prelude::*;
use vstd::string::StrSliceExecFns;
use vstd::string::StringExecFns;
use crate::error::Error;

verus! {

// ------------------------------------------------------------------
// Regular-expression segments
// ------------------------------------------------------------------

/// An inclusive range of character code points, as used in a class.
#[derive(Debug, Clone, Copy)]
pub struct CharRange {
    pub lo: u32,
    pub hi: u32,
}

/// Quantifier attached to a regular-expression atom.
#[derive(Debug, Clone, Copy, PartialEq, Eq, Structural)]
pub enum RxQuant {
    One,
    Opt,
    Star,
    Plus,
}

/// An atom of a regular-expression segment.
#[derive(Debug, Clone)]
pub enum RxAtom {
    /// A single character, matched exactly.
    Ch(char),
    /// `.`: any single character.
    Any,
    /// A character class `[...]`; the flag is true for a negated class.
    Class(Vec<CharRange>, bool),
}

/// One atom with its quantifier.
#[derive(Debug, Clone)]
pub struct RxToken {
    pub atom: RxAtom,
    pub quant: RxQuant,
}

/// Whether a range contains a character.
pub open spec fn range_hit(r: CharRange, c: char) -> bool {
    r.lo <= c as u32 <= r.hi
}

/// Whether an atom matches a single character.
pub open spec fn atom_matches(a: RxAtom, c: char) -> bool {
    match a {
        RxAtom::Ch(d) => c == d,
        RxAtom::Any => true,
        RxAtom::Class(rs, neg) => {
            let hit = exists|i: int| 0 <= i < rs@.len() && range_hit(rs@[i], c);
            if neg { !hit } else { hit }
        },
    }
}

/// Anchored match of a token sequence against a whole segment.
pub open spec fn rx_matches(ts: Seq<RxToken>, s: Seq<char>) -> bool
    decreases s.len(), ts.len(),
{
    if ts.len() == 0 {
        s.len() == 0
    } else {
        let t = ts[0];
        let rest = ts.skip(1);
        match t.quant {
            RxQuant::One => s.len() > 0 && atom_matches(t.atom, s[0]) && rx_matches(
                rest,
                s.skip(1),
            ),
            RxQuant::Opt => rx_matches(rest, s) || (s.len() > 0 && atom_matches(t.atom, s[0])
                && rx_matches(rest, s.skip(1))),
            RxQuant::Star => rx_matches(rest, s) || (s.len() > 0 && atom_matches(t.atom, s[0])
                && rx_matches(ts, s.skip(1))),
            RxQuant::Plus => s.len() > 0 && atom_matches(t.atom, s[0]) && (rx_matches(
                rest,
                s.skip(1),
            ) || rx_matches(ts, s.skip(1))),
        }
    }
}

fn class_hit(rs: &Vec<CharRange>, c: char) -> (r: bool)
    ensures
        r == exists|j: int| 0 <= j < rs@.len() && range_hit(rs@[j], c),
{
    let mut hit = false;
    let mut i: usize = 0;
    while i < rs.len()
        invariant
            i <= rs@.len(),
            hit == exists|j: int| 0 <= j < i && range_hit(rs@[j], c),
        decreases rs.len() - i,
    {
        if rs[i].lo <= c as u32 && c as u32 <= rs[i].hi {
            hit = true;
        }
        i += 1;
    }
    hit
}

fn atom_match(a: &RxAtom, c: char) -> (r: bool)
    ensures
        r == atom_matches(*a, c),
{
    match a {
        RxAtom::Ch(d) => c == *d,
        RxAtom::Any => true,
        RxAtom::Class(rs, neg) => {
            let hit = class_hit(rs, c);
            if *neg {
                !hit
            } else {
                hit
            }
        },
    }
}

/// Backtracking matcher mirroring `rx_matches`.
fn rx_match_at(ts: &Vec<RxToken>, ti: usize, s: &Vec<char>, si: usize) -> (r: bool)
    requires
        ti <= ts.len(),
        si <= s.len(),
    ensures
        r == rx_matches(ts@.skip(ti as int), s@.skip(si as int)),
    decreases s.len() - si, ts.len() - ti,
{
    proof {
        if ti < ts.len() {
            assert(ts@.skip(ti as int)[0] == ts@[ti as int]);
            assert(ts@.skip(ti as int).skip(1) =~= ts@.skip(ti as int + 1));
        }
        if si < s.len() {
            assert(s@.skip(si as int)[0] == s@[si as int]);
            assert(s@.skip(si as int).skip(1) =~= s@.skip(si as int + 1));
        }
    }
    if ti == ts.len() {
        si == s.len()
    } else {
        let q = ts[ti].quant;
        match q {
            RxQuant::One => si < s.len() && atom_match(&ts[ti].atom, s[si]) && rx_match_at(
                ts,
                ti + 1,
                s,
                si + 1,
            ),
            RxQuant::Opt => rx_match_at(ts, ti + 1, s, si) || (si < s.len() && atom_match(
                &ts[ti].atom,
                s[si],
            ) && rx_match_at(ts, ti + 1, s, si + 1)),
            RxQuant::Star => rx_match_at(ts, ti + 1, s, si) || (si < s.len() && atom_match(
                &ts[ti].atom,
                s[si],
            ) && rx_match_at(ts, ti, s, si + 1)),
            RxQuant::Plus => si < s.len() && atom_match(&ts[ti].atom, s[si]) && (rx_match_at(
                ts,
                ti + 1,
                s,
                si + 1,
            ) || rx_match_at(ts, ti, s, si + 1)),
        }
    }
}

// ------------------------------------------------------------------
// Parsing regular-expression segments
// ------------------------------------------------------------------

/// Parses the body of a character class starting at `i` (after `[` and an
/// optional `^`). Returns the ranges and the index just past the `]`.
/// An unterminated or empty class yields `None`.
pub open spec fn spec_class_from(part: Seq<char>, i: int, acc: Seq<CharRange>) -> Option<
    (Seq<CharRange>, int),
>
    decreases part.len() - i,
{
    if i < 0 || i >= part.len() {
        None
    } else if part[i] == ']' {
        if acc.len() == 0 {
            None
        } else {
            Some((acc, i + 1))
        }
    } else if i + 2 < part.len() && part[i + 1] == '-' && part[i + 2] != ']' {
        spec_class_from(
            part,
            i + 3,
            acc.push(CharRange { lo: part[i] as u32, hi: part[i + 2] as u32 }),
        )
    } else {
        spec_class_from(part, i + 1, acc.push(CharRange { lo: part[i] as u32, hi: part[i] as u32 }))
    }
}

/// A successful class parse ends strictly beyond where it began and
/// within the segment.
proof fn lemma_class_from_bounds(part: Seq<char>, i: int, acc: Seq<CharRange>)
    ensures
        spec_class_from(part, i, acc) matches Some((rs, j)) ==> i < j <= part.len(),
    decreases part.len() - i,
{
    if 0 <= i < part.len() {
        if part[i] == ']' {
        } else if i + 2 < part.len() && part[i + 1] == '-' && part[i + 2] != ']' {
            lemma_class_from_bounds(
                part,
                i + 3,
                acc.push(CharRange { lo: part[i] as u32, hi: part[i + 2] as u32 }),
            );
        } else {
            lemma_class_from_bounds(
                part,
                i + 1,
                acc.push(CharRange { lo: part[i] as u32, hi: part[i] as u32 }),
            );
        }
    }
}

/// Where the atom starting at `i` ends (exclusive), or -1 when no atom
/// starts there: a quantifier with no preceding atom, a stray `]`, or an
/// unterminated or empty class.
pub open spec fn atom_end(part: Seq<char>, i: int) -> int {
    if i < 0 || i >= part.len() {
        -1
    } else {
        let c = part[i];
        if c == '[' {
            let neg = i + 1 < part.len() && part[i + 1] == '^';
            let start = if neg {
                i + 2
            } else {
                i + 1
            };
            match spec_class_from(part, start, Seq::empty()) {
                Option::None => -1,
                Option::Some((rs, j)) => j,
            }
        } else if c == ']' || c == '+' || c == '*' || c == '?' {
            -1
        } else {
            i + 1
        }
    }
}

/// A parsed atom ends strictly beyond where it began and within the part.
pub proof fn lemma_atom_end_bounds(part: Seq<char>, i: int)
    ensures
        atom_end(part, i) >= 0 ==> i < atom_end(part, i) <= part.len(),
{
    if 0 <= i < part.len() && part[i] == '[' {
        let neg = i + 1 < part.len() && part[i + 1] == '^';
        let start = if neg {
            i + 2
        } else {
            i + 1
        };
        lemma_class_from_bounds(part, start, Seq::empty());
    }
}

/// The relation between the atom starting at `i` and the atom value
/// parsed from it.
pub open spec fn atom_rel(part: Seq<char>, i: int, a: RxAtom) -> bool {
    if 0 <= i < part.len() {
        let c = part[i];
        if c == '[' {
            let neg = i + 1 < part.len() && part[i + 1] == '^';
            let start = if neg {
                i + 2
            } else {
                i + 1
            };
            match spec_class_from(part, start, Seq::empty()) {
                Option::None => false,
                Option::Some((rs, j)) => a matches RxAtom::Class(v, n) && v@ == rs && n == neg,
            }
        } else if c == '.' {
            a is Any
        } else {
            a matches RxAtom::Ch(d) && d == c
        }
    } else {
        false
    }
}

/// Whether a character is a quantifier.
pub open spec fn is_quant(c: char) -> bool {
    c == '+' || c == '*' || c == '?'
}

/// The quantifier a character denotes.
pub open spec fn quant_sym(c: char) -> RxQuant {
    if c == '+' {
        RxQuant::Plus
    } else if c == '*' {
        RxQuant::Star
    } else {
        RxQuant::Opt
    }
}

/// Whether the regular-expression segment is well formed from `i` on.
pub open spec fn rx_valid(part: Seq<char>, i: int) -> bool
    decreases part.len() - i,
    via rx_valid_dec
{
    if i >= part.len() {
        true
    } else {
        let e = atom_end(part, i);
        e >= 0 && (if e < part.len() && is_quant(part[e]) {
            rx_valid(part, e + 1)
        } else {
            rx_valid(part, e)
        })
    }
}

#[via_fn]
proof fn rx_valid_dec(part: Seq<char>, i: int) {
    lemma_atom_end_bounds(part, i);
}

/// The relation between the regular-expression text from `i` on and the
/// tokens from `k` on parsed from it: each atom with its optional
/// quantifier yields one token.
pub open spec fn rx_parse_rel(part: Seq<char>, i: int, ts: Seq<RxToken>, k: int) -> bool
    decreases part.len() - i,
    via rx_parse_rel_dec
{
    if i >= part.len() {
        k == ts.len()
    } else {
        let e = atom_end(part, i);
        e >= 0 && 0 <= k < ts.len() && atom_rel(part, i, ts[k].atom) && (if e < part.len()
            && is_quant(part[e]) {
            ts[k].quant == quant_sym(part[e]) && rx_parse_rel(part, e + 1, ts, k + 1)
        } else {
            ts[k].quant == RxQuant::One && rx_parse_rel(part, e, ts, k + 1)
        })
    }
}

#[via_fn]
proof fn rx_parse_rel_dec(part: Seq<char>, i: int, ts: Seq<RxToken>, k: int) {
    lemma_atom_end_bounds(part, i);
}

fn class_from(part: &Vec<char>, i: usize, acc: Vec<CharRange>) -> (r: Option<(Vec<CharRange>, usize)>)
    ensures
        match r {
            Option::None => spec_class_from(part@, i as int, acc@) is None,
            Option::Some((rs, j)) => spec_class_from(part@, i as int, acc@) == Some((rs@, j as int))
                && i < j <= part@.len(),
        },
    decreases part.len() - i,
{
    if i >= part.len() {
        None
    } else if part[i] == ']' {
        if acc.len() == 0 {
            None
        } else {
            Some((acc, i + 1))
        }
    } else if part.len() - i > 2 && part[i + 1] == '-' && part[i + 2] != ']' {
        let mut acc2 = acc;
        acc2.push(CharRange { lo: part[i] as u32, hi: part[i + 2] as u32 });
        class_from(part, i + 3, acc2)
    } else {
        let mut acc2 = acc;
        acc2.push(CharRange { lo: part[i] as u32, hi: part[i] as u32 });
        class_from(part, i + 1, acc2)
    }
}

/// Parses the atom starting at `i`: a class, `.`, or a plain character.
fn parse_atom(part: &Vec<char>, i: usize) -> (r: Option<(RxAtom, usize)>)
    requires
        i < part.len(),
    ensures
        match r {
            Option::None => atom_end(part@, i as int) < 0,
            Option::Some((a, e)) => atom_end(part@, i as int) == e as int && atom_rel(
                part@,
                i as int,
                a,
            ) && i < e <= part@.len(),
        },
{
    let c = part[i];
    if c == '[' {
        let neg = i + 1 < part.len() && part[i + 1] == '^';
        let start = if neg {
            i + 2
        } else {
            i + 1
        };
        if start > part.len() {
            proof {
                assert(spec_class_from(part@, start as int, Seq::empty()) is None);
            }
            return None;
        }
        match class_from(part, start, Vec::new()) {
            Option::None => None,
            Option::Some((rs, j)) => Some((RxAtom::Class(rs, neg), j)),
        }
    } else if c == ']' || c == '+' || c == '*' || c == '?' {
        None
    } else if c == '.' {
        Some((RxAtom::Any, i + 1))
    } else {
        Some((RxAtom::Ch(c), i + 1))
    }
}

/// Parses a regular-expression segment from `i` on, with the tokens
/// parsed so far in `acc`.
fn rx_parse_go(part: &Vec<char>, i: usize, acc: Vec<RxToken>) -> (r: Option<Vec<RxToken>>)
    requires
        i <= part.len(),
    ensures
        r is None <==> !rx_valid(part@, i as int),
        r matches Some(ts) ==> ts@.len() >= acc@.len() && (forall|m: int|
            0 <= m < acc@.len() ==> ts@[m] == acc@[m]) && rx_parse_rel(
            part@,
            i as int,
            ts@,
            acc@.len() as int,
        ),
    decreases part.len() - i,
{
    if i >= part.len() {
        return Some(acc);
    }
    match parse_atom(part, i) {
        Option::None => None,
        Option::Some((atom, e)) => {
            let (quant, next): (RxQuant, usize) = if e < part.len() && (part[e] == '+' || part[e]
                == '*' || part[e] == '?') {
                let q = if part[e] == '+' {
                    RxQuant::Plus
                } else if part[e] == '*' {
                    RxQuant::Star
                } else {
                    RxQuant::Opt
                };
                (q, e + 1)
            } else {
                (RxQuant::One, e)
            };
            let tok = RxToken { atom, quant };
            let ghost tokg = tok;
            let ghost a0 = acc@;
            let mut acc2 = acc;
            acc2.push(tok);
            let ghost a1 = acc2@;
            let res = rx_parse_go(part, next, acc2);
            proof {
                assert(a1 == a0.push(tokg));
                assert(a0.push(tokg)[a0.len() as int] == tokg);
                assert(a1[a0.len() as int] == tokg);
                match &res {
                    Option::Some(ts) => {
                        let tsg = ts@;
                        assert(tsg.len() >= a1.len());
                        assert(forall|m: int| 0 <= m < a1.len() ==> tsg[m] == a1[m]);
                        assert(tsg[a0.len() as int] == tokg);
                        assert(rx_parse_rel(part@, i as int, tsg, a0.len() as int));
                    },
                    Option::None => {},
                }
            }
            res
        },
    }
}

// ------------------------------------------------------------------
// Splitting keys and templates at the delimiter
// ------------------------------------------------------------------

/// The segments of a string split at `:`. A string always has at least
/// one segment; the empty string has exactly one, itself empty.
pub open spec fn spec_split(s: Seq<char>) -> Seq<Seq<char>>
    decreases s.len(),
{
    if s.len() == 0 {
        seq![Seq::<char>::empty()]
    } else {
        let prev = spec_split(s.drop_last());
        if s.last() == ':' {
            prev.push(Seq::empty())
        } else {
            prev.update(prev.len() - 1, prev.last().push(s.last()))
        }
    }
}

/// A split is never empty.
pub proof fn lemma_split_nonempty(s: Seq<char>)
    ensures
        spec_split(s).len() >= 1,
    decreases s.len(),
{
    if s.len() > 0 {
        lemma_split_nonempty(s.drop_last());
    }
}

/// The views of a vector of character vectors.
pub open spec fn part_views(ps: Seq<Vec<char>>) -> Seq<Seq<char>> {
    ps.map_values(|p: Vec<char>| p@)
}

/// The summed lengths of a sequence of segments.
pub open spec fn sum_lens(ps: Seq<Seq<char>>) -> int
    decreases ps.len(),
{
    if ps.len() == 0 {
        0
    } else {
        sum_lens(ps.drop_last()) + ps.last().len()
    }
}

/// Splitting cannot produce more characters than it was given.
pub proof fn lemma_split_sum(s: Seq<char>)
    ensures
        sum_lens(spec_split(s)) <= s.len(),
    decreases s.len(),
{
    reveal_with_fuel(sum_lens, 3);
    if s.len() == 0 {
        assert(spec_split(s).drop_last() =~= Seq::<Seq<char>>::empty());
    } else {
        lemma_split_sum(s.drop_last());
        lemma_split_nonempty(s.drop_last());
        let prev = spec_split(s.drop_last());
        if s.last() == ':' {
            assert(prev.push(Seq::empty()).drop_last() =~= prev);
        } else {
            let upd = prev.update(prev.len() - 1, prev.last().push(s.last()));
            assert(upd.drop_last() =~= prev.drop_last());
            assert(upd.last() == prev.last().push(s.last()));
        }
    }
}

/// A prefix of a segment sequence sums to no more than the whole.
pub proof fn lemma_sum_take_le(ps: Seq<Seq<char>>, j: int)
    requires
        0 <= j <= ps.len(),
    ensures
        sum_lens(ps.take(j)) <= sum_lens(ps),
    decreases ps.len() - j,
{
    if j == ps.len() {
        assert(ps.take(j) =~= ps);
    } else {
        lemma_sum_take_le(ps, j + 1);
        assert(ps.take(j + 1).drop_last() =~= ps.take(j));
        assert(ps.take(j + 1).last() == ps[j]);
    }
}

/// Extending a prefix by one segment adds that segment's length.
pub proof fn lemma_sum_take_succ(ps: Seq<Seq<char>>, j: int)
    requires
        0 <= j < ps.len(),
    ensures
        sum_lens(ps.take(j + 1)) == sum_lens(ps.take(j)) + ps[j].len(),
{
    assert(ps.take(j + 1).drop_last() =~= ps.take(j));
    assert(ps.take(j + 1).last() == ps[j]);
}

/// Splits a key or template at `:` into its segments.
pub fn split_key(s: &str) -> (parts: Vec<Vec<char>>)
    ensures
        part_views(parts@) == spec_split(s@),
        parts@.len() >= 1,
{
    let n = s.unicode_len();
    let mut parts: Vec<Vec<char>> = Vec::new();
    let mut cur: Vec<char> = Vec::new();
    let mut i: usize = 0;
    proof {
        assert(s@.take(0) =~= Seq::<char>::empty());
        assert(part_views(parts@).push(cur@) =~= spec_split(s@.take(0)));
    }
    while i < n
        invariant
            i <= n,
            n == s@.len(),
            part_views(parts@).push(cur@) == spec_split(s@.take(i as int)),
        decreases n - i,
    {
        let c = s.get_char(i);
        proof {
            assert(s@.take(i + 1).drop_last() =~= s@.take(i as int));
            assert(s@.take(i + 1).last() == s@[i as int]);
            lemma_split_nonempty(s@.take(i as int));
        }
        if c == ':' {
            let ghost old_parts = parts@;
            let ghost old_cur = cur@;
            parts.push(cur);
            cur = Vec::new();
            proof {
                assert(part_views(parts@).push(cur@) =~= part_views(old_parts).push(old_cur).push(
                    Seq::empty(),
                ));
            }
        } else {
            let ghost old_parts = parts@;
            let ghost old_cur = cur@;
            cur.push(c);
            proof {
                let prev = part_views(old_parts).push(old_cur);
                assert(part_views(parts@).push(cur@) =~= prev.update(
                    prev.len() - 1,
                    prev.last().push(c),
                ));
            }
        }
        i += 1;
    }
    proof {
        assert(s@.take(n as int) =~= s@);
    }
    parts.push(cur);
    proof {
        lemma_split_nonempty(s@);
    }
    parts
}

// ------------------------------------------------------------------
// Segments and matching
// ------------------------------------------------------------------

/// One matcher over a single key segment.
#[derive(Debug)]
pub enum Segment {
    /// Matches exactly this text.
    Literal(Vec<char>),
    /// `*`: matches any suffix of remaining segments, the empty one included.
    Wildcard,
    /// `{name}`: matches exactly one segment, captured under the name.
    Variable(Vec<char>),
    /// An anchored regular expression over one segment.
    Regex(Vec<RxToken>),
}

/// Whether one segment matcher accepts one key segment.
pub open spec fn seg_matches(g: Segment, part: Seq<char>) -> bool {
    match g {
        Segment::Literal(t) => part == t@,
        Segment::Wildcard => true,
        Segment::Variable(_) => true,
        Segment::Regex(ts) => rx_matches(ts@, part),
    }
}

/// Whether a segment sequence accepts a split key. A wildcard accepts any
/// remaining suffix, the empty suffix included; every other matcher
/// consumes exactly one key segment.
pub open spec fn segs_match(gs: Seq<Segment>, parts: Seq<Seq<char>>) -> bool
    decreases gs.len(),
{
    if gs.len() == 0 {
        parts.len() == 0
    } else if gs[0] is Wildcard {
        true
    } else {
        parts.len() > 0 && seg_matches(gs[0], parts[0]) && segs_match(gs.skip(1), parts.skip(1))
    }
}

/// Compares two vectors of characters.
fn vec_char_eq(a: &Vec<char>, b: &Vec<char>) -> (r: bool)
    ensures
        r == (a@ == b@),
{
    if a.len() != b.len() {
        return false;
    }
    let mut i: usize = 0;
    while i < a.len()
        invariant
            i <= a.len(),
            a@.len() == b@.len(),
            forall|j: int| 0 <= j < i ==> a@[j] == b@[j],
        decreases a.len() - i,
    {
        if a[i] != b[i] {
            return false;
        }
        i += 1;
    }
    proof {
        assert(a@ =~= b@);
    }
    true
}

/// Copies a vector of characters.
fn vec_char_copy(v: &Vec<char>) -> (r: Vec<char>)
    ensures
        r@ == v@,
{
    let mut r: Vec<char> = Vec::new();
    let mut i: usize = 0;
    while i < v.len()
        invariant
            i <= v.len(),
            r@ == v@.take(i as int),
        decreases v.len() - i,
    {
        r.push(v[i]);
        proof {
            assert(v@.take(i + 1) =~= v@.take(i as int).push(v@[i as int]));
        }
        i += 1;
    }
    proof {
        assert(v@.take(v@.len() as int) =~= v@);
    }
    r
}

fn seg_match_one(g: &Segment, part: &Vec<char>) -> (r: bool)
    ensures
        r == seg_matches(*g, part@),
{
    match g {
        Segment::Literal(t) => vec_char_eq(t, part),
        Segment::Wildcard => true,
        Segment::Variable(_) => true,
        Segment::Regex(ts) => {
            proof {
                assert(ts@.skip(0) =~= ts@);
                assert(part@.skip(0) =~= part@);
            }
            rx_match_at(ts, 0, part, 0)
        },
    }
}

fn segs_match_at(gs: &Vec<Segment>, gi: usize, parts: &Vec<Vec<char>>, pi: usize) -> (r: bool)
    requires
        gi <= gs.len(),
        pi <= parts.len(),
    ensures
        r == segs_match(gs@.skip(gi as int), part_views(parts@).skip(pi as int)),
    decreases gs.len() - gi,
{
    proof {
        if gi < gs.len() {
            assert(gs@.skip(gi as int)[0] == gs@[gi as int]);
            assert(gs@.skip(gi as int).skip(1) =~= gs@.skip(gi as int + 1));
        }
        if pi < parts.len() {
            assert(part_views(parts@).skip(pi as int)[0] == parts@[pi as int]@);
            assert(part_views(parts@).skip(pi as int).skip(1) =~= part_views(parts@).skip(
                pi as int + 1,
            ));
        }
    }
    if gi == gs.len() {
        pi == parts.len()
    } else {
        match &gs[gi] {
            Segment::Wildcard => true,
            _ => pi < parts.len() && seg_match_one(&gs[gi], &parts[pi]) && segs_match_at(
                gs,
                gi + 1,
                parts,
                pi + 1,
            ),
        }
    }
}

// ------------------------------------------------------------------
// Overlap
// ------------------------------------------------------------------

/// Conservative position-wise compatibility: two literals clash exactly
/// when their texts differ; every other pairing is treated as possibly
/// compatible.
pub open spec fn seg_compat(a: Segment, b: Segment) -> bool {
    match (a, b) {
        (Segment::Literal(x), Segment::Literal(y)) => x@ == y@,
        _ => true,
    }
}

/// Conservative overlap of two segment sequences: a key could match both
/// unless a literal position clashes or the lengths cannot agree. False
/// positives are preferred over false negatives — a missed conflict is
/// worse than an over-cautious rejection (see
/// [`lemma_joint_key_implies_overlap`]).
pub open spec fn segs_overlap(a: Seq<Segment>, b: Seq<Segment>) -> bool
    decreases a.len(),
{
    if a.len() > 0 && a[0] is Wildcard {
        true
    } else if b.len() > 0 && b[0] is Wildcard {
        true
    } else if a.len() == 0 && b.len() == 0 {
        true
    } else if a.len() == 0 || b.len() == 0 {
        false
    } else {
        seg_compat(a[0], b[0]) && segs_overlap(a.skip(1), b.skip(1))
    }
}

/// The overlap test is conservative: whenever some key matches two
/// segment sequences, they are reported as overlapping. A missed
/// conflict therefore cannot happen.
pub proof fn lemma_match_both_overlap(a: Seq<Segment>, b: Seq<Segment>, parts: Seq<Seq<char>>)
    requires
        segs_match(a, parts),
        segs_match(b, parts),
    ensures
        segs_overlap(a, b),
    decreases a.len(),
{
    if a.len() > 0 && a[0] is Wildcard {
    } else if b.len() > 0 && b[0] is Wildcard {
    } else if a.len() == 0 {
    } else if b.len() == 0 {
    } else {
        lemma_match_both_overlap(a.skip(1), b.skip(1), parts.skip(1));
    }
}

/// Two sequences that begin with different literal segments never
/// overlap, in either order.
pub proof fn lemma_disjoint_literal_heads(a: Seq<Segment>, b: Seq<Segment>)
    requires
        a.len() > 0,
        b.len() > 0,
        a[0] is Literal,
        b[0] is Literal,
        a[0]->Literal_0@ != b[0]->Literal_0@,
    ensures
        !segs_overlap(a, b),
        !segs_overlap(b, a),
{
}

// ------------------------------------------------------------------
// Compiled patterns
// ------------------------------------------------------------------

/// The literal characters of a segment sequence (its specificity weight).
pub open spec fn spec_lit_chars(gs: Seq<Segment>) -> int
    decreases gs.len(),
{
    if gs.len() == 0 {
        0
    } else {
        spec_lit_chars(gs.drop_last()) + match gs.last() {
            Segment::Literal(t) => t@.len() as int,
            _ => 0,
        }
    }
}

/// The number of non-literal segments of a segment sequence.
pub open spec fn spec_flex(gs: Seq<Segment>) -> int
    decreases gs.len(),
{
    if gs.len() == 0 {
        0
    } else {
        spec_flex(gs.drop_last()) + match gs.last() {
            Segment::Literal(_) => 0int,
            _ => 1int,
        }
    }
}

/// A character that marks a segment as a regular expression.
pub open spec fn is_meta(c: char) -> bool {
    c == '[' || c == ']' || c == '+' || c == '?' || c == '.' || c == '*'
}

/// Whether a part holds any regular-expression metacharacter.
pub open spec fn has_meta(part: Seq<char>) -> bool {
    exists|i: int| 0 <= i < part.len() && is_meta(part[i])
}

/// The relation between one template part and the segment compiled from it.
pub open spec fn seg_from_part(g: Segment, part: Seq<char>) -> bool {
    if part =~= seq!['*'] {
        g is Wildcard
    } else if part.len() > 0 && part[0] == '{' {
        part.len() >= 2 && part.last() == '}' && g is Variable && g->Variable_0@ == part.subrange(
            1,
            part.len() - 1,
        )
    } else if has_meta(part) {
        g is Regex && rx_parse_rel(part, 0, g->Regex_0@, 0)
    } else {
        g is Literal && g->Literal_0@ == part
    }
}

/// Whether one template part is well formed. The wildcard is a trailing
/// construct: a `*` part is accepted only as the last part.
pub open spec fn part_ok(part: Seq<char>, last: bool) -> bool {
    if part =~= seq!['*'] {
        last
    } else if part.len() > 0 && part[0] == '{' {
        part.len() >= 2 && part.last() == '}'
    } else if has_meta(part) {
        rx_valid(part, 0)
    } else {
        true
    }
}

/// Whether a whole template is well formed.
pub open spec fn template_ok(t: Seq<char>) -> bool {
    forall|j: int|
        0 <= j < spec_split(t).len() ==> part_ok(
            #[trigger] spec_split(t)[j],
            j == spec_split(t).len() - 1,
        )
}

/// A pattern template compiled into an ordered sequence of segment
/// matchers over the `:`-split key, together with its specificity
/// weights. Immutable once compiled.
#[derive(Debug)]
pub struct Pattern {
    /// The template text this pattern was compiled from.
    pub template: String,
    /// The segment matchers, one per template part.
    pub segments: Vec<Segment>,
    /// Total count of literal characters (first specificity weight).
    pub lit_chars: usize,
    /// Count of non-literal segments (second specificity weight,
    /// inverted: fewer is more specific).
    pub flex: usize,
}

impl Pattern {
    /// The specificity weights describe the segments.
    pub open spec fn wf(self) -> bool {
        self.lit_chars as int == spec_lit_chars(self.segments@) && self.flex as int == spec_flex(
            self.segments@,
        ) && segs_from_template(self.segments@, self.template@)
    }

    /// Whether this pattern accepts the key.
    pub open spec fn spec_matches(self, key: Seq<char>) -> bool {
        segs_match(self.segments@, spec_split(key))
    }

    /// Whether some key could match both patterns (conservative).
    pub open spec fn spec_overlaps(self, other: Pattern) -> bool {
        segs_overlap(self.segments@, other.segments@)
    }

    /// The specificity order: more literal characters win; on a tie,
    /// fewer wildcard/variable/regex segments win.
    pub open spec fn spec_more_specific(self, other: Pattern) -> bool {
        self.lit_chars > other.lit_chars || (self.lit_chars == other.lit_chars && self.flex
            < other.flex)
    }

    /// Compiles a template. Fails with a strategy error on a malformed
    /// template: an unterminated variable brace or an invalid regular
    /// expression.
    pub fn new(template: &str) -> (r: Result<Pattern, Error>)
        ensures
            r is Ok <==> template_ok(template@),
            r matches Ok(p) ==> p.wf() && p.template@ == template@,
            r matches Err(e) ==> e is StrategyError,
    {
        let parts = split_key(template);
        let n = template.unicode_len();
        proof {
            lemma_split_sum(template@);
        }
        let mut segments: Vec<Segment> = Vec::new();
        let mut lit_chars: usize = 0;
        let mut flex: usize = 0;
        let mut j: usize = 0;
        while j < parts.len()
            invariant
                j <= parts.len(),
                part_views(parts@) == spec_split(template@),
                n == template@.len(),
                sum_lens(part_views(parts@)) <= n,
                segments@.len() == j,
                forall|k: int| 0 <= k < j ==> seg_from_part(
                    #[trigger] segments@[k],
                    part_views(parts@)[k],
                ),
                forall|k: int| 0 <= k < j ==> part_ok(
                    #[trigger] part_views(parts@)[k],
                    k == part_views(parts@).len() - 1,
                ),
                lit_chars as int == spec_lit_chars(segments@),
                lit_chars as int <= sum_lens(part_views(parts@).take(j as int)),
                flex as int == spec_flex(segments@),
                flex <= j,
            decreases parts.len() - j,
        {
            let part = &parts[j];
            proof {
                lemma_sum_take_succ(part_views(parts@), j as int);
                lemma_sum_take_le(part_views(parts@), j as int + 1);
            }
            let ghost old_segments = segments@;
            let is_wild = part.len() == 1 && part[0] == '*';
            if is_wild {
                if j + 1 < parts.len() {
                    proof {
                        assert(part@ =~= seq!['*']);
                        assert(!part_ok(
                            spec_split(template@)[j as int],
                            j == spec_split(template@).len() - 1,
                        ));
                        assert(!template_ok(template@));
                    }
                    return Err(
                        Error::StrategyError(
                            String::from_str("malformed pattern: wildcard segment must be last"),
                        ),
                    );
                }
                segments.push(Segment::Wildcard);
                flex += 1;
                proof {
                    assert(part@ =~= seq!['*']);
                }
            } else if part.len() > 0 && part[0] == '{' {
                if part.len() >= 2 && part[part.len() - 1] == '}' {
                    let mut name: Vec<char> = Vec::new();
                    let mut k: usize = 1;
                    proof {
                        assert(part@.subrange(1, 1) =~= Seq::<char>::empty());
                    }
                    while k < part.len() - 1
                        invariant
                            1 <= k <= part@.len() - 1,
                            name@ == part@.subrange(1, k as int),
                        decreases part.len() - k,
                    {
                        name.push(part[k]);
                        proof {
                            assert(part@.subrange(1, k + 1) =~= part@.subrange(1, k as int).push(
                                part@[k as int],
                            ));
                        }
                        k += 1;
                    }
                    segments.push(Segment::Variable(name));
                    flex += 1;
                } else {
                    proof {
                        assert(!part_ok(
                            spec_split(template@)[j as int],
                            j == spec_split(template@).len() - 1,
                        ));
                        assert(!template_ok(template@));
                    }
                    return Err(
                        Error::StrategyError(
                            String::from_str("malformed pattern: unterminated variable brace"),
                        ),
                    );
                }
            } else {
                let mut meta = false;
                let mut k: usize = 0;
                while k < part.len()
                    invariant
                        k <= part@.len(),
                        meta == exists|m: int| 0 <= m < k && is_meta(part@[m]),
                    decreases part.len() - k,
                {
                    let c = part[k];
                    if c == '[' || c == ']' || c == '+' || c == '?' || c == '.' || c == '*' {
                        meta = true;
                    }
                    k += 1;
                }
                if meta {
                    match rx_parse_go(part, 0, Vec::new()) {
                        Option::Some(ts) => {
                            segments.push(Segment::Regex(ts));
                            flex += 1;
                        },
                        Option::None => {
                            proof {
                                assert(!part_ok(
                                    spec_split(template@)[j as int],
                                    j == spec_split(template@).len() - 1,
                                ));
                                assert(!template_ok(template@));
                            }
                            return Err(
                                Error::StrategyError(
                                    String::from_str("malformed pattern: invalid regex segment"),
                                ),
                            );
                        },
                    }
                } else {
                    let text = vec_char_copy(part);
                    segments.push(Segment::Literal(text));
                    lit_chars += part.len();
                }
            }
            proof {
                assert(segments@.drop_last() =~= old_segments);
            }
            j += 1;
        }
        proof {
            assert(part_views(parts@).take(parts@.len() as int) =~= part_views(parts@));
        }
        Ok(
            Pattern {
                template: String::from_str(template),
                segments,
                lit_chars,
                flex,
            },
        )
    }

    /// Whether this pattern matches the key.
    pub fn matches(&self, key: &str) -> (r: bool)
        ensures
            r == self.spec_matches(key@),
    {
        let parts = split_key(key);
        proof {
            assert(self.segments@.skip(0) =~= self.segments@);
            assert(part_views(parts@).skip(0) =~= part_views(parts@));
        }
        segs_match_at(&self.segments, 0, &parts, 0)
    }

    /// Conservative overlap test against another pattern.
    pub fn overlaps(&self, other: &Pattern) -> (r: bool)
        ensures
            r == self.spec_overlaps(*other),
    {
        proof {
            assert(self.segments@.skip(0) =~= self.segments@);
            assert(other.segments@.skip(0) =~= other.segments@);
        }
        overlap_at(&self.segments, 0, &other.segments, 0)
    }

    /// The specificity order against another pattern.
    pub fn more_specific(&self, other: &Pattern) -> (r: bool)
        ensures
            r == self.spec_more_specific(*other),
    {
        self.lit_chars > other.lit_chars || (self.lit_chars == other.lit_chars && self.flex
            < other.flex)
    }

    /// Filters a caller-supplied key enumeration down to the keys this
    /// pattern matches. The pattern holds no key directory of its own.
    pub fn matching_keys(&self, keys: &Vec<String>) -> (r: Vec<String>)
        ensures
            forall|i: int| 0 <= i < r@.len() ==> #[trigger] self.spec_matches(r@[i]@),
            forall|i: int| 0 <= i < r@.len() ==> keys@.contains(#[trigger] r@[i]),
            forall|i: int| 0 <= i < keys@.len() && self.spec_matches(keys@[i]@) ==> r@.contains(
                #[trigger] keys@[i],
            ),
    {
        let mut r: Vec<String> = Vec::new();
        let mut i: usize = 0;
        while i < keys.len()
            invariant
                i <= keys@.len(),
                forall|k: int| 0 <= k < r@.len() ==> #[trigger] self.spec_matches(r@[k]@),
                forall|k: int| 0 <= k < r@.len() ==> keys@.contains(#[trigger] r@[k]),
                forall|k: int| 0 <= k < i && self.spec_matches(keys@[k]@) ==> r@.contains(
                    #[trigger] keys@[k],
                ),
            decreases keys.len() - i,
        {
            if self.matches(keys[i].as_str()) {
                let ghost old_r = r@;
                r.push(keys[i].clone());
                proof {
                    assert forall|k: int|
                        0 <= k <= i && self.spec_matches(keys@[k]@) implies r@.contains(
                        #[trigger] keys@[k],
                    ) by {
                        if k == i {
                            assert(r@[old_r.len() as int] == keys@[k]);
                        } else {
                            let idx = choose|idx: int|
                                0 <= idx < old_r.len() && old_r[idx] == keys@[k];
                            assert(r@[idx] == keys@[k]);
                        }
                    }
                }
            }
            i += 1;
        }
        r
    }
}

/// The relation between a whole template and the segments compiled from it.
pub open spec fn segs_from_template(gs: Seq<Segment>, t: Seq<char>) -> bool {
    gs.len() == spec_split(t).len() && forall|j: int| 0 <= j < gs.len() ==> seg_from_part(
        #[trigger] gs[j],
        spec_split(t)[j],
    )
}

fn overlap_at(a: &Vec<Segment>, ai: usize, b: &Vec<Segment>, bi: usize) -> (r: bool)
    requires
        ai <= a.len(),
        bi <= b.len(),
    ensures
        r == segs_overlap(a@.skip(ai as int), b@.skip(bi as int)),
    decreases a.len() - ai,
{
    proof {
        if ai < a.len() {
            assert(a@.skip(ai as int)[0] == a@[ai as int]);
            assert(a@.skip(ai as int).skip(1) =~= a@.skip(ai as int + 1));
        }
        if bi < b.len() {
            assert(b@.skip(bi as int)[0] == b@[bi as int]);
            assert(b@.skip(bi as int).skip(1) =~= b@.skip(bi as int + 1));
        }
    }
    if ai < a.len() && matches!(&a[ai], Segment::Wildcard) {
        true
    } else if bi < b.len() && matches!(&b[bi], Segment::Wildcard) {
        true
    } else if ai == a.len() && bi == b.len() {
        true
    } else if ai == a.len() || bi == b.len() {
        false
    } else {
        let compat = match (&a[ai], &b[bi]) {
            (Segment::Literal(x), Segment::Literal(y)) => vec_char_eq(x, y),
            _ => true,
        };
        compat && overlap_at(a, ai + 1, b, bi + 1)
    }
}

/// If any key matches two patterns, the overlap test reports them as
/// overlapping: the approximation can only err towards rejection.
pub proof fn lemma_joint_key_implies_overlap(a: Pattern, b: Pattern, key: Seq<char>)
    requires
        a.spec_matches(key),
        b.spec_matches(key),
    ensures
        a.spec_overlaps(b),
{
    lemma_match_both_overlap(a.segments@, b.segments@, spec_split(key));
}

/// Patterns whose templates begin with distinct literal prefixes are
/// disjoint, whichever way the pair is ordered.
pub proof fn lemma_disjoint_prefix_patterns(a: Pattern, b: Pattern)
    requires
        a.segments@.len() > 0,
        b.segments@.len() > 0,
        a.segments@[0] is Literal,
        b.segments@[0] is Literal,
        a.segments@[0]->Literal_0@ != b.segments@[0]->Literal_0@,
    ensures
        !a.spec_overlaps(b),
        !b.spec_overlaps(a),
{
    lemma_disjoint_literal_heads(a.segments@, b.segments@);
}

// ------------------------------------------------------------------
// The matcher over a registered pattern set
// ------------------------------------------------------------------

/// A pattern whose first segment is a literal different from the key's
/// first segment cannot match the key.
pub proof fn lemma_literal_head_mismatch(p: Pattern, key: Seq<char>)
    requires
        p.segments@.len() > 0,
        p.segments@[0] is Literal,
        p.segments@[0]->Literal_0@ != spec_split(key)[0],
    ensures
        !p.spec_matches(key),
{
    lemma_split_nonempty(key);
}

/// Engine answering whether any registered pattern matches a key. An
/// index keyed by the patterns' first literal segment narrows the
/// candidate set: matching cost scales with the patterns sharing the
/// key's literal prefix plus those with a non-literal head, not with
/// the total registered count.
#[derive(Debug)]
pub struct PatternMatcher {
    /// The registered patterns, in registration order.
    pub patterns: Vec<Pattern>,
    /// The index labels: the distinct first literal segments seen.
    pub labels: Vec<Vec<char>>,
    /// Per label, the indices of the patterns whose first segment is
    /// that literal; aligned with `labels`.
    pub lists: Vec<Vec<usize>>,
    /// The indices of the patterns whose first segment is no literal.
    pub loose: Vec<usize>,
}

/// Whether the pattern's first segment is the given literal text.
pub open spec fn literal_head(p: Pattern, t: Seq<char>) -> bool {
    p.segments@.len() > 0 && p.segments@[0] is Literal && p.segments@[0]->Literal_0@ == t
}

/// Whether the pattern's first segment is a literal at all.
pub open spec fn has_literal_head(p: Pattern) -> bool {
    p.segments@.len() > 0 && p.segments@[0] is Literal
}

impl PatternMatcher {
    /// The index describes the registered patterns: every listed index
    /// stands under its pattern's first literal segment, every loose
    /// index under a non-literal head, and every pattern is listed.
    pub open spec fn index_wf(self) -> bool {
        self.labels@.len() == self.lists@.len() && (forall|bk: int, n: int|
            0 <= bk < self.lists@.len() && 0 <= n < self.lists@[bk].len() ==> (
            #[trigger] self.lists@[bk][n]) < self.patterns@.len() && literal_head(
                self.patterns@[self.lists@[bk][n] as int],
                self.labels@[bk]@,
            )) && (forall|n: int|
            0 <= n < self.loose@.len() ==> (#[trigger] self.loose@[n]) < self.patterns@.len()
                && !has_literal_head(self.patterns@[self.loose@[n] as int])) && (forall|i: int|
            0 <= i < self.patterns@.len() ==> self.indexed(i))
    }

    /// The pattern at `i` is reachable through the index.
    pub open spec fn indexed(self, i: int) -> bool {
        if has_literal_head(self.patterns@[i]) {
            exists|bk: int, n: int|
                0 <= bk < self.lists@.len() && 0 <= n < self.lists@[bk].len() && (
                #[trigger] self.lists@[bk][n]) == i && self.labels@[bk]@
                    == self.patterns@[i].segments@[0]->Literal_0@
        } else {
            exists|n: int| 0 <= n < self.loose@.len() && (#[trigger] self.loose@[n]) == i
        }
    }

    /// An empty matcher.
    pub fn new() -> (r: PatternMatcher)
        ensures
            r.patterns@.len() == 0,
            r.index_wf(),
    {
        PatternMatcher {
            patterns: Vec::new(),
            labels: Vec::new(),
            lists: Vec::new(),
            loose: Vec::new(),
        }
    }

    /// Registers one compiled pattern, filing it under its first
    /// literal segment when it has one.
    pub fn add(&mut self, p: Pattern)
        requires
            old(self).index_wf(),
        ensures
            final(self).patterns@ == old(self).patterns@.push(p),
            final(self).index_wf(),
    {
        let idx = self.patterns.len();
        let has_lit = p.segments.len() > 0 && matches!(&p.segments[0], Segment::Literal(_));
        let ghost self0 = *self;
        self.patterns.push(p);
        proof {
            assert forall|i: int| 0 <= i < self0.patterns@.len() implies self.patterns@[i]
                == self0.patterns@[i] by {}
        }
        if has_lit {
            let text = match &self.patterns[idx].segments[0] {
                Segment::Literal(t) => {
                    let c = vec_char_copy(t);
                    proof {
                        assert(c@ == self.patterns@[idx as int].segments@[0]->Literal_0@);
                    }
                    c
                },
                _ => Vec::new(),
            };
            proof {
                assert(text@ == p.segments@[0]->Literal_0@);
            }
            let mut bk: usize = 0;
            let mut hit = false;
            #[verifier::loop_isolation(false)]
            while bk < self.labels.len()
                invariant
                    bk <= self.labels@.len(),
                    !hit ==> forall|q: int| 0 <= q < bk ==> (#[trigger] self.labels@[q])@ != text@,
                    hit ==> bk < self.labels@.len() && self.labels@[bk as int]@ == text@,
                decreases self.labels.len() - bk,
            {
                if vec_char_eq(&self.labels[bk], &text) {
                    hit = true;
                    break ;
                }
                bk += 1;
            }
            let ghost labels0 = self.labels@;
            let ghost lists0 = self.lists@;
            if hit {
                let lab = self.labels.remove(bk);
                let mut lst = self.lists.remove(bk);
                lst.push(idx);
                self.labels.push(lab);
                self.lists.push(lst);
                proof {
                    let nb = self.labels@.len();
                    assert forall|b2: int, n: int|
                        0 <= b2 < self.lists@.len() && 0 <= n < self.lists@[b2].len() implies (
                        #[trigger] self.lists@[b2][n]) < self.patterns@.len() && literal_head(
                        self.patterns@[self.lists@[b2][n] as int],
                        self.labels@[b2]@,
                    ) by {
                        if b2 < nb - 1 {
                            if b2 < bk {
                                assert(self.lists@[b2] == lists0[b2]);
                                assert(self.labels@[b2] == labels0[b2]);
                            } else {
                                assert(self.lists@[b2] == lists0[b2 + 1]);
                                assert(self.labels@[b2] == labels0[b2 + 1]);
                            }
                        } else {
                            assert(self.labels@[b2] == labels0[bk as int]);
                            assert(self.lists@[b2]@ =~= lists0[bk as int]@.push(idx));
                            if n < lists0[bk as int].len() {
                                assert(self.lists@[b2][n] == lists0[bk as int][n]);
                            } else {
                                assert(self.lists@[b2][n] == idx);
                            }
                        }
                    }
                    assert forall|i: int| 0 <= i < self.patterns@.len() implies self.indexed(
                        i,
                    ) by {
                        if i == idx {
                            assert(self.patterns@[idx as int] == p);
                            assert(has_literal_head(p));
                            assert(self.labels@[nb - 1]@ == text@);
                            assert(self.lists@[nb - 1]@ == lists0[bk as int]@.push(idx));
                            assert(self.lists@[nb - 1][self.lists@[nb - 1].len() - 1] == idx);
                        } else {
                            assert(self0.indexed(i));
                            if has_literal_head(self.patterns@[i]) {
                                let (b2, n): (int, int) = choose|b2: int, n: int|
                                    0 <= b2 < lists0.len() && 0 <= n < lists0[b2].len() && (
                                    #[trigger] lists0[b2][n]) == i && labels0[b2]@
                                        == self.patterns@[i].segments@[0]->Literal_0@;
                                if b2 < bk {
                                    assert(self.lists@[b2][n] == i);
                                    assert(self.labels@[b2] == labels0[b2]);
                                } else if b2 > bk {
                                    assert(self.lists@[b2 - 1][n] == i);
                                    assert(self.labels@[b2 - 1] == labels0[b2]);
                                } else {
                                    assert(self.lists@[nb - 1]@ == lists0[bk as int]@.push(idx));
                                    assert(self.lists@[nb - 1][n] == i);
                                    assert(self.labels@[nb - 1] == labels0[bk as int]);
                                }
                            } else {
                                let n2 = choose|n2: int|
                                    0 <= n2 < self0.loose@.len() && (#[trigger] self0.loose@[n2])
                                        == i;
                                assert(self.loose@[n2] == i);
                            }
                        }
                    }
                }
            } else {
                self.labels.push(text);
                let mut lst: Vec<usize> = Vec::new();
                lst.push(idx);
                self.lists.push(lst);
                proof {
                    let nb = self.labels@.len();
                    assert forall|i: int| 0 <= i < self.patterns@.len() implies self.indexed(
                        i,
                    ) by {
                        if i == idx {
                            assert(self.patterns@[idx as int] == p);
                            assert(has_literal_head(p));
                            assert(self.labels@[nb - 1]@ == text@);
                            assert(self.lists@[nb - 1][0] == idx);
                        } else {
                            assert(self0.indexed(i));
                            if has_literal_head(self.patterns@[i]) {
                                let (b2, n): (int, int) = choose|b2: int, n: int|
                                    0 <= b2 < lists0.len() && 0 <= n < lists0[b2].len() && (
                                    #[trigger] lists0[b2][n]) == i && labels0[b2]@
                                        == self.patterns@[i].segments@[0]->Literal_0@;
                                assert(self.lists@[b2][n] == i);
                                assert(self.labels@[b2] == labels0[b2]);
                            } else {
                                let n2 = choose|n2: int|
                                    0 <= n2 < self0.loose@.len() && (#[trigger] self0.loose@[n2])
                                        == i;
                                assert(self.loose@[n2] == i);
                            }
                        }
                    }
                }
            }
        } else {
            self.loose.push(idx);
            proof {
                assert forall|i: int| 0 <= i < self.patterns@.len() implies self.indexed(i) by {
                    if i == idx {
                        assert(self.patterns@[idx as int] == p);
                        assert(!has_literal_head(p));
                        assert(self.loose@[self.loose@.len() - 1] == idx);
                    } else {
                        assert(self0.indexed(i));
                        if has_literal_head(self.patterns@[i]) {
                            let (b2, n): (int, int) = choose|b2: int, n: int|
                                0 <= b2 < self0.lists@.len() && 0 <= n < self0.lists@[b2].len()
                                    && (#[trigger] self0.lists@[b2][n]) == i && self0.labels@[b2]@
                                    == self.patterns@[i].segments@[0]->Literal_0@;
                            assert(self.lists@[b2][n] == i);
                            assert(self.labels@[b2] == self0.labels@[b2]);
                        } else {
                            let n = choose|n: int|
                                0 <= n < self0.loose@.len() && (#[trigger] self0.loose@[n]) == i;
                            assert(self.loose@[n] == i);
                        }
                    }
                }
            }
        }
    }

    /// The number of registered patterns.
    pub fn len(&self) -> (r: usize)
        ensures
            r == self.patterns@.len(),
    {
        self.patterns.len()
    }

    /// Whether any registered pattern matches the key. Only the
    /// patterns filed under the key's first segment, and those with a
    /// non-literal head, are tried.
    pub fn matches(&self, key: &str) -> (r: bool)
        requires
            self.index_wf(),
        ensures
            r == exists|i: int|
                0 <= i < self.patterns@.len() && (#[trigger] self.patterns@[i]).spec_matches(key@),
    {
        let parts = split_key(key);
        let head = &parts[0];
        proof {
            assert(part_views(parts@)[0] == spec_split(key@)[0]);
        }
        let mut n: usize = 0;
        #[verifier::loop_isolation(false)]
        while n < self.loose.len()
            invariant
                n <= self.loose@.len(),
                head@ == spec_split(key@)[0],
                forall|q: int| 0 <= q < n ==> !self.patterns@[(#[trigger] self.loose@[q]) as int].spec_matches(
                    key@,
                ),
            decreases self.loose.len() - n,
        {
            if self.patterns[self.loose[n]].matches(key) {
                return true;
            }
            n += 1;
        }
        let mut bk: usize = 0;
        #[verifier::loop_isolation(false)]
        while bk < self.labels.len()
            invariant
                bk <= self.labels@.len(),
                head@ == spec_split(key@)[0],
                forall|q: int| 0 <= q < self.loose@.len() ==> !self.patterns@[(
                #[trigger] self.loose@[q]) as int].spec_matches(key@),
                forall|b2: int, m: int|
                    0 <= b2 < bk && 0 <= m < self.lists@[b2].len() ==> !self.patterns@[(
                    #[trigger] self.lists@[b2][m]) as int].spec_matches(key@),
            decreases self.labels.len() - bk,
        {
            if vec_char_eq(&self.labels[bk], head) {
                let lst = &self.lists[bk];
                let mut m: usize = 0;
                #[verifier::loop_isolation(false)]
                while m < lst.len()
                    invariant
                        m <= lst@.len(),
                        lst == self.lists@[bk as int],
                        bk < self.labels@.len(),
                        forall|q: int| 0 <= q < m ==> !self.patterns@[(
                        #[trigger] lst@[q]) as int].spec_matches(key@),
                    decreases lst.len() - m,
                {
                    if self.patterns[lst[m]].matches(key) {
                        return true;
                    }
                    m += 1;
                }
            } else {
                proof {
                    assert forall|m: int|
                        0 <= m < self.lists@[bk as int].len() implies !self.patterns@[(
                    #[trigger] self.lists@[bk as int][m]) as int].spec_matches(key@) by {
                        let i = self.lists@[bk as int][m];
                        lemma_literal_head_mismatch(self.patterns@[i as int], key@);
                    }
                }
            }
            bk += 1;
        }
        proof {
            assert forall|i: int|
                0 <= i < self.patterns@.len() implies !(
            #[trigger] self.patterns@[i]).spec_matches(key@) by {
                assert(self.indexed(i));
                if has_literal_head(self.patterns@[i]) {
                    let (b2, m): (int, int) = choose|b2: int, m: int|
                        0 <= b2 < self.lists@.len() && 0 <= m < self.lists@[b2].len() && (
                        #[trigger] self.lists@[b2][m]) == i && self.labels@[b2]@
                            == self.patterns@[i].segments@[0]->Literal_0@;
                    assert(!self.patterns@[self.lists@[b2][m] as int].spec_matches(key@));
                } else {
                    let n2 = choose|n2: int|
                        0 <= n2 < self.loose@.len() && (#[trigger] self.loose@[n2]) == i;
                    assert(!self.patterns@[self.loose@[n2] as int].spec_matches(key@));
                }
            }
        }
        false
    }
}

/// Two segments that behave alike under the overlap test: the same
/// wildcard-ness and literal-ness, with equal literal text.
pub open spec fn seg_sim(a: Segment, b: Segment) -> bool {
    (a is Wildcard <==> b is Wildcard) && (a is Literal <==> b is Literal) && (a is Literal
        ==> a->Literal_0@ == b->Literal_0@)
}

/// Segment sequences compiled from one template agree, segment by
/// segment, on everything the overlap test reads: compilation
/// determines overlap behaviour.
pub proof fn lemma_template_segs_sim(g1: Seq<Segment>, g2: Seq<Segment>, t: Seq<char>)
    requires
        segs_from_template(g1, t),
        segs_from_template(g2, t),
    ensures
        g1.len() == g2.len(),
        forall|j: int| 0 <= j < g1.len() ==> seg_sim(#[trigger] g1[j], g2[j]),
{
    assert forall|j: int| 0 <= j < g1.len() implies seg_sim(#[trigger] g1[j], g2[j]) by {
        let part = spec_split(t)[j];
        assert(seg_from_part(g1[j], part));
        assert(seg_from_part(g2[j], part));
    }
}

/// The overlap test cannot tell similar segment sequences apart, on
/// either side.
pub proof fn lemma_overlap_sim(a1: Seq<Segment>, a2: Seq<Segment>, b: Seq<Segment>)
    requires
        a1.len() == a2.len(),
        forall|j: int| 0 <= j < a1.len() ==> seg_sim(#[trigger] a1[j], a2[j]),
    ensures
        segs_overlap(a1, b) == segs_overlap(a2, b),
        segs_overlap(b, a1) == segs_overlap(b, a2),
    decreases a1.len() + b.len(),
{
    if a1.len() > 0 && b.len() > 0 {
        assert(seg_sim(a1[0], a2[0]));
        assert forall|j: int| 0 <= j < a1.skip(1).len() implies seg_sim(
            #[trigger] a1.skip(1)[j],
            a2.skip(1)[j],
        ) by {
            assert(a1.skip(1)[j] == a1[j + 1]);
            assert(a2.skip(1)[j] == a2[j + 1]);
        }
        lemma_overlap_sim(a1.skip(1), a2.skip(1), b.skip(1));
    } else if a1.len() > 0 {
        assert(seg_sim(a1[0], a2[0]));
    }
}

/// Well-formed patterns compiled from one template are interchangeable
/// in the overlap test, on either side.
pub proof fn lemma_overlap_template_determined(p1: Pattern, p2: Pattern, q: Pattern)
    requires
        p1.wf(),
        p2.wf(),
        p1.template@ == p2.template@,
    ensures
        p1.spec_overlaps(q) == p2.spec_overlaps(q),
        q.spec_overlaps(p1) == q.spec_overlaps(p2),
{
    lemma_template_segs_sim(p1.segments@, p2.segments@, p1.template@);
    lemma_overlap_sim(p1.segments@, p2.segments@, q.segments@);
}

} // verus!
