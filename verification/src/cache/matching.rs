//! Matching a perceptual hash against the card cache: every cached face is
//! compared by Hamming distance, and the `NUM_MATCHES` closest faces are
//! kept in ascending order of distance.

use arrayvec::ArrayVec;
use core::cmp::Ordering;
use image_hasher::ImageHash;
use vstd::multiset::Multiset;
use vstd::prelude::*;

use crate::cache::card_cache::{CachedCard, CachedFace, CardCache, PHASH_BYTES};

verus! {

broadcast use vstd::std_specs::hash::group_hash_axioms;

/// How many matches a search returns at most.
pub const NUM_MATCHES: usize = 10;

/// A cached face, ready to be compared with a query hash.
#[derive(Clone, Copy, Debug)]
pub struct MatchEntry {
    pub hash: [u8; PHASH_BYTES],
    pub card_id: u128,
    pub face: u8,
}

/// A face found by a search, with its Hamming distance to the query.
#[derive(Clone, Copy, Debug, PartialEq, Eq, Structural)]
pub struct MatchResult {
    pub distance: u32,
    pub card_id: u128,
    pub face: u8,
}

/// Every face of the card cache, ready to be searched.
pub struct MatchDatabase {
    entries: Vec<MatchEntry>,
}

impl MatchResult {
    /// Compares two results by distance alone.
    pub fn cmp(&self, other: &Self) -> (r: Ordering)
        ensures
            (r == Ordering::Less) == (self.distance < other.distance),
            (r == Ordering::Equal) == (self.distance == other.distance),
            (r == Ordering::Greater) == (self.distance > other.distance),
    {
        if self.distance < other.distance {
            Ordering::Less
        } else if self.distance == other.distance {
            Ordering::Equal
        } else {
            Ordering::Greater
        }
    }
}

impl View for MatchDatabase {
    type V = Seq<MatchEntry>;

    closed spec fn view(&self) -> Seq<MatchEntry> {
        self.entries@
    }
}

// ---------------------------------------------------------------------------
// Hamming distance

/// Number of one bits of a byte.
pub open spec fn popcount(x: u8) -> nat
    decreases x,
{
    if x == 0 {
        0
    } else {
        (x % 2) as nat + popcount(x / 2)
    }
}

/// Hamming distance of two byte strings, over the length of the shorter one:
/// the number of bit positions at which they differ.
pub open spec fn hamming(a: Seq<u8>, b: Seq<u8>) -> nat
    decreases a.len(),
{
    if a.len() == 0 || b.len() == 0 {
        0
    } else {
        popcount(a[0] ^ b[0]) + hamming(a.drop_first(), b.drop_first())
    }
}

/// Distance of two perceptual hashes, by `ImageHash::dist` of `image_hasher`.
/// Trusted: `dist` sums `count_ones` of the bytewise XOR over the zipped
/// bytes, which is `hamming`; `from_bytes` accepts any non-empty slice of a
/// boxed hash, and with a `PHASH_BYTES`-byte hash the sum is at most 256.
#[verifier::external_body]
fn hash_distance(a: &[u8], b: &[u8; PHASH_BYTES]) -> (d: u32)
    requires
        0 < a@.len(),
    ensures
        d == hamming(a@, b@),
{
    let a = ImageHash::<Box<[u8]>>::from_bytes(a).unwrap();
    let b = ImageHash::<Box<[u8]>>::from_bytes(b).unwrap();
    a.dist(&b)
}

// ---------------------------------------------------------------------------
// The bounded buffer of best matches

/// `arrayvec::ArrayVec`, the fixed-capacity buffer that holds the best
/// matches; opaque, its contents are named by `best_items`.
#[verifier::external_type_specification]
#[verifier::external_body]
#[verifier::reject_recursive_types(T)]
pub struct ExArrayVec<T, const CAP: usize>(ArrayVec<T, CAP>);

/// The matches held by a buffer, in order.
pub uninterp spec fn best_items(best: ArrayVec<MatchResult, NUM_MATCHES>) -> Seq<MatchResult>;

/// `ArrayVec::new`: an empty buffer.
#[verifier::external_body]
fn best_new() -> (r: ArrayVec<MatchResult, NUM_MATCHES>)
    ensures
        best_items(r) == Seq::<MatchResult>::empty(),
{
    ArrayVec::new()
}

/// `ArrayVec::len`: the number of items, never above the capacity.
#[verifier::external_body]
fn best_len(best: &ArrayVec<MatchResult, NUM_MATCHES>) -> (n: usize)
    ensures
        n == best_items(*best).len(),
        n <= NUM_MATCHES,
{
    best.len()
}

/// `ArrayVec::push` on a buffer that is not full: appends `x`.
#[verifier::external_body]
fn best_push(best: &mut ArrayVec<MatchResult, NUM_MATCHES>, x: MatchResult)
    requires
        best_items(*old(best)).len() < NUM_MATCHES,
    ensures
        best_items(*final(best)) == best_items(*old(best)).push(x),
{
    best.push(x);
}

/// Indexing an `ArrayVec` (through its slice): the item at `i`.
#[verifier::external_body]
fn best_get(best: &ArrayVec<MatchResult, NUM_MATCHES>, i: usize) -> (r: MatchResult)
    requires
        i < best_items(*best).len(),
    ensures
        r == best_items(*best)[i as int],
{
    best[i]
}

/// Assigning through a mutable index of an `ArrayVec`: replaces the item at `i`.
#[verifier::external_body]
fn best_set(best: &mut ArrayVec<MatchResult, NUM_MATCHES>, i: usize, x: MatchResult)
    requires
        i < best_items(*old(best)).len(),
    ensures
        best_items(*final(best)) == best_items(*old(best)).update(i as int, x),
{
    best[i] = x;
}

/// `swap` on the slice of an `ArrayVec`: exchanges the items at `i` and `j`.
#[verifier::external_body]
fn best_swap(best: &mut ArrayVec<MatchResult, NUM_MATCHES>, i: usize, j: usize)
    requires
        i < best_items(*old(best)).len(),
        j < best_items(*old(best)).len(),
    ensures
        best_items(*final(best)) == best_items(*old(best)).update(
            i as int,
            best_items(*old(best))[j as int],
        ).update(j as int, best_items(*old(best))[i as int]),
{
    best.swap(i, j);
}

// ---------------------------------------------------------------------------
// Specification of the search

/// Matches in ascending order of distance.
pub open spec fn sorted_by_distance(s: Seq<MatchResult>) -> bool {
    forall|i: int, j: int| 0 <= i <= j < s.len() ==> s[i].distance <= s[j].distance
}

/// Number of leading matches whose distance is at most `d`: where a new match
/// of distance `d` goes, after the ones that are as close as it.
pub open spec fn insertion_point(s: Seq<MatchResult>, d: u32) -> nat
    decreases s.len(),
{
    if s.len() == 0 {
        0
    } else if s[0].distance <= d {
        1 + insertion_point(s.drop_first(), d)
    } else {
        0
    }
}

/// `s` with `c` inserted after every match that is at least as close.
pub open spec fn insert_sorted(s: Seq<MatchResult>, c: MatchResult) -> Seq<MatchResult> {
    s.insert(insertion_point(s, c.distance) as int, c)
}

/// The first `NUM_MATCHES` matches of `s`.
pub open spec fn keep_best(s: Seq<MatchResult>) -> Seq<MatchResult> {
    if s.len() <= NUM_MATCHES {
        s
    } else {
        s.take(NUM_MATCHES as int)
    }
}

/// The buffer `best` after each match of `ms` is offered to it in turn.
pub open spec fn offer_all(best: Seq<MatchResult>, ms: Seq<MatchResult>) -> Seq<MatchResult>
    decreases ms.len(),
{
    if ms.len() == 0 {
        best
    } else {
        keep_best(insert_sorted(offer_all(best, ms.drop_last()), ms.last()))
    }
}

/// The best matches among `rs`, offered one after the other to an empty buffer.
pub open spec fn best_of(rs: Seq<MatchResult>) -> Seq<MatchResult> {
    offer_all(Seq::empty(), rs)
}

/// `best` holds the nearest matches of `rs`: in ascending order of distance;
/// as many as `rs` has, up to `NUM_MATCHES`; each taken from `rs`, no more
/// often than it occurs there; all of `rs` when it has no more than
/// `NUM_MATCHES`; and no match of `rs` left out is closer than one kept.
pub open spec fn nearest_of(best: Seq<MatchResult>, rs: Seq<MatchResult>) -> bool {
    &&& sorted_by_distance(best)
    &&& best.len() == if rs.len() <= NUM_MATCHES {
        rs.len()
    } else {
        NUM_MATCHES as nat
    }
    &&& forall|x: MatchResult| best.to_multiset().count(x) <= rs.to_multiset().count(x)
    &&& rs.len() <= NUM_MATCHES ==> best.to_multiset() == rs.to_multiset()
    &&& forall|x: MatchResult, j: int|
        best.to_multiset().count(x) < rs.to_multiset().count(x) && 0 <= j < best.len()
            ==> best[j].distance <= x.distance
}

/// The result of comparing a query hash with one entry.
pub open spec fn match_result_for(hash: Seq<u8>, e: MatchEntry) -> MatchResult {
    MatchResult { distance: hamming(hash, e.hash@) as u32, card_id: e.card_id, face: e.face }
}

/// The results of comparing a query hash with each entry, in order.
pub open spec fn results_for(hash: Seq<u8>, es: Seq<MatchEntry>) -> Seq<MatchResult> {
    es.map_values(|e: MatchEntry| match_result_for(hash, e))
}

/// The entries of one card: one per face, in the order of its faces.
pub open spec fn card_entries(card: CachedCard) -> Seq<MatchEntry> {
    card.faces@.map_values(
        |f: CachedFace| MatchEntry { hash: f.phash, card_id: card.id, face: f.face },
    )
}

/// The entries of the given cards, card after card.
pub open spec fn cards_entries(cards: Seq<CachedCard>) -> Seq<MatchEntry>
    decreases cards.len(),
{
    if cards.len() == 0 {
        Seq::empty()
    } else {
        cards_entries(cards.drop_last()) + card_entries(cards.last())
    }
}

/// The identifiers and cards of a cache in the order in which its iterator
/// yields them.
pub open spec fn cache_pairs(cache: CardCache) -> Seq<(u128, CachedCard)> {
    vstd::std_specs::hash::into_iter(vstd::std_specs::hash::spec_hash_map_iter(&cache))
}

/// The cards of a cache in the order in which its iterator yields them.
pub open spec fn cache_cards(cache: CardCache) -> Seq<CachedCard> {
    cache_pairs(cache).map_values(|p: (u128, CachedCard)| p.1)
}

/// The iteration order lists every card of the cache exactly once, under its key.
pub open spec fn lists_each_card_once(cache: CardCache) -> bool {
    let ps = cache_pairs(cache);
    &&& ps.len() == cache@.dom().len()
    &&& forall|i: int|
        0 <= i < ps.len() ==> cache@.contains_key(#[trigger] ps[i].0) && cache@[ps[i].0]
            == ps[i].1
    &&& forall|k: u128| #[trigger] cache@.contains_key(k) ==> exists|i: int| 0 <= i < ps.len() && ps[i].0 == k
    &&& forall|i: int, j: int| 0 <= i < j < ps.len() ==> #[trigger] ps[i].0 != #[trigger] ps[j].0
}

// ---------------------------------------------------------------------------
// Proofs about insertion

proof fn lemma_insertion_point(s: Seq<MatchResult>, d: u32)
    requires
        sorted_by_distance(s),
    ensures
        insertion_point(s, d) <= s.len(),
        forall|j: int| 0 <= j < insertion_point(s, d) ==> s[j].distance <= d,
        forall|j: int| insertion_point(s, d) <= j < s.len() ==> s[j].distance > d,
    decreases s.len(),
{
    if s.len() > 0 {
        let rest = s.drop_first();
        lemma_insertion_point(rest, d);
        if s[0].distance <= d {
            assert forall|j: int| 0 <= j < insertion_point(s, d) implies s[j].distance <= d by {
                if j > 0 {
                    assert(s[j] == rest[j - 1]);
                }
            }
            assert forall|j: int| insertion_point(s, d) <= j < s.len() implies s[j].distance
                > d by {
                assert(s[j] == rest[j - 1]);
            }
        }
    }
}

/// A position that splits `s` into the matches at most `d` and those above it
/// is the insertion point.
proof fn lemma_insertion_point_unique(s: Seq<MatchResult>, d: u32, p: int)
    requires
        0 <= p <= s.len(),
        forall|j: int| 0 <= j < p ==> s[j].distance <= d,
        forall|j: int| p <= j < s.len() ==> s[j].distance > d,
    ensures
        insertion_point(s, d) == p,
    decreases s.len(),
{
    if s.len() > 0 && p > 0 {
        let rest = s.drop_first();
        assert forall|j: int| 0 <= j < p - 1 implies rest[j].distance <= d by {
            assert(rest[j] == s[j + 1]);
        }
        assert forall|j: int| p - 1 <= j < rest.len() implies rest[j].distance > d by {
            assert(rest[j] == s[j + 1]);
        }
        lemma_insertion_point_unique(rest, d, p - 1);
    }
}

proof fn lemma_insert_sorted(s: Seq<MatchResult>, c: MatchResult)
    requires
        sorted_by_distance(s),
    ensures
        sorted_by_distance(insert_sorted(s, c)),
        insert_sorted(s, c).len() == s.len() + 1,
        insert_sorted(s, c).to_multiset() == s.to_multiset().insert(c),
{
    let p = insertion_point(s, c.distance) as int;
    lemma_insertion_point(s, c.distance);
    s.insert_ensures(p, c);
    vstd::seq_lib::to_multiset_insert(s, p, c);
    let u = insert_sorted(s, c);
    assert forall|i: int, j: int| 0 <= i <= j < u.len() implies u[i].distance
        <= u[j].distance by {
        if j < p {
        } else if j == p {
        } else if i < p {
            assert(u[j] == s[j - 1]);
        } else if i == p {
            assert(u[j] == s[j - 1]);
        } else {
            assert(u[i] == s[i - 1]);
            assert(u[j] == s[j - 1]);
        }
    }
}

proof fn lemma_take_sorted(s: Seq<MatchResult>, n: int)
    requires
        sorted_by_distance(s),
        0 <= n <= s.len(),
    ensures
        sorted_by_distance(s.take(n)),
{
}

// ---------------------------------------------------------------------------
// Laws of the search

/// Offering one more match to a buffer that holds the nearest matches of `rs`
/// gives the nearest matches of `rs` followed by that match.
proof fn lemma_offer_keeps_nearest(t: Seq<MatchResult>, rs: Seq<MatchResult>, c: MatchResult)
    requires
        nearest_of(t, rs),
    ensures
        nearest_of(keep_best(insert_sorted(t, c)), rs.push(c)),
{
    broadcast use vstd::seq_lib::to_multiset_build;
    broadcast use vstd::multiset::group_multiset_axioms;

    let all = rs.push(c);
    lemma_insert_sorted(t, c);
    let u = insert_sorted(t, c);
    assert(all.to_multiset() =~= rs.to_multiset().insert(c));
    if u.len() <= NUM_MATCHES {
        assert(keep_best(u) == u);
        assert(t.to_multiset() == rs.to_multiset());
        assert(u.to_multiset() =~= all.to_multiset());
    } else {
        let n = NUM_MATCHES as int;
        let t2 = u.take(n);
        assert(keep_best(u) == t2);
        lemma_take_sorted(u, n);
        assert(u.remove(n) == t2);
        vstd::seq_lib::to_multiset_remove(u, n);
        assert forall|x: MatchResult| t2.to_multiset().count(x) <= all.to_multiset().count(x) by {
            assert(t.to_multiset().count(x) <= rs.to_multiset().count(x));
        }
        assert forall|x: MatchResult, j: int|
            t2.to_multiset().count(x) < all.to_multiset().count(x) && 0 <= j
                < t2.len() implies t2[j].distance <= x.distance by {
            assert(t2[j] == u[j]);
            if x == u[n] {
            } else {
                // x was already left out before c was offered
                assert(t.to_multiset().count(x) < rs.to_multiset().count(x));
                let p = insertion_point(t, c.distance) as int;
                lemma_insertion_point(t, c.distance);
                t.insert_ensures(p, c);
                if p == n {
                    assert(u[j] == t[j]);
                } else {
                    assert(u[n] == t[n - 1]);
                    assert(u[j].distance <= u[n].distance);
                }
            }
        }
    }
}

/// Offering the matches of `ms` in turn to a buffer that holds the nearest
/// matches of `rs` gives the nearest matches of `rs + ms`.
proof fn lemma_offer_all_nearest(t: Seq<MatchResult>, rs: Seq<MatchResult>, ms: Seq<MatchResult>)
    requires
        nearest_of(t, rs),
    ensures
        nearest_of(offer_all(t, ms), rs + ms),
    decreases ms.len(),
{
    if ms.len() == 0 {
        assert(rs + ms =~= rs);
    } else {
        let init = ms.drop_last();
        lemma_offer_all_nearest(t, rs, init);
        lemma_offer_keeps_nearest(offer_all(t, init), rs + init, ms.last());
        assert((rs + init).push(ms.last()) =~= rs + ms);
    }
}

/// A multiset contained in another is no larger.
proof fn lemma_subset_len(a: Multiset<MatchResult>, b: Multiset<MatchResult>)
    requires
        a.subset_of(b),
    ensures
        a.len() <= b.len(),
{
    vstd::multiset::axiom_len_sub(b, a);
}

/// The nearest matches of `rs + tb`, where `tb` holds the nearest matches of
/// `b`, are the nearest matches of `rs + b`.
proof fn lemma_lift_nearest(
    m: Seq<MatchResult>,
    rs: Seq<MatchResult>,
    tb: Seq<MatchResult>,
    b: Seq<MatchResult>,
)
    requires
        nearest_of(m, rs + tb),
        nearest_of(tb, b),
    ensures
        nearest_of(m, rs + b),
{
    broadcast use vstd::multiset::group_multiset_axioms;
    broadcast use vstd::seq_lib::to_multiset_len;
    broadcast use vstd::seq_lib::to_multiset_contains;

    vstd::seq_lib::lemma_multiset_commutative(rs, tb);
    vstd::seq_lib::lemma_multiset_commutative(rs, b);
    let mm = m.to_multiset();
    let ma = rs.to_multiset();
    let mt = tb.to_multiset();
    let mb = b.to_multiset();
    assert forall|x: MatchResult, j: int|
        mm.count(x) < (rs + b).to_multiset().count(x) && 0 <= j < m.len() implies m[j].distance
        <= x.distance by {
        if mm.count(x) < (rs + tb).to_multiset().count(x) {
        } else {
            // x was left out of `tb`: then `tb` is full, and all of it is at
            // most as far as x
            assert(mt.count(x) < mb.count(x));
            assert(tb.len() == NUM_MATCHES);
            if m[j].distance > x.distance {
                let z = m[j];
                assert forall|y: MatchResult| mt.count(y) <= mm.remove(z).count(y) by {
                    if mt.count(y) > 0 {
                        assert(tb.contains(y));
                        let i = choose|i: int| 0 <= i < tb.len() && tb[i] == y;
                        assert(tb[i].distance <= x.distance);
                        if mm.count(y) < (rs + tb).to_multiset().count(y) {
                            assert(m[j].distance <= y.distance);
                        }
                    }
                }
                assert(m.contains(z));
                vstd::multiset::axiom_len_sub(mm, Multiset::singleton(z));
                lemma_subset_len(mt, mm.remove(z));
            }
        }
    }
}

/// What a search returns: the nearest matches of the results for all the
/// entries (see `nearest_of`).
pub proof fn best_of_is_nearest(rs: Seq<MatchResult>)
    ensures
        nearest_of(best_of(rs), rs),
{
    let e = Seq::<MatchResult>::empty();
    lemma_offer_all_nearest(e, e, rs);
    assert(e + rs =~= rs);
}

/// A search split in two: merging the buffers that hold the nearest matches
/// of two parts (`merge_best`) gives the nearest matches of both parts
/// together, whichever way the entries were split.
pub proof fn merged_best_is_nearest(
    ta: Seq<MatchResult>,
    a: Seq<MatchResult>,
    tb: Seq<MatchResult>,
    b: Seq<MatchResult>,
)
    requires
        nearest_of(ta, a),
        nearest_of(tb, b),
    ensures
        nearest_of(offer_all(ta, tb), a + b),
{
    lemma_offer_all_nearest(ta, a, tb);
    lemma_lift_nearest(offer_all(ta, tb), a, tb, b);
}

// ---------------------------------------------------------------------------
// Executable search

/// Offers `candidate` to a buffer kept in ascending order of distance: while
/// the buffer is not full the candidate is inserted after every match that is
/// at least as close; once it is full, a candidate closer than the last match
/// replaces it and moves to its place, and any other candidate is dropped.
pub fn insert_best(best: &mut ArrayVec<MatchResult, NUM_MATCHES>, candidate: MatchResult)
    requires
        sorted_by_distance(best_items(*old(best))),
    ensures
        best_items(*final(best)) == keep_best(insert_sorted(best_items(*old(best)), candidate)),
        sorted_by_distance(best_items(*final(best))),
{
    let ghost s = best_items(*best);
    let ghost d = candidate.distance;
    proof {
        lemma_insertion_point(s, d);
        lemma_insert_sorted(s, candidate);
    }
    let len = best_len(best);
    let mut i: usize;
    let ghost base: Seq<MatchResult>;
    if len < NUM_MATCHES {
        best_push(best, candidate);
        i = len;
        proof {
            base = s;
        }
    } else {
        let worst = best_get(best, NUM_MATCHES - 1);
        if candidate.distance >= worst.distance {
            proof {
                lemma_insertion_point_unique(s, d, s.len() as int);
                assert(insert_sorted(s, candidate).take(NUM_MATCHES as int) == s);
            }
            return;
        }
        best_set(best, NUM_MATCHES - 1, candidate);
        i = NUM_MATCHES - 1;
        proof {
            base = s.take(NUM_MATCHES - 1);
        }
    }
    assert(best_items(*best) == base.take(i as int).push(candidate) + base.skip(i as int));
    while i > 0
        invariant
            0 <= i <= base.len(),
            sorted_by_distance(base),
            base.len() <= s.len(),
            forall|j: int| 0 <= j < base.len() ==> base[j] == s[j],
            best_items(*best) == base.take(i as int).push(candidate) + base.skip(i as int),
            forall|j: int| i <= j < base.len() ==> base[j].distance > candidate.distance,
            forall|j: int| base.len() <= j < s.len() ==> s[j].distance > candidate.distance,
        ensures
            forall|j: int| 0 <= j < i ==> base[j].distance <= candidate.distance,
        decreases i,
    {
        let prev = best_get(best, i - 1);
        assert(prev == base[i - 1]);
        if prev.distance <= candidate.distance {
            break;
        }
        best_swap(best, i, i - 1);
        i = i - 1;
        assert(best_items(*best) =~= base.take(i as int).push(candidate) + base.skip(i as int));
    }
    proof {
        lemma_insertion_point_unique(base, d, i as int);
        lemma_insertion_point_unique(s, d, i as int);
        assert(best_items(*best) =~= keep_best(insert_sorted(s, candidate)));
    }
}

/// An empty buffer of best matches, to offer matches to with `insert_best`.
pub fn new_best_buffer() -> (r: ArrayVec<MatchResult, NUM_MATCHES>)
    ensures
        best_items(r) == Seq::<MatchResult>::empty(),
        sorted_by_distance(best_items(r)),
{
    best_new()
}

/// The items of a buffer as a vector, in order.
pub fn best_to_vec(best: &ArrayVec<MatchResult, NUM_MATCHES>) -> (r: Vec<MatchResult>)
    ensures
        r@ == best_items(*best),
{
    let n = best_len(best);
    let mut r: Vec<MatchResult> = Vec::new();
    for i in 0..n
        invariant
            n == best_items(*best).len(),
            r@ == best_items(*best).take(i as int),
    {
        let x = best_get(best, i);
        r.push(x);
        assert(r@ =~= best_items(*best).take(i + 1));
    }
    assert(r@ =~= best_items(*best));
    r
}

impl MatchDatabase {
    /// An entry for each face of each cached card, card after card in the
    /// order in which the cache's iterator yields the cards.
    pub fn from_cache(cache: &CardCache) -> (r: Self)
        ensures
            r@ == cards_entries(cache_cards(*cache)),
            lists_each_card_once(*cache),
    {
        let mut entries: Vec<MatchEntry> = Vec::new();
        let ghost cards = cache_cards(*cache);
        let iter0 = cache.iter();
        proof {
            let v = vstd::std_specs::iter::IteratorSpec::remaining(&iter0);
            let ps = cache_pairs(*cache);
            assert(ps == v.unref());
            assert forall|k: u128| #[trigger] cache@.contains_key(k) implies exists|i: int| 0 <= i < ps.len() && ps[i].0 == k by {
                assert(v.contains((&k, &cache@[k])));
                let i = choose|i: int| 0 <= i < v.len() && v[i] == (&k, &cache@[k]);
                assert(ps[i].0 == k);
            }
            assert forall|i: int, j: int| 0 <= i < j < ps.len() implies #[trigger] ps[i].0 != #[trigger] ps[j].0 by {
                if ps[i].0 == ps[j].0 {
                    assert(cache@.contains_key(*v[i].0));
                    assert(cache@.contains_key(*v[j].0));
                    assert(v[i] == v[j]);
                }
            }
        }
        for pair in it: iter0
            invariant
                it.seq().len() == cards.len(),
                forall|k: int| 0 <= k < cards.len() ==> cards[k] == *it.seq()[k].1,
                entries@ == cards_entries(cards.take(it.index() as int)),
        {
            let card = pair.1;
            let ghost before = entries@;
            let nf = card.faces.len();
            for j in 0..nf
                invariant
                    nf == card.faces@.len(),
                    entries@ == before + card_entries(*card).take(j as int),
            {
                let f = &card.faces[j];
                entries.push(MatchEntry { hash: f.phash, card_id: card.id, face: f.face });
                assert(entries@ =~= before + card_entries(*card).take(j + 1));
            }
            assert(card_entries(*card).take(nf as int) =~= card_entries(*card));
            assert(cards.take(it.index() + 1).drop_last() =~= cards.take(it.index() as int));
        }
        assert(cards.take(cards.len() as int) =~= cards);
        MatchDatabase { entries }
    }

    /// The number of entries.
    pub fn len(&self) -> (n: usize)
        ensures
            n == self@.len(),
    {
        self.entries.len()
    }

    /// The buffer of the `NUM_MATCHES` entries closest to `hash` among the
    /// entries from `start` up to `end`: those entries are offered to
    /// `insert_best` one after the other. A search can be split into parts
    /// whose buffers are then merged with `merge_best` (see
    /// `merged_best_is_nearest`).
    pub fn best_matches_in(&self, hash: &[u8], start: usize, end: usize) -> (r: ArrayVec<
        MatchResult,
        NUM_MATCHES,
    >)
        requires
            start <= end <= self@.len(),
        ensures
            best_items(r) == best_of(results_for(hash@, self@).subrange(start as int, end as int)),
            nearest_of(best_items(r), results_for(hash@, self@).subrange(start as int, end as int)),
    {
        let ghost rs = results_for(hash@, self@).subrange(start as int, end as int);
        let mut best = best_new();
        for i in start..end
            invariant
                start <= end <= self.entries@.len(),
                rs == results_for(hash@, self@).subrange(start as int, end as int),
                best_items(best) == best_of(rs.take(i - start)),
                sorted_by_distance(best_items(best)),
        {
            let entry = &self.entries[i];
            // an empty hash differs from no entry: distance 0, as `dist` counts
            // over the shorter hash
            let distance = if hash.len() == 0 {
                0
            } else {
                hash_distance(hash, &entry.hash)
            };
            let candidate = MatchResult { distance, card_id: entry.card_id, face: entry.face };
            proof {
                assert(rs.take(i + 1 - start).drop_last() =~= rs.take(i - start));
                assert(candidate == rs[i - start]);
            }
            insert_best(&mut best, candidate);
        }
        proof {
            assert(rs.take(end - start) =~= rs);
            best_of_is_nearest(rs);
        }
        best
    }

    /// The `NUM_MATCHES` entries closest to `hash` (any length; distances are
    /// counted over the shorter of the two hashes), in ascending order of
    /// distance, each with its distance: the entries are offered to
    /// `insert_best` one after the other (see `best_of_is_nearest`).
    pub fn best_matches(&self, hash: &[u8]) -> (r: Vec<MatchResult>)
        ensures
            r@ == best_of(results_for(hash@, self@)),
    {
        let best = self.best_matches_in(hash, 0, self.entries.len());
        proof {
            assert(results_for(hash@, self@).subrange(0, self@.len() as int) =~= results_for(
                hash@,
                self@,
            ));
        }
        best_to_vec(&best)
    }
}

/// Merges two buffers of best matches, as the parts of a split search are
/// combined: each match of `other` is offered to `best` in turn (see
/// `merged_best_is_nearest`).
pub fn merge_best(best: &mut ArrayVec<MatchResult, NUM_MATCHES>, other: &ArrayVec<MatchResult, NUM_MATCHES>)
    requires
        sorted_by_distance(best_items(*old(best))),
    ensures
        best_items(*final(best)) == offer_all(best_items(*old(best)), best_items(*other)),
        sorted_by_distance(best_items(*final(best))),
{
    let ghost start = best_items(*best);
    let ghost ms = best_items(*other);
    let n = best_len(other);
    for i in 0..n
        invariant
            n == ms.len(),
            ms == best_items(*other),
            best_items(*best) == offer_all(start, ms.take(i as int)),
            sorted_by_distance(best_items(*best)),
    {
        let m = best_get(other, i);
        proof {
            assert(ms.take(i + 1).drop_last() =~= ms.take(i as int));
        }
        insert_best(best, m);
    }
    assert(ms.take(n as int) =~= ms);
}

} // verus!
