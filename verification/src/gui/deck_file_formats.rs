//! Deck lists and the file formats they are exported to.

use core::cmp::Ordering;
use vstd::prelude::*;

use crate::cache::card_cache::CachedCard;
use crate::text::{
    compare_str, decimal, decimal_reads_back, digits_value, is_digit, lex_less,
    lex_less_irreflexive, lex_less_total, lex_less_transitive, push_decimal, push_str,
};

verus! {

/// The collection tracker a deck file is written for.
#[derive(PartialEq, Eq, Structural, Clone, Copy, Debug)]
pub enum DeckFileFormat {
    Moxfield,
    Archidekt,
}

/// The finish of a card; ordered `Nonfoil`, `Foil`, `Etched`.
#[derive(Debug, Clone, Copy, PartialEq, Eq, Structural, PartialOrd, Ord)]
pub enum FoilType {
    Nonfoil,
    Foil,
    Etched,
}

/// A card of a deck list: how many copies, and in which finish.
pub struct DeckCard {
    pub card: CachedCard,
    pub count: u32,
    pub foil_type: FoilType,
}

/// A deck list, in the order in which cards were added or sorted.
pub struct DeckList {
    pub cards: Vec<DeckCard>,
}

// ---------------------------------------------------------------------------
// Identity and order of deck cards

/// Position of a finish in the order `Nonfoil`, `Foil`, `Etched`.
pub open spec fn foil_rank(f: FoilType) -> int {
    match f {
        FoilType::Nonfoil => 0,
        FoilType::Foil => 1,
        FoilType::Etched => 2,
    }
}

fn foil_rank_exec(f: FoilType) -> (r: u8)
    ensures
        r == foil_rank(f),
{
    match f {
        FoilType::Nonfoil => 0,
        FoilType::Foil => 1,
        FoilType::Etched => 2,
    }
}

/// Two deck cards are the same entry when they are the same card in the
/// same finish.
pub open spec fn same_entry(a: DeckCard, b: DeckCard) -> bool {
    a.card.id == b.card.id && a.foil_type == b.foil_type
}

impl PartialEq for DeckCard {
    fn eq(&self, other: &Self) -> (r: bool) {
        self.card.id == other.card.id && self.foil_type == other.foil_type
    }
}

impl vstd::std_specs::cmp::PartialEqSpecImpl for DeckCard {
    open spec fn obeys_eq_spec() -> bool {
        true
    }

    open spec fn eq_spec(&self, other: &Self) -> bool {
        same_entry(*self, *other)
    }
}

impl Eq for DeckCard {

}

/// Deck cards are ordered by card name, then card identifier, then finish.
pub open spec fn deck_card_less(a: DeckCard, b: DeckCard) -> bool {
    ||| lex_less(a.card.name@, b.card.name@)
    ||| (a.card.name@ == b.card.name@ && a.card.id < b.card.id)
    ||| (a.card.name@ == b.card.name@ && a.card.id == b.card.id && foil_rank(a.foil_type)
        < foil_rank(b.foil_type))
}

/// Deck cards that neither order puts first: same name, card and finish.
pub open spec fn same_sort_key(a: DeckCard, b: DeckCard) -> bool {
    a.card.name@ == b.card.name@ && a.card.id == b.card.id && a.foil_type == b.foil_type
}

/// The order of deck cards is a strict total order on sort keys.
pub proof fn deck_card_order(a: DeckCard, b: DeckCard, c: DeckCard)
    ensures
        !deck_card_less(a, a),
        !(deck_card_less(a, b) && deck_card_less(b, a)),
        deck_card_less(a, b) || deck_card_less(b, a) || same_sort_key(a, b),
        same_sort_key(a, b) ==> !deck_card_less(a, b),
        deck_card_less(a, b) && deck_card_less(b, c) ==> deck_card_less(a, c),
        deck_card_less(a, b) && same_sort_key(b, c) ==> deck_card_less(a, c),
        same_sort_key(a, b) && deck_card_less(b, c) ==> deck_card_less(a, c),
{
    lex_less_irreflexive(a.card.name@);
    lex_less_total(a.card.name@, b.card.name@);
    lex_less_total(b.card.name@, c.card.name@);
    lex_less_total(a.card.name@, c.card.name@);
    if lex_less(a.card.name@, b.card.name@) && lex_less(b.card.name@, c.card.name@) {
        lex_less_transitive(a.card.name@, b.card.name@, c.card.name@);
    }
    if !same_sort_key(a, b) && !deck_card_less(a, b) && !deck_card_less(b, a) {
        assert(foil_rank(a.foil_type) == foil_rank(b.foil_type));
    }
}

/// `b` does not come before `a`.
pub open spec fn deck_card_le(a: DeckCard, b: DeckCard) -> bool {
    !deck_card_less(b, a)
}

proof fn lemma_le_trans(a: DeckCard, b: DeckCard, c: DeckCard)
    requires
        deck_card_le(a, b),
        deck_card_le(b, c),
    ensures
        deck_card_le(a, c),
{
    deck_card_order(a, b, c);
    deck_card_order(c, a, b);
    deck_card_order(b, c, a);
    deck_card_order(a, c, b);
    deck_card_order(c, b, a);
}

impl DeckCard {
    /// Compares two deck cards by name, then card identifier, then finish.
    pub fn cmp(&self, other: &Self) -> (r: Ordering)
        ensures
            (r == Ordering::Less) == deck_card_less(*self, *other),
            (r == Ordering::Equal) == same_sort_key(*self, *other),
            (r == Ordering::Greater) == deck_card_less(*other, *self),
    {
        proof {
            deck_card_order(*self, *other, *self);
            lex_less_total(self.card.name@, other.card.name@);
        }
        let by_name = compare_str(self.card.name.as_str(), other.card.name.as_str());
        if by_name < 0 {
            return Ordering::Less;
        }
        if by_name > 0 {
            return Ordering::Greater;
        }
        if self.card.id < other.card.id {
            return Ordering::Less;
        }
        if self.card.id > other.card.id {
            return Ordering::Greater;
        }
        let fa = foil_rank_exec(self.foil_type);
        let fb = foil_rank_exec(other.foil_type);
        if fa < fb {
            Ordering::Less
        } else if fa > fb {
            Ordering::Greater
        } else {
            Ordering::Equal
        }
    }
}

/// Whether `a` comes strictly before `b`.
fn card_less(a: &DeckCard, b: &DeckCard) -> (r: bool)
    ensures
        r == deck_card_less(*a, *b),
{
    let by_name = compare_str(a.card.name.as_str(), b.card.name.as_str());
    if by_name != 0 {
        return by_name < 0;
    }
    if a.card.id != b.card.id {
        return a.card.id < b.card.id;
    }
    foil_rank_exec(a.foil_type) < foil_rank_exec(b.foil_type)
}

// ---------------------------------------------------------------------------
// Deck lists

/// Whether `dc` is the entry of card `id` in finish `foil`.
pub open spec fn is_entry(dc: DeckCard, id: u128, foil: FoilType) -> bool {
    dc.card.id == id && dc.foil_type == foil
}

/// Position of the first entry of card `id` in finish `foil`; the length of
/// `s` when there is none.
pub open spec fn entry_position(s: Seq<DeckCard>, id: u128, foil: FoilType) -> nat
    decreases s.len(),
{
    if s.len() == 0 {
        0
    } else if is_entry(s[0], id, foil) {
        0
    } else {
        1 + entry_position(s.drop_first(), id, foil)
    }
}

/// A deck card with another count.
pub open spec fn with_count(dc: DeckCard, count: u32) -> DeckCard {
    DeckCard { card: dc.card, count, foil_type: dc.foil_type }
}

/// The deck list after adding one copy of `card` in finish `foil`: the first
/// entry of that card and finish counts one more copy, or, if there is none,
/// a new entry with one copy is appended.
pub open spec fn deck_add(s: Seq<DeckCard>, card: CachedCard, foil: FoilType) -> Seq<DeckCard> {
    let p = entry_position(s, card.id, foil);
    if p < s.len() {
        s.update(p as int, with_count(s[p as int], (s[p as int].count + 1) as u32))
    } else {
        s.push(DeckCard { card, count: 1, foil_type: foil })
    }
}

/// Whether adding a copy of card `id` in finish `foil` keeps every count
/// within `u32`.
pub open spec fn can_add(s: Seq<DeckCard>, id: u128, foil: FoilType) -> bool {
    entry_position(s, id, foil) < s.len() ==> s[entry_position(s, id, foil) as int].count
        < u32::MAX
}

/// Total number of copies in a deck list.
pub open spec fn total_count(s: Seq<DeckCard>) -> int
    decreases s.len(),
{
    if s.len() == 0 {
        0
    } else {
        total_count(s.drop_last()) + s.last().count
    }
}

/// No two entries are the same card in the same finish.
pub open spec fn unique_entries(s: Seq<DeckCard>) -> bool {
    forall|i: int, j: int| 0 <= i < j < s.len() ==> !same_entry(s[i], s[j])
}

/// Entries in ascending order.
pub open spec fn deck_sorted(s: Seq<DeckCard>) -> bool {
    forall|i: int, j: int| 0 <= i < j < s.len() ==> deck_card_le(s[i], s[j])
}

proof fn lemma_entry_position(s: Seq<DeckCard>, id: u128, foil: FoilType)
    ensures
        entry_position(s, id, foil) <= s.len(),
        forall|j: int| 0 <= j < entry_position(s, id, foil) ==> !is_entry(s[j], id, foil),
        entry_position(s, id, foil) < s.len() ==> is_entry(
            s[entry_position(s, id, foil) as int],
            id,
            foil,
        ),
    decreases s.len(),
{
    if s.len() > 0 && !is_entry(s[0], id, foil) {
        let rest = s.drop_first();
        lemma_entry_position(rest, id, foil);
        assert forall|j: int| 0 <= j < entry_position(s, id, foil) implies !is_entry(
            s[j],
            id,
            foil,
        ) by {
            if j > 0 {
                assert(s[j] == rest[j - 1]);
            }
        }
    }
}

proof fn lemma_total_count_update(s: Seq<DeckCard>, i: int, dc: DeckCard)
    requires
        0 <= i < s.len(),
    ensures
        total_count(s.update(i, dc)) == total_count(s) - s[i].count + dc.count,
    decreases s.len(),
{
    let u = s.update(i, dc);
    if i == s.len() - 1 {
        assert(u.drop_last() =~= s.drop_last());
    } else {
        lemma_total_count_update(s.drop_last(), i, dc);
        assert(u.drop_last() =~= s.drop_last().update(i, dc));
    }
}

/// Adding a card puts exactly one more copy in the deck, and the deck then
/// holds an entry of that card in that finish.
pub proof fn deck_add_one_copy(s: Seq<DeckCard>, card: CachedCard, foil: FoilType)
    requires
        can_add(s, card.id, foil),
    ensures
        total_count(deck_add(s, card, foil)) == total_count(s) + 1,
        exists|i: int|
            0 <= i < deck_add(s, card, foil).len() && is_entry(
                #[trigger] deck_add(s, card, foil)[i],
                card.id,
                foil,
            ),
{
    lemma_entry_position(s, card.id, foil);
    let p = entry_position(s, card.id, foil) as int;
    let r = deck_add(s, card, foil);
    if p < s.len() {
        lemma_total_count_update(s, p, with_count(s[p], (s[p].count + 1) as u32));
        assert(is_entry(r[p], card.id, foil));
    } else {
        assert(r.drop_last() =~= s);
        assert(is_entry(r[s.len() as int], card.id, foil));
    }
}

/// Adding a card never creates a second entry of the same card and finish.
pub proof fn deck_add_keeps_entries_unique(s: Seq<DeckCard>, card: CachedCard, foil: FoilType)
    requires
        unique_entries(s),
    ensures
        unique_entries(deck_add(s, card, foil)),
{
    lemma_entry_position(s, card.id, foil);
    let p = entry_position(s, card.id, foil) as int;
    let r = deck_add(s, card, foil);
    if p >= s.len() {
        assert forall|i: int, j: int| 0 <= i < j < r.len() implies !same_entry(r[i], r[j]) by {
            if j == s.len() {
                assert(!is_entry(s[i], card.id, foil));
            }
        }
    } else {
        assert(r == s.update(p, with_count(s[p], (s[p].count + 1) as u32)));
        assert forall|i: int, j: int| 0 <= i < j < r.len() implies !same_entry(r[i], r[j]) by {
            assert(!same_entry(s[i], s[j]));
            assert(r[i].card.id == s[i].card.id && r[i].foil_type == s[i].foil_type);
            assert(r[j].card.id == s[j].card.id && r[j].foil_type == s[j].foil_type);
        }
    }
}

/// The entries of `s` that have the sort key of `a`, in their order.
pub open spec fn with_key(s: Seq<DeckCard>, a: DeckCard) -> Seq<DeckCard> {
    s.filter(|x: DeckCard| same_sort_key(x, a))
}

proof fn lemma_filter_none(s: Seq<DeckCard>, pred: spec_fn(DeckCard) -> bool)
    requires
        forall|j: int| 0 <= j < s.len() ==> !pred(#[trigger] s[j]),
    ensures
        s.filter(pred) == Seq::<DeckCard>::empty(),
    decreases s.len(),
{
    reveal(Seq::filter);
    if s.len() > 0 {
        lemma_filter_none(s.drop_last(), pred);
        assert(!pred(s.last()));
    } else {
        assert(s =~= Seq::<DeckCard>::empty());
    }
}

/// Inserting `x` before entries that all sort after it keeps the entries of
/// every other sort key in place, and puts `x` last among those of its own key.
proof fn lemma_with_key_insert(before: Seq<DeckCard>, k: int, x: DeckCard, a: DeckCard)
    requires
        0 <= k <= before.len(),
        forall|j: int| k <= j < before.len() ==> deck_card_less(x, #[trigger] before[j]),
    ensures
        with_key(before.insert(k, x), a) == if same_sort_key(x, a) {
            with_key(before, a).push(x)
        } else {
            with_key(before, a)
        },
{
    let pred = |y: DeckCard| same_sort_key(y, a);
    let t = before.take(k);
    let u = before.skip(k);
    assert(before =~= t + u);
    assert(before.insert(k, x) =~= t.push(x) + u);
    Seq::filter_distributes_over_add(t.push(x), u, pred);
    Seq::filter_distributes_over_add(t, u, pred);
    t.lemma_filter_push(x, pred);
    if same_sort_key(x, a) {
        assert forall|j: int| 0 <= j < u.len() implies !pred(#[trigger] u[j]) by {
            assert(u[j] == before[k + j]);
            deck_card_order(x, u[j], x);
        }
        lemma_filter_none(u, pred);
        assert(with_key(before.insert(k, x), a) =~= with_key(before, a).push(x));
    }
}

impl DeckList {
    /// Adds one copy of `card` in finish `foil_type`: counts one more copy on
    /// the first entry of that card and finish, or appends a new entry with
    /// one copy.
    pub fn add(&mut self, card: CachedCard, foil_type: FoilType)
        requires
            can_add(old(self).cards@, card.id, foil_type),
        ensures
            final(self).cards@ == deck_add(old(self).cards@, card, foil_type),
    {
        proof {
            lemma_entry_position(self.cards@, card.id, foil_type);
        }
        let n = self.cards.len();
        let mut i: usize = 0;
        while i < n
            invariant
                n == self.cards.len(),
                i <= n,
                self.cards@ == old(self).cards@,
                can_add(old(self).cards@, card.id, foil_type),
                forall|j: int| 0 <= j < i ==> !is_entry(self.cards@[j], card.id, foil_type),
            decreases n - i,
        {
            if self.cards[i].card.id == card.id && self.cards[i].foil_type == foil_type {
                proof {
                    assert(entry_position(self.cards@, card.id, foil_type) == i) by {
                        lemma_entry_position(self.cards@, card.id, foil_type);
                        let p = entry_position(self.cards@, card.id, foil_type);
                        if p < i {
                        } else if p > i {
                        }
                    }
                }
                let mut dc = self.cards.remove(i);
                dc.count = dc.count + 1;
                self.cards.insert(i, dc);
                assert(self.cards@ =~= deck_add(old(self).cards@, card, foil_type));
                return;
            }
            i = i + 1;
        }
        proof {
            let p = entry_position(self.cards@, card.id, foil_type);
            if p < n {
                assert(!is_entry(self.cards@[p as int], card.id, foil_type));
            }
        }
        self.cards.push(DeckCard { card, count: 1, foil_type });
    }

    /// Removes the entry at `index`, with all its copies; the other entries
    /// keep their order.
    pub fn remove(&mut self, index: usize)
        requires
            index < old(self).cards@.len(),
        ensures
            final(self).cards@ == old(self).cards@.remove(index as int),
            total_count(final(self).cards@) == total_count(old(self).cards@) - old(
                self,
            ).cards@[index as int].count,
    {
        proof {
            lemma_total_count_remove(self.cards@, index as int);
        }
        self.cards.remove(index);
    }

    /// Sorts the entries by name, card identifier and finish, keeping every
    /// entry. The sort is stable: entries with the same name, card and finish
    /// keep their order, and a list already in order is left as it is.
    pub fn sort(&mut self)
        ensures
            deck_sorted(final(self).cards@),
            final(self).cards@.to_multiset() == old(self).cards@.to_multiset(),
            deck_sorted(old(self).cards@) ==> final(self).cards@ == old(self).cards@,
            forall|a: DeckCard| #[trigger]
                with_key(final(self).cards@, a) == with_key(old(self).cards@, a),
    {
        broadcast use vstd::seq_lib::to_multiset_build;

        let ghost orig = self.cards@;
        let mut input: Vec<DeckCard> = Vec::new();
        std::mem::swap(&mut input, &mut self.cards);
        let mut out: Vec<DeckCard> = Vec::new();
        let n = input.len();
        let mut done: usize = 0;
        assert(out@ =~= orig.take(0));
        assert(input@ =~= orig.skip(0));
        while input.len() > 0
            invariant
                n == orig.len(),
                done + input.len() == n,
                input@ == orig.skip(done as int),
                deck_sorted(out@),
                out@.to_multiset() == orig.take(done as int).to_multiset(),
                out@.len() == done,
                deck_sorted(orig) ==> out@ == orig.take(done as int),
                forall|a: DeckCard| #[trigger]
                    with_key(out@, a) == with_key(orig.take(done as int), a),
            decreases input.len(),
        {
            let x = input.remove(0);
            assert(x == orig[done as int]);
            let ghost before = out@;
            // place x after every entry that does not sort after it
            let mut k: usize = out.len();
            while k > 0
                invariant
                    k <= out.len(),
                    out@ == before,
                    deck_sorted(before),
                    forall|j: int| k <= j < out.len() ==> deck_card_less(x, out@[j]),
                ensures
                    k <= out.len(),
                    forall|j: int| k <= j < out.len() ==> deck_card_less(x, out@[j]),
                    k > 0 ==> deck_card_le(out@[k - 1], x),
                decreases k,
            {
                if !card_less(&x, &out[k - 1]) {
                    break;
                }
                k = k - 1;
            }
            proof {
                // every entry before position k does not sort after x
                assert forall|j: int| 0 <= j < k implies deck_card_le(out@[j], x) by {
                    if j < k - 1 {
                        assert(deck_card_le(out@[j], out@[k - 1]));
                        lemma_le_trans(out@[j], out@[k - 1], x);
                    }
                }
                if deck_sorted(orig) && done > 0 {
                    assert(out@[done - 1] == orig[done - 1]);
                    assert(deck_card_le(orig[done - 1], orig[done as int]));
                }
            }
            let ghost xv = x;
            out.insert(k, x);
            proof {
                before.insert_ensures(k as int, xv);
                vstd::seq_lib::to_multiset_insert(before, k as int, xv);
                assert(orig.take(done + 1) =~= orig.take(done as int).push(xv));
                vstd::seq_lib::to_multiset_build(orig.take(done as int), xv);
                assert forall|i: int, j: int| 0 <= i < j < out@.len() implies deck_card_le(
                    out@[i],
                    out@[j],
                ) by {
                    if j < k {
                    } else if j == k {
                    } else if i < k {
                        assert(out@[i] == before[i]);
                        assert(out@[j] == before[j - 1]);
                        assert(deck_card_less(xv, before[j - 1]));
                        deck_card_order(xv, before[j - 1], xv);
                        lemma_le_trans(out@[i], xv, out@[j]);
                    } else if i == k {
                        assert(out@[j] == before[j - 1]);
                        deck_card_order(xv, before[j - 1], xv);
                    } else {
                        assert(out@[i] == before[i - 1]);
                        assert(out@[j] == before[j - 1]);
                    }
                }
                if deck_sorted(orig) {
                    if k < done {
                        assert(deck_card_less(xv, before[done - 1]));
                        assert(before[done - 1] == orig[done - 1]);
                        assert(deck_card_le(orig[done - 1], orig[done as int]));
                    }
                    assert(out@ =~= orig.take(done + 1));
                }
                assert(input@ =~= orig.skip(done + 1));
                assert forall|a: DeckCard| #[trigger]
                    with_key(out@, a) == with_key(orig.take(done + 1), a) by {
                    lemma_with_key_insert(before, k as int, xv, a);
                    orig.take(done as int).lemma_filter_push(xv, |y: DeckCard| same_sort_key(y, a));
                }
            }
            done = done + 1;
        }
        assert(orig.take(n as int) =~= orig);
        self.cards = out;
    }
}

/// Reordering a deck list, as sorting does, keeps its total number of copies.
pub proof fn permutation_keeps_copies(before: Seq<DeckCard>, after: Seq<DeckCard>)
    requires
        after.to_multiset() == before.to_multiset(),
    ensures
        total_count(after) == total_count(before),
    decreases before.len(),
{
    broadcast use vstd::seq_lib::to_multiset_build;
    broadcast use vstd::multiset::group_multiset_axioms;

    if before.len() == 0 {
        vstd::seq_lib::to_multiset_len(after);
        vstd::seq_lib::to_multiset_len(before);
        assert(after.len() == 0);
    } else {
        let x = before.last();
        assert(before =~= before.drop_last().push(x));
        assert(after.to_multiset().count(x) > 0);
        vstd::seq_lib::to_multiset_contains(after, x);
        let i = choose|i: int| 0 <= i < after.len() && after[i] == x;
        vstd::seq_lib::to_multiset_remove(after, i);
        let rest = after.remove(i);
        assert(rest.to_multiset() =~= before.drop_last().to_multiset());
        permutation_keeps_copies(before.drop_last(), rest);
        lemma_total_count_remove(after, i);
    }
}

proof fn lemma_total_count_remove(s: Seq<DeckCard>, i: int)
    requires
        0 <= i < s.len(),
    ensures
        total_count(s.remove(i)) == total_count(s) - s[i].count,
    decreases s.len(),
{
    if i == s.len() - 1 {
        assert(s.remove(i) =~= s.drop_last());
    } else {
        lemma_total_count_remove(s.drop_last(), i);
        assert(s.remove(i).drop_last() =~= s.drop_last().remove(i));
    }
}

// ---------------------------------------------------------------------------
// Deck file formats

/// The header line that starts a deck file of the given format.
pub open spec fn spec_file_headers(file_format: DeckFileFormat) -> Seq<char> {
    match file_format {
        DeckFileFormat::Moxfield => "\"Count\",\"Name\",\"Edition\",\"Collector Number\",\"Foil\"\n"@,
        DeckFileFormat::Archidekt => Seq::empty(),
    }
}

/// The header of a deck file: Moxfield's CSV column names, nothing for Archidekt.
pub fn format_file_headers(file_format: &DeckFileFormat) -> (r: String)
    ensures
        r@ == spec_file_headers(*file_format),
{
    match file_format {
        DeckFileFormat::Moxfield => {
            String::from_str("\"Count\",\"Name\",\"Edition\",\"Collector Number\",\"Foil\"\n")
        },
        DeckFileFormat::Archidekt => String::new(),
    }
}

/// How the Moxfield format names a finish.
pub open spec fn foil_label(f: FoilType) -> Seq<char> {
    match f {
        FoilType::Nonfoil => Seq::empty(),
        FoilType::Foil => "foil"@,
        FoilType::Etched => "etched"@,
    }
}

/// The line of a deck file for one entry: for Moxfield the quoted CSV fields
/// count, name, set, collector number and finish; for Archidekt the count, a
/// space and the name.
pub open spec fn spec_format_line(file_format: DeckFileFormat, dc: DeckCard) -> Seq<char> {
    match file_format {
        DeckFileFormat::Moxfield => "\""@ + decimal(dc.count as nat) + "\",\""@ + dc.card.name@
            + "\",\""@ + dc.card.set@ + "\",\""@ + dc.card.number@ + "\",\""@ + foil_label(
            dc.foil_type,
        ) + "\"\n"@,
        DeckFileFormat::Archidekt => decimal(dc.count as nat) + " "@ + dc.card.name@ + "\n"@,
    }
}

/// An Archidekt line is the entry's count in decimal digits, a space, the
/// card's name and a newline: the digits before the first space read back
/// as the count.
pub proof fn archidekt_line_reads_back(dc: DeckCard)
    ensures
        ({
            let l = spec_format_line(DeckFileFormat::Archidekt, dc);
            exists|k: int|
                0 < k < l.len() && l[k] == ' ' && (forall|i: int|
                    0 <= i < k ==> is_digit(#[trigger] l[i])) && digits_value(l.take(k))
                    == dc.count && l.skip(k + 1) == dc.card.name@ + "\n"@
        }),
{
    reveal_strlit(" ");
    let l = spec_format_line(DeckFileFormat::Archidekt, dc);
    let d = decimal(dc.count as nat);
    decimal_reads_back(dc.count as nat);
    let k = d.len() as int;
    assert(l.take(k) =~= d);
    assert(l.skip(k + 1) =~= dc.card.name@ + "\n"@);
    assert(l[k] == ' ');
    assert forall|i: int| 0 <= i < k implies is_digit(#[trigger] l[i]) by {
        assert(l[i] == d[i]);
    }
}

/// The first field of a Moxfield line is the entry's count in decimal
/// digits, between quotes, and the line then goes on with the card's name.
pub proof fn moxfield_line_reads_back(dc: DeckCard)
    ensures
        ({
            let l = spec_format_line(DeckFileFormat::Moxfield, dc);
            &&& l[0] == '"'
            &&& exists|k: int|
                1 < k < l.len() && (forall|i: int| 1 <= i < k ==> is_digit(#[trigger] l[i]))
                    && digits_value(l.subrange(1, k)) == dc.count && l.skip(k).take(
                    (3 + dc.card.name@.len()) as int,
                ) == "\",\""@ + dc.card.name@
        }),
{
    reveal_strlit("\"");
    reveal_strlit("\",\"");
    let l = spec_format_line(DeckFileFormat::Moxfield, dc);
    let d = decimal(dc.count as nat);
    decimal_reads_back(dc.count as nat);
    let k = d.len() + 1 as int;
    assert(l.subrange(1, k) =~= d);
    assert(l.skip(k).take((3 + dc.card.name@.len()) as int) =~= "\",\""@ + dc.card.name@);
    assert forall|i: int| 1 <= i < k implies is_digit(#[trigger] l[i]) by {
        assert(l[i] == d[i - 1]);
    }
}

/// The last field of a Moxfield line names the finish: empty for a non-foil
/// card, `foil` or `etched` otherwise.
pub proof fn moxfield_line_ends_with_the_finish(dc: DeckCard)
    ensures
        ({
            let l = spec_format_line(DeckFileFormat::Moxfield, dc);
            let tail = match dc.foil_type {
                FoilType::Nonfoil => "\",\"\"\n"@,
                FoilType::Foil => "\",\"foil\"\n"@,
                FoilType::Etched => "\",\"etched\"\n"@,
            };
            l.len() >= tail.len() && l.skip(l.len() - tail.len()) == tail
        }),
{
    reveal_strlit("\",\"");
    reveal_strlit("\"\n");
    reveal_strlit("foil");
    reveal_strlit("etched");
    reveal_strlit("\",\"\"\n");
    reveal_strlit("\",\"foil\"\n");
    reveal_strlit("\",\"etched\"\n");
    let l = spec_format_line(DeckFileFormat::Moxfield, dc);
    let tail = "\",\""@ + foil_label(dc.foil_type) + "\"\n"@;
    assert(l.skip(l.len() - tail.len()) =~= tail);
    match dc.foil_type {
        FoilType::Nonfoil => assert(tail =~= "\",\"\"\n"@),
        FoilType::Foil => assert(tail =~= "\",\"foil\"\n"@),
        FoilType::Etched => assert(tail =~= "\",\"etched\"\n"@),
    }
}

/// The line of a deck file for one entry.
pub fn format_line(file_format: &DeckFileFormat, dc: &DeckCard) -> (r: String)
    ensures
        r@ == spec_format_line(*file_format, *dc),
{
    let mut s = String::new();
    match file_format {
        DeckFileFormat::Moxfield => {
            push_str(&mut s, "\"");
            push_decimal(&mut s, dc.count);
            push_str(&mut s, "\",\"");
            push_str(&mut s, dc.card.name.as_str());
            push_str(&mut s, "\",\"");
            push_str(&mut s, dc.card.set.as_str());
            push_str(&mut s, "\",\"");
            push_str(&mut s, dc.card.number.as_str());
            push_str(&mut s, "\",\"");
            match dc.foil_type {
                FoilType::Nonfoil => {},
                FoilType::Foil => push_str(&mut s, "foil"),
                FoilType::Etched => push_str(&mut s, "etched"),
            }
            push_str(&mut s, "\"\n");
        },
        DeckFileFormat::Archidekt => {
            push_decimal(&mut s, dc.count);
            push_str(&mut s, " ");
            push_str(&mut s, dc.card.name.as_str());
            push_str(&mut s, "\n");
        },
    }
    assert(s@ =~= spec_format_line(*file_format, *dc));
    s
}

} // verus!
