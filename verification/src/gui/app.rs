//! What the application window computes: the cards behind the current
//! matches, and the contents of a saved deck file.

use vstd::prelude::*;

use crate::cache::card_cache::{same_card, CachedCard, CardCache};
use crate::cache::matching::MatchResult;
use crate::gui::deck_file_formats::{
    format_file_headers, format_line, spec_file_headers, spec_format_line, DeckFileFormat,
    DeckList,
};
use crate::text::push_str;

verus! {

broadcast use vstd::std_specs::hash::group_hash_axioms;

/// A match together with the cached card it names.
pub struct CardMatch {
    pub distance: u32,
    pub face_num: u8,
    pub card: CachedCard,
}

/// Whether every match names a card of the cache.
pub open spec fn all_cached(cache: Map<u128, CachedCard>, matches: Seq<MatchResult>) -> bool {
    forall|i: int| 0 <= i < matches.len() ==> cache.contains_key(#[trigger] matches[i].card_id)
}

/// The card of each match, looked up in the cache, in the order of the matches.
pub fn card_matches(cache: &CardCache, matches: &Vec<MatchResult>) -> (r: Vec<CardMatch>)
    requires
        all_cached(cache@, matches@),
    ensures
        r@.len() == matches@.len(),
        forall|i: int|
            0 <= i < r@.len() ==> {
                &&& (#[trigger] r@[i]).distance == matches@[i].distance
                &&& r@[i].face_num == matches@[i].face
                &&& same_card(r@[i].card, cache@[matches@[i].card_id])
            },
{
    let n = matches.len();
    let mut r: Vec<CardMatch> = Vec::new();
    for i in 0..n
        invariant
            n == matches@.len(),
            all_cached(cache@, matches@),
            r@.len() == i,
            forall|j: int|
                0 <= j < i ==> {
                    &&& (#[trigger] r@[j]).distance == matches@[j].distance
                    &&& r@[j].face_num == matches@[j].face
                    &&& same_card(r@[j].card, cache@[matches@[j].card_id])
                },
    {
        let m = matches[i];
        assert(cache@.contains_key(matches@[i as int].card_id));
        let card = cache.get(&m.card_id).unwrap();
        r.push(CardMatch { distance: m.distance, face_num: m.face, card: card.clone() });
    }
    r
}

/// The lines of the entries of a deck, one after the other.
pub open spec fn deck_lines(file_format: DeckFileFormat, cards: Seq<crate::gui::deck_file_formats::DeckCard>) -> Seq<char>
    decreases cards.len(),
{
    if cards.len() == 0 {
        Seq::empty()
    } else {
        deck_lines(file_format, cards.drop_last()) + spec_format_line(file_format, cards.last())
    }
}

/// The contents of a saved deck file: the format's header, then one line
/// per entry in the order of the list.
pub fn deck_file_contents(file_format: &DeckFileFormat, decklist: &DeckList) -> (r: String)
    ensures
        r@ == spec_file_headers(*file_format) + deck_lines(*file_format, decklist.cards@),
{
    let mut s = format_file_headers(file_format);
    let n = decklist.cards.len();
    for i in 0..n
        invariant
            n == decklist.cards@.len(),
            s@ == spec_file_headers(*file_format) + deck_lines(
                *file_format,
                decklist.cards@.take(i as int),
            ),
    {
        let line = format_line(file_format, &decklist.cards[i]);
        push_str(&mut s, line.as_str());
        assert(decklist.cards@.take(i + 1).drop_last() =~= decklist.cards@.take(i as int));
    }
    assert(decklist.cards@.take(n as int) =~= decklist.cards@);
    s
}

} // verus!
