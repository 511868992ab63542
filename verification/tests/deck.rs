use std::cmp::Ordering;
use std::collections::HashMap;

use magicvision::cache::card_cache::{CachedCard, CachedFace, CardCache};
use magicvision::cache::matching::MatchResult;
use magicvision::gui::app::{card_matches, deck_file_contents};
use magicvision::gui::deck_file_formats::{
    format_file_headers, format_line, DeckCard, DeckFileFormat, DeckList, FoilType,
};

fn card(id: u128, name: &str) -> CachedCard {
    CachedCard::new(
        id,
        name.to_string(),
        String::from("neo"),
        String::from("123"),
        vec![CachedFace {
            face: 0,
            image_path: String::from("/img/a.jpg"),
            oracle_text: String::from("Flying"),
            phash: [0u8; 32],
        }],
    )
}

fn entry(id: u128, name: &str, count: u32, foil: FoilType) -> DeckCard {
    DeckCard { card: card(id, name), count, foil_type: foil }
}

fn total(d: &DeckList) -> u32 {
    d.cards.iter().map(|c| c.count).sum()
}

fn keys(d: &DeckList) -> Vec<(String, u128, FoilType, u32)> {
    d.cards.iter().map(|c| (c.card.name.clone(), c.card.id, c.foil_type, c.count)).collect()
}

#[test]
fn adding_a_card_twice_counts_two_copies() {
    let mut d = DeckList { cards: Vec::new() };
    d.add(card(7, "Opt"), FoilType::Nonfoil);
    d.add(card(7, "Opt"), FoilType::Nonfoil);
    assert_eq!(d.cards.len(), 1);
    assert_eq!(d.cards[0].count, 2);
}

#[test]
fn another_finish_is_another_entry() {
    let mut d = DeckList { cards: Vec::new() };
    d.add(card(7, "Opt"), FoilType::Nonfoil);
    d.add(card(7, "Opt"), FoilType::Foil);
    d.add(card(8, "Shock"), FoilType::Foil);
    d.add(card(7, "Opt"), FoilType::Foil);
    assert_eq!(
        keys(&d),
        vec![
            (String::from("Opt"), 7, FoilType::Nonfoil, 1),
            (String::from("Opt"), 7, FoilType::Foil, 2),
            (String::from("Shock"), 8, FoilType::Foil, 1),
        ]
    );
}

#[test]
fn adding_puts_one_more_copy_in_the_deck() {
    let mut d = DeckList { cards: vec![entry(1, "A", 4, FoilType::Etched), entry(2, "B", 1, FoilType::Nonfoil)] };
    let before = total(&d);
    d.add(card(1, "A"), FoilType::Etched);
    assert_eq!(total(&d), before + 1);
    d.add(card(3, "C"), FoilType::Etched);
    assert_eq!(total(&d), before + 2);
}

#[test]
fn sort_orders_by_name_then_id_then_finish() {
    let mut d = DeckList {
        cards: vec![
            entry(2, "Shock", 1, FoilType::Nonfoil),
            entry(9, "Opt", 1, FoilType::Etched),
            entry(9, "Opt", 1, FoilType::Nonfoil),
            entry(3, "Opt", 1, FoilType::Foil),
            entry(1, "Zap", 1, FoilType::Nonfoil),
            entry(4, "Abrade", 1, FoilType::Foil),
        ],
    };
    d.sort();
    let got: Vec<(u128, FoilType)> = d.cards.iter().map(|c| (c.card.id, c.foil_type)).collect();
    assert_eq!(
        got,
        vec![
            (4, FoilType::Foil),
            (3, FoilType::Foil),
            (9, FoilType::Nonfoil),
            (9, FoilType::Etched),
            (2, FoilType::Nonfoil),
            (1, FoilType::Nonfoil),
        ]
    );
}

#[test]
fn sort_compares_names_by_code_point() {
    let mut d = DeckList {
        cards: vec![
            entry(1, "Æther Vial", 1, FoilType::Nonfoil),
            entry(2, "aether", 1, FoilType::Nonfoil),
            entry(3, "Zur", 1, FoilType::Nonfoil),
            entry(4, "Ab", 1, FoilType::Nonfoil),
            entry(5, "A", 1, FoilType::Nonfoil),
        ],
    };
    d.sort();
    let names: Vec<String> = d.cards.iter().map(|c| c.card.name.clone()).collect();
    let mut expected = names.clone();
    expected.sort();
    assert_eq!(names, expected);
    assert_eq!(names, vec!["A", "Ab", "Zur", "aether", "Æther Vial"]);
}

#[test]
fn sort_is_stable_and_keeps_every_copy() {
    let mut d = DeckList {
        cards: vec![
            entry(5, "B", 3, FoilType::Foil),
            entry(1, "A", 1, FoilType::Nonfoil),
            entry(5, "B", 7, FoilType::Foil),
            entry(1, "A", 2, FoilType::Nonfoil),
        ],
    };
    let before = total(&d);
    d.sort();
    let counts: Vec<u32> = d.cards.iter().map(|c| c.count).collect();
    assert_eq!(counts, vec![1, 2, 3, 7]);
    assert_eq!(total(&d), before);
}

#[test]
fn sorting_a_sorted_list_changes_nothing() {
    let mut d = DeckList {
        cards: vec![
            entry(3, "C", 1, FoilType::Foil),
            entry(1, "A", 2, FoilType::Nonfoil),
            entry(2, "B", 3, FoilType::Etched),
        ],
    };
    d.sort();
    let once = keys(&d);
    d.sort();
    assert_eq!(keys(&d), once);
}

#[test]
fn deck_cards_are_equal_by_card_and_finish() {
    assert!(entry(1, "A", 1, FoilType::Foil) == entry(1, "B", 9, FoilType::Foil));
    assert!(entry(1, "A", 1, FoilType::Foil) != entry(1, "A", 1, FoilType::Etched));
    assert!(entry(1, "A", 1, FoilType::Foil) != entry(2, "A", 1, FoilType::Foil));
}

#[test]
fn deck_cards_compare_by_name_id_and_finish() {
    assert_eq!(entry(9, "A", 1, FoilType::Etched).cmp(&entry(1, "B", 1, FoilType::Nonfoil)), Ordering::Less);
    assert_eq!(entry(1, "B", 1, FoilType::Etched).cmp(&entry(2, "B", 1, FoilType::Nonfoil)), Ordering::Less);
    assert_eq!(entry(2, "B", 1, FoilType::Etched).cmp(&entry(2, "B", 1, FoilType::Foil)), Ordering::Greater);
    assert_eq!(entry(2, "B", 5, FoilType::Foil).cmp(&entry(2, "B", 1, FoilType::Foil)), Ordering::Equal);
}

#[test]
fn moxfield_header_and_lines() {
    assert_eq!(
        format_file_headers(&DeckFileFormat::Moxfield),
        "\"Count\",\"Name\",\"Edition\",\"Collector Number\",\"Foil\"\n"
    );
    let mut dc = entry(1, "Lightning Bolt", 4, FoilType::Nonfoil);
    assert_eq!(format_line(&DeckFileFormat::Moxfield, &dc), "\"4\",\"Lightning Bolt\",\"neo\",\"123\",\"\"\n");
    dc.foil_type = FoilType::Foil;
    dc.count = 12;
    assert_eq!(format_line(&DeckFileFormat::Moxfield, &dc), "\"12\",\"Lightning Bolt\",\"neo\",\"123\",\"foil\"\n");
    dc.foil_type = FoilType::Etched;
    dc.count = 4294967295;
    assert_eq!(
        format_line(&DeckFileFormat::Moxfield, &dc),
        "\"4294967295\",\"Lightning Bolt\",\"neo\",\"123\",\"etched\"\n"
    );
}

#[test]
fn archidekt_header_and_lines() {
    assert_eq!(format_file_headers(&DeckFileFormat::Archidekt), "");
    let dc = entry(1, "Counterspell", 0, FoilType::Foil);
    assert_eq!(format_line(&DeckFileFormat::Archidekt, &dc), "0 Counterspell\n");
    let dc = entry(1, "Counterspell", 108, FoilType::Foil);
    assert_eq!(format_line(&DeckFileFormat::Archidekt, &dc), "108 Counterspell\n");
}

#[test]
fn deck_file_is_header_then_lines() {
    let d = DeckList { cards: vec![entry(1, "A", 2, FoilType::Nonfoil), entry(2, "B", 1, FoilType::Foil)] };
    assert_eq!(
        deck_file_contents(&DeckFileFormat::Moxfield, &d),
        "\"Count\",\"Name\",\"Edition\",\"Collector Number\",\"Foil\"\n\"2\",\"A\",\"neo\",\"123\",\"\"\n\"1\",\"B\",\"neo\",\"123\",\"foil\"\n"
    );
    assert_eq!(deck_file_contents(&DeckFileFormat::Archidekt, &d), "2 A\n1 B\n");
    let empty = DeckList { cards: Vec::new() };
    assert_eq!(deck_file_contents(&DeckFileFormat::Archidekt, &empty), "");
}

#[test]
fn matches_are_resolved_in_the_cache() {
    let mut cache: CardCache = HashMap::new();
    cache.insert(1, card(1, "Opt"));
    cache.insert(2, card(2, "Shock"));
    let matches = vec![
        MatchResult { distance: 3, card_id: 2, face: 0 },
        MatchResult { distance: 9, card_id: 1, face: 1 },
    ];
    let r = card_matches(&cache, &matches);
    assert_eq!(r.len(), 2);
    assert_eq!((r[0].distance, r[0].face_num, r[0].card.name.as_str()), (3, 0, "Shock"));
    assert_eq!((r[1].distance, r[1].face_num, r[1].card.name.as_str()), (9, 1, "Opt"));
}

#[test]
fn removing_an_entry_drops_all_its_copies() {
    let mut d = DeckList {
        cards: vec![
            entry(1, "A", 4, FoilType::Etched),
            entry(2, "B", 2, FoilType::Nonfoil),
            entry(3, "C", 1, FoilType::Foil),
        ],
    };
    d.remove(1);
    assert_eq!(
        keys(&d),
        vec![(String::from("A"), 1, FoilType::Etched, 4), (String::from("C"), 3, FoilType::Foil, 1)]
    );
    assert_eq!(total(&d), 5);
    d.remove(0);
    d.remove(0);
    assert!(d.cards.is_empty());
}
