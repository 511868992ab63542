use std::cmp::Ordering;
use std::collections::HashMap;

use arrayvec::ArrayVec;
use magicvision::cache::card_cache::{hash_rgb_frame, CachedCard, CachedFace, CardCache};
use magicvision::cache::matching::{
    best_to_vec, insert_best, merge_best, new_best_buffer, MatchDatabase, MatchResult,
    NUM_MATCHES,
};

fn face(n: u8, phash: [u8; 32]) -> CachedFace {
    CachedFace { face: n, image_path: format!("/tmp/{}.jpg", n), oracle_text: String::from("text"), phash }
}

/// A small RGB test picture: a diagonal gradient with a bright square.
fn picture() -> (u32, u32, Vec<u8>) {
    let (w, h) = (64u32, 48u32);
    let mut pixels = Vec::new();
    for y in 0..h {
        for x in 0..w {
            let inside = (16..40).contains(&x) && (10..30).contains(&y);
            let v = if inside { 250 } else { ((x * 3 + y * 2) % 200) as u8 };
            pixels.extend_from_slice(&[v, v / 2, 255 - v]);
        }
    }
    (w, h, pixels)
}

fn encoded(format: image::ImageFormat) -> Vec<u8> {
    let (w, h, pixels) = picture();
    let img = image::DynamicImage::ImageRgb8(image::ImageBuffer::from_raw(w, h, pixels).unwrap());
    let mut bytes = std::io::Cursor::new(Vec::new());
    img.write_to(&mut bytes, format).unwrap();
    bytes.into_inner()
}

fn card(id: u128, faces: Vec<CachedFace>) -> CachedCard {
    CachedCard::new(id, format!("Card {}", id), String::from("set"), String::from("1"), faces)
}

/// A hash whose first `bits` bits are ones.
fn hash_with_bits(bits: usize) -> [u8; 32] {
    let mut h = [0u8; 32];
    for b in 0..bits {
        h[b / 8] |= 1 << (b % 8);
    }
    h
}

fn cache_of(cards: Vec<CachedCard>) -> CardCache {
    let mut cache: CardCache = HashMap::new();
    for c in cards {
        cache.insert(c.id, c);
    }
    cache
}

fn result(distance: u32, id: u128) -> MatchResult {
    MatchResult { distance, card_id: id, face: 0 }
}

#[test]
fn distance_is_hamming_distance() {
    let cache = cache_of(vec![card(1, vec![face(0, [0u8; 32])])]);
    let db = MatchDatabase::from_cache(&cache);
    let r = db.best_matches(&[0xffu8; 32]);
    assert_eq!(r, vec![MatchResult { distance: 256, card_id: 1, face: 0 }]);
    let r = db.best_matches(&hash_with_bits(3));
    assert_eq!(r[0].distance, 3);
    let r = db.best_matches(&[0u8; 32]);
    assert_eq!(r[0].distance, 0);
}

#[test]
fn distance_counts_bits_of_each_byte() {
    let mut h = [0u8; 32];
    h[0] = 0b1010_1010;
    h[31] = 0b0000_0111;
    let cache = cache_of(vec![card(5, vec![face(1, h)])]);
    let db = MatchDatabase::from_cache(&cache);
    let r = db.best_matches(&[0u8; 32]);
    assert_eq!(r, vec![MatchResult { distance: 7, card_id: 5, face: 1 }]);
}

#[test]
fn every_face_is_an_entry() {
    let cache = cache_of(vec![
        card(1, vec![face(0, hash_with_bits(1)), face(1, hash_with_bits(2))]),
        card(2, vec![face(0, hash_with_bits(3))]),
    ]);
    let db = MatchDatabase::from_cache(&cache);
    let r = db.best_matches(&[0u8; 32]);
    assert_eq!(
        r,
        vec![
            MatchResult { distance: 1, card_id: 1, face: 0 },
            MatchResult { distance: 2, card_id: 1, face: 1 },
            MatchResult { distance: 3, card_id: 2, face: 0 },
        ]
    );
}

#[test]
fn empty_cache_has_no_matches() {
    let cache = cache_of(vec![]);
    let db = MatchDatabase::from_cache(&cache);
    assert!(db.best_matches(&[1u8; 32]).is_empty());
}

#[test]
fn best_matches_keeps_the_closest_in_order() {
    // 15 cards at distances 14, 13, ..., 0 from the query
    let cards: Vec<CachedCard> =
        (0..15u128).map(|i| card(i, vec![face(0, hash_with_bits(14 - i as usize))])).collect();
    let cache = cache_of(cards);
    let db = MatchDatabase::from_cache(&cache);
    let r = db.best_matches(&[0u8; 32]);
    assert_eq!(r.len(), NUM_MATCHES);
    let distances: Vec<u32> = r.iter().map(|m| m.distance).collect();
    assert_eq!(distances, vec![0, 1, 2, 3, 4, 5, 6, 7, 8, 9]);
    for m in &r {
        assert_eq!(m.card_id, 14 - m.distance as u128);
    }
}

#[test]
fn no_left_out_match_is_closer() {
    let cards: Vec<CachedCard> =
        (0..30u128).map(|i| card(i, vec![face(0, hash_with_bits(((i * 7) % 30) as usize))])).collect();
    let cache = cache_of(cards);
    let db = MatchDatabase::from_cache(&cache);
    let r = db.best_matches(&[0u8; 32]);
    assert_eq!(r.len(), NUM_MATCHES);
    let worst = r.last().unwrap().distance;
    let kept: Vec<u128> = r.iter().map(|m| m.card_id).collect();
    for i in 0..30u128 {
        let d = ((i * 7) % 30) as u32;
        if !kept.contains(&i) {
            assert!(d >= worst);
        }
    }
    for w in r.windows(2) {
        assert!(w[0].distance <= w[1].distance);
    }
}

#[test]
fn insert_best_fills_in_order() {
    let mut best: ArrayVec<MatchResult, NUM_MATCHES> = new_best_buffer();
    assert!(best_to_vec(&best).is_empty());
    insert_best(&mut best, result(5, 1));
    insert_best(&mut best, result(2, 2));
    insert_best(&mut best, result(9, 3));
    insert_best(&mut best, result(5, 4));
    let ids: Vec<u128> = best.iter().map(|m| m.card_id).collect();
    // the later match of equal distance goes after the earlier one
    assert_eq!(ids, vec![2, 1, 4, 3]);
}

#[test]
fn insert_best_replaces_the_worst_when_full() {
    let mut best: ArrayVec<MatchResult, NUM_MATCHES> = ArrayVec::new();
    for i in 0..NUM_MATCHES as u32 {
        insert_best(&mut best, result(10 + i, i as u128));
    }
    assert_eq!(best.len(), NUM_MATCHES);
    // not closer than the worst: dropped
    insert_best(&mut best, result(19, 100));
    assert!(best.iter().all(|m| m.card_id != 100));
    insert_best(&mut best, result(25, 101));
    assert!(best.iter().all(|m| m.card_id != 101));
    // closer: replaces the worst and moves to its place
    insert_best(&mut best, result(11, 102));
    let distances: Vec<u32> = best.iter().map(|m| m.distance).collect();
    assert_eq!(distances, vec![10, 11, 11, 12, 13, 14, 15, 16, 17, 18]);
    assert_eq!(best[2].card_id, 102);
    assert_eq!(best.len(), NUM_MATCHES);
}

#[test]
fn match_results_compare_by_distance() {
    assert_eq!(result(3, 1).cmp(&result(4, 0)), Ordering::Less);
    assert_eq!(result(4, 1).cmp(&result(4, 9)), Ordering::Equal);
    assert_eq!(result(5, 1).cmp(&result(4, 0)), Ordering::Greater);
}

#[test]
fn cache_and_frames_are_hashed_alike() {
    let (w, h, pixels) = picture();
    let frame = hash_rgb_frame(w, h, &pixels).unwrap();
    let png = encoded(image::ImageFormat::Png);
    let f = CachedFace::new(0, String::from("/img/x.png"), &png, "png", String::from("t")).unwrap();
    assert_eq!(f.phash, frame);
    assert_eq!((f.face, f.image_path.as_str(), f.oracle_text.as_str()), (0, "/img/x.png", "t"));
    let upper = CachedFace::new(1, String::from("/img/x.PNG"), &png, "PNG", String::new()).unwrap();
    assert_eq!(upper.phash, frame);
    // the frame is then found at distance 0
    let cache = cache_of(vec![card(3, vec![f])]);
    let db = MatchDatabase::from_cache(&cache);
    assert_eq!(db.best_matches(&frame), vec![MatchResult { distance: 0, card_id: 3, face: 0 }]);
}

#[test]
fn unhashable_images_give_no_face() {
    let png = encoded(image::ImageFormat::Png);
    assert!(CachedFace::new(0, String::new(), &png, "xyz", String::new()).is_none());
    assert!(CachedFace::new(0, String::new(), &[1, 2, 3], "png", String::new()).is_none());
    let (w, h, pixels) = picture();
    assert!(hash_rgb_frame(w, h + 1, &pixels).is_none());
}

#[test]
fn longer_query_hashes_compare_over_the_entry_length() {
    let cache = cache_of(vec![card(1, vec![face(0, [0u8; 32])])]);
    let db = MatchDatabase::from_cache(&cache);
    let mut long = vec![0u8; 40];
    long[0] = 1;
    long[39] = 0xff;
    assert_eq!(db.best_matches(&long)[0].distance, 1);
}

#[test]
fn an_empty_query_is_at_distance_zero_from_every_face() {
    let cache = cache_of(vec![card(1, vec![face(0, hash_with_bits(9))]), card(2, vec![face(1, hash_with_bits(0))])]);
    let db = MatchDatabase::from_cache(&cache);
    let found = db.best_matches(&[]);
    assert_eq!(found.len(), 2);
    assert!(found.iter().all(|m| m.distance == 0));
}

#[test]
fn merging_split_searches_gives_the_nearest_matches() {
    let cards: Vec<CachedCard> =
        (0..30u128).map(|i| card(i, vec![face(0, hash_with_bits(((i * 7) % 30) as usize))])).collect();
    let cache = cache_of(cards);
    let db = MatchDatabase::from_cache(&cache);
    let query = [0u8; 32];
    let whole: Vec<u32> = db.best_matches(&query).iter().map(|m| m.distance).collect();
    assert_eq!(whole, (0..10).collect::<Vec<u32>>());
    for split in [0, 1, 7, 15, 29, 30] {
        let mut left = db.best_matches_in(&query, 0, split);
        let right = db.best_matches_in(&query, split, db.len());
        merge_best(&mut left, &right);
        let merged: Vec<u32> = best_to_vec(&left).iter().map(|m| m.distance).collect();
        assert_eq!(merged, whole);
    }
}

#[test]
fn merge_offers_each_match_of_the_other_buffer() {
    let mut a: ArrayVec<MatchResult, NUM_MATCHES> = new_best_buffer();
    insert_best(&mut a, result(4, 1));
    insert_best(&mut a, result(8, 2));
    let mut b: ArrayVec<MatchResult, NUM_MATCHES> = new_best_buffer();
    insert_best(&mut b, result(1, 3));
    insert_best(&mut b, result(4, 4));
    merge_best(&mut a, &b);
    let ids: Vec<u128> = best_to_vec(&a).iter().map(|m| m.card_id).collect();
    assert_eq!(ids, vec![3, 1, 4, 2]);
    let empty: ArrayVec<MatchResult, NUM_MATCHES> = new_best_buffer();
    merge_best(&mut a, &empty);
    assert_eq!(best_to_vec(&a).len(), 4);
}
