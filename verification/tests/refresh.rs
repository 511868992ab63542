use std::collections::HashMap;

use magicvision::cache::card_cache::{hash_rgb_frame, CachedCard, CardCache};
use magicvision::refresh_database::bulk_data::{
    bulk_data_file_name, is_blank, ndjson_from_bulk, needs_download, parse_stored_url, stale_files,
    trim_str,
};
use magicvision::refresh_database::image_proc::{add_new_cards, build_cached_card, missing_jobs};
use magicvision::refresh_database::scryfall::{
    backoff_millis, fetch_step, first_fetch, get_face_details, job_for_card, retry_step, Card,
    CardFace, FaceDetails, FetchState, FetchStep, FetchTarget, ImageUris, Job, RequestOutcome,
    RetryStep,
};

fn uris(tag: &str) -> ImageUris {
    ImageUris { border_crop: format!("{}/border", tag), normal: format!("{}/normal", tag) }
}

fn bare_card(id: u128) -> Card {
    Card {
        id,
        name: String::from("Delver of Secrets"),
        set: String::from("isd"),
        collector_number: String::from("51"),
        oracle_text: None,
        image_uris: None,
        card_faces: None,
    }
}

fn details(fd: &FaceDetails) -> (u8, String, String, Option<String>) {
    (fd.face_number, fd.border_crop_uri.clone(), fd.normal_art_uri.clone(), fd.oracle_text.clone())
}

#[test]
fn single_faced_card_has_face_zero() {
    let mut c = bare_card(1);
    c.image_uris = Some(uris("x"));
    c.oracle_text = Some(String::from("Draw a card."));
    let faces = get_face_details(&c).unwrap();
    assert_eq!(faces.len(), 1);
    assert_eq!(
        details(&faces[0]),
        (0, String::from("x/border"), String::from("x/normal"), Some(String::from("Draw a card.")))
    );
}

#[test]
fn faces_are_numbered_by_position() {
    let mut c = bare_card(2);
    c.card_faces = Some(vec![
        CardFace { image_uris: Some(uris("front")), oracle_text: Some(String::from("Flip.")) },
        CardFace { image_uris: None, oracle_text: None },
        CardFace { image_uris: Some(uris("third")), oracle_text: None },
    ]);
    let faces = get_face_details(&c).unwrap();
    let got: Vec<_> = faces.iter().map(details).collect();
    assert_eq!(
        got,
        vec![
            (0, String::from("front/border"), String::from("front/normal"), Some(String::from("Flip."))),
            (2, String::from("third/border"), String::from("third/normal"), None),
        ]
    );
}

#[test]
fn card_images_take_precedence_over_faces() {
    let mut c = bare_card(3);
    c.image_uris = Some(uris("whole"));
    c.card_faces = Some(vec![CardFace { image_uris: Some(uris("face")), oracle_text: None }]);
    let faces = get_face_details(&c).unwrap();
    assert_eq!(faces.len(), 1);
    assert_eq!(faces[0].border_crop_uri, "whole/border");
}

#[test]
fn card_without_images_has_no_job() {
    assert!(get_face_details(&bare_card(4)).is_none());
    assert!(job_for_card(bare_card(4)).is_none());
    let mut c = bare_card(5);
    c.card_faces = Some(vec![]);
    assert_eq!(get_face_details(&c).unwrap().len(), 0);
}

#[test]
fn job_keeps_the_card_identity() {
    let mut c = bare_card(6);
    c.image_uris = Some(uris("y"));
    let job = job_for_card(c).unwrap();
    assert_eq!((job.id, job.name.as_str(), job.set.as_str(), job.number.as_str()), (6, "Delver of Secrets", "isd", "51"));
    assert_eq!(job.face_details.len(), 1);
}

#[test]
fn image_file_name_is_uuid_and_face() {
    let job = Job {
        id: 0x67e5_5044_10b1_426f_9247_bb68_0e5f_e0c8,
        name: String::new(),
        set: String::new(),
        number: String::new(),
        face_details: Vec::new(),
    };
    assert_eq!(job.image_file_name(&1), "67e55044-10b1-426f-9247-bb680e5fe0c8_1.jpg");
    assert_eq!(job.image_file_name(&0), "67e55044-10b1-426f-9247-bb680e5fe0c8_0.jpg");
    let zero = Job { id: 0, ..job };
    assert_eq!(zero.image_file_name(&12), "00000000-0000-0000-0000-000000000000_12.jpg");
}

#[test]
fn retry_decisions() {
    assert_eq!(retry_step(1, 3, RequestOutcome::Status(200)), RetryStep::Success);
    assert_eq!(retry_step(3, 3, RequestOutcome::Status(204)), RetryStep::Success);
    assert_eq!(retry_step(1, 3, RequestOutcome::Status(404)), RetryStep::NotFound);
    assert_eq!(retry_step(1, 3, RequestOutcome::Status(429)), RetryStep::Retry);
    assert_eq!(retry_step(2, 3, RequestOutcome::Status(503)), RetryStep::Retry);
    assert_eq!(retry_step(3, 3, RequestOutcome::Status(500)), RetryStep::GiveUpAfterRetries);
    assert_eq!(retry_step(1, 3, RequestOutcome::Status(403)), RetryStep::BadStatus);
    assert_eq!(retry_step(1, 3, RequestOutcome::Status(301)), RetryStep::BadStatus);
    assert_eq!(retry_step(1, 3, RequestOutcome::RequestError), RetryStep::Retry);
    assert_eq!(retry_step(3, 3, RequestOutcome::RequestError), RetryStep::RequestFailed);
}

#[test]
fn backoff_doubles_per_attempt() {
    assert_eq!(backoff_millis(0, 0), 100);
    assert_eq!(backoff_millis(1, 5), 205);
    assert_eq!(backoff_millis(3, 99), 899);
}

#[test]
fn bulk_array_becomes_one_record_per_line() {
    let content = "[\n{\"id\":1},\n{\"id\":2},\n{\"id\":3}\n]\n";
    assert_eq!(ndjson_from_bulk(content), "{\"id\":1}\n{\"id\":2}\n{\"id\":3}");
    let crlf = "[\r\n{\"id\":1},\r\n{\"id\":2}\r\n]";
    assert_eq!(ndjson_from_bulk(crlf), "{\"id\":1}\n{\"id\":2}");
}

#[test]
fn short_bulk_data_has_no_records() {
    assert_eq!(ndjson_from_bulk(""), "");
    assert_eq!(ndjson_from_bulk("[]"), "");
    assert_eq!(ndjson_from_bulk("[\n]\n"), "");
    assert_eq!(ndjson_from_bulk("[\nx,\n]"), "x");
}

#[test]
fn trailing_commas_are_all_removed() {
    assert_eq!(ndjson_from_bulk("[\na,,,\n,\nb\n]"), "a\n\nb");
}

#[test]
fn file_name_follows_the_last_slash() {
    assert_eq!(
        bulk_data_file_name("https://data.scryfall.io/default-cards/default-cards-20240101.json"),
        "default-cards-20240101.json"
    );
    assert_eq!(bulk_data_file_name("no-slash-here"), "data.ndjson");
    assert_eq!(bulk_data_file_name("ends/with/"), "");
    assert_eq!(bulk_data_file_name(""), "data.ndjson");
}

#[test]
fn stored_url_is_trimmed() {
    assert_eq!(parse_stored_url("  https://a/b \n"), Some(String::from("https://a/b")));
    assert_eq!(parse_stored_url("\u{3000}x\u{2028}"), Some(String::from("x")));
    assert_eq!(parse_stored_url(" \t\r\n"), None);
    assert_eq!(parse_stored_url(""), None);
    assert_eq!(trim_str("  a b  "), "a b");
}

#[test]
fn a_stored_address_reads_back_unchanged() {
    let url = "https://data.scryfall.io/default-cards/default-cards-20240101.json";
    let stored = parse_stored_url(url);
    assert_eq!(stored.as_deref(), Some(url));
    assert!(!needs_download(&stored, url));
}

#[test]
fn blank_lines() {
    assert!(is_blank(""));
    assert!(is_blank(" \t "));
    assert!(!is_blank(" {} "));
}

#[test]
fn download_when_the_address_changed() {
    assert!(needs_download(&None, "https://a"));
    assert!(needs_download(&Some(String::from("https://a")), "https://b"));
    assert!(!needs_download(&Some(String::from("https://a")), "https://a"));
}

#[test]
fn every_file_but_the_newest_is_stale() {
    assert_eq!(stale_files(&vec![5, 9, 3, 8]), vec![0, 2, 3]);
    assert_eq!(stale_files(&vec![5, 9, 3, 9]), vec![0, 1, 2]);
    assert_eq!(stale_files(&vec![4]), Vec::<usize>::new());
    assert_eq!(stale_files(&vec![]), Vec::<usize>::new());
}

fn job(id: u128, faces: Vec<FaceDetails>) -> Job {
    Job { id, name: format!("n{}", id), set: String::from("s"), number: String::from("7"), face_details: faces }
}

fn fd(n: u8, text: Option<&str>) -> FaceDetails {
    FaceDetails {
        face_number: n,
        border_crop_uri: String::new(),
        normal_art_uri: String::new(),
        oracle_text: text.map(|t| t.to_string()),
    }
}

#[test]
fn only_missing_cards_are_hashed() {
    let mut cache: CardCache = HashMap::new();
    let built = build_cached_card(&job(2, vec![]), &vec![], &vec![]).unwrap();
    cache.insert(2, built);
    let jobs = vec![job(1, vec![]), job(2, vec![]), job(3, vec![])];
    assert_eq!(missing_jobs(&cache, &jobs), vec![0, 2]);
}

fn jpeg_picture(shade: u8) -> (Vec<u8>, [u8; 32]) {
    let (w, h) = (40u32, 30u32);
    let mut pixels = Vec::new();
    for y in 0..h {
        for x in 0..w {
            let v = if x > 10 && y > 8 { shade } else { ((x * 5 + y) % 120) as u8 };
            pixels.extend_from_slice(&[v, 255 - v, v / 3]);
        }
    }
    let img = image::DynamicImage::ImageRgb8(image::ImageBuffer::from_raw(w, h, pixels).unwrap());
    let mut bytes = std::io::Cursor::new(Vec::new());
    img.write_to(&mut bytes, image::ImageFormat::Jpeg).unwrap();
    let bytes = bytes.into_inner();
    let decoded = image::load_from_memory_with_format(&bytes, image::ImageFormat::Jpeg).unwrap().to_rgb8();
    let hash = hash_rgb_frame(w, h, decoded.as_raw()).unwrap();
    (bytes, hash)
}

#[test]
fn cached_card_from_job_and_images() {
    let j = job(9, vec![fd(0, Some("Flying")), fd(1, None)]);
    let (img0, hash0) = jpeg_picture(250);
    let (img1, hash1) = jpeg_picture(30);
    let c = build_cached_card(&j, &vec![String::from("p0"), String::from("p1")], &vec![img0, img1]).unwrap();
    assert_eq!((c.id, c.name.as_str(), c.set.as_str(), c.number.as_str()), (9, "n9", "s", "7"));
    assert_eq!(c.faces.len(), 2);
    assert_eq!((c.faces[0].face, c.faces[0].image_path.as_str(), c.faces[0].oracle_text.as_str()), (0, "p0", "Flying"));
    assert_eq!((c.faces[1].face, c.faces[1].oracle_text.as_str()), (1, ""));
    assert_eq!(c.faces[0].phash, hash0);
    assert_eq!(c.faces[1].phash, hash1);
}

#[test]
fn a_broken_image_drops_the_card() {
    let j = job(9, vec![fd(0, None), fd(1, None)]);
    let (img0, _) = jpeg_picture(250);
    let r = build_cached_card(&j, &vec![String::from("p0"), String::from("p1")], &vec![img0, vec![0, 1, 2]]);
    assert!(r.is_none());
}

fn at(target: FetchTarget, attempt: usize) -> FetchState {
    FetchState { target, attempt }
}

#[test]
fn fetching_falls_back_to_the_normal_image() {
    let primary = FetchTarget::Primary;
    let fallback = FetchTarget::Fallback;
    assert_eq!(first_fetch(), at(primary, 1));
    assert_eq!(
        fetch_step(at(primary, 1), 3, RequestOutcome::Status(404)),
        (FetchStep::UseFallback, at(fallback, 1))
    );
    assert_eq!(
        fetch_step(at(primary, 2), 3, RequestOutcome::Status(404)),
        (FetchStep::UseFallback, at(fallback, 1))
    );
    assert_eq!(
        fetch_step(at(fallback, 1), 3, RequestOutcome::Status(404)),
        (FetchStep::FallbackNotFound, at(fallback, 1))
    );
    assert_eq!(
        fetch_step(at(fallback, 2), 3, RequestOutcome::Status(200)),
        (FetchStep::Deliver, at(fallback, 2))
    );
    assert_eq!(
        fetch_step(at(primary, 1), 3, RequestOutcome::Status(500)),
        (FetchStep::Retry, at(primary, 2))
    );
    assert_eq!(
        fetch_step(at(fallback, 2), 3, RequestOutcome::RequestError),
        (FetchStep::Retry, at(fallback, 3))
    );
    assert_eq!(
        fetch_step(at(primary, 3), 3, RequestOutcome::Status(500)),
        (FetchStep::GiveUpAfterRetries, at(primary, 3))
    );
    assert_eq!(
        fetch_step(at(fallback, 1), 3, RequestOutcome::Status(418)),
        (FetchStep::BadStatus, at(fallback, 1))
    );
    assert_eq!(
        fetch_step(at(primary, 3), 3, RequestOutcome::RequestError),
        (FetchStep::RequestFailed, at(primary, 3))
    );
}

#[test]
fn a_whole_fetch_runs_through_the_fallback() {
    let outcomes = [
        RequestOutcome::Status(429),
        RequestOutcome::Status(404),
        RequestOutcome::RequestError,
        RequestOutcome::Status(200),
    ];
    let mut state = first_fetch();
    let mut steps = Vec::new();
    for outcome in outcomes {
        let (step, next) = fetch_step(state, 3, outcome);
        steps.push(step);
        state = next;
    }
    assert_eq!(
        steps,
        vec![FetchStep::Retry, FetchStep::UseFallback, FetchStep::Retry, FetchStep::Deliver]
    );
    assert_eq!(state, at(FetchTarget::Fallback, 2));
}

#[test]
fn later_cards_replace_earlier_ones() {
    let mut cache: CardCache = HashMap::new();
    let a: CachedCard = build_cached_card(&job(1, vec![]), &vec![], &vec![]).unwrap();
    let mut b: CachedCard = build_cached_card(&job(1, vec![]), &vec![], &vec![]).unwrap();
    b.name = String::from("second");
    let c: CachedCard = build_cached_card(&job(4, vec![]), &vec![], &vec![]).unwrap();
    add_new_cards(&mut cache, vec![a, c, b]);
    assert_eq!(cache.len(), 2);
    assert_eq!(cache[&1].name, "second");
    assert_eq!(cache[&4].name, "n4");
}

#[test]
fn cached_cards_are_never_replaced() {
    let mut cache: CardCache = HashMap::new();
    let mut kept: CachedCard = build_cached_card(&job(7, vec![]), &vec![], &vec![]).unwrap();
    kept.name = String::from("cached");
    cache.insert(7, kept);
    let newer: CachedCard = build_cached_card(&job(7, vec![]), &vec![], &vec![]).unwrap();
    let other: CachedCard = build_cached_card(&job(8, vec![]), &vec![], &vec![]).unwrap();
    add_new_cards(&mut cache, vec![newer, other]);
    assert_eq!(cache.len(), 2);
    assert_eq!(cache[&7].name, "cached");
    assert_eq!(cache[&8].name, "n8");
}

#[test]
fn stored_images_are_skipped() {
    let j = job(3, vec![fd(0, None), fd(1, None), fd(2, None)]);
    assert_eq!(j.faces_to_fetch(&vec![true, false, false]), vec![1, 2]);
    assert_eq!(j.faces_to_fetch(&vec![true, true, true]), Vec::<usize>::new());
    assert_eq!(j.faces_to_fetch(&vec![false, true, false]), vec![0, 2]);
}
