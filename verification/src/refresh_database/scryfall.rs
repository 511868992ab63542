//! Scryfall card records: which images to download for each card, where
//! they are stored, and how a failed request is retried.

use std::fmt::Write;
use vstd::prelude::*;

use crate::text::{decimal, decimal_reads_back, digits_value, is_digit, push_decimal, push_str};

verus! {

/// The image links of a card or card face.
pub struct ImageUris {
    pub border_crop: String,
    pub normal: String,
}

/// One face of a multi-faced card record.
pub struct CardFace {
    pub image_uris: Option<ImageUris>,
    pub oracle_text: Option<String>,
}

/// A card record of Scryfall's bulk data; `id` is the card's identifier as
/// a 128-bit number.
pub struct Card {
    pub id: u128,
    pub name: String,
    pub set: String,
    pub collector_number: String,
    pub oracle_text: Option<String>,
    pub image_uris: Option<ImageUris>,
    pub card_faces: Option<Vec<CardFace>>,
}

/// The image to fetch for one face: the border-cropped image, and the
/// normal image to fall back on.
pub struct FaceDetails {
    pub face_number: u8,
    pub border_crop_uri: String,
    pub normal_art_uri: String,
    pub oracle_text: Option<String>,
}

/// The images to fetch for one card.
pub struct Job {
    pub id: u128,
    pub name: String,
    pub set: String,
    pub number: String,
    pub face_details: Vec<FaceDetails>,
}

fn copy_text(t: &Option<String>) -> (r: Option<String>)
    ensures
        r == *t,
{
    match t {
        Some(s) => Some(s.clone()),
        None => None,
    }
}

/// The details of a face numbered `n` with the given images and text.
pub open spec fn face_of(n: int, uris: ImageUris, text: Option<String>) -> FaceDetails {
    FaceDetails {
        face_number: n as u8,
        border_crop_uri: uris.border_crop,
        normal_art_uri: uris.normal,
        oracle_text: text,
    }
}

/// The faces of a multi-faced card that have images, each numbered by its
/// position among all the card's faces.
pub open spec fn faces_with_images(faces: Seq<CardFace>) -> Seq<FaceDetails>
    decreases faces.len(),
{
    if faces.len() == 0 {
        Seq::empty()
    } else {
        let last = faces.last();
        let before = faces_with_images(faces.drop_last());
        match last.image_uris {
            Some(uris) => before.push(face_of(faces.len() - 1, uris, last.oracle_text)),
            None => before,
        }
    }
}

/// The faces to fetch for a card: its one image as face 0 when the card has
/// images of its own, else the faces that have images; nothing when the
/// record has neither.
pub open spec fn spec_face_details(card: Card) -> Option<Seq<FaceDetails>> {
    match card.image_uris {
        Some(uris) => Some(seq![face_of(0, uris, card.oracle_text)]),
        None => match card.card_faces {
            Some(faces) => Some(faces_with_images(faces@)),
            None => None,
        },
    }
}

/// `d` describes face number `i` of a card, `f`: the same number, the
/// face's two image addresses and its oracle text.
pub open spec fn describes_face(d: FaceDetails, i: int, f: CardFace) -> bool {
    &&& d.face_number as int == i
    &&& f.image_uris == Some(ImageUris { border_crop: d.border_crop_uri, normal: d.normal_art_uri })
    &&& d.oracle_text == f.oracle_text
}

proof fn lemma_faces_with_images(faces: Seq<CardFace>)
    requires
        faces.len() <= 256,
    ensures
        forall|j: int|
            0 <= j < faces_with_images(faces).len() ==> exists|i: int|
                0 <= i < faces.len() && describes_face(
                    #[trigger] faces_with_images(faces)[j],
                    i,
                    faces[i],
                ),
        forall|i: int|
            0 <= i < faces.len() && (#[trigger] faces[i]).image_uris is Some ==> exists|j: int|
                0 <= j < faces_with_images(faces).len() && describes_face(
                    faces_with_images(faces)[j],
                    i,
                    faces[i],
                ),
        forall|j1: int, j2: int|
            0 <= j1 < j2 < faces_with_images(faces).len() ==> (#[trigger] faces_with_images(
                faces,
            )[j1]).face_number < (#[trigger] faces_with_images(faces)[j2]).face_number,
        forall|j: int|
            0 <= j < faces_with_images(faces).len() ==> (#[trigger] faces_with_images(
                faces,
            )[j]).face_number < faces.len(),
    decreases faces.len(),
{
    if faces.len() > 0 {
        let init = faces.drop_last();
        let last = faces.last();
        let n = faces.len() - 1;
        lemma_faces_with_images(init);
        let before = faces_with_images(init);
        let r = faces_with_images(faces);
        assert forall|j: int| 0 <= j < r.len() implies exists|i: int|
            0 <= i < faces.len() && describes_face(#[trigger] r[j], i, faces[i]) by {
            if j < before.len() {
                assert(r[j] == before[j]);
                let i = choose|i: int| 0 <= i < init.len() && describes_face(before[j], i, init[i]);
                assert(init[i] == faces[i]);
            } else {
                assert(describes_face(r[j], n, faces[n]));
            }
        }
        assert forall|i: int| 0 <= i < faces.len() && (#[trigger] faces[i]).image_uris is Some implies exists|j: int|
            0 <= j < r.len() && describes_face(r[j], i, faces[i]) by {
            if i < n {
                assert(init[i] == faces[i]);
                let j = choose|j: int| 0 <= j < before.len() && describes_face(before[j], i, init[i]);
                assert(r[j] == before[j]);
            } else {
                assert(describes_face(r[before.len() as int], i, faces[i]));
            }
        }
        assert forall|j1: int, j2: int| 0 <= j1 < j2 < r.len() implies (#[trigger] r[j1]).face_number
            < (#[trigger] r[j2]).face_number by {
            assert(r[j1] == before[j1]);
            if j2 < before.len() {
                assert(r[j2] == before[j2]);
            }
        }
        assert forall|j: int| 0 <= j < r.len() implies (#[trigger] r[j]).face_number < faces.len() by {
            if j < before.len() {
                assert(r[j] == before[j]);
            }
        }
    }
}

/// The faces to fetch for a card record. A card with images of its own gives
/// one face, number 0, with those images and the card's oracle text. Else
/// each face of `card_faces` that has images gives one detail, in the order
/// of the faces, carrying that face's position as its number, its images and
/// its own oracle text; faces without images give none.
pub proof fn face_details_follow_the_faces(card: Card)
    requires
        faces_numberable(card),
    ensures
        card.image_uris matches Some(uris) ==> (spec_face_details(card) matches Some(r) && r.len()
            == 1 && r[0].face_number == 0 && r[0].border_crop_uri == uris.border_crop
            && r[0].normal_art_uri == uris.normal && r[0].oracle_text == card.oracle_text),
        card.image_uris is None && card.card_faces is None ==> spec_face_details(card) is None,
        card.image_uris is None && card.card_faces is Some ==> (spec_face_details(card) matches Some(
            r,
        ) && {
            let faces = card.card_faces->0@;
            &&& forall|j: int|
                0 <= j < r.len() ==> exists|i: int|
                    0 <= i < faces.len() && describes_face(#[trigger] r[j], i, faces[i])
            &&& forall|i: int|
                0 <= i < faces.len() && (#[trigger] faces[i]).image_uris is Some ==> exists|j: int|
                    0 <= j < r.len() && describes_face(r[j], i, faces[i])
            &&& forall|j1: int, j2: int|
                0 <= j1 < j2 < r.len() ==> (#[trigger] r[j1]).face_number < (#[trigger] r[j2]).face_number
        }),
{
    if card.image_uris is None && card.card_faces is Some {
        lemma_faces_with_images(card.card_faces->0@);
    }
}

/// Whether every face of the card can be numbered by a `u8`.
pub open spec fn faces_numberable(card: Card) -> bool {
    card.image_uris is None && card.card_faces is Some ==> card.card_faces->0@.len() <= 256
}

fn copy_uris(u: &ImageUris) -> (r: ImageUris)
    ensures
        r == *u,
{
    ImageUris { border_crop: u.border_crop.clone(), normal: u.normal.clone() }
}

/// The faces to fetch for a card (see `spec_face_details`).
pub fn get_face_details(card: &Card) -> (r: Option<Vec<FaceDetails>>)
    requires
        faces_numberable(*card),
    ensures
        r matches Some(v) ==> spec_face_details(*card) == Some(v@),
        r is None <==> spec_face_details(*card) is None,
{
    if let Some(uris) = &card.image_uris {
        let u = copy_uris(uris);
        let mut v: Vec<FaceDetails> = Vec::new();
        v.push(
            FaceDetails {
                face_number: 0,
                border_crop_uri: u.border_crop,
                normal_art_uri: u.normal,
                oracle_text: copy_text(&card.oracle_text),
            },
        );
        assert(v@ =~= seq![face_of(0, *uris, card.oracle_text)]);
        Some(v)
    } else if let Some(faces) = &card.card_faces {
        let mut v: Vec<FaceDetails> = Vec::new();
        let n = faces.len();
        for i in 0..n
            invariant
                n == faces@.len(),
                n <= 256,
                v@ == faces_with_images(faces@.take(i as int)),
        {
            let face = &faces[i];
            assert(faces@.take(i + 1).drop_last() =~= faces@.take(i as int));
            if let Some(uris) = &face.image_uris {
                let u = copy_uris(uris);
                v.push(
                    FaceDetails {
                        face_number: i as u8,
                        border_crop_uri: u.border_crop,
                        normal_art_uri: u.normal,
                        oracle_text: copy_text(&face.oracle_text),
                    },
                );
            }
        }
        assert(faces@.take(n as int) =~= faces@);
        Some(v)
    } else {
        None
    }
}

/// The download job of a card record: its identity and the faces to fetch,
/// or nothing when the record has no images.
pub fn job_for_card(card: Card) -> (r: Option<Job>)
    requires
        faces_numberable(card),
    ensures
        r matches Some(job) ==> {
            &&& spec_face_details(card) == Some(job.face_details@)
            &&& job.id == card.id
            &&& job.name == card.name
            &&& job.set == card.set
            &&& job.number == card.collector_number
        },
        r is None <==> spec_face_details(card) is None,
{
    match get_face_details(&card) {
        Some(face_details) => Some(
            Job {
                id: card.id,
                name: card.name,
                set: card.set,
                number: card.collector_number,
                face_details,
            },
        ),
        None => None,
    }
}

// ---------------------------------------------------------------------------
// Image file names

/// Hexadecimal digit, lower case.
pub open spec fn hex_digit(d: u128) -> char {
    if d < 10 {
        ((48 + d) as u8) as char
    } else {
        ((87 + d) as u8) as char
    }
}

/// The `k`-th hexadecimal digit of `id`, most significant first.
pub open spec fn uuid_nibble(id: u128, k: int) -> u128 {
    (id >> ((124 - 4 * k) as u128)) & 15u128
}

/// The hyphenated lower-case text of a UUID: 32 hexadecimal digits, most
/// significant first, in groups of 8, 4, 4, 4 and 12 joined by `-`.
pub open spec fn uuid_text(id: u128) -> Seq<char> {
    Seq::new(
        36,
        |i: int|
            if i == 8 || i == 13 || i == 18 || i == 23 {
                '-'
            } else if i < 8 {
                hex_digit(uuid_nibble(id, i))
            } else if i < 13 {
                hex_digit(uuid_nibble(id, i - 1))
            } else if i < 18 {
                hex_digit(uuid_nibble(id, i - 2))
            } else if i < 23 {
                hex_digit(uuid_nibble(id, i - 3))
            } else {
                hex_digit(uuid_nibble(id, i - 4))
            },
    )
}

/// Appends the text of the UUID `id` to `s`, by formatting `Uuid::from_u128`
/// of the `uuid` crate with `Display`.
/// Trusted: `from_u128` takes the number's bytes in big-endian order, and
/// `Display` writes the hyphenated form with lower-case digits.
#[verifier::external_body]
fn push_uuid(s: &mut String, id: u128)
    ensures
        final(s)@ == old(s)@ + uuid_text(id),
{
    write!(s, "{}", uuid::Uuid::from_u128(id)).unwrap();
}

/// The file name of a face image: `{id}_{face}.jpg`.
pub open spec fn spec_image_file_name(id: u128, face: u8) -> Seq<char> {
    uuid_text(id) + "_"@ + decimal(face as nat) + ".jpg"@
}

/// The file name of a face image is the card's identifier as a hyphenated
/// UUID of 36 characters, `_`, the face number in decimal digits that read
/// back as that number, and `.jpg`.
pub proof fn image_file_name_reads_back(id: u128, face: u8)
    ensures
        ({
            let name = spec_image_file_name(id, face);
            &&& name.take(36) == uuid_text(id)
            &&& name[36] == '_'
            &&& name.len() > 41
            &&& name.skip(name.len() - 4) == ".jpg"@
            &&& forall|i: int| 37 <= i < name.len() - 4 ==> is_digit(#[trigger] name[i])
            &&& digits_value(name.subrange(37, name.len() - 4)) == face
        }),
{
    reveal_strlit("_");
    reveal_strlit(".jpg");
    let name = spec_image_file_name(id, face);
    let d = decimal(face as nat);
    decimal_reads_back(face as nat);
    assert(name.take(36) =~= uuid_text(id));
    assert(name.skip(name.len() - 4) =~= ".jpg"@);
    assert(name.subrange(37, name.len() - 4) =~= d);
    assert forall|i: int| 37 <= i < name.len() - 4 implies is_digit(#[trigger] name[i]) by {
        assert(name[i] == d[i - 37]);
    }
}

impl Job {
    /// The file name under which the image of face `face` is stored.
    pub fn image_file_name(&self, face: &u8) -> (r: String)
        ensures
            r@ == spec_image_file_name(self.id, *face),
    {
        let mut s = String::new();
        push_uuid(&mut s, self.id);
        push_str(&mut s, "_");
        push_decimal(&mut s, *face as u32);
        push_str(&mut s, ".jpg");
        assert(s@ =~= spec_image_file_name(self.id, *face));
        s
    }
}

/// Positions of the faces whose image is not stored yet, in order.
pub open spec fn spec_faces_to_fetch(stored: Seq<bool>) -> Seq<usize>
    decreases stored.len(),
{
    if stored.len() == 0 {
        Seq::empty()
    } else if stored.last() {
        spec_faces_to_fetch(stored.drop_last())
    } else {
        spec_faces_to_fetch(stored.drop_last()).push((stored.len() - 1) as usize)
    }
}

impl Job {
    /// The faces to download, given whether each face's image is already
    /// stored: images on disk are never downloaded again.
    pub fn faces_to_fetch(&self, stored: &Vec<bool>) -> (r: Vec<usize>)
        requires
            stored@.len() == self.face_details@.len(),
        ensures
            r@ == spec_faces_to_fetch(stored@),
    {
        let n = stored.len();
        let mut r: Vec<usize> = Vec::new();
        for i in 0..n
            invariant
                n == stored@.len(),
                r@ == spec_faces_to_fetch(stored@.take(i as int)),
        {
            assert(stored@.take(i + 1).drop_last() =~= stored@.take(i as int));
            if !stored[i] {
                r.push(i);
            }
        }
        assert(stored@.take(n as int) =~= stored@);
        r
    }
}

/// No face whose image is stored is fetched, and every other face is.
pub proof fn stored_images_are_not_fetched_again(stored: Seq<bool>)
    requires
        stored.len() <= usize::MAX,
    ensures
        forall|i: int|
            0 <= i < spec_faces_to_fetch(stored).len() ==> !stored[#[trigger] spec_faces_to_fetch(
                stored,
            )[i] as int] && spec_faces_to_fetch(stored)[i] < stored.len(),
        forall|j: int|
            0 <= j < stored.len() && !#[trigger] stored[j] ==> spec_faces_to_fetch(stored).contains(
                j as usize,
            ),
    decreases stored.len(),
{
    if stored.len() > 0 {
        let init = stored.drop_last();
        stored_images_are_not_fetched_again(init);
        let before = spec_faces_to_fetch(init);
        let r = spec_faces_to_fetch(stored);
        assert forall|i: int| 0 <= i < r.len() implies !stored[#[trigger] r[i] as int] && r[i]
            < stored.len() by {
            if i < before.len() {
                assert(r[i] == before[i]);
                assert(init[before[i] as int] == stored[before[i] as int]);
            }
        }
        assert forall|j: int| 0 <= j < stored.len() && !#[trigger] stored[j] implies r.contains(
            j as usize,
        ) by {
            if j < stored.len() - 1 {
                assert(init[j] == stored[j]);
                let w = choose|w: int| 0 <= w < before.len() && before[w] == j as usize;
                assert(r[w] == j as usize);
            } else {
                assert(r[r.len() - 1] == j as usize);
            }
        }
    }
}

// ---------------------------------------------------------------------------
// Retrying requests

/// What came back from one request.
#[derive(Clone, Copy, Debug, PartialEq, Eq, Structural)]
pub enum RequestOutcome {
    /// A response with this HTTP status.
    Status(u16),
    /// No response: the request itself failed.
    RequestError,
}

/// What to do after a request.
#[derive(Clone, Copy, Debug, PartialEq, Eq, Structural)]
pub enum RetryStep {
    /// The response succeeded: use it.
    Success,
    /// The image does not exist at this address: try the fallback.
    NotFound,
    /// Wait, then send the request again.
    Retry,
    /// Rate limited or a server error, and no attempts are left.
    GiveUpAfterRetries,
    /// A status that is neither success, not found, rate limiting nor a
    /// server error.
    BadStatus,
    /// The request failed and no attempts are left.
    RequestFailed,
}

/// The decision after attempt number `attempt` (counted from 1) of at most
/// `max_retries`.
pub open spec fn spec_retry_step(attempt: int, max_retries: int, outcome: RequestOutcome) -> RetryStep {
    match outcome {
        RequestOutcome::Status(code) => if 200 <= code <= 299 {
            RetryStep::Success
        } else if code == 404 {
            RetryStep::NotFound
        } else if code == 429 || (500 <= code <= 599) {
            if attempt >= max_retries {
                RetryStep::GiveUpAfterRetries
            } else {
                RetryStep::Retry
            }
        } else {
            RetryStep::BadStatus
        },
        RequestOutcome::RequestError => if attempt >= max_retries {
            RetryStep::RequestFailed
        } else {
            RetryStep::Retry
        },
    }
}

/// How the status of a response decides the step: 2xx succeeds; 404 sends
/// the fetch to the fallback; rate limiting (429) and every server error
/// (500 to 599), like a failed request, are retried while attempts are left
/// and end the fetch once none are; any other status is a bad status.
pub proof fn retry_decisions_by_status(attempt: int, max_retries: int, code: u16)
    ensures
        spec_retry_step(attempt, max_retries, RequestOutcome::Status(code)) == RetryStep::Success
            <==> 200 <= code <= 299,
        spec_retry_step(attempt, max_retries, RequestOutcome::Status(code)) == RetryStep::NotFound
            <==> code == 404,
        code == 429 || 500 <= code <= 599 ==> spec_retry_step(
            attempt,
            max_retries,
            RequestOutcome::Status(code),
        ) == if attempt < max_retries {
            RetryStep::Retry
        } else {
            RetryStep::GiveUpAfterRetries
        },
        spec_retry_step(attempt, max_retries, RequestOutcome::Status(code)) == RetryStep::BadStatus
            <==> !(200 <= code <= 299 || code == 404 || code == 429 || 500 <= code <= 599),
        spec_retry_step(attempt, max_retries, RequestOutcome::RequestError) == if attempt
            < max_retries {
            RetryStep::Retry
        } else {
            RetryStep::RequestFailed
        },
{
}

/// The decision after a request (see `spec_retry_step`).
pub fn retry_step(attempt: usize, max_retries: usize, outcome: RequestOutcome) -> (r: RetryStep)
    ensures
        r == spec_retry_step(attempt as int, max_retries as int, outcome),
{
    match outcome {
        RequestOutcome::Status(code) => {
            if 200 <= code && code <= 299 {
                RetryStep::Success
            } else if code == 404 {
                RetryStep::NotFound
            } else if code == 429 || (500 <= code && code <= 599) {
                if attempt >= max_retries {
                    RetryStep::GiveUpAfterRetries
                } else {
                    RetryStep::Retry
                }
            } else {
                RetryStep::BadStatus
            }
        },
        RequestOutcome::RequestError => {
            if attempt >= max_retries {
                RetryStep::RequestFailed
            } else {
                RetryStep::Retry
            }
        },
    }
}

/// Which address a face image is being fetched from.
#[derive(Clone, Copy, Debug, PartialEq, Eq, Structural)]
pub enum FetchTarget {
    /// The border-cropped image.
    Primary,
    /// The normal image, used when the border-cropped one does not exist.
    Fallback,
}

/// What to do next while fetching a face image.
#[derive(Clone, Copy, Debug, PartialEq, Eq, Structural)]
pub enum FetchStep {
    /// The response succeeded: store it.
    Deliver,
    /// Wait, then send the same request again.
    Retry,
    /// The border-cropped image does not exist: fetch the normal image,
    /// counting attempts from the start again.
    UseFallback,
    /// The normal image does not exist either: the fetch fails.
    FallbackNotFound,
    /// Rate limited or a server error, and no attempts are left: the fetch fails.
    GiveUpAfterRetries,
    /// An unexpected status: the fetch fails.
    BadStatus,
    /// The request failed and no attempts are left: the fetch fails.
    RequestFailed,
}

/// The next step of fetching a face image from `target`, after attempt
/// number `attempt` (counted from 1) of at most `max_retries` on that
/// address. A fetch that fails ends the download of the card's other faces.
pub open spec fn spec_fetch_step(
    target: FetchTarget,
    attempt: int,
    max_retries: int,
    outcome: RequestOutcome,
) -> FetchStep {
    match spec_retry_step(attempt, max_retries, outcome) {
        RetryStep::Success => FetchStep::Deliver,
        RetryStep::NotFound => match target {
            FetchTarget::Primary => FetchStep::UseFallback,
            FetchTarget::Fallback => FetchStep::FallbackNotFound,
        },
        RetryStep::Retry => FetchStep::Retry,
        RetryStep::GiveUpAfterRetries => FetchStep::GiveUpAfterRetries,
        RetryStep::BadStatus => FetchStep::BadStatus,
        RetryStep::RequestFailed => FetchStep::RequestFailed,
    }
}

/// Where a fetch stands: the address in use, and the number of the attempt
/// being made on it (counted from 1).
#[derive(Clone, Copy, Debug, PartialEq, Eq, Structural)]
pub struct FetchState {
    pub target: FetchTarget,
    pub attempt: usize,
}

/// The first attempt, on the border-cropped image.
pub fn first_fetch() -> (r: FetchState)
    ensures
        r == (FetchState { target: FetchTarget::Primary, attempt: 1 }),
{
    FetchState { target: FetchTarget::Primary, attempt: 1 }
}

/// The state after a step: the fallback starts again at attempt 1, a retry
/// makes the next attempt on the same address, and any other step ends the
/// fetch where it stands.
pub open spec fn spec_next_fetch(state: FetchState, step: FetchStep) -> FetchState {
    match step {
        FetchStep::UseFallback => FetchState { target: FetchTarget::Fallback, attempt: 1 },
        FetchStep::Retry => FetchState { target: state.target, attempt: (state.attempt + 1) as usize },
        _ => state,
    }
}

/// The next step of fetching a face image after the current attempt (see
/// `spec_fetch_step`), and the state to continue from (see `spec_next_fetch`).
pub fn fetch_step(state: FetchState, max_retries: usize, outcome: RequestOutcome) -> (r: (
    FetchStep,
    FetchState,
))
    ensures
        r.0 == spec_fetch_step(state.target, state.attempt as int, max_retries as int, outcome),
        r.1 == spec_next_fetch(state, r.0),
        r.0 == FetchStep::Retry ==> r.1.attempt == state.attempt + 1,
{
    let step = match retry_step(state.attempt, max_retries, outcome) {
        RetryStep::Success => FetchStep::Deliver,
        RetryStep::NotFound => match state.target {
            FetchTarget::Primary => FetchStep::UseFallback,
            FetchTarget::Fallback => FetchStep::FallbackNotFound,
        },
        RetryStep::Retry => FetchStep::Retry,
        RetryStep::GiveUpAfterRetries => FetchStep::GiveUpAfterRetries,
        RetryStep::BadStatus => FetchStep::BadStatus,
        RetryStep::RequestFailed => FetchStep::RequestFailed,
    };
    let next = match step {
        FetchStep::UseFallback => FetchState { target: FetchTarget::Fallback, attempt: 1 },
        FetchStep::Retry => FetchState { target: state.target, attempt: state.attempt + 1 },
        _ => state,
    };
    (step, next)
}

/// The fallback is tried only after the border-cropped image was not found,
/// and a missing normal image ends the fetch.
pub proof fn fallback_only_after_not_found(
    target: FetchTarget,
    attempt: int,
    max_retries: int,
    outcome: RequestOutcome,
)
    ensures
        spec_fetch_step(target, attempt, max_retries, outcome) == FetchStep::UseFallback
            <==> target == FetchTarget::Primary && outcome == RequestOutcome::Status(404),
        spec_fetch_step(target, attempt, max_retries, outcome) == FetchStep::FallbackNotFound
            <==> target == FetchTarget::Fallback && outcome == RequestOutcome::Status(404),
{
}

/// A request is retried only while attempts are left, so the retry loop
/// sends at most `max_retries` requests (one when `max_retries` is 0).
pub proof fn retries_are_bounded(attempt: int, max_retries: int, outcome: RequestOutcome)
    ensures
        spec_retry_step(attempt, max_retries, outcome) == RetryStep::Retry ==> attempt < max_retries,
        attempt >= max_retries ==> spec_retry_step(attempt, max_retries, outcome)
            != RetryStep::Retry,
{
}

/// `2` to the power `n`.
pub open spec fn pow2(n: nat) -> nat
    decreases n,
{
    if n == 0 {
        1
    } else {
        2 * pow2((n - 1) as nat)
    }
}

/// Milliseconds to wait before retrying after attempt `attempt`: an
/// exponential backoff of `100 * 2^attempt` plus the given jitter.
pub fn backoff_millis(attempt: u32, jitter: u64) -> (r: u64)
    requires
        100 * pow2(attempt as nat) + jitter <= u64::MAX,
    ensures
        r == 100 * pow2(attempt as nat) + jitter,
{
    let mut p: u64 = 1;
    let mut k: u32 = 0;
    while k < attempt
        invariant
            k <= attempt,
            p == pow2(k as nat),
            100 * pow2(attempt as nat) + jitter <= u64::MAX,
        decreases attempt - k,
    {
        proof {
            lemma_pow2_mono((k + 1) as nat, attempt as nat);
        }
        p = p * 2;
        k = k + 1;
    }
    100 * p + jitter
}

proof fn lemma_pow2_mono(a: nat, b: nat)
    requires
        a <= b,
    ensures
        pow2(a) <= pow2(b),
    decreases b,
{
    if a < b {
        lemma_pow2_mono(a, (b - 1) as nat);
    }
}

} // verus!
