//! Adding newly downloaded cards to the card cache.

use vstd::prelude::*;

use crate::cache::card_cache::{cache_hash, file_phash, CachedCard, CachedFace, CardCache};
use crate::refresh_database::scryfall::{FaceDetails, Job};

verus! {

broadcast use vstd::std_specs::hash::group_hash_axioms;

/// Positions of the jobs whose card the cache does not hold yet, in order.
pub open spec fn spec_missing_jobs(cache: Map<u128, CachedCard>, jobs: Seq<Job>) -> Seq<usize>
    decreases jobs.len(),
{
    if jobs.len() == 0 {
        Seq::empty()
    } else {
        let before = spec_missing_jobs(cache, jobs.drop_last());
        if cache.contains_key(jobs.last().id) {
            before
        } else {
            before.push((jobs.len() - 1) as usize)
        }
    }
}

/// The jobs whose card is missing from the cache (see `spec_missing_jobs`).
pub fn missing_jobs(cache: &CardCache, jobs: &Vec<Job>) -> (r: Vec<usize>)
    ensures
        r@ == spec_missing_jobs(cache@, jobs@),
{
    let n = jobs.len();
    let mut r: Vec<usize> = Vec::new();
    for i in 0..n
        invariant
            n == jobs@.len(),
            r@ == spec_missing_jobs(cache@, jobs@.take(i as int)),
    {
        assert(jobs@.take(i + 1).drop_last() =~= jobs@.take(i as int));
        if !cache.contains_key(&jobs[i].id) {
            r.push(i);
        }
    }
    assert(jobs@.take(n as int) =~= jobs@);
    r
}

/// The oracle text of a face, or the empty text when it has none.
pub open spec fn text_or_empty(t: Option<String>) -> Seq<char> {
    match t {
        Some(s) => s@,
        None => Seq::empty(),
    }
}

/// Whether `face` is the cached form of the face `fd`, stored at `path`, whose
/// image file holds `image`.
pub open spec fn is_cached_face(face: CachedFace, fd: FaceDetails, path: String, image: Seq<u8>) -> bool {
    &&& face.face == fd.face_number
    &&& face.image_path == path
    &&& face.oracle_text@ == text_or_empty(fd.oracle_text)
    &&& cache_hash(file_phash(image, "jpg"@)) == Some(face.phash@)
}

/// A cached face keeps its face's number, its image's location and the
/// face's whole oracle text, character for character; the text is empty
/// when the face has none.
pub proof fn cached_faces_keep_the_oracle_text(face: CachedFace, fd: FaceDetails, path: String, image: Seq<u8>)
    requires
        is_cached_face(face, fd, path, image),
    ensures
        face.face == fd.face_number,
        face.image_path == path,
        fd.oracle_text matches Some(t) ==> face.oracle_text@ == t@,
        fd.oracle_text is None ==> face.oracle_text@ == Seq::<char>::empty(),
{
}

/// Whether every face image of the job can be hashed.
pub open spec fn all_hashable(images: Seq<Vec<u8>>) -> bool {
    forall|k: int| 0 <= k < images.len() ==> (#[trigger] cache_hash(file_phash(images[k]@, "jpg"@))) is Some
}

/// The cache entry of a downloaded card: the job's identity, and for each
/// face its number, its image's location, the perceptual hash of its image
/// (a JPEG file, as `Job::image_file_name` names it), and its oracle text
/// (empty when the face has none); nothing when an image cannot be hashed.
pub fn build_cached_card(job: &Job, image_paths: &Vec<String>, images: &Vec<Vec<u8>>) -> (r:
    Option<CachedCard>)
    requires
        image_paths@.len() == job.face_details@.len(),
        images@.len() == job.face_details@.len(),
    ensures
        r is None <==> !all_hashable(images@),
        r matches Some(c) ==> {
            &&& c.id == job.id
            &&& c.name == job.name
            &&& c.set == job.set
            &&& c.number == job.number
            &&& c.faces@.len() == job.face_details@.len()
            &&& forall|k: int|
                0 <= k < c.faces@.len() ==> (job.face_details@[k].oracle_text matches Some(t)
                    ==> (#[trigger] c.faces@[k]).oracle_text@ == t@)
            &&& forall|k: int|
                0 <= k < c.faces@.len() ==> (job.face_details@[k].oracle_text is None
                    ==> (#[trigger] c.faces@[k]).oracle_text@.len() == 0)
            &&& forall|k: int|
                0 <= k < c.faces@.len() ==> is_cached_face(
                    #[trigger] c.faces@[k],
                    job.face_details@[k],
                    image_paths@[k],
                    images@[k]@,
                )
        },
{
    let n = job.face_details.len();
    let mut faces: Vec<CachedFace> = Vec::new();
    for k in 0..n
        invariant
            n == job.face_details@.len(),
            image_paths@.len() == n,
            images@.len() == n,
            faces@.len() == k,
            forall|j: int| 0 <= j < k ==> (#[trigger] cache_hash(file_phash(images@[j]@, "jpg"@))) is Some,
            forall|j: int|
                0 <= j < k ==> is_cached_face(
                    #[trigger] faces@[j],
                    job.face_details@[j],
                    image_paths@[j],
                    images@[j]@,
                ),
    {
        let fd = &job.face_details[k];
        let text = match &fd.oracle_text {
            Some(t) => t.clone(),
            None => String::new(),
        };
        match CachedFace::new(fd.face_number, image_paths[k].clone(), images[k].as_slice(), "jpg", text) {
            Some(face) => faces.push(face),
            None => {
                assert(cache_hash(file_phash(images@[k as int]@, "jpg"@)) is None);
                return None;
            },
        }
    }
    Some(CachedCard::new(job.id, job.name.clone(), job.set.clone(), job.number.clone(), faces))
}

/// The cache after adding each new card under its identifier, in order:
/// a card whose identifier `base` already holds is left out, and a later new
/// card replaces an earlier one with the same identifier.
pub open spec fn spec_add_new_cards(base: Map<u128, CachedCard>, cards: Seq<CachedCard>) -> Map<
    u128,
    CachedCard,
>
    decreases cards.len(),
{
    if cards.len() == 0 {
        base
    } else {
        let before = spec_add_new_cards(base, cards.drop_last());
        if base.contains_key(cards.last().id) {
            before
        } else {
            before.insert(cards.last().id, cards.last())
        }
    }
}

/// Adding new cards never replaces a card already in the cache, and every
/// new card whose identifier the cache lacked is then in it.
pub proof fn adding_new_cards_keeps_cached_ones(base: Map<u128, CachedCard>, cards: Seq<CachedCard>)
    ensures
        forall|k: u128|
            #[trigger] base.contains_key(k) ==> spec_add_new_cards(base, cards).contains_key(k)
                && spec_add_new_cards(base, cards)[k] == base[k],
        forall|i: int|
            0 <= i < cards.len() ==> spec_add_new_cards(base, cards).contains_key(
                #[trigger] cards[i].id,
            ),
    decreases cards.len(),
{
    if cards.len() > 0 {
        let init = cards.drop_last();
        adding_new_cards_keeps_cached_ones(base, init);
        assert forall|i: int| 0 <= i < cards.len() implies spec_add_new_cards(base, cards).contains_key(
            #[trigger] cards[i].id,
        ) by {
            if i < cards.len() - 1 {
                assert(init[i] == cards[i]);
            }
        }
    }
}

/// The jobs that `missing_jobs` lists are those whose card the cache lacks.
pub proof fn missing_jobs_lack_a_card(cache: Map<u128, CachedCard>, jobs: Seq<Job>)
    requires
        jobs.len() <= usize::MAX,
    ensures
        forall|i: int|
            0 <= i < spec_missing_jobs(cache, jobs).len() ==> {
                &&& spec_missing_jobs(cache, jobs)[i] < jobs.len()
                &&& !cache.contains_key(jobs[#[trigger] spec_missing_jobs(cache, jobs)[i] as int].id)
            },
        forall|j: int|
            0 <= j < jobs.len() && !cache.contains_key(#[trigger] jobs[j].id) ==> spec_missing_jobs(
                cache,
                jobs,
            ).contains(j as usize),
    decreases jobs.len(),
{
    if jobs.len() > 0 {
        let init = jobs.drop_last();
        missing_jobs_lack_a_card(cache, init);
        let before = spec_missing_jobs(cache, init);
        let r = spec_missing_jobs(cache, jobs);
        assert forall|i: int| 0 <= i < r.len() implies {
            &&& r[i] < jobs.len()
            &&& !cache.contains_key(jobs[#[trigger] r[i] as int].id)
        } by {
            if i < before.len() {
                assert(r[i] == before[i]);
                assert(init[before[i] as int] == jobs[before[i] as int]);
            }
        }
        assert forall|j: int|
            0 <= j < jobs.len() && !cache.contains_key(#[trigger] jobs[j].id) implies spec_missing_jobs(
                cache,
                jobs,
            ).contains(j as usize) by {
            if j < jobs.len() - 1 {
                assert(init[j] == jobs[j]);
                assert(before.contains(j as usize));
                let w = choose|w: int| 0 <= w < before.len() && before[w] == j as usize;
                if !cache.contains_key(jobs.last().id) {
                    assert(spec_missing_jobs(cache, jobs)[w] == j as usize);
                }
            } else {
                let r = spec_missing_jobs(cache, jobs);
                assert(r[r.len() - 1] == j as usize);
            }
        }
    }
}

/// Adds the cards built for the jobs missing from the cache, each under its
/// identifier (see `spec_add_new_cards`): no card already cached is replaced.
pub fn add_new_cards(cache: &mut CardCache, new_cards: Vec<CachedCard>)
    ensures
        final(cache)@ == spec_add_new_cards(old(cache)@, new_cards@),
        forall|k: u128|
            #[trigger] old(cache)@.contains_key(k) ==> final(cache)@.contains_key(k)
                && final(cache)@[k] == old(cache)@[k],
{
    let total = new_cards.len();
    let ghost all = new_cards@;
    let ghost base = cache@;
    assert(all.len() == total);
    // which cards the cache lacks before anything is added
    let mut fresh: Vec<bool> = Vec::new();
    for i in 0..total
        invariant
            total == all.len(),
            all == new_cards@,
            cache@ == base,
            fresh@.len() == i,
            forall|j: int| 0 <= j < i ==> fresh@[j] == !base.contains_key(#[trigger] all[j].id),
    {
        fresh.push(!cache.contains_key(&new_cards[i].id));
    }
    let mut cards = new_cards;
    let mut rev: Vec<CachedCard> = Vec::new();
    // reverse, so that popping yields the cards in their order
    while cards.len() > 0
        invariant
            all.len() == cards@.len() + rev@.len(),
            all.len() <= usize::MAX,
            cards@ == all.take(cards@.len() as int),
            forall|j: int| 0 <= j < rev@.len() ==> #[trigger] rev@[j] == all[all.len() - 1 - j],
        decreases cards.len(),
    {
        let c = cards.pop().unwrap();
        rev.push(c);
        assert(cards@ =~= all.take(cards@.len() as int));
    }
    let mut done: usize = 0;
    while rev.len() > 0
        invariant
            done + rev@.len() == all.len(),
            all.len() <= usize::MAX,
            fresh@.len() == all.len(),
            forall|j: int| 0 <= j < all.len() ==> fresh@[j] == !base.contains_key(#[trigger] all[j].id),
            forall|j: int| 0 <= j < rev@.len() ==> #[trigger] rev@[j] == all[all.len() - 1 - j],
            cache@ == spec_add_new_cards(base, all.take(done as int)),
        decreases rev.len(),
    {
        let c = rev.pop().unwrap();
        assert(c == all[done as int]);
        assert(all.take(done + 1).drop_last() =~= all.take(done as int));
        if fresh[done] {
            let id = c.id;
            cache.insert(id, c);
        }
        done = done + 1;
    }
    assert(all.take(all.len() as int) =~= all);
    proof {
        adding_new_cards_keeps_cached_ones(base, all);
    }
}

} // verus!
