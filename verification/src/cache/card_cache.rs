//! The cached description of every card: names, set, faces and their
//! perceptual hashes.

use std::collections::HashMap;
use image_hasher::HashAlg;
use vstd::prelude::*;

verus! {

/// Number of bytes in a face's perceptual hash: one bit for each cell of the
/// `HASH_SIDE` x `HASH_SIDE` grid (see `hash_bytes_hold_the_grid`).
pub const PHASH_BYTES: usize = 32;

/// One face of a cached card.
#[derive(Debug)]
pub struct CachedFace {
    /// 0 for the front, 1 for the back, more for further faces.
    pub face: u8,
    /// Where the face's image is stored.
    pub image_path: String,
    pub oracle_text: String,
    /// The face image's perceptual hash.
    pub phash: [u8; PHASH_BYTES],
}

/// A card of the cache; `id` is the card's identifier as a 128-bit number.
#[derive(Debug)]
pub struct CachedCard {
    pub id: u128,
    pub name: String,
    pub set: String,
    pub number: String,
    pub faces: Vec<CachedFace>,
}

/// The card cache, keyed by card identifier.
pub type CardCache = HashMap<u128, CachedCard>;

impl Clone for CachedFace {
    fn clone(&self) -> (r: Self)
        ensures
            r == *self,
    {
        CachedFace {
            face: self.face,
            image_path: self.image_path.clone(),
            oracle_text: self.oracle_text.clone(),
            phash: self.phash,
        }
    }
}

/// Two cards with the same fields and the same faces.
pub open spec fn same_card(a: CachedCard, b: CachedCard) -> bool {
    &&& a.id == b.id
    &&& a.name == b.name
    &&& a.set == b.set
    &&& a.number == b.number
    &&& a.faces@ == b.faces@
}

impl Clone for CachedCard {
    fn clone(&self) -> (r: Self)
        ensures
            same_card(r, *self),
    {
        let faces = self.faces.clone();
        proof {
            assert forall|i: int| 0 <= i < faces@.len() implies faces@[i] == self.faces@[i] by {
                assert(vstd::pervasive::cloned::<CachedFace>(self.faces[i], faces[i]));
            }
            assert(faces@ =~= self.faces@);
        }
        CachedCard {
            id: self.id,
            name: self.name.clone(),
            set: self.set.clone(),
            number: self.number.clone(),
            faces,
        }
    }
}

impl CachedCard {
    /// A card made of the given fields.
    pub fn new(id: u128, name: String, set: String, number: String, faces: Vec<CachedFace>) -> (r: Self)
        ensures
            r.id == id,
            r.name == name,
            r.set == set,
            r.number == number,
            r.faces == faces,
    {
        CachedCard { id, name, set, number, faces }
    }
}

/// The resizing perceptual hash algorithms of `image_hasher`.
#[derive(Clone, Copy, Debug, PartialEq, Eq, Structural)]
pub enum PhashAlg {
    Mean,
    Median,
    Gradient,
    VertGradient,
    DoubleGradient,
}

/// The algorithm that card images and camera frames are hashed with.
pub const PHASH_ALG: PhashAlg = PhashAlg::Gradient;

/// Width and height of the hash grid: 16 x 16 bits, that is `PHASH_BYTES` bytes.
pub const HASH_SIDE: u32 = 16;

/// A face's hash bytes hold one bit for each cell of the hash grid.
pub proof fn hash_bytes_hold_the_grid()
    ensures
        PHASH_BYTES * 8 == HASH_SIDE * HASH_SIDE,
{
}

/// The pixels of an encoded image, decoded in the format that its file
/// extension names and converted to 8-bit RGB: width, height, and the pixel
/// bytes row after row; nothing when the extension names no known format or
/// the image does not decode.
pub uninterp spec fn decoded_rgb(bytes: Seq<u8>, extension: Seq<char>) -> Option<(u32, u32, Seq<u8>)>;

/// The bytes of the perceptual hash that `image_hasher` computes with
/// algorithm `alg` on a `side` x `side` grid for an 8-bit RGB image; nothing
/// when the pixels do not fill a `width` x `height` image.
pub uninterp spec fn rgb_phash(alg: PhashAlg, side: u32, width: u32, height: u32, pixels: Seq<u8>) -> Option<Seq<u8>>;

/// Decodes an image file's bytes with `image::ImageFormat::from_extension`
/// and `image::load_from_memory_with_format` (as `image::open` does for a
/// file), and converts it with `DynamicImage::to_rgb8`.
/// Trusted: the result is named by `decoded_rgb` of the bytes and extension.
#[verifier::external_body]
pub(crate) fn decode_rgb(bytes: &[u8], extension: &str) -> (r: Option<(u32, u32, Vec<u8>)>)
    ensures
        r matches Some(t) ==> decoded_rgb(bytes@, extension@) == Some((t.0, t.1, t.2@)),
        r is None <==> decoded_rgb(bytes@, extension@) is None,
{
    let format = image::ImageFormat::from_extension(extension)?;
    let image = image::load_from_memory_with_format(bytes, format).ok()?.to_rgb8();
    Some((image.width(), image.height(), image.into_raw()))
}

/// Hashes RGB pixels: `image::ImageBuffer::from_raw`, then `image_hasher`'s
/// `HasherConfig` with `hash_alg` (the `HashAlg` of the same name) and
/// `hash_size(side, side)`, `to_hasher`, `Hasher::hash_image` on the
/// `DynamicImage::ImageRgb8`, and the hash's bytes.
/// Trusted: the result is named by `rgb_phash`; these algorithms do not panic
/// on a grid of 1 to 4096 cells a side.
#[verifier::external_body]
pub(crate) fn hash_rgb(alg: PhashAlg, side: u32, width: u32, height: u32, pixels: &[u8]) -> (r:
    Option<Vec<u8>>)
    requires
        1 <= side <= 4096,
    ensures
        r matches Some(h) ==> rgb_phash(alg, side, width, height, pixels@) == Some(h@),
        r is None <==> rgb_phash(alg, side, width, height, pixels@) is None,
{
    let alg = match alg {
        PhashAlg::Mean => HashAlg::Mean,
        PhashAlg::Median => HashAlg::Median,
        PhashAlg::Gradient => HashAlg::Gradient,
        PhashAlg::VertGradient => HashAlg::VertGradient,
        PhashAlg::DoubleGradient => HashAlg::DoubleGradient,
    };
    let buffer = image::ImageBuffer::from_raw(width, height, pixels.to_vec())?;
    let hasher = image_hasher::HasherConfig::new().hash_alg(alg).hash_size(side, side).to_hasher();
    Some(hasher.hash_image(&image::DynamicImage::ImageRgb8(buffer)).as_bytes().to_vec())
}

/// The perceptual hash of a camera frame given as RGB pixels.
pub open spec fn frame_phash(width: u32, height: u32, pixels: Seq<u8>) -> Option<Seq<u8>> {
    rgb_phash(PHASH_ALG, HASH_SIDE, width, height, pixels)
}

/// The perceptual hash of an image file: the hash of its decoded pixels,
/// computed as a camera frame's.
pub open spec fn file_phash(bytes: Seq<u8>, extension: Seq<char>) -> Option<Seq<u8>> {
    match decoded_rgb(bytes, extension) {
        Some(t) => frame_phash(t.0, t.1, t.2),
        None => None,
    }
}

/// A hash of `PHASH_BYTES` bytes, or nothing.
pub open spec fn cache_hash(h: Option<Seq<u8>>) -> Option<Seq<u8>> {
    match h {
        Some(s) => if s.len() == PHASH_BYTES {
            Some(s)
        } else {
            None
        },
        None => None,
    }
}

/// An image file and a camera frame with the same pixels have the same hash:
/// the cache and the frames are hashed by one function.
pub proof fn same_pixels_same_hash(bytes: Seq<u8>, extension: Seq<char>, width: u32, height: u32, pixels: Seq<u8>)
    requires
        decoded_rgb(bytes, extension) == Some((width, height, pixels)),
    ensures
        file_phash(bytes, extension) == frame_phash(width, height, pixels),
{
}

spec fn bytes_view(h: Option<Vec<u8>>) -> Option<Seq<u8>> {
    match h {
        Some(v) => Some(v@),
        None => None,
    }
}

fn to_cache_hash(h: Option<Vec<u8>>) -> (r: Option<[u8; PHASH_BYTES]>)
    ensures
        r matches Some(a) ==> cache_hash(bytes_view(h)) == Some(a@),
        r is None <==> cache_hash(bytes_view(h)) is None,
{
    match h {
        Some(v) => {
            if v.len() != PHASH_BYTES {
                return None;
            }
            let mut a: [u8; PHASH_BYTES] = [0u8; PHASH_BYTES];
            for i in 0..PHASH_BYTES
                invariant
                    v@.len() == PHASH_BYTES,
                    forall|j: int| 0 <= j < i ==> a@[j] == v@[j],
            {
                a[i] = v[i];
            }
            assert(a@ =~= v@);
            Some(a)
        },
        None => None,
    }
}

/// The perceptual hash of a camera frame given as RGB pixels (see `frame_phash`).
pub fn hash_rgb_frame(width: u32, height: u32, pixels: &[u8]) -> (r: Option<[u8; PHASH_BYTES]>)
    ensures
        r matches Some(h) ==> cache_hash(frame_phash(width, height, pixels@)) == Some(h@),
        r matches Some(h) ==> rgb_phash(PHASH_ALG, HASH_SIDE, width, height, pixels@) == Some(h@),
        r is None <==> cache_hash(frame_phash(width, height, pixels@)) is None,
{
    to_cache_hash(hash_rgb(PHASH_ALG, HASH_SIDE, width, height, pixels))
}

/// The perceptual hash of an image file's bytes, in the format that
/// `extension` names (see `file_phash`).
pub fn hash_image_file(bytes: &[u8], extension: &str) -> (r: Option<[u8; PHASH_BYTES]>)
    ensures
        r matches Some(h) ==> cache_hash(file_phash(bytes@, extension@)) == Some(h@),
        r is None <==> cache_hash(file_phash(bytes@, extension@)) is None,
{
    match decode_rgb(bytes, extension) {
        Some(t) => hash_rgb_frame(t.0, t.1, t.2.as_slice()),
        None => None,
    }
}

impl CachedFace {
    /// A face made of its number, image location and oracle text, hashed from
    /// its image file's bytes (the format named by `extension`); nothing when
    /// the image cannot be hashed.
    pub fn new(
        face: u8,
        image_path: String,
        image: &[u8],
        extension: &str,
        oracle_text: String,
    ) -> (r: Option<Self>)
        ensures
            r matches Some(f) ==> {
                &&& f.face == face
                &&& f.image_path == image_path
                &&& f.oracle_text == oracle_text
                &&& cache_hash(file_phash(image@, extension@)) == Some(f.phash@)
                &&& decoded_rgb(image@, extension@) matches Some(t)
                &&& rgb_phash(PHASH_ALG, HASH_SIDE, t.0, t.1, t.2) == Some(f.phash@)
            },
            r is None <==> cache_hash(file_phash(image@, extension@)) is None,
    {
        match hash_image_file(image, extension) {
            Some(phash) => Some(CachedFace { face, image_path, oracle_text, phash }),
            None => None,
        }
    }
}

} // verus!
