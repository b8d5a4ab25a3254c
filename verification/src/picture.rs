//! Pictures: their size from their first bytes, their pixels, small copies.

use image::imageops::FilterType;
use vstd::prelude::*;

verus! {

/// A picture as rows of red, green, blue and alpha bytes.
pub struct Picture {
    pub width: u32,
    pub height: u32,
    pub pixels: Vec<u8>,
}

/// What a picture shows.
pub struct PictureView {
    pub width: u32,
    pub height: u32,
    pub pixels: Seq<u8>,
}

impl View for Picture {
    type V = PictureView;

    open spec fn view(&self) -> PictureView {
        PictureView { width: self.width, height: self.height, pixels: self.pixels@ }
    }
}

/// What an optional picture shows.
pub open spec fn picture_view(o: Option<Picture>) -> Option<PictureView> {
    match o {
        Some(p) => Some(p@),
        None => None,
    }
}

/// Whether a file starts as JPEG files do.
pub open spec fn jpeg(file: Seq<u8>) -> bool {
    file.len() >= 3 && file[0] == 0xff && file[1] == 0xd8 && file[2] == 0xff
}

/// Whether a file starts as WebP files do.
pub open spec fn webp(file: Seq<u8>) -> bool {
    &&& file.len() >= 12
    &&& file[0] == 0x52 && file[1] == 0x49 && file[2] == 0x46 && file[3] == 0x46
    &&& file[8] == 0x57 && file[9] == 0x45 && file[10] == 0x42 && file[11] == 0x50
}

/// The picture that a file holds, as the `image` crate decodes it.
pub uninterp spec fn decoded(file: Seq<u8>) -> Option<PictureView>;

/// Calls `image::load_from_memory` and `DynamicImage::to_rgba8`. The result
/// depends on the bytes alone and is named `decoded`. A picture has four bytes
/// for each of its pixels. Two kinds of file are left out, since their decoders
/// panic on some damaged ones: of JPEG, which multiplies what the file adds up,
/// where overflow is checked; of WebP, on a moving picture with a frame larger
/// than the file says.
#[verifier::external_body]
fn decode(file: &[u8]) -> (r: Option<Picture>)
    requires
        !jpeg(file@),
        !webp(file@),
    ensures
        picture_view(r) == decoded(file@),
        r matches Some(p) ==> p.pixels@.len() == 4 * (p.width as int) * (p.height as int),
{
    let rgba = image::load_from_memory(file).ok()?.to_rgba8();
    Some(Picture { width: rgba.width(), height: rgba.height(), pixels: rgba.into_raw() })
}

/// The picture that a file holds, shrunk or grown to fit in a square, as the
/// `image` crate samples it.
pub uninterp spec fn fitted(file: Seq<u8>, side: u32) -> Option<PictureView>;

/// Calls `DynamicImage::resize` with the Catmull-Rom filter on what
/// `image::load_from_memory` decodes, and `DynamicImage::to_rgba8`. The result
/// depends on the bytes and the side alone and is named `fitted`. There is one
/// exactly if the file can be decoded; it fits in the square and has four bytes
/// for each of its pixels. JPEG and WebP files are left out, as in `decode`.
#[verifier::external_body]
fn fit(file: &[u8], side: u32) -> (r: Option<Picture>)
    requires
        !jpeg(file@),
        !webp(file@),
        0 < side <= 4096,
    ensures
        picture_view(r) == fitted(file@, side),
        r is Some <==> decoded(file@) is Some,
        r matches Some(p) ==> p.width <= side && p.height <= side,
        r matches Some(p) ==> p.pixels@.len() == 4 * (p.width as int) * (p.height as int),
{
    let all = image::load_from_memory(file).ok()?;
    let rgba = all.resize(side, side, FilterType::CatmullRom).to_rgba8();
    Some(Picture { width: rgba.width(), height: rgba.height(), pixels: rgba.into_raw() })
}

/// The side of the square for the small copy of a picture.
pub const THUMB_SIDE: u32 = 128;

/// What became of a picture file.
pub enum Loaded<T> {
    /// It was decoded.
    Done(T),
    /// It holds nothing that can be decoded.
    Failed,
    /// It is a JPEG or a WebP file, which the caller decodes.
    Elsewhere,
}

/// Whether a file starts as JPEG files do.
pub fn is_jpeg(file: &[u8]) -> (r: bool)
    ensures
        r == jpeg(file@),
{
    file.len() >= 3 && file[0] == 0xff && file[1] == 0xd8 && file[2] == 0xff
}

/// Whether a file starts as WebP files do.
pub fn is_webp(file: &[u8]) -> (r: bool)
    ensures
        r == webp(file@),
{
    file.len() >= 12 && file[0] == 0x52 && file[1] == 0x49 && file[2] == 0x46 && file[3] == 0x46
        && file[8] == 0x57 && file[9] == 0x45 && file[10] == 0x42 && file[11] == 0x50
}

/// Decodes a picture file.
pub fn load_picture(file: &[u8]) -> (r: Loaded<Picture>)
    ensures
        r is Elsewhere <==> jpeg(file@) || webp(file@),
        r is Failed <==> !jpeg(file@) && !webp(file@) && decoded(file@) is None,
        r matches Loaded::Done(p) ==> Some(p@) == decoded(file@),
        r matches Loaded::Done(p) ==> p.pixels@.len() == 4 * (p.width as int) * (p.height as int),
{
    if is_jpeg(file) || is_webp(file) {
        return Loaded::Elsewhere;
    }
    match decode(file) {
        Some(p) => Loaded::Done(p),
        None => Loaded::Failed,
    }
}

/// Decodes a picture file and makes its small copy.
pub fn load_with_thumb(file: &[u8]) -> (r: Loaded<(Picture, Picture)>)
    ensures
        r is Elsewhere <==> jpeg(file@) || webp(file@),
        r is Failed <==> !jpeg(file@) && !webp(file@) && decoded(file@) is None,
        r matches Loaded::Done(p) ==> Some(p.0@) == decoded(file@) && Some(p.1@) == fitted(
            file@,
            THUMB_SIDE,
        ) && p.1.width <= THUMB_SIDE && p.1.height <= THUMB_SIDE,
{
    if is_jpeg(file) || is_webp(file) {
        return Loaded::Elsewhere;
    }
    match decode(file) {
        Some(full) => match fit(file, THUMB_SIDE) {
            Some(thumb) => Loaded::Done((full, thumb)),
            None => Loaded::Failed,
        },
        None => Loaded::Failed,
    }
}

/// The width and height that the first bytes of a picture file tell, as the
/// `imagesize` crate reads them.
pub uninterp spec fn size_in(file: Seq<u8>) -> Option<(usize, usize)>;

/// Calls `imagesize::blob_size`. The result depends on the bytes alone and is
/// named `size_in`.
#[verifier::external_body]
pub(crate) fn read_size(file: &[u8]) -> (r: Option<(usize, usize)>)
    ensures
        r == size_in(file@),
{
    imagesize::blob_size(file).ok().map(|s| (s.width, s.height))
}

} // verus!
