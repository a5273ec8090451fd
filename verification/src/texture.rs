//! One texture's round trip: a `._ximg` entry to a PNG and its manifest line, and an edited
//! PNG back into a `._ximg` in the texture's own format. The PNG codec is the `image` crate's.

use vstd::prelude::*;
use crate::batch::{archive_stem, archive_stem_of, fnv1a, fnv1a_spec, manifest_line, manifest_line_text, ManifestEntry, ManifestSpec};
use crate::dds::DdsError;
use crate::ddscontainer::{decode, dds_decode_spec, encode, encode_file_spec, texture_format, texture_format_spec};
use crate::patchplan::{png_rel_for, png_rel_spec};
use crate::ximg::{extract_dds, parse_spec, replace_spec, try_replace_dds, ReplaceOptions, XimgError};

verus! {

/// The PNG file the `image` crate encodes an RGBA8 `w` x `h` image to (`None` when it
/// reports an error).
pub uninterp spec fn png_encoded(w: u32, h: u32, rgba: Seq<u8>) -> Option<Seq<u8>>;

/// What the `image` crate decodes PNG bytes to, as RGBA8: width, height and pixels (`None`
/// when it reports an error).
pub uninterp spec fn png_decoded(png: Seq<u8>) -> Option<(u32, u32, Seq<u8>)>;

/// `image::RgbaImage::from_raw`, then `write_to` a `Vec` as PNG. Claimed: the outcome depends
/// on the size and pixels alone (`png_encoded`).
#[verifier::external_body]
fn png_encode(w: u32, h: u32, rgba: &[u8]) -> (r: Option<Vec<u8>>)
    requires
        rgba@.len() == w * h * 4,
    ensures
        r is None <==> png_encoded(w, h, rgba@) is None,
        r matches Some(v) ==> png_encoded(w, h, rgba@) == Some(v@),
{
    let img = image::RgbaImage::from_raw(w, h, rgba.to_vec())?;
    let mut out = Vec::new();
    img.write_to(&mut std::io::Cursor::new(&mut out), image::ImageFormat::Png).ok()?;
    Some(out)
}

/// `image::load_from_memory_with_format` as PNG, then `to_rgba8`. Claimed: the outcome
/// depends on the bytes alone (`png_decoded`), and the pixels are `width * height * 4` bytes.
#[verifier::external_body]
fn png_decode(png: &[u8]) -> (r: Option<(u32, u32, Vec<u8>)>)
    ensures
        r is None <==> png_decoded(png@) is None,
        r matches Some(t) ==> png_decoded(png@) == Some((t.0, t.1, t.2@)) && t.2@.len() == t.0 * t.1 * 4,
{
    let img = image::load_from_memory_with_format(png, image::ImageFormat::Png).ok()?.to_rgba8();
    let (w, h) = img.dimensions();
    Some((w, h, img.into_raw()))
}

/// Why a texture could not be carried through.
#[derive(Debug, Clone, Copy, PartialEq, Eq, Structural)]
pub enum TextureError {
    /// The `._ximg` could not be read.
    Ximg(XimgError),
    /// Its DDS could not be decoded or encoded.
    Dds(DdsError),
    /// The image could not be written as PNG.
    PngEncode,
    /// The edited file is not a readable PNG.
    PngDecode,
    /// The `._ximg`'s size slots run past its header, so it cannot be patched.
    Unpatchable,
}

/// A texture extracted: where its PNG goes under the output directory, the PNG's bytes, and its
/// manifest line (archive, group, entry path, PNG path, the PNG's FNV-1a hash). Errors: the
/// `._ximg` does not parse, its DDS does not decode, or PNG encoding fails.
pub open spec fn extract_texture_spec(archive: Seq<char>, group: Seq<char>, entry_path: Seq<char>, ximg: Seq<u8>) -> Result<
    (Seq<char>, Seq<u8>, Seq<char>),
    TextureError,
> {
    match parse_spec(ximg) {
        Err(e) => Err(TextureError::Ximg(e)),
        Ok(info) => match dds_decode_spec(ximg.subrange(info.dds_offset as int, ximg.len() as int)) {
            Err(e) => Err(TextureError::Dds(e)),
            Ok((w, h, px)) => match png_encoded(w, h, px) {
                None => Err(TextureError::PngEncode),
                Some(png) => {
                    let rel = png_rel_spec(group, archive_stem_of(archive), entry_path);
                    Ok(
                        (
                            rel,
                            png,
                            manifest_line_text(
                                ManifestSpec { archive, group, entry_path, png_rel: rel, hash: fnv1a_spec(png) },
                            ),
                        ),
                    )
                },
            },
        },
    }
}

/// Extracts one texture of archive `archive` (in `data/` group `group`) at `entry_path`,
/// whose contents are `ximg` (see `extract_texture_spec`).
pub fn extract_texture(archive: &str, group: &str, entry_path: &String, ximg: &[u8]) -> (r: Result<(String, Vec<u8>, String), TextureError>)
    ensures
        match extract_texture_spec(archive@, group@, entry_path@, ximg@) {
            Err(e) => r == Err::<(String, Vec<u8>, String), TextureError>(e),
            Ok((rel, png, line)) => r matches Ok(t) && t.0@ == rel && t.1@ == png && t.2@ == line,
        },
{
    let dds = match extract_dds(ximg) {
        Err(e) => return Err(TextureError::Ximg(e)),
        Ok(d) => d,
    };
    let img = match decode(dds) {
        Err(e) => return Err(TextureError::Dds(e)),
        Ok(i) => i,
    };
    let png = match png_encode(img.width, img.height, img.rgba.as_slice()) {
        None => return Err(TextureError::PngEncode),
        Some(p) => p,
    };
    let stem = archive_stem(archive);
    let rel = png_rel_for(group, stem.as_str(), entry_path);
    let hash = fnv1a(png.as_slice());
    let e = ManifestEntry {
        archive: String::from_str(archive),
        group: String::from_str(group),
        entry_path: entry_path.clone(),
        png_rel: rel.clone(),
        hash,
    };
    let line = manifest_line(&e);
    Ok((rel, png, line))
}

/// An edited PNG written back into a texture: its pixels encoded in the texture's own DDS
/// format and spliced in with the PNG's width and height. Errors: the `._ximg` or its DDS
/// does not read, the PNG does not decode, encoding fails, the size slots cannot be patched,
/// or the replace fails.
pub open spec fn patched_texture_spec(original: Seq<u8>, png: Seq<u8>) -> Result<Seq<u8>, TextureError> {
    match parse_spec(original) {
        Err(e) => Err(TextureError::Ximg(e)),
        Ok(info) => match texture_format_spec(original.subrange(info.dds_offset as int, original.len() as int)) {
            Err(e) => Err(TextureError::Dds(e)),
            Ok(f) => match png_decoded(png) {
                None => Err(TextureError::PngDecode),
                Some((w, h, px)) => match encode_file_spec(w, h, px, f) {
                    Err(e) => Err(TextureError::Dds(e)),
                    Ok(dds) => match replace_spec(
                        original,
                        ReplaceOptions { width: w as i32, height: h as i32, skip_mips: None, pixel_format: None },
                        dds,
                    ) {
                        None => Err(TextureError::Unpatchable),
                        Some(Err(e)) => Err(TextureError::Ximg(e)),
                        Some(Ok(out)) => Ok(out),
                    },
                },
            },
        },
    }
}

/// Writes an edited PNG back into a texture (see `patched_texture_spec`).
pub fn patched_texture(original: &[u8], png: &[u8]) -> (r: Result<Vec<u8>, TextureError>)
    ensures
        match patched_texture_spec(original@, png@) {
            Err(e) => r == Err::<Vec<u8>, TextureError>(e),
            Ok(b) => r matches Ok(v) && v@ == b,
        },
{
    let dds = match extract_dds(original) {
        Err(e) => return Err(TextureError::Ximg(e)),
        Ok(d) => d,
    };
    let format = match texture_format(dds) {
        Err(e) => return Err(TextureError::Dds(e)),
        Ok(f) => f,
    };
    let (w, h, px) = match png_decode(png) {
        None => return Err(TextureError::PngDecode),
        Some(t) => t,
    };
    let new_dds = match encode(w, h, px.as_slice(), &format) {
        Err(e) => return Err(TextureError::Dds(e)),
        Ok(d) => d,
    };
    let opts = ReplaceOptions { width: w as i32, height: h as i32, skip_mips: None, pixel_format: None };
    match try_replace_dds(original, opts, new_dds.as_slice()) {
        None => Err(TextureError::Unpatchable),
        Some(Err(e)) => Err(TextureError::Ximg(e)),
        Some(Ok(out)) => Ok(out),
    }
}

} // verus!
