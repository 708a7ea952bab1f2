use vstd::prelude::*;
use crate::image_pager::MeshiError;
use crate::editor::ascii_lower;

verus! {

/// What `Path::extension` gives for a path, as text.
pub uninterp spec fn extension_of(path: Seq<char>) -> Option<Seq<char>>;

/// `Path::extension`: the text after the last `.` of the path's file name,
/// when the name has a `.` that does not start it; none otherwise.
#[verifier::external_body]
fn file_extension(path: &str) -> (r: Option<String>)
    ensures
        match r {
            Some(e) => extension_of(path@) == Some(e@),
            None => extension_of(path@) is None,
        },
{
    std::path::Path::new(path).extension().map(|e| e.to_string_lossy().into_owned())
}

/// Whether `ImageFormat::from_extension` names a format for `extension`:
/// one of the extensions it knows, compared without ASCII case.
pub open spec fn names_image_format(extension: Seq<char>) -> bool {
    let e = extension.map_values(|c: char| ascii_lower(c));
    ||| e == "avif"@
    ||| e == "jpg"@ || e == "jpeg"@ || e == "jfif"@
    ||| e == "png"@ || e == "apng"@
    ||| e == "gif"@
    ||| e == "webp"@
    ||| e == "tif"@ || e == "tiff"@
    ||| e == "tga"@
    ||| e == "dds"@
    ||| e == "bmp"@
    ||| e == "ico"@
    ||| e == "hdr"@
    ||| e == "exr"@
    ||| e == "pbm"@ || e == "pam"@ || e == "ppm"@ || e == "pgm"@ || e == "pnm"@
    ||| e == "ff"@
    ||| e == "qoi"@
}

/// What the `image` crate decodes from `bytes` in the format that a file
/// extension names: width, height and RGBA8 pixels, or nothing.
pub uninterp spec fn decoded_rgba8(extension: Seq<char>, bytes: Seq<u8>) -> Option<(u32, u32, Seq<u8>)>;

/// `image::load_from_memory_with_format`, in the format that
/// `ImageFormat::from_extension` names for `extension`, then converted to
/// RGBA8: the width, the height and the pixels, four bytes each, row by row.
/// Nothing when the extension names no format or the bytes do not decode.
#[verifier::external_body]
fn decode_rgba8(extension: &str, bytes: &[u8]) -> (r: Option<(u32, u32, Vec<u8>)>)
    ensures
        r matches Some((w, h, px)) ==> decoded_rgba8(extension@, bytes@) == Some((w, h, px@)) && px@.len() == 4 * w * h,
        r is None ==> decoded_rgba8(extension@, bytes@) is None,
        !names_image_format(extension@) ==> r is None,
{
    let format = image::ImageFormat::from_extension(extension)?;
    let decoded = image::load_from_memory_with_format(bytes, format).ok()?;
    let rgba = decoded.to_rgba8();
    let (width, height) = rgba.dimensions();
    Some((width, height, rgba.into_raw()))
}

/// A decoded image, ready for upload: RGBA8 pixels, row by row.
#[derive(Clone, Debug, PartialEq)]
pub struct LoadedImage {
    pub debug_name: String,
    pub width: u32,
    pub height: u32,
    pub rgba: Vec<u8>,
}

/// The image in the file `path` whose contents are `bytes`: decoded in the
/// format its extension names. A path without an extension, or with an
/// empty one, gives an error, as does an extension that names no format
/// (see `names_image_format`) or bytes that do not decode.
pub fn load_disk_image(path: &String, bytes: &[u8]) -> (r: Result<LoadedImage, MeshiError>)
    ensures
        match r {
            Ok(img) => {
                &&& extension_of(path@) matches Some(e) && e.len() > 0
                    && decoded_rgba8(e, bytes@) == Some((img.width, img.height, img.rgba@))
                &&& img.rgba@.len() == 4 * img.width * img.height
                &&& img.debug_name@ == path@
            },
            Err(_) => match extension_of(path@) {
                Some(e) => e.len() == 0 || decoded_rgba8(e, bytes@) is None,
                None => true,
            },
        },
        extension_of(path@) matches Some(e) && !names_image_format(e) ==> r is Err,
{
    let extension = match file_extension(path.as_str()) {
        Some(e) => e,
        None => return Err(MeshiError {}),
    };
    if extension.as_str().is_empty() {
        return Err(MeshiError {});
    }
    match decode_rgba8(extension.as_str(), bytes) {
        Some((width, height, rgba)) => Ok(LoadedImage { debug_name: path.clone(), width, height, rgba }),
        None => Err(MeshiError {}),
    }
}

} // verus!
