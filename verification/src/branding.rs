//! The window icon.

use vstd::prelude::*;

verus! {

/// A decoded icon: its pixels row by row, four bytes each.
#[derive(Debug)]
pub struct Icon {
    pub rgba: Vec<u8>,
    pub width: u32,
    pub height: u32,
}

/// Why there is no icon.
#[derive(Clone, Copy, Debug, PartialEq, Eq, Structural)]
pub enum IconError {
    /// The bytes are no PNG that can be read.
    Undecoded,
}

/// The error of decoding an image.
#[verifier::external_type_specification]
#[verifier::external_body]
pub struct ExImageError(image::ImageError);

/// What `image` reads out of the bytes of a PNG: width, height and pixels of four bytes each.
pub uninterp spec fn decoded(encoded: Seq<u8>) -> Option<(u32, u32, Seq<u8>)>;

/// `image::load_from_memory_with_format` for PNG, with `into_rgba8`: the result is that of
/// [`decoded`], and a decoded image has four bytes for each of its pixels. The format is given,
/// so nothing is guessed and no decoder that was registered elsewhere is asked: the bytes alone
/// decide.
#[verifier::external_body]
fn decode_rgba(encoded: &[u8]) -> (image: Result<(u32, u32, Vec<u8>), image::ImageError>)
    ensures
        image matches Ok(image) ==> decoded(encoded@) == Some((image.0, image.1, image.2@)) && image.2@.len()
            == 4 * image.0 * image.1,
        image is Err ==> decoded(encoded@) is None,
{
    let rgba = image::load_from_memory_with_format(encoded, image::ImageFormat::Png)?.into_rgba8();
    let (width, height) = rgba.dimensions();
    Ok((width, height, rgba.into_raw()))
}

/// An icon out of what was decoded, if anything was.
pub fn icon_of(image: Option<(u32, u32, Vec<u8>)>) -> (icon: Result<Icon, IconError>)
    ensures
        match image {
            Some((width, height, rgba)) => icon matches Ok(icon) && icon == (Icon { rgba, width, height }),
            None => icon == Err::<Icon, IconError>(IconError::Undecoded),
        },
{
    match image {
        Some((width, height, rgba)) => Ok(Icon { rgba, width, height }),
        None => Err(IconError::Undecoded),
    }
}

/// Decodes the icon that is embedded as a PNG.
pub fn load_icon(encoded: &[u8]) -> (icon: Result<Icon, IconError>)
    ensures
        match icon {
            Ok(icon) => {
                &&& decoded(encoded@) == Some((icon.width, icon.height, icon.rgba@))
                &&& icon.rgba@.len() == 4 * icon.width * icon.height
            },
            Err(error) => error == IconError::Undecoded && decoded(encoded@) is None,
        },
{
    match decode_rgba(encoded) {
        Ok(image) => icon_of(Some(image)),
        Err(_) => icon_of(None),
    }
}

} // verus!
