use vstd::prelude::*;
use image::DynamicImage;
use crate::error::ErrorKind;

verus! {

#[verifier::external_type_specification]
#[verifier::external_body]
pub struct ExDynamicImage(image::DynamicImage);

/// Whether the bytes are a PNG image that the image codec decodes.
pub uninterp spec fn is_png(b: Seq<u8>) -> bool;

/// Whether the bytes are an image, in a format recognised from its
/// leading bytes, that the image codec decodes.
pub uninterp spec fn is_image(b: Seq<u8>) -> bool;

/// Relies on `image::load_from_memory_with_format` with `ImageFormat::Png`:
/// whether it decodes depends on the bytes alone.
#[verifier::external_body]
pub(crate) fn load_png(b: &Vec<u8>) -> (r: Option<DynamicImage>)
    ensures
        r.is_some() == is_png(b@),
{
    image::load_from_memory_with_format(b, image::ImageFormat::Png).ok()
}

/// Relies on `image::load_from_memory`, which guesses the format from the
/// leading bytes and decodes, and on `DynamicImage::write_to` with
/// `ImageOutputFormat::Png` into an in-memory buffer. Whether the source
/// decodes depends on its bytes alone; the pixels of some formats, and so
/// the PNG bytes, may depend on the machine, so nothing is promised of them.
#[verifier::external_body]
pub(crate) fn reencode_png(b: &Vec<u8>) -> (r: Result<Vec<u8>, ErrorKind>)
    ensures
        match r {
            Ok(_) => is_image(b@),
            Err(k) => (k == ErrorKind::SourceUnreadable || k == ErrorKind::EncodeFailure) && (k
                == ErrorKind::SourceUnreadable <==> !is_image(b@)),
        },
{
    match image::load_from_memory(b) {
        Err(_) => Err(ErrorKind::SourceUnreadable),
        Ok(im) => {
            let mut buf: Vec<u8> = Vec::new();
            match im.write_to(&mut std::io::Cursor::new(&mut buf), image::ImageOutputFormat::Png) {
                Ok(()) => Ok(buf),
                Err(_) => Err(ErrorKind::EncodeFailure),
            }
        },
    }
}

} // verus!
