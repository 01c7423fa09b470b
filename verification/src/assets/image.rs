use vstd::prelude::*;

verus! {

/// The image formats that the `image` crate knows.
#[verifier::external_type_specification]
#[verifier::external_body]
pub struct ExImageFormat(::image::ImageFormat);

/// What an image holds: its format and its encoded bytes.
pub struct ImageView {
    pub format: ::image::ImageFormat,
    pub bytes: Seq<u8>,
}

/// An image asset: the bytes of an encoded image and their format.
#[derive(Debug)]
pub struct Image {
    format: ::image::ImageFormat,
    bytes: Vec<u8>,
}

impl View for Image {
    type V = ImageView;

    closed spec fn view(&self) -> ImageView {
        ImageView { format: self.format, bytes: self.bytes@ }
    }
}

impl Clone for Image {
    fn clone(&self) -> (res: Self)
        ensures
            res@ == self@,
    {
        let bytes = self.bytes.clone();
        assert(bytes@ =~= self.bytes@);
        Image { format: self.format, bytes }
    }
}

impl Image {
    pub fn new(format: ::image::ImageFormat, bytes: Vec<u8>) -> (res: Self)
        ensures
            res@ == (ImageView { format, bytes: bytes@ }),
    {
        Image { format, bytes }
    }

    pub fn format(&self) -> (res: ::image::ImageFormat)
        ensures
            res == self@.format,
    {
        self.format
    }

    /// The encoded bytes of the image.
    pub fn as_bytes(&self) -> (res: &[u8])
        ensures
            res@ == self@.bytes,
    {
        self.bytes.as_slice()
    }
}

/// The media types that `::image::ImageFormat::from_mime_type` maps to a format.
pub open spec fn is_image_media_type(m: Seq<char>) -> bool {
    ||| m == "image/avif"@
    ||| m == "image/jpeg"@
    ||| m == "image/png"@
    ||| m == "image/gif"@
    ||| m == "image/webp"@
    ||| m == "image/tiff"@
    ||| m == "image/x-targa"@
    ||| m == "image/x-tga"@
    ||| m == "image/vnd-ms.dds"@
    ||| m == "image/bmp"@
    ||| m == "image/x-icon"@
    ||| m == "image/vnd.radiance"@
    ||| m == "image/x-exr"@
    ||| m == "image/x-portable-bitmap"@
    ||| m == "image/x-portable-graymap"@
    ||| m == "image/x-portable-pixmap"@
    ||| m == "image/x-portable-anymap"@
    ||| m == "image/x-qoi"@
}

/// The format that `::image::ImageFormat::from_mime_type` gives a media type.
pub uninterp spec fn spec_format_for_media_type(m: Seq<char>) -> Option<::image::ImageFormat>;

/// Calls `::image::ImageFormat::from_mime_type`, which maps a fixed list of
/// media types (`is_image_media_type`) to a format and every other string
/// to `None`. Which format each one maps to is named, not stated.
#[verifier::external_body]
pub fn format_for_media_type(m: &str) -> (res: Option<::image::ImageFormat>)
    ensures
        res is Some <==> is_image_media_type(m@),
        res == spec_format_for_media_type(m@),
{
    ::image::ImageFormat::from_mime_type(m)
}

} // verus!
