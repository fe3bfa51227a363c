use vstd::prelude::*;
use vstd::string::StringExecFns;

use crate::error::PipelineError;
use crate::letterbox::{is_letterbox_of, letterbox, RawImage};
use crate::tensor::{to_scorer_layout, transposed};

verus! {

#[verifier::external_type_specification]
#[verifier::external_body]
pub struct ExImageFormat(image::ImageFormat);

/// The format `image` associates with a MIME type.
pub uninterp spec fn format_of_mime(mime: Seq<char>) -> Option<image::ImageFormat>;

/// The format `image` associates with a file name's extension.
pub uninterp spec fn format_of_file_name(name: Seq<char>) -> Option<image::ImageFormat>;

/// The format `image` recognises from a file's leading bytes.
pub uninterp spec fn format_of_content(bytes: Seq<u8>) -> Option<image::ImageFormat>;

/// Whether `image` decodes `bytes` in `format`, and if so the decoded image's
/// width and height.
pub uninterp spec fn decoded_size(bytes: Seq<u8>, format: image::ImageFormat) -> Option<
    (u32, u32),
>;

/// Relies on image::ImageFormat::from_mime_type: a fixed table of MIME types.
#[verifier::external_body]
fn format_from_mime(mime: &str) -> (r: Option<image::ImageFormat>)
    ensures
        r == format_of_mime(mime@),
{
    image::ImageFormat::from_mime_type(mime)
}

/// Relies on image::ImageFormat::from_path: the format of the name's extension.
#[verifier::external_body]
fn format_from_file_name(name: &str) -> (r: Option<image::ImageFormat>)
    ensures
        r == format_of_file_name(name@),
{
    image::ImageFormat::from_path(name).ok()
}

/// Relies on image::guess_format: the format whose signature the bytes start with.
#[verifier::external_body]
fn format_from_content(bytes: &Vec<u8>) -> (r: Option<image::ImageFormat>)
    ensures
        r == format_of_content(bytes@),
{
    image::guess_format(bytes).ok()
}

/// Relies on image::load_from_memory_with_format and DynamicImage::to_rgb8:
/// the decoded image as RGB bytes, row by row. Success and the size depend on
/// the bytes and the format alone; the pixel values are not stated, as some
/// decoders pick their arithmetic by the machine they run on.
#[verifier::external_body]
fn decode_rgb8(bytes: &Vec<u8>, format: image::ImageFormat) -> (r: Option<RawImage>)
    ensures
        r matches Some(img) ==> img.well_formed() && decoded_size(bytes@, format) == Some(
            (img.width, img.height),
        ),
        r is None ==> decoded_size(bytes@, format) is None,
{
    let img = image::load_from_memory_with_format(bytes, format).ok()?.to_rgb8();
    Some(RawImage { width: img.width(), height: img.height(), pixels: img.into_raw() })
}

pub open spec fn is_lower_hex_digit(c: char) -> bool {
    ('0' <= c && c <= '9') || ('a' <= c && c <= 'f')
}

/// `t` is the text of a random (version 4, RFC 4122 variant) UUID: groups of
/// 8, 4, 4, 4 and 12 lowercase hex digits joined by hyphens, the version digit
/// `4` and the variant digit one of `8`, `9`, `a`, `b`.
pub open spec fn is_uuid_v4_text(t: Seq<char>) -> bool {
    &&& t.len() == 36
    &&& forall|i: int|
        0 <= i < 36 ==> if i == 8 || i == 13 || i == 18 || i == 23 {
            #[trigger] t[i] == '-'
        } else {
            is_lower_hex_digit(t[i])
        }
    &&& t[14] == '4'
    &&& (t[19] == '8' || t[19] == '9' || t[19] == 'a' || t[19] == 'b')
}

/// Relies on uuid::Uuid::new_v4 and its Display form, the lowercase
/// hyphenated text with the version and variant bits set.
#[verifier::external_body]
fn new_unique_token() -> (r: String)
    ensures
        is_uuid_v4_text(r@),
{
    uuid::Uuid::new_v4().to_string()
}

/// The first of the three answers that names a format, in the order given.
pub open spec fn first_format(
    from_mime: Option<image::ImageFormat>,
    from_name: Option<image::ImageFormat>,
    from_content: Option<image::ImageFormat>,
) -> Option<image::ImageFormat> {
    if from_mime is Some {
        from_mime
    } else if from_name is Some {
        from_name
    } else {
        from_content
    }
}

pub open spec fn opt_format_of_mime(mime: Option<String>) -> Option<image::ImageFormat> {
    match mime {
        Some(m) => format_of_mime(m@),
        None => None,
    }
}

pub open spec fn opt_format_of_file_name(name: Option<String>) -> Option<image::ImageFormat> {
    match name {
        Some(n) => format_of_file_name(n@),
        None => None,
    }
}

/// The format of an upload, by the declared MIME type, else the declared
/// file name, else the content.
pub open spec fn upload_format(
    mime: Option<String>,
    file_name: Option<String>,
    content: Seq<u8>,
) -> Option<image::ImageFormat> {
    first_format(
        opt_format_of_mime(mime),
        opt_format_of_file_name(file_name),
        format_of_content(content),
    )
}

/// Picks the first recognised format, or fails with `UnknownFormat`.
pub fn pick_format(
    from_mime: Option<image::ImageFormat>,
    from_name: Option<image::ImageFormat>,
    from_content: Option<image::ImageFormat>,
) -> (r: Result<image::ImageFormat, PipelineError>)
    ensures
        first_format(from_mime, from_name, from_content) matches Some(f) ==> r == Ok::<
            _,
            PipelineError,
        >(f),
        first_format(from_mime, from_name, from_content) is None ==> r == Err::<
            image::ImageFormat,
            _,
        >(PipelineError::UnknownFormat),
{
    match from_mime {
        Some(f) => Ok(f),
        None => match from_name {
            Some(f) => Ok(f),
            None => match from_content {
                Some(f) => Ok(f),
                None => Err(PipelineError::UnknownFormat),
            },
        },
    }
}

/// The format of an upload: the declared MIME type is asked first, then the
/// declared file name, then the content; the first answer wins.
pub fn detect_format(mime: &Option<String>, file_name: &Option<String>, content: &Vec<u8>) -> (r:
    Result<image::ImageFormat, PipelineError>)
    ensures
        upload_format(*mime, *file_name, content@) matches Some(f) ==> r == Ok::<
            _,
            PipelineError,
        >(f),
        upload_format(*mime, *file_name, content@) is None ==> r == Err::<image::ImageFormat, _>(
            PipelineError::UnknownFormat,
        ),
{
    let from_mime = match mime {
        Some(m) => format_from_mime(m.as_str()),
        None => None,
    };
    if from_mime.is_some() {
        return pick_format(from_mime, None, None);
    }
    let from_name = match file_name {
        Some(n) => format_from_file_name(n.as_str()),
        None => None,
    };
    if from_name.is_some() {
        return pick_format(from_mime, from_name, None);
    }
    pick_format(from_mime, from_name, format_from_content(content))
}

/// Decodes `content` in `format`; bytes that do not decode give `CorruptImage`.
pub fn decode_image(content: &Vec<u8>, format: image::ImageFormat) -> (r: Result<
    RawImage,
    PipelineError,
>)
    ensures
        decoded_size(content@, format) is None ==> r == Err::<RawImage, _>(
            PipelineError::CorruptImage,
        ),
        decoded_size(content@, format) matches Some(d) ==> r matches Ok(img) && img.well_formed()
            && (img.width, img.height) == d,
{
    match decode_rgb8(content, format) {
        Some(img) => Ok(img),
        None => Err(PipelineError::CorruptImage),
    }
}

/// The scorer's input for `image`: letterboxed onto a `size × size` canvas
/// and laid out in the scorer's axis order. An image without pixels is
/// refused with `CorruptImage`.
pub fn prepare_input(image: &RawImage, size: u32) -> (r: Result<Vec<u8>, PipelineError>)
    requires
        image.well_formed(),
        size as nat * size as nat * 3 <= usize::MAX,
    ensures
        r is Err <==> (image.width == 0 || image.height == 0),
        r is Err ==> r == Err::<Vec<u8>, _>(PipelineError::CorruptImage),
        r matches Ok(v) ==> exists|canvas: Seq<u8>|
            is_letterbox_of(canvas, image.width, image.height, size) && v@ == transposed(
                canvas,
                size as nat,
            ),
{
    if image.width == 0 || image.height == 0 {
        return Err(PipelineError::CorruptImage);
    }
    let canvas = letterbox(image, size);
    to_scorer_layout(&canvas.pixels, size)
}

/// A fresh path under `dir` for one upload: `dir`, a slash and the text of a
/// new random UUID.
pub fn temp_file_path(dir: &str) -> (r: String)
    ensures
        exists|token: Seq<char>| is_uuid_v4_text(token) && r@ == dir@ + seq!['/'] + token,
{
    let token = new_unique_token();
    let mut path = String::from_str(dir);
    proof {
        reveal_strlit("/");
    }
    path.append("/");
    path.append(token.as_str());
    assert(path@ == dir@ + seq!['/'] + token@);
    path
}

} // verus!
