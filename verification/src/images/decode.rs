//! Decoding pictures within bounds, keeping what was decoded within a budget,
//! and scaling it.

use crate::images::archive::{entry_label, label_entry};
use crate::images::names::path_extension;
use crate::images::table::{PageLocation, Place};
use crate::pdf::{PdfError, PdfFault};
use crate::text::{
    decimal_text, lossy_utf8, owned, push_decimal, push_str, text_from_utf8_lossy,
};
use std::io::Cursor;
use vstd::prelude::*;

verus! {

/// The largest that either side of a picture may be to be decoded.
pub const MAX_INPUT_DIMENSION: u32 = 16_384;

/// The largest area that a picture may have to be decoded.
pub const MAX_INPUT_PIXELS: u64 = 80_000_000;

/// How many bytes of decoded pictures are kept.
pub const DEFAULT_DECODED_BUDGET_BYTES: u64 = 402_653_184;

/// A decoded picture: tightly packed RGBA.
#[derive(Debug, Clone, PartialEq, Eq)]
pub struct Picture {
    pub width: u32,
    pub height: u32,
    pub pixels: Vec<u8>,
}

/// A picture, as a value.
#[verifier::ext_equal]
pub struct PictureValue {
    pub width: u32,
    pub height: u32,
    pub pixels: Seq<u8>,
}

impl View for Picture {
    type V = PictureValue;

    open spec fn view(&self) -> PictureValue {
        PictureValue { width: self.width, height: self.height, pixels: self.pixels@ }
    }
}

/// Does a picture have the bytes that its size asks for?
pub open spec fn whole(picture: PictureValue) -> bool {
    picture.pixels.len() == picture.width * picture.height * 4
}

/// Why a picture could not become a page.
#[derive(Debug, Clone, PartialEq, Eq)]
pub enum ImageFailure {
    Unreadable { path: String, reason: String },
    TooLarge { path: String, width: u32, height: u32 },
    Undecodable { path: String, reason: String },
    Cancelled,
}

/// A failure, as a value.
pub enum Failure {
    Unreadable(Seq<char>, Seq<char>),
    TooLarge(Seq<char>, u32, u32),
    Undecodable(Seq<char>, Seq<char>),
    Cancelled,
}

impl View for ImageFailure {
    type V = Failure;

    open spec fn view(&self) -> Failure {
        match self {
            ImageFailure::Unreadable { path, reason } => Failure::Unreadable(path@, reason@),
            ImageFailure::TooLarge { path, width, height } => Failure::TooLarge(
                path@,
                *width,
                *height,
            ),
            ImageFailure::Undecodable { path, reason } => Failure::Undecodable(path@, reason@),
            ImageFailure::Cancelled => Failure::Cancelled,
        }
    }
}

/// How a failure is worded.
pub open spec fn failure_text(failure: Failure) -> Seq<char> {
    match failure {
        Failure::Unreadable(path, reason) => "cannot read "@ + path + ": "@ + reason,
        Failure::TooLarge(path, width, height) => path + " is "@ + decimal_text(width as nat) + "×"@
            + decimal_text(height as nat) + ", beyond the 16384px input limit"@,
        Failure::Undecodable(path, reason) => "cannot decode "@ + path + ": "@ + reason,
        Failure::Cancelled => "render was cancelled"@,
    }
}

/// What a failure to decode is to the page that was to be drawn.
pub open spec fn page_failure(failure: Failure) -> PdfFault {
    match failure {
        Failure::Cancelled => PdfFault::Cancelled,
        _ => PdfFault::Render(failure_text(failure)),
    }
}

impl ImageFailure {
    /// The failure in words.
    pub fn message(&self) -> (text: String)
        ensures
            text@ == failure_text(self@),
    {
        match self {
            ImageFailure::Unreadable { path, reason } => {
                let mut text = owned("cannot read ");
                push_str(&mut text, path.as_str());
                push_str(&mut text, ": ");
                push_str(&mut text, reason.as_str());
                text
            },
            ImageFailure::TooLarge { path, width, height } => {
                let mut text = owned(path.as_str());
                push_str(&mut text, " is ");
                push_decimal(&mut text, *width as u64);
                push_str(&mut text, "×");
                push_decimal(&mut text, *height as u64);
                push_str(&mut text, ", beyond the 16384px input limit");
                text
            },
            ImageFailure::Undecodable { path, reason } => {
                let mut text = owned("cannot decode ");
                push_str(&mut text, path.as_str());
                push_str(&mut text, ": ");
                push_str(&mut text, reason.as_str());
                text
            },
            ImageFailure::Cancelled => owned("render was cancelled"),
        }
    }

    /// What the failure is to the page that was to be drawn. It is not dropped
    /// from the document, and nothing stands in for it.
    pub fn into_pdf_error(self) -> (error: PdfError)
        ensures
            error@ == page_failure(self@),
    {
        match self {
            ImageFailure::Cancelled => PdfError::Cancelled,
            other => PdfError::Render(other.message()),
        }
    }
}

/// What the decoder could not do.
#[derive(Debug, Clone, PartialEq, Eq)]
pub enum ReadFault {
    Unreadable(String),
    Undecodable(String),
}

/// What the decoder could not do, as a value.
pub enum Fault {
    Unreadable(Seq<char>),
    Undecodable(Seq<char>),
}

impl View for ReadFault {
    type V = Fault;

    open spec fn view(&self) -> Fault {
        match self {
            ReadFault::Unreadable(reason) => Fault::Unreadable(reason@),
            ReadFault::Undecodable(reason) => Fault::Undecodable(reason@),
        }
    }
}

/// A fault of the decoder with what it was about.
pub open spec fn about(label: Seq<char>, fault: Fault) -> Failure {
    match fault {
        Fault::Unreadable(reason) => Failure::Unreadable(label, reason),
        Fault::Undecodable(reason) => Failure::Undecodable(label, reason),
    }
}

fn tell(label: &str, fault: ReadFault) -> (failure: ImageFailure)
    ensures
        failure@ == about(label@, fault@),
{
    match fault {
        ReadFault::Unreadable(reason) => ImageFailure::Unreadable { path: owned(label), reason },
        ReadFault::Undecodable(reason) => ImageFailure::Undecodable { path: owned(label), reason },
    }
}

/// What the `image` crate reads from the header of a picture: its width and
/// height. The extension of the file, where there is one, says what it is taken
/// for when its bytes do not.
pub uninterp spec fn header_of(bytes: Seq<u8>, hint: Option<Seq<char>>) -> Result<(u32, u32), Fault>;

/// What the `image` crate decodes a picture to.
pub uninterp spec fn decoded_of(bytes: Seq<u8>, hint: Option<Seq<char>>) -> Result<
    PictureValue,
    Fault,
>;

/// The value of an optional text.
pub open spec fn hint_value(hint: Option<&str>) -> Option<Seq<char>> {
    match hint {
        Some(text) => Some(text@),
        None => None,
    }
}

/// `image::ImageReader` over bytes, with the format that the extension gives
/// where the bytes give none, and `into_dimensions`.
#[verifier::external_body]
fn read_header(bytes: &[u8], hint: Option<&str>) -> (size: Result<(u32, u32), ReadFault>)
    ensures
        match size {
            Ok(found) => header_of(bytes@, hint_value(hint)) == Ok::<(u32, u32), Fault>(found),
            Err(fault) => header_of(bytes@, hint_value(hint)) == Err::<(u32, u32), Fault>(fault@),
        },
{
    let mut reader = image::ImageReader::new(Cursor::new(bytes));
    if let Some(format) = hint.and_then(image::ImageFormat::from_extension) {
        reader.set_format(format);
    }
    let reader = reader.with_guessed_format().map_err(|e| ReadFault::Unreadable(e.to_string()))?;
    reader.into_dimensions().map_err(|e| ReadFault::Undecodable(e.to_string()))
}

/// The same reader, `decode` and `into_rgba8`. A picture that is decoded has the
/// size that its header gives, and four bytes for each of its pixels.
#[verifier::external_body]
fn read_picture(bytes: &[u8], hint: Option<&str>) -> (picture: Result<Picture, ReadFault>)
    ensures
        match picture {
            Ok(found) => decoded_of(bytes@, hint_value(hint)) == Ok::<PictureValue, Fault>(found@)
                && whole(found@) && header_of(bytes@, hint_value(hint)) == Ok::<(u32, u32), Fault>(
                (found.width, found.height),
            ),
            Err(fault) => decoded_of(bytes@, hint_value(hint)) == Err::<PictureValue, Fault>(
                fault@,
            ),
        },
{
    let mut reader = image::ImageReader::new(Cursor::new(bytes));
    if let Some(format) = hint.and_then(image::ImageFormat::from_extension) {
        reader.set_format(format);
    }
    let reader = reader.with_guessed_format().map_err(|e| ReadFault::Unreadable(e.to_string()))?;
    let decoded = reader.decode().map_err(|e| ReadFault::Undecodable(e.to_string()))?.into_rgba8();
    Ok(Picture { width: decoded.width(), height: decoded.height(), pixels: decoded.into_raw() })
}

/// Is a picture of this size decoded at all?
pub open spec fn decodable(width: u32, height: u32) -> bool {
    &&& 0 < width <= MAX_INPUT_DIMENSION
    &&& 0 < height <= MAX_INPUT_DIMENSION
    &&& width * height <= MAX_INPUT_PIXELS
}

/// Is a picture of this size worth decoding?
pub fn within_input_bounds(width: u32, height: u32) -> (within: bool)
    ensures
        within == decodable(width, height),
{
    assert(width * height <= 0xffff_ffff * 0xffff_ffff) by (nonlinear_arith)
        requires
            width <= 0xffff_ffff,
            height <= 0xffff_ffff,
    ;
    width > 0 && height > 0 && width <= MAX_INPUT_DIMENSION && height <= MAX_INPUT_DIMENSION
        && width as u64 * height as u64 <= MAX_INPUT_PIXELS
}

/// What comes of decoding a picture: refused by its size before any of its
/// pixels are touched.
pub open spec fn decoding(
    label: Seq<char>,
    header: Result<(u32, u32), Fault>,
    decoded: Result<PictureValue, Fault>,
) -> Result<PictureValue, Failure> {
    match header {
        Err(fault) => Err(about(label, fault)),
        Ok((width, height)) => if !decodable(width, height) {
            Err(Failure::TooLarge(label, width, height))
        } else {
            match decoded {
                Err(fault) => Err(about(label, fault)),
                Ok(picture) => Ok(picture),
            }
        },
    }
}

/// What comes of what was read of a picture's header.
pub fn dimensions(label: &str, header: Result<(u32, u32), ReadFault>) -> (size: Result<
    (u32, u32),
    ImageFailure,
>)
    ensures
        match (header, size) {
            (Ok(read), Ok(found)) => found == read,
            (Err(fault), Err(failure)) => failure@ == about(label@, fault@),
            _ => false,
        },
{
    match header {
        Ok(size) => Ok(size),
        Err(fault) => Err(tell(label, fault)),
    }
}

/// The size of a picture in memory, from its header alone.
pub fn dimensions_of(bytes: &[u8], label: &str) -> (size: Result<(u32, u32), ImageFailure>)
    ensures
        match size {
            Ok(found) => header_of(bytes@, None) == Ok::<(u32, u32), Fault>(found),
            Err(failure) => match header_of(bytes@, None) {
                Ok(_) => false,
                Err(fault) => failure@ == about(label@, fault),
            },
        },
{
    dimensions(label, read_header(bytes, None))
}

fn decode_with(bytes: &[u8], hint: Option<&str>, label: &str) -> (picture: Result<
    Picture,
    ImageFailure,
>)
    ensures
        match picture {
            Ok(found) => decoding(
                label@,
                header_of(bytes@, hint_value(hint)),
                decoded_of(bytes@, hint_value(hint)),
            ) == Ok::<PictureValue, Failure>(found@) && whole(found@) && decodable(
                found.width,
                found.height,
            ),
            Err(failure) => decoding(
                label@,
                header_of(bytes@, hint_value(hint)),
                decoded_of(bytes@, hint_value(hint)),
            ) == Err::<PictureValue, Failure>(failure@),
        },
{
    let (width, height) = match dimensions(label, read_header(bytes, hint)) {
        Ok(size) => size,
        Err(failure) => {
            return Err(failure);
        },
    };
    if let Err(failure) = check_size(label, width, height) {
        return Err(failure);
    }
    match read_picture(bytes, hint) {
        Ok(picture) => Ok(picture),
        Err(fault) => Err(tell(label, fault)),
    }
}

/// Refuses a picture by its size.
pub fn check_size(label: &str, width: u32, height: u32) -> (checked: Result<(), ImageFailure>)
    ensures
        match checked {
            Ok(()) => decodable(width, height),
            Err(failure) => !decodable(width, height) && failure@ == Failure::TooLarge(
                label@,
                width,
                height,
            ),
        },
{
    if within_input_bounds(width, height) {
        Ok(())
    } else {
        Err(ImageFailure::TooLarge { path: owned(label), width, height })
    }
}

/// Decodes a picture in memory.
pub fn decode_bytes(bytes: &[u8], label: &str) -> (picture: Result<Picture, ImageFailure>)
    ensures
        match picture {
            Ok(found) => decoding(label@, header_of(bytes@, None), decoded_of(bytes@, None)) == Ok::<
                PictureValue,
                Failure,
            >(found@) && whole(found@) && decodable(found.width, found.height),
            Err(failure) => decoding(label@, header_of(bytes@, None), decoded_of(bytes@, None))
                == Err::<PictureValue, Failure>(failure@),
        },
{
    decode_with(bytes, None, label)
}

/// The extension of a path as a hint: what it reads as.
pub open spec fn hint_of(path: Seq<u8>) -> Option<Seq<char>> {
    match path_extension(path) {
        Some(extension) => Some(lossy_utf8(extension)),
        None => None,
    }
}

/// Decodes the bytes of a file.
pub fn decode(path: &[u8], bytes: &[u8]) -> (picture: Result<Picture, ImageFailure>)
    ensures
        match picture {
            Ok(found) => decoding(
                lossy_utf8(path@),
                header_of(bytes@, hint_of(path@)),
                decoded_of(bytes@, hint_of(path@)),
            ) == Ok::<PictureValue, Failure>(found@) && whole(found@) && decodable(
                found.width,
                found.height,
            ),
            Err(failure) => decoding(
                lossy_utf8(path@),
                header_of(bytes@, hint_of(path@)),
                decoded_of(bytes@, hint_of(path@)),
            ) == Err::<PictureValue, Failure>(failure@),
        },
{
    let label = text_from_utf8_lossy(path);
    match crate::images::names::extension_of_path(path) {
        Some(extension) => {
            let hint = text_from_utf8_lossy(extension.as_slice());
            decode_with(bytes, Some(hint.as_str()), label.as_str())
        },
        None => decode_with(bytes, None, label.as_str()),
    }
}

/// How a page is named in what is said of it.
pub open spec fn place_label(place: Place) -> Seq<char> {
    match place {
        Place::File(path) => lossy_utf8(path),
        Place::ArchiveEntry(archive, _, name) => entry_label(archive, name),
    }
}

/// Names a page: by its path, or by its archive and its entry.
pub fn label_of(location: &PageLocation) -> (label: String)
    ensures
        label@ == place_label(location@),
{
    match location {
        PageLocation::File(path) => text_from_utf8_lossy(path.as_slice()),
        PageLocation::ArchiveEntry { archive, name, .. } => label_entry(
            archive.as_slice(),
            name.as_slice(),
        ),
    }
}

/// What a picture is taken for when its bytes do not say.
pub open spec fn place_hint(place: Place) -> Option<Seq<char>> {
    match place {
        Place::File(path) => hint_of(path),
        Place::ArchiveEntry(_, _, _) => None,
    }
}

/// The size of a page from its bytes, wherever they were read.
pub fn dimensions_at(location: &PageLocation, bytes: Result<Vec<u8>, ImageFailure>) -> (size: Result<
    (u32, u32),
    ImageFailure,
>)
    ensures
        match bytes {
            Err(failure) => match size {
                Ok(_) => false,
                Err(given) => given == failure,
            },
            Ok(read) => match (header_of(read@, place_hint(location@)), size) {
                (Ok(found), Ok(given)) => given == found,
                (Err(fault), Err(failure)) => failure@ == about(place_label(location@), fault),
                _ => false,
            },
        },
{
    let read = match bytes {
        Ok(read) => read,
        Err(failure) => {
            return Err(failure);
        },
    };
    let label = label_of(location);
    let header = match location {
        PageLocation::File(path) => match crate::images::names::extension_of_path(
            path.as_slice(),
        ) {
            Some(extension) => {
                let hint = text_from_utf8_lossy(extension.as_slice());
                read_header(read.as_slice(), Some(hint.as_str()))
            },
            None => read_header(read.as_slice(), None),
        },
        PageLocation::ArchiveEntry { .. } => read_header(read.as_slice(), None),
    };
    dimensions(label.as_str(), header)
}

/// Decodes a page from its bytes, wherever they were read.
pub fn decode_at(location: &PageLocation, bytes: Result<Vec<u8>, ImageFailure>) -> (picture: Result<
    Picture,
    ImageFailure,
>)
    ensures
        match bytes {
            Err(failure) => match picture {
                Ok(_) => false,
                Err(given) => given == failure,
            },
            Ok(read) => match picture {
                Ok(found) => decoding(
                    place_label(location@),
                    header_of(read@, place_hint(location@)),
                    decoded_of(read@, place_hint(location@)),
                ) == Ok::<PictureValue, Failure>(found@) && whole(found@) && decodable(
                    found.width,
                    found.height,
                ),
                Err(failure) => decoding(
                    place_label(location@),
                    header_of(read@, place_hint(location@)),
                    decoded_of(read@, place_hint(location@)),
                ) == Err::<PictureValue, Failure>(failure@),
            },
        },
{
    let read = match bytes {
        Ok(read) => read,
        Err(failure) => {
            return Err(failure);
        },
    };
    match location {
        PageLocation::File(path) => decode(path.as_slice(), read.as_slice()),
        PageLocation::ArchiveEntry { .. } => {
            let label = label_of(location);
            decode_bytes(read.as_slice(), label.as_str())
        },
    }
}

/// A picture that is as wide as another is high, and as high as that is wide, is
/// decoded where the other is, and so is one that is smaller.
pub proof fn law_smaller_pictures_are_decoded(width: u32, height: u32, less: u32, lower: u32)
    requires
        decodable(width, height),
        0 < less <= width,
        0 < lower <= height,
    ensures
        decodable(height, width),
        decodable(less, lower),
{
    assert(width * height == height * width) by (nonlinear_arith);
    assert(less * lower <= width * height) by (nonlinear_arith)
        requires
            0 < less <= width,
            0 < lower <= height,
    ;
}

/// Nothing of a picture that is too large is decoded: what it would have been
/// decoded to does not matter.
pub proof fn law_large_pictures_are_refused(
    label: Seq<char>,
    width: u32,
    height: u32,
    one: Result<PictureValue, Fault>,
    two: Result<PictureValue, Fault>,
)
    requires
        !decodable(width, height),
    ensures
        decoding(label, Ok((width, height)), one) == decoding(label, Ok((width, height)), two),
        decoding(label, Ok((width, height)), one) is Err,
{
}

} // verus!
