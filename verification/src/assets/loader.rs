use crate::compiler::text::str_eq;
use vstd::prelude::*;
use vstd::utf8::decode_utf8;
use vstd::utf8::valid_utf8;

verus! {

/// A value that can be loaded, cached and handed out by path.
pub trait Asset: Send + Sync + 'static {
    /// The name of the asset's type, for messages.
    fn kind_name() -> &'static str where Self: Sized;
}

/// Why an asset could not be provided.
pub enum AssetError {
    /// The path has no extension to choose a loader by.
    InvalidPath,
    /// No loader is registered for the extension.
    UnsupportedFormat(String),
    /// The bytes are not what the loader decodes.
    DecodingError(String),
    /// Nothing is stored under the path.
    NotFound(String),
}

impl AssetError {
    /// The error as a sentence.
    pub fn message(&self) -> (text: String)
        ensures
            text@ == (match self {
                AssetError::InvalidPath => "Invalid asset path"@,
                AssetError::UnsupportedFormat(format) => "Unsupported format: "@ + format@,
                AssetError::DecodingError(reason) => "Failed to decode asset: "@ + reason@,
                AssetError::NotFound(path) => "Asset not found: "@ + path@,
            }),
    {
        match self {
            AssetError::InvalidPath => String::from_str("Invalid asset path"),
            AssetError::UnsupportedFormat(format) => {
                let mut text = String::from_str("Unsupported format: ");
                text.append(format.as_str());
                text
            },
            AssetError::DecodingError(reason) => {
                let mut text = String::from_str("Failed to decode asset: ");
                text.append(reason.as_str());
                text
            },
            AssetError::NotFound(path) => {
                let mut text = String::from_str("Asset not found: ");
                text.append(path.as_str());
                text
            },
        }
    }
}

/// The kinds of asset for which a loader exists.
#[derive(Debug, Clone, Copy, PartialEq, Eq, Structural)]
pub enum AssetKind {
    Texture,
    Audio,
    Json,
}

impl AssetKind {
    /// The kind of asset that files with the given extension hold, by the
    /// loaders registered from the start.
    pub open spec fn of_extension(extension: Seq<char>) -> Option<AssetKind> {
        if extension == "png"@ || extension == "jpg"@ || extension == "jpeg"@ {
            Some(AssetKind::Texture)
        } else if extension == "ogg"@ || extension == "wav"@ {
            Some(AssetKind::Audio)
        } else if extension == "json"@ {
            Some(AssetKind::Json)
        } else {
            None
        }
    }

    /// The kind of asset that files with the given extension hold, or
    /// nothing when no loader is registered for it.
    pub fn for_extension(extension: &str) -> (kind: Option<AssetKind>)
        ensures
            kind == AssetKind::of_extension(extension@),
    {
        if str_eq(extension, "png") || str_eq(extension, "jpg") || str_eq(extension, "jpeg") {
            Some(AssetKind::Texture)
        } else if str_eq(extension, "ogg") || str_eq(extension, "wav") {
            Some(AssetKind::Audio)
        } else if str_eq(extension, "json") {
            Some(AssetKind::Json)
        } else {
            None
        }
    }
}

/// How the pixels of a texture are laid out.
#[derive(Clone, Copy, Debug, PartialEq, Eq, Structural)]
pub enum TextureFormat {
    Rgba8,
    Rgb8,
    R8,
}

/// A decoded image: its size, and its pixels row by row.
#[derive(Clone)]
pub struct Texture {
    pub width: u32,
    pub height: u32,
    pub format: TextureFormat,
    pub data: Vec<u8>,
}

impl Asset for Texture {
    fn kind_name() -> (name: &'static str)
        ensures
            name@ == "Texture"@,
    {
        "Texture"
    }
}

/// Error of the image decoder.
#[verifier::external_type_specification]
#[verifier::external_body]
pub struct ExImageError(image::ImageError);

/// The size of the image that the bytes of an image file hold, as width
/// and height, or nothing when the bytes are no image that the decoder
/// reads. The pixels have no name: a decoder may round them differently
/// from one machine to another.
pub uninterp spec fn image_size(data: Seq<u8>) -> Option<(u32, u32)>;

/// `image::load_from_memory`, with the image handed out as plain values
/// through `GenericImageView::dimensions`, `DynamicImage::to_rgba8` and
/// `ImageBuffer::into_raw`: guesses the format of the bytes and decodes
/// them. Whether it succeeds, and the size of the image, depend on the
/// bytes alone; the pixels are four bytes for each point of the image.
#[verifier::external_body]
fn decode_rgba8(data: &[u8]) -> (decoded: Result<(u32, u32, Vec<u8>), image::ImageError>)
    ensures
        match decoded {
            Ok((width, height, pixels)) => {
                &&& image_size(data@) == Some((width, height))
                &&& pixels@.len() == 4 * width * height
            },
            Err(_) => image_size(data@) is None,
        },
{
    match image::load_from_memory(data) {
        Ok(img) => {
            let (width, height) = image::GenericImageView::dimensions(&img);
            Ok((width, height, img.to_rgba8().into_raw()))
        },
        Err(e) => Err(e),
    }
}

/// `ToString::to_string` on the decoder's error: its message.
#[verifier::external_body]
fn image_error_text(error: &image::ImageError) -> (text: String) {
    error.to_string()
}

/// Loader of textures from image files.
pub struct TextureLoader;

impl TextureLoader {
    /// The texture that a decoded image is, or the error that a failed
    /// decoding is, with the decoder's message.
    pub fn texture_from(decoded: Result<(u32, u32, Vec<u8>), String>) -> (result: Result<
        Texture,
        AssetError,
    >)
        ensures
            match (decoded, result) {
                (Ok((width, height, pixels)), Ok(texture)) => {
                    &&& texture.width == width
                    &&& texture.height == height
                    &&& texture.format == TextureFormat::Rgba8
                    &&& texture.data == pixels
                },
                (Err(reason), Err(AssetError::DecodingError(text))) => text == reason,
                _ => false,
            },
    {
        match decoded {
            Ok((width, height, pixels)) => Ok(
                Texture { width, height, format: TextureFormat::Rgba8, data: pixels },
            ),
            Err(reason) => Err(AssetError::DecodingError(reason)),
        }
    }

    /// Decodes an image file into a texture of 8-bit RGBA pixels: the
    /// texture has the size of the image, and four bytes for each of its
    /// points. Fails with a decoding error, which carries the decoder's
    /// message, exactly when the bytes are no image that the decoder reads.
    pub fn load_texture(&self, data: &[u8]) -> (result: Result<Texture, AssetError>)
        ensures
            match result {
                Ok(texture) => {
                    &&& texture.format == TextureFormat::Rgba8
                    &&& image_size(data@) == Some((texture.width, texture.height))
                    &&& texture.data@.len() == 4 * texture.width * texture.height
                },
                Err(AssetError::DecodingError(_)) => image_size(data@) is None,
                Err(_) => false,
            },
    {
        match decode_rgba8(data) {
            Ok(image) => Self::texture_from(Ok(image)),
            Err(error) => Self::texture_from(Err(image_error_text(&error))),
        }
    }
}

/// A JSON document, parsed.
#[verifier::external_type_specification]
#[verifier::external_body]
pub struct ExJsonValue(serde_json::Value);

/// Error of the JSON parser.
#[verifier::external_type_specification]
#[verifier::external_body]
pub struct ExJsonError(serde_json::Error);

/// Error of the UTF-8 check of std.
#[verifier::external_type_specification]
#[verifier::external_body]
pub struct ExUtf8Error(std::str::Utf8Error);

/// Whether the JSON parser accepts the text: whether it is one JSON
/// document that the parser reads. A document that is nested deeper than
/// the parser goes, 128 levels, is not accepted.
pub uninterp spec fn is_json(text: Seq<char>) -> bool;

/// `std::str::from_utf8`: the text that the bytes encode, or an error
/// when they are no valid UTF-8.
#[verifier::external_body]
fn str_from_utf8(data: &[u8]) -> (text: Result<&str, std::str::Utf8Error>)
    ensures
        match text {
            Ok(text) => valid_utf8(data@) && text@ == decode_utf8(data@),
            Err(_) => !valid_utf8(data@),
        },
{
    std::str::from_utf8(data)
}

/// `ToString::to_string` on the error of the UTF-8 check: its message.
#[verifier::external_body]
fn utf8_error_text(error: &std::str::Utf8Error) -> (text: String) {
    error.to_string()
}

/// `serde_json::from_str` for a value of any shape: the parsed document,
/// or an error when the parser does not accept the text. Whether it
/// succeeds depends on the text alone.
#[verifier::external_body]
fn parse_json(text: &str) -> (parsed: Result<serde_json::Value, serde_json::Error>)
    ensures
        parsed is Ok == is_json(text@),
{
    serde_json::from_str::<serde_json::Value>(text)
}

/// `ToString::to_string` on the parser's error: its message.
#[verifier::external_body]
fn json_error_text(error: &serde_json::Error) -> (text: String) {
    error.to_string()
}

/// A data file: one JSON document.
pub struct JsonAsset {
    pub data: serde_json::Value,
}

impl Asset for JsonAsset {
    fn kind_name() -> (name: &'static str)
        ensures
            name@ == "JsonAsset"@,
    {
        "JsonAsset"
    }
}

/// Whether the bytes are a data file: the UTF-8 encoding of a text that
/// the JSON parser accepts.
pub open spec fn is_json_file(data: Seq<u8>) -> bool {
    valid_utf8(data) && is_json(decode_utf8(data))
}

/// Loader of data files.
pub struct JsonLoader;

impl JsonLoader {
    /// The asset that a parsed document is, or the error that a failed
    /// check or parse is, with its message.
    pub fn asset_from(parsed: Result<serde_json::Value, String>) -> (result: Result<
        JsonAsset,
        AssetError,
    >)
        ensures
            match (parsed, result) {
                (Ok(value), Ok(asset)) => asset.data == value,
                (Err(reason), Err(AssetError::DecodingError(text))) => text == reason,
                _ => false,
            },
    {
        match parsed {
            Ok(value) => Ok(JsonAsset { data: value }),
            Err(reason) => Err(AssetError::DecodingError(reason)),
        }
    }

    /// Reads a data file. Fails with a decoding error, which carries the
    /// message of the check that failed, exactly when the bytes are not
    /// valid UTF-8 or the JSON parser does not accept the text.
    pub fn load_json(&self, data: &[u8]) -> (result: Result<JsonAsset, AssetError>)
        ensures
            match result {
                Ok(_) => is_json_file(data@),
                Err(AssetError::DecodingError(_)) => !is_json_file(data@),
                Err(_) => false,
            },
    {
        match str_from_utf8(data) {
            Ok(text) => match parse_json(text) {
                Ok(value) => Self::asset_from(Ok(value)),
                Err(error) => Self::asset_from(Err(json_error_text(&error))),
            },
            Err(error) => Self::asset_from(Err(utf8_error_text(&error))),
        }
    }
}

} // verus!
