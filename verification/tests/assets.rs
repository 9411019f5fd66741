use dream_engine::assets::{
    Asset, AssetCache, AssetError, AssetKind, JsonAsset, JsonLoader, Texture, TextureFormat,
    TextureLoader,
};
use std::io::Cursor;

fn png_of(width: u32, height: u32, pixels: Vec<u8>) -> Vec<u8> {
    let image = image::RgbaImage::from_raw(width, height, pixels).unwrap();
    let mut bytes = Cursor::new(Vec::new());
    image.write_to(&mut bytes, image::ImageOutputFormat::Png).unwrap();
    bytes.into_inner()
}

#[test]
fn textures_are_decoded_to_rgba() {
    let pixels =
        vec![255, 0, 0, 255, 0, 255, 0, 128, 0, 0, 255, 0, 9, 8, 7, 6, 1, 2, 3, 4, 5, 5, 5, 5];
    let file = png_of(3, 2, pixels.clone());
    assert_ne!(file, pixels);
    let texture = TextureLoader.load_texture(&file).ok().unwrap();
    assert_eq!(texture.width, 3);
    assert_eq!(texture.height, 2);
    assert_eq!(texture.format, TextureFormat::Rgba8);
    assert_eq!(texture.data.len(), 4 * 3 * 2);
    assert_eq!(texture.data, pixels);
}

#[test]
fn bytes_that_are_no_image_fail_to_decode() {
    for bytes in [&b""[..], &b"not an image"[..], &[0x89, b'P', b'N', b'G'][..]] {
        match TextureLoader.load_texture(bytes) {
            Err(AssetError::DecodingError(reason)) => assert!(!reason.is_empty()),
            _ => panic!("bytes that are no image were decoded"),
        }
    }
}

#[test]
fn decoded_images_become_textures() {
    let texture =
        TextureLoader::texture_from(Ok((2, 1, vec![1, 2, 3, 4, 5, 6, 7, 8]))).ok().unwrap();
    assert_eq!((texture.width, texture.height), (2, 1));
    assert_eq!(texture.data, vec![1, 2, 3, 4, 5, 6, 7, 8]);
    match TextureLoader::texture_from(Err("bad".to_string())) {
        Err(error) => assert_eq!(error.message(), "Failed to decode asset: bad"),
        Ok(_) => panic!("a failed decoding became a texture"),
    }
}

#[test]
fn data_files_are_parsed() {
    let asset = JsonLoader.load_json(b"{\"name\": \"hero\", \"hp\": [1, 2]}").ok().unwrap();
    let mut expected = serde_json::Map::new();
    expected.insert("name".to_string(), serde_json::Value::String("hero".to_string()));
    expected.insert(
        "hp".to_string(),
        serde_json::Value::Array(vec![serde_json::Value::from(1), serde_json::Value::from(2)]),
    );
    assert_eq!(asset.data, serde_json::Value::Object(expected));
    assert_eq!(JsonLoader.load_json(b" null ").ok().unwrap().data, serde_json::Value::Null);
}

#[test]
fn data_files_must_be_utf8_and_json() {
    for bytes in [&[0xff, 0xfe][..], &b"{\"open\": "[..], &b""[..], &b"1 2"[..]] {
        match JsonLoader.load_json(bytes) {
            Err(AssetError::DecodingError(reason)) => assert!(!reason.is_empty()),
            _ => panic!("bytes that are no data file were parsed"),
        }
    }
    match JsonLoader::asset_from(Err("why".to_string())) {
        Err(AssetError::DecodingError(reason)) => assert_eq!(reason, "why"),
        _ => panic!("a failed parse became an asset"),
    }
}

#[test]
fn extensions_choose_the_kind_of_asset() {
    assert_eq!(AssetKind::for_extension("png"), Some(AssetKind::Texture));
    assert_eq!(AssetKind::for_extension("jpg"), Some(AssetKind::Texture));
    assert_eq!(AssetKind::for_extension("jpeg"), Some(AssetKind::Texture));
    assert_eq!(AssetKind::for_extension("ogg"), Some(AssetKind::Audio));
    assert_eq!(AssetKind::for_extension("wav"), Some(AssetKind::Audio));
    assert_eq!(AssetKind::for_extension("json"), Some(AssetKind::Json));
    assert_eq!(AssetKind::for_extension("PNG"), None);
    assert_eq!(AssetKind::for_extension("txt"), None);
    assert_eq!(AssetKind::for_extension(""), None);
}

#[test]
fn errors_have_messages_and_assets_have_names() {
    assert_eq!(AssetError::InvalidPath.message(), "Invalid asset path");
    assert_eq!(
        AssetError::UnsupportedFormat("xyz".to_string()).message(),
        "Unsupported format: xyz"
    );
    assert_eq!(
        AssetError::DecodingError("truncated".to_string()).message(),
        "Failed to decode asset: truncated"
    );
    assert_eq!(AssetError::NotFound("a/b.png".to_string()).message(), "Asset not found: a/b.png");
    assert_eq!(Texture::kind_name(), "Texture");
    assert_eq!(JsonAsset::kind_name(), "JsonAsset");
}

#[test]
fn the_cache_keeps_assets_by_path_and_kind() {
    let mut cache: AssetCache<String> = AssetCache::new();
    assert_eq!(cache.size(), 0);
    assert!(cache.get("a.png", 0).is_none());
    assert!(!cache.remove("a.png"));

    let handle = cache.insert("a.png".to_string(), 0, "first".to_string());
    assert_eq!(handle.path, "a.png");
    assert_eq!(handle.get(), "first");
    cache.insert("b.json".to_string(), 2, "second".to_string());
    assert_eq!(cache.size(), 2);

    assert_eq!(cache.get("a.png", 0).unwrap().get(), "first");
    assert_eq!(cache.get("a.png", 0).unwrap().path, "a.png");
    // an asset is handed out only as the kind it was stored as
    assert!(cache.get("a.png", 2).is_none());
    assert!(cache.get("b.json", 0).is_none());
    assert_eq!(cache.get("b.json", 2).unwrap().get(), "second");

    // a second insert under a path replaces the asset and its kind
    cache.insert("a.png".to_string(), 1, "third".to_string());
    assert_eq!(cache.size(), 2);
    assert!(cache.get("a.png", 0).is_none());
    assert_eq!(cache.get("a.png", 1).unwrap().get(), "third");
    // a handle given out before keeps its asset
    assert_eq!(handle.get(), "first");

    assert!(cache.remove("a.png"));
    assert!(!cache.remove("a.png"));
    assert_eq!(cache.size(), 1);
    assert_eq!(cache.get("b.json", 2).unwrap().get(), "second");
    cache.clear();
    assert_eq!(cache.size(), 0);
    assert!(cache.get("b.json", 2).is_none());
}
