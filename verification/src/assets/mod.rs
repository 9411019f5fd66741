//! Assets once their bytes are in memory: which loader a file is for, the
//! decoding of textures and data files, and the cache of loaded assets.

pub mod cache;
pub mod loader;

pub use cache::AssetCache;
pub use cache::AssetHandle;
pub use loader::Asset;
pub use loader::AssetError;
pub use loader::AssetKind;
pub use loader::JsonAsset;
pub use loader::JsonLoader;
pub use loader::Texture;
pub use loader::TextureFormat;
pub use loader::TextureLoader;
