//! Asset-catalog types: the kind of asset a directory extension denotes,
//! and the plain records of a `Contents.json` manifest.

use vstd::prelude::*;

use crate::strutil::str_eq;

verus! {

/// The type of an asset in the catalog.
#[derive(Debug, Clone, PartialEq, Eq)]
pub enum AssetType {
    Catalog,
    Group,
    ImageSet,
    AppIconSet,
    DataSet,
    ColorSet,
    LaunchImage,
    BrandAssets,
    SpriteAtlas,
    ComplicationSet,
    IconSet,
    StickerSequence,
    StickerPack,
    Sticker,
    CubeTextureSet,
    TextureSet,
    ARReferenceObject,
    ARResourceGroup,
    SymbolSet,
    Unknown(String),
}

/// The asset type a known directory extension denotes, or `None` for an
/// extension that is not recognized.
pub open spec fn spec_known_asset_type(ext: Seq<char>) -> Option<AssetType> {
    if ext == ("xcassets")@ {
        Some(AssetType::Catalog)
    } else if ext == ("group")@ {
        Some(AssetType::Group)
    } else if ext == ("imageset")@ {
        Some(AssetType::ImageSet)
    } else if ext == ("appiconset")@ {
        Some(AssetType::AppIconSet)
    } else if ext == ("dataset")@ {
        Some(AssetType::DataSet)
    } else if ext == ("colorset")@ {
        Some(AssetType::ColorSet)
    } else if ext == ("launchimage")@ {
        Some(AssetType::LaunchImage)
    } else if ext == ("brandassets")@ {
        Some(AssetType::BrandAssets)
    } else if ext == ("spriteatlas")@ {
        Some(AssetType::SpriteAtlas)
    } else if ext == ("complicationset")@ {
        Some(AssetType::ComplicationSet)
    } else if ext == ("iconset")@ {
        Some(AssetType::IconSet)
    } else if ext == ("stickersequence")@ {
        Some(AssetType::StickerSequence)
    } else if ext == ("stickerpack")@ {
        Some(AssetType::StickerPack)
    } else if ext == ("sticker")@ {
        Some(AssetType::Sticker)
    } else if ext == ("cubetextureset")@ {
        Some(AssetType::CubeTextureSet)
    } else if ext == ("textureset")@ {
        Some(AssetType::TextureSet)
    } else if ext == ("arreferenceobject")@ {
        Some(AssetType::ARReferenceObject)
    } else if ext == ("arresourcegroup")@ {
        Some(AssetType::ARResourceGroup)
    } else if ext == ("symbolset")@ {
        Some(AssetType::SymbolSet)
    } else {
        None
    }
}

impl AssetType {
    /// The asset type a directory extension denotes; an unrecognized
    /// extension is carried along verbatim.
    pub fn from_extension(ext: &str) -> (r: AssetType)
        ensures
            match spec_known_asset_type(ext@) {
                Some(t) => r == t,
                None => r matches AssetType::Unknown(u) && u@ == ext@,
            },
    {
        if str_eq(ext, "xcassets") {
            AssetType::Catalog
        } else if str_eq(ext, "group") {
            AssetType::Group
        } else if str_eq(ext, "imageset") {
            AssetType::ImageSet
        } else if str_eq(ext, "appiconset") {
            AssetType::AppIconSet
        } else if str_eq(ext, "dataset") {
            AssetType::DataSet
        } else if str_eq(ext, "colorset") {
            AssetType::ColorSet
        } else if str_eq(ext, "launchimage") {
            AssetType::LaunchImage
        } else if str_eq(ext, "brandassets") {
            AssetType::BrandAssets
        } else if str_eq(ext, "spriteatlas") {
            AssetType::SpriteAtlas
        } else if str_eq(ext, "complicationset") {
            AssetType::ComplicationSet
        } else if str_eq(ext, "iconset") {
            AssetType::IconSet
        } else if str_eq(ext, "stickersequence") {
            AssetType::StickerSequence
        } else if str_eq(ext, "stickerpack") {
            AssetType::StickerPack
        } else if str_eq(ext, "sticker") {
            AssetType::Sticker
        } else if str_eq(ext, "cubetextureset") {
            AssetType::CubeTextureSet
        } else if str_eq(ext, "textureset") {
            AssetType::TextureSet
        } else if str_eq(ext, "arreferenceobject") {
            AssetType::ARReferenceObject
        } else if str_eq(ext, "arresourcegroup") {
            AssetType::ARResourceGroup
        } else if str_eq(ext, "symbolset") {
            AssetType::SymbolSet
        } else {
            AssetType::Unknown(ext.to_owned())
        }
    }
}

/// A `Contents.json` data entry.
#[derive(Debug, Clone)]
pub struct DataEntry {
    pub filename: Option<String>,
    pub idiom: Option<String>,
    pub uti: Option<String>,
}

/// The `info` section of a `Contents.json`.
#[derive(Debug, Clone)]
pub struct ContentsInfo {
    pub version: Option<u32>,
    pub author: Option<String>,
}

/// The `properties` section of a `Contents.json`.
#[derive(Debug, Clone)]
pub struct ContentsProperties {
    pub provides_namespace: Option<bool>,
    pub on_demand_resource_tags: Option<Vec<String>>,
    pub pre_rendered: Option<bool>,
}

} // verus!
