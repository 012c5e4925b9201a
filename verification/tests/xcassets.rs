//! Tests for asset-catalog type names.

use xcbuild::xcassets::AssetType;

#[test]
fn test_asset_type_from_extension() {
    assert_eq!(AssetType::from_extension("xcassets"), AssetType::Catalog);
    assert_eq!(AssetType::from_extension("imageset"), AssetType::ImageSet);
    assert_eq!(
        AssetType::from_extension("appiconset"),
        AssetType::AppIconSet
    );
    assert_eq!(AssetType::from_extension("dataset"), AssetType::DataSet);
}

#[test]
fn test_asset_type_unknown_keeps_extension() {
    assert_eq!(
        AssetType::from_extension("mystery"),
        AssetType::Unknown("mystery".to_string())
    );
}
