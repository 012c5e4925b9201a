//! Readers and writers for the compact binary container formats used by
//! Apple's developer tools: the BOM (Bill Of Materials) archive with its
//! block store, variable table and keyed tree, the fixed-layout path
//! records consumed by `lsbom`/`mkbom`, the CAR asset-catalog tables
//! layered on BOM, the HMAP header-map hash table, linker dependency-info
//! files, and a few small text helpers (xcconfig settings, property-list
//! format detection, asset-catalog type names).

pub mod bytes;

pub mod strutil;

pub mod bom;

pub mod writer;

pub mod paths;

pub mod roundtrip;

pub mod plistfmt;

pub mod xcassets;

pub mod pbxsetting;

pub mod hmap;

pub mod car;

pub mod dependency;
