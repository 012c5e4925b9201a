//! Reader for CAR (compiled asset catalog) archives.  A CAR file is a BOM
//! archive whose variables hold the catalog header, the key format, and
//! two trees of facets and renditions; this module reads those tables
//! through the BOM reader.

use vstd::prelude::*;

use std::collections::HashMap;

use crate::bom::{
    spec_block, spec_load, spec_tree_result, spec_variable_get, Bom, BomTreeEntry, BomView,
};
use crate::bytes::{read_u16_le, read_u32_le, rl16, rl32};
use crate::paths::spec_first_nul;
use crate::strutil::{spec_utf8_lossy, string_from_chars, utf8_lossy};

verus! {

broadcast use vstd::std_specs::hash::group_hash_axioms, vstd::array::group_array_axioms;

pub const ATTR_ELEMENT: u16 = 1;

pub const ATTR_PART: u16 = 2;

pub const ATTR_SIZE: u16 = 3;

pub const ATTR_DIRECTION: u16 = 4;

pub const ATTR_VALUE: u16 = 6;

pub const ATTR_DIMENSION1: u16 = 8;

pub const ATTR_DIMENSION2: u16 = 9;

pub const ATTR_STATE: u16 = 10;

pub const ATTR_LAYER: u16 = 11;

pub const ATTR_SCALE: u16 = 12;

pub const ATTR_PRESENTATION_STATE: u16 = 14;

pub const ATTR_IDIOM: u16 = 15;

pub const ATTR_SUBTYPE: u16 = 16;

pub const ATTR_IDENTIFIER: u16 = 17;

pub const ATTR_PREVIOUS_VALUE: u16 = 18;

pub const ATTR_PREVIOUS_STATE: u16 = 19;

pub const ATTR_SIZE_CLASS_H: u16 = 20;

pub const ATTR_SIZE_CLASS_V: u16 = 21;

pub const ATTR_MEMORY_CLASS: u16 = 22;

pub const ATTR_GRAPHICS_CLASS: u16 = 23;

pub const ATTR_DISPLAY_GAMUT: u16 = 24;

pub const ATTR_DEPLOYMENT_TARGET: u16 = 25;

/// The printable name of an attribute identifier.
pub open spec fn spec_attribute_name(id: u16) -> Seq<char> {
    if id == 1 {
        ("element")@
    } else if id == 2 {
        ("part")@
    } else if id == 3 {
        ("size")@
    } else if id == 4 {
        ("direction")@
    } else if id == 6 {
        ("value")@
    } else if id == 8 {
        ("dimension1")@
    } else if id == 9 {
        ("dimension2")@
    } else if id == 10 {
        ("state")@
    } else if id == 11 {
        ("layer")@
    } else if id == 12 {
        ("scale")@
    } else if id == 14 {
        ("presentation_state")@
    } else if id == 15 {
        ("idiom")@
    } else if id == 16 {
        ("subtype")@
    } else if id == 17 {
        ("identifier")@
    } else if id == 18 {
        ("previous_value")@
    } else if id == 19 {
        ("previous_state")@
    } else if id == 20 {
        ("size_class_horizontal")@
    } else if id == 21 {
        ("size_class_vertical")@
    } else if id == 22 {
        ("memory_class")@
    } else if id == 23 {
        ("graphics_class")@
    } else if id == 24 {
        ("display_gamut")@
    } else if id == 25 {
        ("deployment_target")@
    } else {
        ("unknown")@
    }
}

/// The printable name of an attribute identifier.
pub fn attribute_name(id: u16) -> (r: &'static str)
    ensures
        r@ == spec_attribute_name(id),
{
    match id {
        1 => "element",
        2 => "part",
        3 => "size",
        4 => "direction",
        6 => "value",
        8 => "dimension1",
        9 => "dimension2",
        10 => "state",
        11 => "layer",
        12 => "scale",
        14 => "presentation_state",
        15 => "idiom",
        16 => "subtype",
        17 => "identifier",
        18 => "previous_value",
        19 => "previous_state",
        20 => "size_class_horizontal",
        21 => "size_class_vertical",
        22 => "memory_class",
        23 => "graphics_class",
        24 => "display_gamut",
        25 => "deployment_target",
        _ => "unknown",
    }
}

/// A set of attribute key/value pairs.
#[derive(Debug, Clone)]
pub struct AttributeList {
    pub attrs: HashMap<u16, u16>,
}

/// The attribute map built by pairing key-format identifiers with key
/// values, position by position.
pub open spec fn spec_from_key_format(ids: Seq<u32>, vals: Seq<u16>, i: int) -> Map<u16, u16>
    decreases ids.len() - i,
{
    if i < 0 || i >= ids.len() {
        Map::empty()
    } else if i < vals.len() {
        spec_from_key_format(ids, vals, i + 1).insert(ids[i] as u16, vals[i])
    } else {
        spec_from_key_format(ids, vals, i + 1)
    }
}

/// The attribute map built from explicit pairs; later pairs win.
pub open spec fn spec_from_pairs(pairs: Seq<(u16, u16)>, i: int) -> Map<u16, u16>
    decreases pairs.len() - i,
{
    if i < 0 || i >= pairs.len() {
        Map::empty()
    } else {
        spec_from_pairs(pairs, i + 1).insert(pairs[i].0, pairs[i].1)
    }
}

impl AttributeList {
    /// The value of an attribute, if present.
    pub fn get(&self, id: u16) -> (r: Option<u16>)
        ensures
            r == (if self.attrs@.contains_key(id) {
                Some(self.attrs@[id])
            } else {
                None::<u16>
            }),
    {
        match self.attrs.get(&id) {
            Some(v) => Some(*v),
            None => None,
        }
    }

    /// Pair key-format identifiers with key values, position by
    /// position; surplus identifiers are ignored.
    pub fn from_key_format(identifiers: &[u32], key_values: &[u16]) -> (r: AttributeList)
        ensures
            r.attrs@ == spec_from_key_format(identifiers@, key_values@, 0),
    {
        let mut attrs: HashMap<u16, u16> = HashMap::new();
        let n = identifiers.len();
        let mut i: usize = n;
        while i > 0
            invariant
                i <= n,
                n == identifiers@.len(),
                attrs@ == spec_from_key_format(identifiers@, key_values@, i as int),
            decreases i,
        {
            i = i - 1;
            if i < key_values.len() {
                attrs.insert(identifiers[i] as u16, key_values[i]);
            }
        }
        AttributeList { attrs }
    }

    /// Build from explicit attribute pairs; later pairs win.
    pub fn from_pairs(pairs: &[(u16, u16)]) -> (r: AttributeList)
        ensures
            r.attrs@ == spec_from_pairs(pairs@, 0),
    {
        let mut attrs: HashMap<u16, u16> = HashMap::new();
        let n = pairs.len();
        let mut i: usize = n;
        while i > 0
            invariant
                i <= n,
                n == pairs@.len(),
                attrs@ == spec_from_pairs(pairs@, i as int),
            decreases i,
        {
            i = i - 1;
            let (id, val) = pairs[i];
            attrs.insert(id, val);
        }
        AttributeList { attrs }
    }
}

/// A parsed CAR header.
#[derive(Debug, Clone)]
pub struct CarHeader {
    pub ui_version: u32,
    pub storage_version: u32,
    pub storage_timestamp: u32,
    pub rendition_count: u32,
    pub file_creator: String,
    pub other_creator: String,
    pub uuid: [u8; 16],
    pub associated_checksum: u32,
    pub schema_version: u32,
    pub color_space_id: u32,
    pub key_semantics: u32,
}

/// Whether a block can parse as a CAR header: long enough and starting
/// with `RATC`.
pub open spec fn spec_car_header_ok(d: Seq<u8>) -> bool {
    d.len() >= 436 && d[0] == 0x52 && d[1] == 0x41 && d[2] == 0x54 && d[3] == 0x43
}

/// Where the creator string ends: at the first NUL or line feed, or at
/// the field's end.
pub open spec fn spec_creator_end(d: Seq<u8>, from: int, limit: int) -> int
    decreases limit - from,
{
    if from < 0 || from >= limit {
        limit
    } else if d[from] == 0 || d[from] == 0x0a {
        from
    } else {
        spec_creator_end(d, from + 1, limit)
    }
}

/// A facet: a named asset with its attributes.
#[derive(Debug, Clone)]
pub struct Facet {
    pub name: String,
    pub attributes: AttributeList,
}

impl Facet {
    /// The facet's identifier attribute, if present.
    pub fn identifier(&self) -> (r: Option<u16>)
        ensures
            r == (if self.attributes.attrs@.contains_key(ATTR_IDENTIFIER) {
                Some(self.attributes.attrs@[ATTR_IDENTIFIER])
            } else {
                None::<u16>
            }),
    {
        self.attributes.get(ATTR_IDENTIFIER)
    }
}

/// A rendition: one concrete variant of an asset.
#[derive(Debug, Clone)]
pub struct Rendition {
    pub attributes: AttributeList,
    pub width: u32,
    pub height: u32,
    pub scale_factor: u32,
    pub pixel_format: [u8; 4],
    pub name: String,
    pub layout: u16,
    pub data_length: u32,
}

/// Whether a rendition value block parses: long enough and starting with
/// `CTSI`.
pub open spec fn spec_rendition_ok(value: Seq<u8>) -> bool {
    value.len() >= 184 && value[0] == 0x43 && value[1] == 0x54 && value[2] == 0x53 && value[3]
        == 0x49
}

/// The key values stored in a rendition key block: little-endian `u16`s.
pub open spec fn spec_key_values(key: Seq<u8>, i: int) -> Seq<u16>
    decreases key.len() / 2 - i,
{
    if i < 0 || i >= key.len() / 2 {
        Seq::empty()
    } else {
        seq![rl16(key, 2 * i)] + spec_key_values(key, i + 1)
    }
}

/// The decimal digits of `n`.
pub open spec fn spec_dec(n: int) -> Seq<char>
    decreases n,
{
    if n < 0 {
        Seq::empty()
    } else if n < 10 {
        seq![((0x30 + n) as u8) as char]
    } else {
        spec_dec(n / 10) + seq![((0x30 + n % 10) as u8) as char]
    }
}

/// A lowercase hex digit.
pub open spec fn spec_hex_digit(d: u8) -> char {
    if d < 10 {
        ((0x30 + d) as u8) as char
    } else {
        ((0x57 + d) as u8) as char
    }
}

/// Two lowercase hex digits of a byte.
pub open spec fn spec_hex_byte(b: u8) -> Seq<char> {
    seq![spec_hex_digit(b / 16), spec_hex_digit((b % 16) as u8)]
}

/// Append the decimal digits of `n`.
fn push_dec(n: u16, out: &mut Vec<char>)
    ensures
        final(out)@ == old(out)@ + spec_dec(n as int),
    decreases n,
{
    if n < 10 {
        out.push((0x30 + n as u8) as char);
        proof {
            assert(out@ =~= old(out)@ + spec_dec(n as int));
        }
    } else {
        push_dec(n / 10, out);
        out.push((0x30 + (n % 10) as u8) as char);
        proof {
            assert(out@ =~= old(out)@ + spec_dec(n as int));
        }
    }
}

impl Rendition {
    /// The pixel format as text: a known four-character code by name,
    /// anything else as eight hex digits.
    pub fn pixel_format_string(&self) -> (r: String)
        ensures
            ({
                let pf = self.pixel_format@;
                if pf == ("ARGB")@.map(|i: int, c: char| c as u8) {
                    r@ == ("ARGB")@
                } else if pf == ("GA8 ")@.map(|i: int, c: char| c as u8) {
                    r@ == ("GA8")@
                } else if pf == ("PDF ")@.map(|i: int, c: char| c as u8) {
                    r@ == ("PDF")@
                } else if pf == ("DATA")@.map(|i: int, c: char| c as u8) {
                    r@ == ("DATA")@
                } else if pf == ("JPEG")@.map(|i: int, c: char| c as u8) {
                    r@ == ("JPEG")@
                } else if pf == ("WEBP")@.map(|i: int, c: char| c as u8) {
                    r@ == ("WEBP")@
                } else {
                    r@ == spec_hex_byte(pf[0]) + spec_hex_byte(pf[1]) + spec_hex_byte(pf[2])
                        + spec_hex_byte(pf[3])
                }
            }),
    {
        let pf: &[u8] = self.pixel_format.as_slice();
        if pf[0] == 0x41 && pf[1] == 0x52 && pf[2] == 0x47 && pf[3] == 0x42 {
            proof {
                reveal_strlit("ARGB");
                assert(self.pixel_format@ =~= ("ARGB")@.map(|i: int, c: char| c as u8));
            }
            return "ARGB".to_owned();
        }
        proof {
            reveal_strlit("ARGB");
            lemma_fourcc_mismatch(self.pixel_format@, ("ARGB")@);
        }
        if pf[0] == 0x47 && pf[1] == 0x41 && pf[2] == 0x38 && pf[3] == 0x20 {
            proof {
                reveal_strlit("GA8 ");
                assert(self.pixel_format@ =~= ("GA8 ")@.map(|i: int, c: char| c as u8));
            }
            return "GA8".to_owned();
        }
        proof {
            reveal_strlit("GA8 ");
            lemma_fourcc_mismatch(self.pixel_format@, ("GA8 ")@);
        }
        if pf[0] == 0x50 && pf[1] == 0x44 && pf[2] == 0x46 && pf[3] == 0x20 {
            proof {
                reveal_strlit("PDF ");
                assert(self.pixel_format@ =~= ("PDF ")@.map(|i: int, c: char| c as u8));
            }
            return "PDF".to_owned();
        }
        proof {
            reveal_strlit("PDF ");
            lemma_fourcc_mismatch(self.pixel_format@, ("PDF ")@);
        }
        if pf[0] == 0x44 && pf[1] == 0x41 && pf[2] == 0x54 && pf[3] == 0x41 {
            proof {
                reveal_strlit("DATA");
                assert(self.pixel_format@ =~= ("DATA")@.map(|i: int, c: char| c as u8));
            }
            return "DATA".to_owned();
        }
        proof {
            reveal_strlit("DATA");
            lemma_fourcc_mismatch(self.pixel_format@, ("DATA")@);
        }
        if pf[0] == 0x4a && pf[1] == 0x50 && pf[2] == 0x45 && pf[3] == 0x47 {
            proof {
                reveal_strlit("JPEG");
                assert(self.pixel_format@ =~= ("JPEG")@.map(|i: int, c: char| c as u8));
            }
            return "JPEG".to_owned();
        }
        proof {
            reveal_strlit("JPEG");
            lemma_fourcc_mismatch(self.pixel_format@, ("JPEG")@);
        }
        if pf[0] == 0x57 && pf[1] == 0x45 && pf[2] == 0x42 && pf[3] == 0x50 {
            proof {
                reveal_strlit("WEBP");
                assert(self.pixel_format@ =~= ("WEBP")@.map(|i: int, c: char| c as u8));
            }
            return "WEBP".to_owned();
        }
        proof {
            reveal_strlit("WEBP");
            lemma_fourcc_mismatch(self.pixel_format@, ("WEBP")@);
        }

        let mut chars: Vec<char> = Vec::new();
        let mut i: usize = 0;
        while i < 4
            invariant
                i <= 4,
                pf@ == self.pixel_format@,
                pf@.len() == 4,
                chars@ == spec_hex_bytes_prefix(self.pixel_format@, i as int),
            decreases 4 - i,
        {
            let ghost chars_before = chars@;
            let b = pf[i];
            let hi = b / 16;
            let lo = b % 16;
            chars.push(
                if hi < 10 {
                    (0x30 + hi) as char
                } else {
                    (0x57 + hi) as char
                },
            );
            chars.push(
                if lo < 10 {
                    (0x30 + lo) as char
                } else {
                    (0x57 + lo) as char
                },
            );
            proof {
                assert(chars@ =~= chars_before + seq![
                    spec_hex_digit(b / 16),
                    spec_hex_digit((b % 16) as u8),
                ]);
                assert(spec_hex_bytes_prefix(self.pixel_format@, i as int + 1)
                    == spec_hex_bytes_prefix(self.pixel_format@, i as int) + spec_hex_byte(
                    self.pixel_format@[i as int],
                ));
                assert(b == self.pixel_format@[i as int]);
                assert(seq![spec_hex_digit(b / 16), spec_hex_digit((b % 16) as u8)]
                    =~= spec_hex_byte(self.pixel_format@[i as int]));
                assert(chars@ =~= spec_hex_bytes_prefix(self.pixel_format@, i as int + 1));
            }
            i = i + 1;
        }
        proof {
            reveal_with_fuel(spec_hex_bytes_prefix, 5);
            assert(chars@ =~= spec_hex_byte(self.pixel_format@[0]) + spec_hex_byte(
                self.pixel_format@[1],
            ) + spec_hex_byte(self.pixel_format@[2]) + spec_hex_byte(self.pixel_format@[3]));
        }
        string_from_chars(chars.as_slice())
    }

    /// The rendition's name, or `rendition_<id>` where it has none.
    pub fn file_name(&self) -> (r: String)
        ensures
            self.name@.len() != 0 ==> r@ == self.name@,
            self.name@.len() == 0 ==> r@ == ("rendition_")@ + spec_dec(
                (if self.attributes.attrs@.contains_key(ATTR_IDENTIFIER) {
                    self.attributes.attrs@[ATTR_IDENTIFIER]
                } else {
                    0u16
                }) as int,
            ),
    {
        if !self.name.as_str().is_empty() {
            return self.name.clone();
        }
        let id = match self.attributes.get(ATTR_IDENTIFIER) {
            Some(v) => v,
            None => 0,
        };
        let mut chars: Vec<char> = Vec::new();
        push_dec(id, &mut chars);
        let digits = string_from_chars(chars.as_slice());
        let mut out: String = "rendition_".to_owned();
        vstd::string::StringExecFns::append(&mut out, digits.as_str());
        proof {
            assert(chars@ =~= Seq::<char>::empty() + spec_dec(id as int));
        }
        out
    }
}

/// The hex expansion of the first `i` bytes of a four-byte code.
pub open spec fn spec_hex_bytes_prefix(pf: Seq<u8>, i: int) -> Seq<char>
    decreases i,
{
    if i <= 0 {
        Seq::empty()
    } else {
        spec_hex_bytes_prefix(pf, i - 1) + spec_hex_byte(pf[i - 1])
    }
}

/// Four bytes that differ from a four-character code somewhere are not
/// its byte map.
pub proof fn lemma_fourcc_mismatch(pf: Seq<u8>, code: Seq<char>)
    requires
        pf.len() == 4,
        code.len() == 4,
        !(pf[0] == code[0] as u8 && pf[1] == code[1] as u8 && pf[2] == code[2] as u8 && pf[3]
            == code[3] as u8),
    ensures
        pf != code.map(|i: int, c: char| c as u8),
{
    let m = code.map(|i: int, c: char| c as u8);
    if pf == m {
        assert(pf[0] == m[0] && pf[1] == m[1] && pf[2] == m[2] && pf[3] == m[3]);
    }
}

/// The identifier list of a `KEYFORMAT` block, if it carries the `tmfk`
/// magic: little-endian words from offset 12, stopping at the declared
/// count or the end of the block.
pub open spec fn spec_key_format_ok(d: Seq<u8>) -> bool {
    d.len() >= 12 && d[0] == 0x74 && d[1] == 0x6d && d[2] == 0x66 && d[3] == 0x6b
}

/// The identifiers read from a key-format block.
pub open spec fn spec_key_format_ids(d: Seq<u8>, i: int) -> Seq<u32>
    decreases rl32(d, 8) - i,
{
    if i < 0 || i >= rl32(d, 8) {
        Seq::empty()
    } else if 12 + 4 * i + 4 > d.len() {
        Seq::empty()
    } else {
        seq![rl32(d, 12 + 4 * i)] + spec_key_format_ids(d, i + 1)
    }
}

/// Parse a `KEYFORMAT` block into its attribute identifiers.
fn parse_key_format(data: &[u8]) -> (r: Option<Vec<u32>>)
    ensures
        r is Some <==> spec_key_format_ok(data@),
        r matches Some(ids) ==> ids@ == spec_key_format_ids(data@, 0),
{
    if data.len() < 12 {
        return None;
    }
    if !(data[0] == 0x74 && data[1] == 0x6d && data[2] == 0x66 && data[3] == 0x6b) {
        return None;
    }
    let num = read_u32_le(data, 8);
    let mut identifiers: Vec<u32> = Vec::new();
    let ghost full = spec_key_format_ids(data@, 0);
    let mut i: u32 = 0;
    loop
        invariant_except_break
            data@.len() >= 12,
            num == rl32(data@, 8),
            i <= num,
            full == spec_key_format_ids(data@, 0),
            identifiers@ + spec_key_format_ids(data@, i as int) =~= full,
            identifiers@.len() == i,
        invariant
            full == spec_key_format_ids(data@, 0),
        ensures
            identifiers@ =~= full,
        decreases num - i,
    {
        if i >= num {
            proof {
                assert(spec_key_format_ids(data@, i as int) =~= Seq::<u32>::empty());
                assert(identifiers@ + Seq::<u32>::empty() =~= identifiers@);
            }
            break ;
        }
        let offset: u64 = 12 + 4 * (i as u64);
        if offset + 4 > data.len() as u64 {
            proof {
                assert(spec_key_format_ids(data@, i as int) =~= Seq::<u32>::empty());
                assert(identifiers@ + Seq::<u32>::empty() =~= identifiers@);
            }
            break ;
        }
        identifiers.push(read_u32_le(data, offset as usize));
        proof {
            assert(spec_key_format_ids(data@, i as int) == seq![rl32(data@, 12 + 4 * (i as int))]
                + spec_key_format_ids(data@, i as int + 1));
            assert(identifiers@ + spec_key_format_ids(data@, i as int + 1) =~= full);
        }
        i = i + 1;
    }
    Some(identifiers)
}

/// The attribute pairs stored in a facet value: a count at offset 4,
/// then `(id, value)` little-endian pairs, stopping at the block's end.
pub open spec fn spec_facet_pairs(d: Seq<u8>, i: int) -> Seq<(u16, u16)>
    decreases (if d.len() < 6 { 0 } else { rl16(d, 4) as int }) - i,
{
    if d.len() < 6 || i < 0 || i >= rl16(d, 4) {
        Seq::empty()
    } else if 6 + 4 * i + 4 > d.len() {
        Seq::empty()
    } else {
        seq![(rl16(d, 6 + 4 * i), rl16(d, 6 + 4 * i + 2))] + spec_facet_pairs(d, i + 1)
    }
}

/// Parse a facet value into its attribute list.
fn parse_facet_value(data: &[u8]) -> (r: AttributeList)
    ensures
        r.attrs@ == spec_from_pairs(spec_facet_pairs(data@, 0), 0),
{
    if data.len() < 6 {
        let r = AttributeList::from_pairs(&[]);
        proof {
            assert(spec_facet_pairs(data@, 0) =~= Seq::<(u16, u16)>::empty());
        }
        return r;
    }
    let count = read_u16_le(data, 4);
    let mut pairs: Vec<(u16, u16)> = Vec::new();
    let ghost full = spec_facet_pairs(data@, 0);
    let mut i: u16 = 0;
    loop
        invariant_except_break
            data@.len() >= 6,
            count == rl16(data@, 4),
            i <= count,
            full == spec_facet_pairs(data@, 0),
            pairs@ + spec_facet_pairs(data@, i as int) =~= full,
        invariant
            full == spec_facet_pairs(data@, 0),
        ensures
            pairs@ =~= full,
        decreases count - i,
    {
        if i >= count {
            proof {
                assert(spec_facet_pairs(data@, i as int) =~= Seq::<(u16, u16)>::empty());
                assert(pairs@ + Seq::<(u16, u16)>::empty() =~= pairs@);
            }
            break ;
        }
        let offset: u64 = 6 + 4 * (i as u64);
        if offset + 4 > data.len() as u64 {
            proof {
                assert(spec_facet_pairs(data@, i as int) =~= Seq::<(u16, u16)>::empty());
                assert(pairs@ + Seq::<(u16, u16)>::empty() =~= pairs@);
            }
            break ;
        }
        let id = read_u16_le(data, offset as usize);
        let val = read_u16_le(data, offset as usize + 2);
        pairs.push((id, val));
        proof {
            assert(spec_facet_pairs(data@, i as int) == seq![
                (rl16(data@, 6 + 4 * (i as int)), rl16(data@, 6 + 4 * (i as int) + 2)),
            ] + spec_facet_pairs(data@, i as int + 1));
            assert(pairs@ + spec_facet_pairs(data@, i as int + 1) =~= full);
        }
        i = i + 1;
    }
    AttributeList::from_pairs(pairs.as_slice())
}

impl CarHeader {
    /// Parse the `CARHEADER` block: fixed little-endian fields, creator
    /// strings cut at NUL (or line feed for the first), and the UUID.
    fn parse(data: &[u8]) -> (r: Option<CarHeader>)
        ensures
            r is Some <==> spec_car_header_ok(data@),
            r matches Some(h) ==> {
                &&& h.ui_version == rl32(data@, 4)
                &&& h.storage_version == rl32(data@, 8)
                &&& h.storage_timestamp == rl32(data@, 12)
                &&& h.rendition_count == rl32(data@, 16)
                &&& h.uuid@ == data@.subrange(404, 420)
                &&& h.associated_checksum == rl32(data@, 420)
                &&& h.schema_version == rl32(data@, 424)
                &&& h.color_space_id == rl32(data@, 428)
                &&& h.key_semantics == rl32(data@, 432)
                &&& h.file_creator@ == spec_utf8_lossy(
                    data@.subrange(20, spec_creator_end(data@, 20, 148)),
                )
                &&& h.other_creator@ == spec_utf8_lossy(
                    data@.subrange(148, spec_first_nul_capped(data@, 148, 404)),
                )
            },
    {
        if data.len() < 436 {
            return None;
        }
        if !(data[0] == 0x52 && data[1] == 0x41 && data[2] == 0x54 && data[3] == 0x43) {
            return None;
        }

        let mut end: usize = 20;
        while end < 148 && data[end] != 0 && data[end] != 0x0a
            invariant
                data@.len() >= 436,
                20 <= end <= 148,
                spec_creator_end(data@, 20, 148) == spec_creator_end(data@, end as int, 148),
            decreases 148 - end,
        {
            end = end + 1;
        }
        proof {
            assert(spec_creator_end(data@, end as int, 148) == end);
        }
        let file_creator = utf8_lossy(&data[20..end]);

        let mut end2: usize = 148;
        while end2 < 404 && data[end2] != 0
            invariant
                data@.len() >= 436,
                148 <= end2 <= 404,
                spec_first_nul_capped(data@, 148, 404) == spec_first_nul_capped(
                    data@,
                    end2 as int,
                    404,
                ),
            decreases 404 - end2,
        {
            end2 = end2 + 1;
        }
        proof {
            assert(spec_first_nul_capped(data@, end2 as int, 404) == end2);
        }
        let other_creator = utf8_lossy(&data[148..end2]);

        let mut uuid: [u8; 16] = [0; 16];
        let mut ui: usize = 0;
        while ui < 16
            invariant
                data@.len() >= 436,
                ui <= 16,
                uuid@.len() == 16,
                forall|k: int| 0 <= k < ui ==> uuid@[k] == data@[404 + k],
            decreases 16 - ui,
        {
            uuid[ui] = data[404 + ui];
            ui = ui + 1;
        }
        proof {
            assert(uuid@ =~= data@.subrange(404, 420));
        }

        Some(
            CarHeader {
                ui_version: read_u32_le(data, 4),
                storage_version: read_u32_le(data, 8),
                storage_timestamp: read_u32_le(data, 12),
                rendition_count: read_u32_le(data, 16),
                file_creator,
                other_creator,
                uuid,
                associated_checksum: read_u32_le(data, 420),
                schema_version: read_u32_le(data, 424),
                color_space_id: read_u32_le(data, 428),
                key_semantics: read_u32_le(data, 432),
            },
        )
    }
}

/// The first NUL at or after `from`, capped at `limit`.
pub open spec fn spec_first_nul_capped(d: Seq<u8>, from: int, limit: int) -> int
    decreases limit - from,
{
    if from < 0 || from >= limit {
        limit
    } else if d[from] == 0 {
        from
    } else {
        spec_first_nul_capped(d, from + 1, limit)
    }
}

impl Rendition {
    /// Parse one rendition from its key and value blocks: the key pairs
    /// with the key-format identifiers, the value carries the `CTSI`
    /// header fields.
    fn parse(key_data: &[u8], value_data: &[u8], identifiers: &[u32]) -> (r: Option<Rendition>)
        ensures
            r is Some <==> spec_rendition_ok(value_data@),
            r matches Some(rd) ==> {
                &&& rd.attributes.attrs@ == spec_from_key_format(
                    identifiers@,
                    spec_key_values(key_data@, 0),
                    0,
                )
                &&& rd.width == rl32(value_data@, 12)
                &&& rd.height == rl32(value_data@, 16)
                &&& rd.scale_factor == rl32(value_data@, 20)
                &&& rd.pixel_format@ == value_data@.subrange(24, 28)
                &&& rd.layout == rl16(value_data@, 36)
                &&& rd.data_length == rl32(value_data@, 180)
                &&& rd.name@ == spec_utf8_lossy(
                    value_data@.subrange(40, spec_first_nul_capped(value_data@, 40, 168)),
                )
            },
    {
        let num_keys = key_data.len() / 2;
        let mut key_values: Vec<u16> = Vec::new();
        let mut i: usize = 0;
        while i < num_keys
            invariant
                num_keys == key_data@.len() / 2,
                key_data@.len() <= usize::MAX,
                i <= num_keys,
                key_values@.len() == i,
                forall|k: int| 0 <= k < i ==> key_values@[k] == rl16(key_data@, 2 * k),
            decreases num_keys - i,
        {
            key_values.push(read_u16_le(key_data, 2 * i));
            i = i + 1;
        }
        proof {
            lemma_key_values_index(key_data@, 0);
            assert(key_values@ =~= spec_key_values(key_data@, 0));
        }
        let attributes = AttributeList::from_key_format(identifiers, key_values.as_slice());

        if value_data.len() < 184 {
            return None;
        }
        if !(value_data[0] == 0x43 && value_data[1] == 0x54 && value_data[2] == 0x53
            && value_data[3] == 0x49) {
            return None;
        }

        let width = read_u32_le(value_data, 12);
        let height = read_u32_le(value_data, 16);
        let scale_factor = read_u32_le(value_data, 20);
        let mut pixel_format: [u8; 4] = [0; 4];
        pixel_format[0] = value_data[24];
        pixel_format[1] = value_data[25];
        pixel_format[2] = value_data[26];
        pixel_format[3] = value_data[27];
        proof {
            assert(pixel_format@ =~= value_data@.subrange(24, 28));
        }
        let layout = read_u16_le(value_data, 36);

        let mut name_end: usize = 40;
        while name_end < 168 && value_data[name_end] != 0
            invariant
                value_data@.len() >= 184,
                40 <= name_end <= 168,
                spec_first_nul_capped(value_data@, 40, 168) == spec_first_nul_capped(
                    value_data@,
                    name_end as int,
                    168,
                ),
            decreases 168 - name_end,
        {
            name_end = name_end + 1;
        }
        proof {
            assert(spec_first_nul_capped(value_data@, name_end as int, 168) == name_end);
        }
        let name = utf8_lossy(&value_data[40..name_end]);

        let data_length = read_u32_le(value_data, 180);

        Some(
            Rendition {
                attributes,
                width,
                height,
                scale_factor,
                pixel_format,
                name,
                layout,
                data_length,
            },
        )
    }
}

/// The parsed key values, by position.
pub proof fn lemma_key_values_index(key: Seq<u8>, i: int)
    requires
        0 <= i <= key.len() / 2,
    ensures
        spec_key_values(key, i).len() == key.len() / 2 - i,
        forall|k: int|
            0 <= k < key.len() / 2 - i ==> #[trigger] spec_key_values(key, i)[k] == rl16(
                key,
                2 * (i + k),
            ),
    decreases key.len() / 2 - i,
{
    if i < key.len() / 2 {
        lemma_key_values_index(key, i + 1);
        let s = spec_key_values(key, i);
        let rest = spec_key_values(key, i + 1);
        assert forall|k: int|
            0 <= k < key.len() / 2 - i implies #[trigger] s[k] == rl16(key, 2 * (i + k)) by {
            if k > 0 {
                assert(s[k] == rest[k - 1]);
                assert(rest[k - 1] == rl16(key, 2 * (i + 1 + (k - 1))));
                assert(i + 1 + (k - 1) == i + k);
            }
        }
    }
}

/// How a parsed header relates to its block.
pub open spec fn spec_header_matches(h: CarHeader, d: Seq<u8>) -> bool {
    &&& h.ui_version == rl32(d, 4)
    &&& h.storage_version == rl32(d, 8)
    &&& h.storage_timestamp == rl32(d, 12)
    &&& h.rendition_count == rl32(d, 16)
    &&& h.uuid@ == d.subrange(404, 420)
    &&& h.associated_checksum == rl32(d, 420)
    &&& h.schema_version == rl32(d, 424)
    &&& h.color_space_id == rl32(d, 428)
    &&& h.key_semantics == rl32(d, 432)
    &&& h.file_creator@ == spec_utf8_lossy(d.subrange(20, spec_creator_end(d, 20, 148)))
    &&& h.other_creator@ == spec_utf8_lossy(d.subrange(148, spec_first_nul_capped(d, 148, 404)))
}

/// How a parsed facet relates to its tree entry.
pub open spec fn spec_facet_matches(f: Facet, key: Seq<u8>, value: Seq<u8>) -> bool {
    &&& f.attributes.attrs@ == spec_from_pairs(spec_facet_pairs(value, 0), 0)
    &&& f.name@ == spec_utf8_lossy(key.subrange(0, spec_first_nul(key, 0)))
}

/// How a parsed rendition relates to its tree entry and the key format.
pub open spec fn spec_rendition_matches(
    rd: Rendition,
    key: Seq<u8>,
    value: Seq<u8>,
    ids: Seq<u32>,
) -> bool {
    &&& rd.attributes.attrs@ == spec_from_key_format(ids, spec_key_values(key, 0), 0)
    &&& rd.width == rl32(value, 12)
    &&& rd.height == rl32(value, 16)
    &&& rd.scale_factor == rl32(value, 20)
    &&& rd.pixel_format@ == value.subrange(24, 28)
    &&& rd.layout == rl16(value, 36)
    &&& rd.data_length == rl32(value, 180)
    &&& rd.name@ == spec_utf8_lossy(value.subrange(40, spec_first_nul_capped(value, 40, 168)))
}

/// What every readable catalog satisfies: the BOM loads, `CARHEADER`
/// resolves to a valid header block of storage version at least 8, and
/// `KEYFORMAT` resolves to a valid key-format block.
pub open spec fn spec_car_admits(bytes: Seq<u8>) -> Option<(BomView, Seq<u8>, Seq<u8>)> {
    match spec_load(bytes) {
        Err(_) => None,
        Ok(v) => match spec_variable_get(v, ("CARHEADER")@) {
            None => None,
            Some(hi) => match spec_block(v, hi) {
                None => None,
                Some(hd) => if !spec_car_header_ok(hd) || rl32(hd, 8) < 8 {
                    None
                } else {
                    match spec_variable_get(v, ("KEYFORMAT")@) {
                        None => None,
                        Some(ki) => match spec_block(v, ki) {
                            None => None,
                            Some(kd) => if !spec_key_format_ok(kd) {
                                None
                            } else {
                                Some((v, hd, kd))
                            },
                        },
                    }
                },
            },
        },
    }
}

/// The entries of the tree a variable points at, or nothing where the
/// variable is missing or its tree does not read.
pub open spec fn spec_tree_or_empty(v: BomView, name: Seq<char>) -> Seq<(Seq<u8>, Seq<u8>)> {
    match spec_variable_get(v, name) {
        None => Seq::empty(),
        Some(ti) => match spec_tree_result(v, ti) {
            Ok(s) => s,
            Err(_) => Seq::empty(),
        },
    }
}

/// The rendition entries that parse: those whose value block carries the
/// `CTSI` magic and enough bytes.
pub open spec fn spec_rendition_list(entries: Seq<(Seq<u8>, Seq<u8>)>, i: int) -> Seq<
    (Seq<u8>, Seq<u8>),
>
    decreases entries.len() - i,
{
    if i < 0 || i >= entries.len() {
        Seq::empty()
    } else if spec_rendition_ok(entries[i].1) {
        seq![entries[i]] + spec_rendition_list(entries, i + 1)
    } else {
        spec_rendition_list(entries, i + 1)
    }
}

/// A parsed CAR archive.
#[derive(Debug)]
pub struct CarReader {
    pub header: CarHeader,
    pub key_format_identifiers: Vec<u32>,
    pub facets: Vec<Facet>,
    pub renditions: Vec<Rendition>,
    pub bom: Bom,
}

impl CarReader {
    /// The view of the underlying BOM archive.
    pub open spec fn bom_view(&self) -> BomView {
        self.bom@
    }

    /// Load a CAR archive: exactly when `spec_car_gate` admits the
    /// bytes, with the header, key format, facets and renditions it and
    /// the two trees describe.
    pub fn load(data: Vec<u8>) -> (r: Option<CarReader>)
        ensures
            r is Some <==> spec_car_admits(data@) is Some,
            r matches Some(c) ==> ({
                let (v, hd, kd) = spec_car_admits(data@).unwrap();
                let ids = spec_key_format_ids(kd, 0);
                let fes = spec_tree_or_empty(v, ("FACETKEYS")@);
                let res = spec_rendition_list(
                    spec_tree_or_empty(v, ("RENDITIONS")@),
                    0,
                );
                &&& c.bom_view() == v
                &&& c.bom_view().wf()
                &&& spec_header_matches(c.header, hd)
                &&& c.key_format_identifiers@ == ids
                &&& c.facets@.len() == fes.len()
                &&& forall|k: int|
                    0 <= k < fes.len() ==> spec_facet_matches(
                        #[trigger] c.facets@[k],
                        fes[k].0,
                        fes[k].1,
                    )
                &&& c.renditions@.len() == res.len()
                &&& forall|k: int|
                    0 <= k < res.len() ==> spec_rendition_matches(
                        #[trigger] c.renditions@[k],
                        res[k].0,
                        res[k].1,
                        ids,
                    )
            }),
    {
        let bom = match Bom::load(data) {
            Ok(b) => b,
            Err(_) => {
                return None;
            },
        };

        let header_index = match bom.variable_get("CARHEADER") {
            Some(i) => i,
            None => {
                return None;
            },
        };
        let header = match bom.index_get(header_index) {
            Some(header_data) => {
                match CarHeader::parse(header_data) {
                    Some(h) => h,
                    None => {
                        return None;
                    },
                }
            },
            None => {
                return None;
            },
        };
        if header.storage_version < 8 {
            return None;
        }

        let keyfmt_index = match bom.variable_get("KEYFORMAT") {
            Some(i) => i,
            None => {
                return None;
            },
        };
        let identifiers = match bom.index_get(keyfmt_index) {
            Some(keyfmt_data) => {
                match parse_key_format(keyfmt_data) {
                    Some(ids) => ids,
                    None => {
                        return None;
                    },
                }
            },
            None => {
                return None;
            },
        };

        let ghost v = bom@;
        let ghost fes = spec_tree_or_empty(v, ("FACETKEYS")@);
        let mut facets: Vec<Facet> = Vec::new();
        match bom.tree_entries("FACETKEYS") {
            Ok(entries) => {
                let mut k: usize = 0;
                while k < entries.len()
                    invariant
                        crate::bom::tree_entries_view(entries@) == fes,
                        k <= entries@.len(),
                        facets@.len() == k,
                        forall|j: int|
                            0 <= j < k ==> spec_facet_matches(
                                #[trigger] facets@[j],
                                fes[j].0,
                                fes[j].1,
                            ),
                    decreases entries@.len() - k,
                {
                    let key = &entries[k].key;
                    let mut name_end: usize = 0;
                    while name_end < key.len() && key[name_end] != 0
                        invariant
                            name_end <= key@.len(),
                            spec_first_nul(key@, 0) == spec_first_nul(key@, name_end as int),
                        decreases key@.len() - name_end,
                    {
                        name_end = name_end + 1;
                    }
                    proof {
                        assert(spec_first_nul(key@, name_end as int) == name_end);
                    }
                    let name = utf8_lossy(&key.as_slice()[0..name_end]);
                    let attrs = parse_facet_value(entries[k].value.as_slice());
                    facets.push(Facet { name, attributes: attrs });
                    proof {
                        assert(entries@[k as int].key@ == fes[k as int].0);
                        assert(entries@[k as int].value@ == fes[k as int].1);
                    }
                    k = k + 1;
                }
            },
            Err(_) => {},
        }

        let ghost rall = spec_tree_or_empty(v, ("RENDITIONS")@);
        let ghost res = spec_rendition_list(rall, 0);
        let mut renditions: Vec<Rendition> = Vec::new();
        match bom.tree_entries("RENDITIONS") {
            Ok(entries) => {
                let mut k: usize = 0;
                while k < entries.len()
                    invariant
                        crate::bom::tree_entries_view(entries@) == rall,
                        res == spec_rendition_list(rall, 0),
                        k <= entries@.len(),
                        renditions@.len() <= k,
                        renditions@.len() <= res.len(),
                        spec_rendition_list(rall, k as int) =~= res.skip(
                            renditions@.len() as int,
                        ),
                        forall|j: int|
                            0 <= j < renditions@.len() ==> spec_rendition_matches(
                                #[trigger] renditions@[j],
                                res[j].0,
                                res[j].1,
                                identifiers@,
                            ),
                    decreases entries@.len() - k,
                {
                    proof {
                        assert(entries@[k as int].key@ == rall[k as int].0);
                        assert(entries@[k as int].value@ == rall[k as int].1);
                    }
                    let ghost lo = renditions@.len() as int;
                    match Rendition::parse(
                        entries[k].key.as_slice(),
                        entries[k].value.as_slice(),
                        identifiers.as_slice(),
                    ) {
                        Some(rd) => {
                            proof {
                                assert(spec_rendition_ok(rall[k as int].1));
                                assert(spec_rendition_list(rall, k as int) == seq![
                                    rall[k as int],
                                ] + spec_rendition_list(rall, k as int + 1));
                                assert(res.skip(lo).len() > 0);
                                assert(res.skip(lo)[0] == res[lo]);
                                assert(spec_rendition_list(rall, k as int)[0] == rall[k as int]);
                                assert(res[lo] == rall[k as int]);
                                assert(res.skip(lo).drop_first() =~= res.skip(lo + 1));
                                assert(spec_rendition_matches(rd, res[lo].0, res[lo].1,
                                identifiers@));
                            }
                            renditions.push(rd);
                            proof {
                                assert(renditions@[lo] == rd);
                                assert(spec_rendition_list(rall, k as int + 1) =~= res.skip(
                                    renditions@.len() as int,
                                ));
                            }
                        },
                        None => {},
                    }
                    k = k + 1;
                }
                proof {
                    assert(spec_rendition_list(rall, entries@.len() as int) =~= Seq::<
                        (Seq<u8>, Seq<u8>),
                    >::empty());
                    assert(res.skip(renditions@.len() as int).len() == 0);
                }
            },
            Err(_) => {
                proof {
                    assert(res =~= Seq::<(Seq<u8>, Seq<u8>)>::empty());
                }
            },
        }

        Some(CarReader { header, key_format_identifiers: identifiers, facets, renditions, bom })
    }

    /// The renditions whose identifier attribute equals the facet's, in
    /// stored order; none where the facet has no identifier.
    pub fn lookup_renditions<'a>(&'a self, facet: &Facet) -> (r: Vec<&'a Rendition>)
        ensures
            !facet.attributes.attrs@.contains_key(ATTR_IDENTIFIER) ==> r@.len() == 0,
            facet.attributes.attrs@.contains_key(ATTR_IDENTIFIER) ==> r@.map_values(
                |x: &Rendition| *x,
            ) == spec_matching_rends(
                self.renditions@,
                facet.attributes.attrs@[ATTR_IDENTIFIER],
                0,
            ),
    {
        let facet_id = match facet.identifier() {
            Some(id) => id,
            None => {
                return Vec::new();
            },
        };

        let ghost goal = spec_matching_rends(self.renditions@, facet_id, 0);
        let mut result: Vec<&Rendition> = Vec::new();
        let mut i: usize = 0;
        while i < self.renditions.len()
            invariant
                goal == spec_matching_rends(self.renditions@, facet_id, 0),
                i <= self.renditions@.len(),
                result@.map_values(|x: &Rendition| *x) + spec_matching_rends(
                    self.renditions@,
                    facet_id,
                    i as int,
                ) =~= goal,
            decreases self.renditions@.len() - i,
        {
            let rd = &self.renditions[i];
            let keep = match rd.attributes.get(ATTR_IDENTIFIER) {
                Some(id) => id == facet_id,
                None => false,
            };
            if keep {
                let ghost before = result@;
                result.push(rd);
                proof {
                    assert(result@.map_values(|x: &Rendition| *x) =~= before.map_values(
                        |x: &Rendition| *x,
                    ) + seq![self.renditions@[i as int]]);
                }
            }
            i = i + 1;
        }
        proof {
            assert(spec_matching_rends(self.renditions@, facet_id, self.renditions@.len() as int)
                =~= Seq::<Rendition>::empty());
            assert(result@.map_values(|x: &Rendition| *x) + Seq::<Rendition>::empty()
                =~= result@.map_values(|x: &Rendition| *x));
        }
        result
    }

    /// Each variable of the underlying archive with the size of the
    /// block it points at (0 where the block is not addressable).
    pub fn variables(&self) -> (r: Vec<(String, usize)>)
        requires
            self.bom_view().wf(),
        ensures
            r@.len() == crate::bom::spec_variables(self.bom_view()).len(),
            forall|k: int|
                0 <= k < r@.len() ==> (#[trigger] r@[k]).1 == crate::bom::spec_block_or_empty(
                    self.bom_view(),
                    crate::bom::spec_variables(self.bom_view())[k].1,
                ).len(),
    {
        let vars = self.bom.variables();
        let mut result: Vec<(String, usize)> = Vec::new();
        let mut i: usize = 0;
        while i < vars.len()
            invariant
                self.bom_view().wf(),
                vars@.len() == crate::bom::spec_variables(self.bom_view()).len(),
                forall|k: int|
                    0 <= k < vars@.len() ==> (#[trigger] vars@[k]).index == crate::bom::spec_variables(
                        self.bom_view(),
                    )[k].1,
                i <= vars@.len(),
                result@.len() == i,
                forall|k: int|
                    0 <= k < i ==> (#[trigger] result@[k]).1 == crate::bom::spec_block_or_empty(
                        self.bom_view(),
                        crate::bom::spec_variables(self.bom_view())[k].1,
                    ).len(),
            decreases vars@.len() - i,
        {
            let size = match self.bom.index_get(vars[i].index) {
                Some(d) => d.len(),
                None => 0,
            };
            result.push((vars[i].name.clone(), size));
            i = i + 1;
        }
        result
    }
}

/// The renditions carrying a given identifier, in order.
pub open spec fn spec_matching_rends(rends: Seq<Rendition>, id: u16, i: int) -> Seq<Rendition>
    decreases rends.len() - i,
{
    if i < 0 || i >= rends.len() {
        Seq::empty()
    } else if rends[i].attributes.attrs@.contains_key(ATTR_IDENTIFIER)
        && rends[i].attributes.attrs@[ATTR_IDENTIFIER] == id {
        seq![rends[i]] + spec_matching_rends(rends, id, i + 1)
    } else {
        spec_matching_rends(rends, id, i + 1)
    }
}

} // verus!
