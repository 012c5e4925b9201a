//! Property-list format names, format detection from raw bytes, and
//! `PlistBuddy`-style key-path parsing.  The codecs themselves live with
//! the callers; only the pure classification logic is here.

use vstd::prelude::*;

use crate::strutil::{str_eq, string_from_chars, str_chars};

verus! {

/// A property-list serialization format.
#[derive(Debug, Clone, Copy, PartialEq, Eq, Structural)]
pub enum PlistFormat {
    Xml,
    Binary,
    Ascii,
    Json,
}

/// The canonical name of each format.
pub open spec fn spec_format_name(f: PlistFormat) -> Seq<char> {
    match f {
        PlistFormat::Xml => ("xml1")@,
        PlistFormat::Binary => ("binary1")@,
        PlistFormat::Ascii => ("openstep1")@,
        PlistFormat::Json => ("json")@,
    }
}

/// The format a name denotes; `ascii1` is an alias for `openstep1`.
pub open spec fn spec_parse_format(name: Seq<char>) -> Option<PlistFormat> {
    if name == ("xml1")@ {
        Some(PlistFormat::Xml)
    } else if name == ("binary1")@ {
        Some(PlistFormat::Binary)
    } else if name == ("openstep1")@ || name == ("ascii1")@ {
        Some(PlistFormat::Ascii)
    } else if name == ("json")@ {
        Some(PlistFormat::Json)
    } else {
        None
    }
}

impl PlistFormat {
    /// The canonical name of this format.
    pub fn name(&self) -> (r: &'static str)
        ensures
            r@ == spec_format_name(*self),
    {
        match self {
            PlistFormat::Xml => "xml1",
            PlistFormat::Binary => "binary1",
            PlistFormat::Ascii => "openstep1",
            PlistFormat::Json => "json",
        }
    }

    /// The format `name` denotes, if any.
    pub fn parse(name: &str) -> (r: Option<PlistFormat>)
        ensures
            r == spec_parse_format(name@),
    {
        if str_eq(name, "xml1") {
            Some(PlistFormat::Xml)
        } else if str_eq(name, "binary1") {
            Some(PlistFormat::Binary)
        } else if str_eq(name, "openstep1") || str_eq(name, "ascii1") {
            Some(PlistFormat::Ascii)
        } else if str_eq(name, "json") {
            Some(PlistFormat::Json)
        } else {
            None
        }
    }
}

/// An object type settable through a `PlistBuddy`-style command.
#[derive(Debug, Clone, Copy, PartialEq, Eq, Structural)]
pub enum ObjectType {
    String,
    Dictionary,
    Array,
    Boolean,
    Real,
    Integer,
    Date,
    Data,
}

/// The object type a name denotes.
pub open spec fn spec_parse_object_type(name: Seq<char>) -> Option<ObjectType> {
    if name == ("string")@ {
        Some(ObjectType::String)
    } else if name == ("dictionary")@ {
        Some(ObjectType::Dictionary)
    } else if name == ("array")@ {
        Some(ObjectType::Array)
    } else if name == ("bool")@ {
        Some(ObjectType::Boolean)
    } else if name == ("real")@ {
        Some(ObjectType::Real)
    } else if name == ("integer")@ {
        Some(ObjectType::Integer)
    } else if name == ("date")@ {
        Some(ObjectType::Date)
    } else if name == ("data")@ {
        Some(ObjectType::Data)
    } else {
        None
    }
}

impl ObjectType {
    /// The object type `name` denotes, if any.
    pub fn parse(name: &str) -> (r: Option<ObjectType>)
        ensures
            r == spec_parse_object_type(name@),
    {
        if str_eq(name, "string") {
            Some(ObjectType::String)
        } else if str_eq(name, "dictionary") {
            Some(ObjectType::Dictionary)
        } else if str_eq(name, "array") {
            Some(ObjectType::Array)
        } else if str_eq(name, "bool") {
            Some(ObjectType::Boolean)
        } else if str_eq(name, "real") {
            Some(ObjectType::Real)
        } else if str_eq(name, "integer") {
            Some(ObjectType::Integer)
        } else if str_eq(name, "date") {
            Some(ObjectType::Date)
        } else if str_eq(name, "data") {
            Some(ObjectType::Data)
        } else {
            None
        }
    }
}

/// An ASCII whitespace byte.
pub open spec fn spec_is_ws_byte(b: u8) -> bool {
    b == 0x20 || b == 0x09 || b == 0x0a || b == 0x0c || b == 0x0d
}

/// Where the content starts: past an optional UTF-8 byte-order mark and
/// any ASCII whitespace.
pub open spec fn spec_content_start(d: Seq<u8>, i: int) -> int
    decreases d.len() - i,
{
    if i < 0 || i >= d.len() {
        d.len() as int
    } else if spec_is_ws_byte(d[i]) {
        spec_content_start(d, i + 1)
    } else {
        i
    }
}

/// Past the byte-order mark, if one leads the buffer.
pub open spec fn spec_after_bom(d: Seq<u8>) -> int {
    if d.len() >= 3 && d[0] == 0xef && d[1] == 0xbb && d[2] == 0xbf {
        3
    } else {
        0
    }
}

/// The format the leading bytes announce: `bplist00` is binary, markup is
/// XML, `{`/`[` is JSON, a quote, letter, digit or `(` is the old ASCII
/// form, and anything else is unrecognized.
pub open spec fn spec_identify_format(d: Seq<u8>) -> Option<PlistFormat> {
    if d.len() >= 8 && d.subrange(0, 8) == ("bplist00")@.map(|i: int, c: char| c as u8) {
        Some(PlistFormat::Binary)
    } else {
        let s = spec_content_start(d, spec_after_bom(d));
        let rest = d.skip(s);
        if starts_with(rest, xml_decl_bytes()) || starts_with(rest, plist_tag_bytes())
            || starts_with(rest, doctype_bytes()) {
            Some(PlistFormat::Xml)
        } else if rest.len() > 0 && (rest[0] == 0x7b || rest[0] == 0x5b) {
            Some(PlistFormat::Json)
        } else if rest.len() > 0 && (rest[0] == 0x22 || is_ascii_alnum_byte(rest[0]) || rest[0]
            == 0x28) {
            Some(PlistFormat::Ascii)
        } else {
            None
        }
    }
}

/// Whether `d` begins with `prefix`.
pub open spec fn starts_with(d: Seq<u8>, prefix: Seq<u8>) -> bool {
    d.len() >= prefix.len() && d.subrange(0, prefix.len() as int) == prefix
}

/// The bytes of `<?xml`.
pub open spec fn xml_decl_bytes() -> Seq<u8> {
    seq![0x3cu8, 0x3fu8, 0x78u8, 0x6du8, 0x6cu8]
}

/// The bytes of `<plist`.
pub open spec fn plist_tag_bytes() -> Seq<u8> {
    seq![0x3cu8, 0x70u8, 0x6cu8, 0x69u8, 0x73u8, 0x74u8]
}

/// The bytes of `<!DOCTYPE`.
pub open spec fn doctype_bytes() -> Seq<u8> {
    seq![0x3cu8, 0x21u8, 0x44u8, 0x4fu8, 0x43u8, 0x54u8, 0x59u8, 0x50u8, 0x45u8]
}

/// An ASCII letter or digit.
pub open spec fn is_ascii_alnum_byte(b: u8) -> bool {
    (0x30 <= b <= 0x39) || (0x41 <= b <= 0x5a) || (0x61 <= b <= 0x7a)
}

/// Whether the bytes from `start` begin with the given prefix.
fn slice_starts_with(data: &[u8], start: usize, prefix: &[u8]) -> (r: bool)
    requires
        start <= data@.len(),
    ensures
        r == starts_with(data@.skip(start as int), prefix@),
{
    if data.len() - start < prefix.len() {
        return false;
    }
    let mut i: usize = 0;
    while i < prefix.len()
        invariant
            start + prefix@.len() <= data@.len(),
            data@.len() <= usize::MAX,
            i <= prefix@.len(),
            forall|k: int| 0 <= k < i ==> data@[start + k] == prefix@[k],
        decreases prefix@.len() - i,
    {
        if data[start + i] != prefix[i] {
            proof {
                assert(data@.skip(start as int)[i as int] == data@[start + i]);
                assert(!(data@.skip(start as int).subrange(0, prefix@.len() as int) == prefix@))
                    by {
                    if data@.skip(start as int).subrange(0, prefix@.len() as int) == prefix@ {
                        assert(data@.skip(start as int).subrange(0, prefix@.len() as int)[i as int]
                            == prefix@[i as int]);
                    }
                }
            }
            return false;
        }
        i = i + 1;
    }
    proof {
        assert(data@.skip(start as int).subrange(0, prefix@.len() as int) =~= prefix@);
    }
    true
}

/// Detect the serialization format of a property list from its bytes.
pub fn identify_format(data: &[u8]) -> (r: Option<PlistFormat>)
    ensures
        r == spec_identify_format(data@),
{
    if data.len() >= 8 && data[0] == 0x62 && data[1] == 0x70 && data[2] == 0x6c && data[3] == 0x69
        && data[4] == 0x73 && data[5] == 0x74 && data[6] == 0x30 && data[7] == 0x30 {
        proof {
            reveal_strlit("bplist00");
            assert(data@.subrange(0, 8) =~= ("bplist00")@.map(|i: int, c: char| c as u8));
        }
        return Some(PlistFormat::Binary);
    }
    proof {
        reveal_strlit("bplist00");
        if data@.len() >= 8 && data@.subrange(0, 8) == ("bplist00")@.map(
            |i: int, c: char| c as u8,
        ) {
            assert(data@[0] == data@.subrange(0, 8)[0]);
            assert(data@[1] == data@.subrange(0, 8)[1]);
            assert(data@[2] == data@.subrange(0, 8)[2]);
            assert(data@[3] == data@.subrange(0, 8)[3]);
            assert(data@[4] == data@.subrange(0, 8)[4]);
            assert(data@[5] == data@.subrange(0, 8)[5]);
            assert(data@[6] == data@.subrange(0, 8)[6]);
            assert(data@[7] == data@.subrange(0, 8)[7]);
        }
    }

    let mut start: usize = if data.len() >= 3 && data[0] == 0xef && data[1] == 0xbb && data[2]
        == 0xbf {
        3
    } else {
        0
    };
    proof {
        assert(start == spec_after_bom(data@));
    }
    let ghost from = start as int;
    while start < data.len() && (data[start] == 0x20 || data[start] == 0x09 || data[start] == 0x0a
        || data[start] == 0x0c || data[start] == 0x0d)
        invariant
            0 <= from <= start <= data@.len(),
            spec_content_start(data@, from) == spec_content_start(data@, start as int),
        decreases data@.len() - start,
    {
        start = start + 1;
    }
    proof {
        assert(spec_content_start(data@, start as int) == start);
    }

    if slice_starts_with(data, start, &[0x3c, 0x3f, 0x78, 0x6d, 0x6c]) || slice_starts_with(
        data,
        start,
        &[0x3c, 0x70, 0x6c, 0x69, 0x73, 0x74],
    ) || slice_starts_with(data, start, &[0x3c, 0x21, 0x44, 0x4f, 0x43, 0x54, 0x59, 0x50, 0x45]) {
        proof {
            assert(xml_decl_bytes() =~= seq![0x3cu8, 0x3fu8, 0x78u8, 0x6du8, 0x6cu8]);
            assert(plist_tag_bytes() =~= seq![0x3cu8, 0x70u8, 0x6cu8, 0x69u8, 0x73u8, 0x74u8]);
            assert(doctype_bytes() =~= seq![
                0x3cu8,
                0x21u8,
                0x44u8,
                0x4fu8,
                0x43u8,
                0x54u8,
                0x59u8,
                0x50u8,
                0x45u8,
            ]);
        }
        return Some(PlistFormat::Xml);
    }
    proof {
        assert(xml_decl_bytes() =~= seq![0x3cu8, 0x3fu8, 0x78u8, 0x6du8, 0x6cu8]);
        assert(plist_tag_bytes() =~= seq![0x3cu8, 0x70u8, 0x6cu8, 0x69u8, 0x73u8, 0x74u8]);
        assert(doctype_bytes() =~= seq![
            0x3cu8,
            0x21u8,
            0x44u8,
            0x4fu8,
            0x43u8,
            0x54u8,
            0x59u8,
            0x50u8,
            0x45u8,
        ]);
    }

    if start < data.len() && (data[start] == 0x7b || data[start] == 0x5b) {
        proof {
            assert(data@.skip(start as int)[0] == data@[start as int]);
        }
        return Some(PlistFormat::Json);
    }

    if start < data.len() {
        let first = data[start];
        proof {
            assert(data@.skip(start as int)[0] == data@[start as int]);
        }
        if first == 0x22 || (0x30 <= first && first <= 0x39) || (0x41 <= first && first <= 0x5a)
            || (0x61 <= first && first <= 0x7a) || first == 0x28 {
            return Some(PlistFormat::Ascii);
        }
    }

    None
}

/// Where `:` next occurs in `s` at or after `from`, or the length.
pub open spec fn spec_find_colon(s: Seq<char>, from: int) -> int
    decreases s.len() - from,
{
    if from < 0 || from >= s.len() {
        s.len() as int
    } else if s[from] == ':' {
        from
    } else {
        spec_find_colon(s, from + 1)
    }
}

/// The key path components from position `prev` on: pieces between
/// colons, except that a leading empty piece (a path starting with `:`)
/// is dropped, and a trailing colon adds nothing.
pub open spec fn spec_key_path(s: Seq<char>, prev: int) -> Seq<Seq<char>>
    decreases s.len() - prev,
{
    if prev < 0 || prev > s.len() {
        Seq::empty()
    } else {
        let found = spec_find_colon(s, prev);
        let pos = if found < prev {
            prev
        } else {
            found
        };
        if pos >= s.len() {
            if prev < s.len() {
                seq![s.subrange(prev, s.len() as int)]
            } else {
                Seq::empty()
            }
        } else {
            if prev == 0 && pos == 0 {
                spec_key_path(s, pos + 1)
            } else {
                seq![s.subrange(prev, pos)] + spec_key_path(s, pos + 1)
            }
        }
    }
}

/// Parse a `PlistBuddy`-style key path (`:key:subkey:0` syntax) into its
/// components.
pub fn parse_key_path(path: &str) -> (r: Vec<String>)
    ensures
        r@.len() == spec_key_path(path@, 0).len(),
        forall|i: int|
            0 <= i < r@.len() ==> (#[trigger] r@[i])@ == spec_key_path(path@, 0)[i],
{
    let chars = str_chars(path);
    let ghost full = spec_key_path(path@, 0);
    let mut keys: Vec<String> = Vec::new();
    let mut prev: usize = 0;

    loop
        invariant_except_break
            chars@ == path@,
            0 <= prev <= chars@.len(),
            full == spec_key_path(path@, 0),
            full =~= key_path_views(keys@) + spec_key_path(path@, prev as int),
        invariant
            chars@ == path@,
            full == spec_key_path(path@, 0),
        ensures
            full =~= key_path_views(keys@),
        decreases chars@.len() - prev,
    {
        let mut pos: usize = prev;
        while pos < chars.len() && chars[pos] != ':'
            invariant
                chars@ == path@,
                prev <= pos <= chars@.len(),
                spec_find_colon(path@, prev as int) == spec_find_colon(path@, pos as int),
            decreases chars@.len() - pos,
        {
            pos = pos + 1;
        }
        proof {
            assert(spec_find_colon(path@, pos as int) == pos);
        }

        if pos >= chars.len() {
            if prev < chars.len() {
                let piece = string_from_chars(&chars.as_slice()[prev..chars.len()]);
                let ghost old_keys = keys@;
                keys.push(piece);
                proof {
                    assert(key_path_views(keys@) =~= key_path_views(old_keys) + seq![
                        path@.subrange(prev as int, path@.len() as int),
                    ]);
                    assert(spec_key_path(path@, prev as int) =~= seq![
                        path@.subrange(prev as int, path@.len() as int),
                    ]);
                }
            } else {
                proof {
                    assert(spec_key_path(path@, prev as int) =~= Seq::<Seq<char>>::empty());
                }
            }
            proof {
                assert(key_path_views(keys@) + Seq::<Seq<char>>::empty() =~= key_path_views(
                    keys@,
                ));
            }
            break ;
        }

        if !(prev == 0 && pos == 0) {
            let piece = string_from_chars(&chars.as_slice()[prev..pos]);
            let ghost old_keys = keys@;
            keys.push(piece);
            proof {
                assert(key_path_views(keys@) =~= key_path_views(old_keys) + seq![
                    path@.subrange(prev as int, pos as int),
                ]);
                assert(spec_key_path(path@, prev as int) =~= seq![
                    path@.subrange(prev as int, pos as int),
                ] + spec_key_path(path@, pos as int + 1));
            }
        }
        prev = pos + 1;
    }

    proof {
        assert(full.len() == keys@.len());
        assert forall|i: int| 0 <= i < keys@.len() implies (#[trigger] keys@[i])@ == full[i] by {
            assert(key_path_views(keys@)[i] == keys@[i]@);
        }
    }
    keys
}

/// The character sequences of a list of strings.
pub open spec fn key_path_views(keys: Seq<String>) -> Seq<Seq<char>> {
    keys.map(|i: int, s: String| s@)
}

} // verus!
