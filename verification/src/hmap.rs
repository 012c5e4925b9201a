//! The HMAP (header map) file format: a hash table from header names to
//! prefix/suffix string pairs, stored as a bucket array over a string
//! pool.  Keys compare case-insensitively.

use vstd::prelude::*;

use vstd::utf8::{decode_utf8, valid_utf8};

use crate::bytes::{
    be16, be32, push_u16_be, push_u32_be, r16, r32, read_u16_be, read_u32_be, rl16, rl32,
    read_u16_le, read_u32_le,
};
use crate::paths::spec_first_nul;
use vstd::string::StringSliceAdditionalSpecFns;

use crate::strutil::{bytes_eq, utf8_checked};

verus! {

/// The failure modes of reading a header map.
#[derive(Debug, Clone, PartialEq, Eq)]
pub enum HMapError {
    /// The buffer is shorter than the fixed 24-byte header.
    FileTooSmall,
    /// The first four bytes are neither `hmap` nor its byte swap.
    InvalidMagic,
    /// The version field is not 1; holds the value found.
    InvalidVersion(u16),
    /// The reserved field is not zero.
    NonZeroReserved,
    /// The string pool offset lies past the end; holds it and the size.
    StringsOffsetOutOfBounds(u32, usize),
    /// The bucket array overruns the buffer.
    BucketsOutOfBounds,
    /// A string offset lies outside the pool; holds the offset.
    StringOutOfBounds(u32),
}

/// The `hmap` magic, read big-endian.
pub const HMAP_MAGIC: u32 = 0x686d6170;

/// The `hmap` magic as a byte-swapped file stores it.
pub const HMAP_MAGIC_SWAPPED: u32 = 0x70616d68;

/// The mathematical content of a header map.
pub ghost struct HeaderMapView {
    pub num_entries: u32,
    pub num_buckets: u32,
    pub max_value_length: u32,
    pub buckets: Seq<(u32, u32, u32)>,
    pub strings: Seq<u8>,
    pub keys: Seq<Seq<u8>>,
    pub modified: bool,
}

impl HeaderMapView {
    /// What every operation keeps: one bucket record per bucket count,
    /// at least one bucket, counts within range, and a pool whose
    /// offsets fit the stored `u32`s.
    pub open spec fn wf(self) -> bool {
        self.buckets.len() == self.num_buckets
    }
}

/// The ASCII-lowercase counterpart of a byte.
pub open spec fn spec_lower_byte(b: u8) -> u8 {
    if 0x41 <= b <= 0x5a {
        (b + 0x20) as u8
    } else {
        b
    }
}

/// A byte string lowercased, which is how keys are canonicalized.
pub open spec fn spec_lower_bytes(s: Seq<u8>) -> Seq<u8> {
    s.map(|i: int, b: u8| spec_lower_byte(b))
}

/// The sum the key hash accumulates: each byte lowercased and weighted.
pub open spec fn spec_hash_sum(s: Seq<u8>, i: int) -> int
    decreases s.len() - i,
{
    if i < 0 || i >= s.len() {
        0
    } else {
        spec_lower_byte(s[i]) * 13 + spec_hash_sum(s, i + 1)
    }
}

/// The header-map hash of a key's bytes: the weighted sum of its
/// lowercased bytes, wrapped to 32 bits.  Case-insensitive by
/// construction.
pub open spec fn spec_hash_key(s: Seq<u8>) -> u32 {
    (spec_hash_sum(s, 0) % 0x1_0000_0000) as u32
}

/// The NUL-terminated, UTF-8-valid string at `off` in the pool, if any.
pub open spec fn spec_get_string(strings: Seq<u8>, off: u32) -> Option<Seq<u8>> {
    if off >= strings.len() {
        None
    } else {
        let nul = spec_first_nul(strings, off as int);
        if nul >= strings.len() {
            None
        } else {
            let s = strings.subrange(off as int, nul);
            if valid_utf8(s) {
                Some(s)
            } else {
                None
            }
        }
    }
}

/// The canonical keys a bucket array holds: for each non-empty bucket
/// whose three offsets lie in the pool and whose key resolves, the key's
/// bytes lowercased.
pub open spec fn spec_scan_keys(buckets: Seq<(u32, u32, u32)>, strings: Seq<u8>, i: int) -> Seq<
    Seq<u8>,
>
    decreases buckets.len() - i,
{
    if i < 0 || i >= buckets.len() {
        Seq::empty()
    } else {
        let b = buckets[i];
        let rest = spec_scan_keys(buckets, strings, i + 1);
        if b.0 != 0 && b.0 < strings.len() && b.1 < strings.len() && b.2 < strings.len()
            && spec_get_string(strings, b.0) is Some {
            seq![spec_lower_bytes(spec_get_string(strings, b.0).unwrap())] + rest
        } else {
            rest
        }
    }
}

/// The resolvable entries of a bucket array: key, prefix and suffix
/// bytes of every non-empty bucket whose three strings resolve.
pub open spec fn spec_scan_entries(buckets: Seq<(u32, u32, u32)>, strings: Seq<u8>, i: int) -> Seq<
    (Seq<u8>, Seq<u8>, Seq<u8>),
>
    decreases buckets.len() - i,
{
    if i < 0 || i >= buckets.len() {
        Seq::empty()
    } else {
        let b = buckets[i];
        let rest = spec_scan_entries(buckets, strings, i + 1);
        if b.0 != 0 && spec_get_string(strings, b.0) is Some && spec_get_string(strings, b.1)
            is Some && spec_get_string(strings, b.2) is Some {
            seq![
                (
                    spec_get_string(strings, b.0).unwrap(),
                    spec_get_string(strings, b.1).unwrap(),
                    spec_get_string(strings, b.2).unwrap(),
                ),
            ] + rest
        } else {
            rest
        }
    }
}

/// A `u32` of the file, honoring its byte order.
pub open spec fn spec_rd32(bytes: Seq<u8>, off: int, swapped: bool) -> u32 {
    if swapped {
        rl32(bytes, off)
    } else {
        r32(bytes, off)
    }
}

/// A `u16` of the file, honoring its byte order.
pub open spec fn spec_rd16(bytes: Seq<u8>, off: int, swapped: bool) -> u16 {
    if swapped {
        rl16(bytes, off)
    } else {
        r16(bytes, off)
    }
}

/// The bucket records parsed from the bucket array.
pub open spec fn spec_read_buckets(bytes: Seq<u8>, swapped: bool, i: int, n: int) -> Seq<
    (u32, u32, u32),
>
    decreases n - i,
{
    if i < 0 || i >= n {
        Seq::empty()
    } else {
        seq![
            (
                spec_rd32(bytes, 24 + 12 * i, swapped),
                spec_rd32(bytes, 24 + 12 * i + 4, swapped),
                spec_rd32(bytes, 24 + 12 * i + 8, swapped),
            ),
        ] + spec_read_buckets(bytes, swapped, i + 1, n)
    }
}

/// What `HeaderMap::read` finds: the header checks in order, then the
/// counts, buckets and string pool.
pub open spec fn spec_hmap_read(bytes: Seq<u8>) -> Result<
    (u32, u32, u32, Seq<(u32, u32, u32)>, Seq<u8>),
    HMapError,
> {
    if bytes.len() < 24 {
        Err(HMapError::FileTooSmall)
    } else {
        let magic = r32(bytes, 0);
        let swapped = magic == HMAP_MAGIC_SWAPPED;
        if magic != HMAP_MAGIC && !swapped {
            Err(HMapError::InvalidMagic)
        } else {
            let version = spec_rd16(bytes, 4, swapped);
            let reserved = spec_rd16(bytes, 6, swapped);
            let strings_offset = spec_rd32(bytes, 8, swapped);
            let num_entries = spec_rd32(bytes, 12, swapped);
            let num_buckets = spec_rd32(bytes, 16, swapped);
            let max_value_length = spec_rd32(bytes, 20, swapped);
            if version != 1 {
                Err(HMapError::InvalidVersion(version))
            } else if reserved != 0 {
                Err(HMapError::NonZeroReserved)
            } else if strings_offset > bytes.len() {
                Err(HMapError::StringsOffsetOutOfBounds(strings_offset, bytes.len() as usize))
            } else if 24 + 12 * (num_buckets as int) > bytes.len() {
                Err(HMapError::BucketsOutOfBounds)
            } else {
                Ok(
                    (
                        num_entries,
                        num_buckets,
                        max_value_length,
                        spec_read_buckets(bytes, swapped, 0, num_buckets as int),
                        bytes.skip(strings_offset as int),
                    ),
                )
            }
        }
    }
}

/// The serialized form of a header map, written big-endian: the header,
/// the bucket array, the string pool.
pub open spec fn spec_bucket_bytes(buckets: Seq<(u32, u32, u32)>, i: int) -> Seq<u8>
    decreases buckets.len() - i,
{
    if i < 0 || i >= buckets.len() {
        Seq::empty()
    } else {
        be32(buckets[i].0) + be32(buckets[i].1) + be32(buckets[i].2) + spec_bucket_bytes(
            buckets,
            i + 1,
        )
    }
}

/// A byte string with no NUL: the pool stores such strings unmangled.
pub open spec fn spec_nul_free(b: Seq<u8>) -> bool {
    forall|i: int| 0 <= i < b.len() ==> b[i] != 0
}

/// Where the first NUL sits, once one is known to sit at `k`.
pub proof fn lemma_first_nul_found(s: Seq<u8>, from: int, k: int)
    requires
        0 <= from <= k < s.len(),
        forall|i: int| from <= i < k ==> s[i] != 0,
        s[k] == 0,
    ensures
        spec_first_nul(s, from) == k,
    decreases k - from,
{
    if from < k {
        lemma_first_nul_found(s, from + 1, k);
    }
}

/// The first NUL never sits before the scan's start.
pub proof fn lemma_first_nul_ge(s: Seq<u8>, from: int)
    requires
        0 <= from <= s.len(),
    ensures
        spec_first_nul(s, from) >= from,
    decreases s.len() - from,
{
    if from < s.len() && s[from] != 0 {
        lemma_first_nul_ge(s, from + 1);
    }
}

/// Appending to the pool moves no NUL that was already found.
pub proof fn lemma_first_nul_append(s: Seq<u8>, ext: Seq<u8>, from: int)
    requires
        0 <= from,
        spec_first_nul(s, from) < s.len(),
    ensures
        spec_first_nul(s + ext, from) == spec_first_nul(s, from),
    decreases s.len() - from,
{
    assert(from < s.len());
    assert((s + ext)[from] == s[from]);
    if s[from] != 0 {
        lemma_first_nul_append(s, ext, from + 1);
    }
}

/// Appending to the pool resolves every already-resolvable offset to the
/// same string.
pub proof fn lemma_get_string_append(s: Seq<u8>, ext: Seq<u8>, off: u32)
    requires
        spec_get_string(s, off) is Some,
    ensures
        spec_get_string(s + ext, off) == spec_get_string(s, off),
{
    let nul = spec_first_nul(s, off as int);
    lemma_first_nul_ge(s, off as int);
    lemma_first_nul_append(s, ext, off as int);
    assert((s + ext).subrange(off as int, nul) =~= s.subrange(off as int, nul));
}

/// An in-memory header map.
#[derive(Debug, Clone)]
pub struct HeaderMap {
    num_entries: u32,
    num_buckets: u32,
    max_value_length: u32,
    buckets: Vec<(u32, u32, u32)>,
    strings: Vec<u8>,
    keys: Vec<Vec<u8>>,
    offsets: Vec<(Vec<u8>, u32)>,
    modified: bool,
}

/// One resolvable bucket of a header map: key, include prefix, and
/// suffix.
#[derive(Debug, Clone)]
pub struct HMapEntry {
    pub key: String,
    pub prefix: String,
    pub suffix: String,
}

impl View for HeaderMap {
    type V = HeaderMapView;

    closed spec fn view(&self) -> HeaderMapView {
        HeaderMapView {
            num_entries: self.num_entries,
            num_buckets: self.num_buckets,
            max_value_length: self.max_value_length,
            buckets: self.buckets@,
            strings: self.strings@,
            keys: self.keys@.map(|i: int, k: Vec<u8>| k@),
            modified: self.modified,
        }
    }
}

impl HeaderMap {
    /// What the string-pool cache promises: every cached NUL-free string
    /// resolves at its cached offset.  Constructors establish it and
    /// every operation keeps it.
    pub closed spec fn cache_ok(&self) -> bool {
        forall|k: int|
            0 <= k < self.offsets@.len() ==> (spec_nul_free((#[trigger] self.offsets@[k]).0@)
                && vstd::utf8::valid_utf8(self.offsets@[k].0@) ==> spec_get_string(
                self.strings@,
                self.offsets@[k].1,
            ) == Some(self.offsets@[k].0@))
    }
}

/// Whether a canonical key is already recorded.
pub open spec fn spec_keys_contain(keys: Seq<Seq<u8>>, k: Seq<u8>) -> bool {
    exists|i: int| 0 <= i < keys.len() && keys[i] == k
}

/// The header-map hash of a key, as stored: a weighted sum of the key's
/// lowercased bytes.  Keys differing only in ASCII case hash alike.
pub fn hash_hmap_key(s: &str) -> (r: u32)
    ensures
        r == spec_hash_key(s.spec_bytes()),
{
    let bytes: &[u8] = s.as_bytes();
    let mut result: u32 = 0;
    let mut i: usize = 0;
    while i < bytes.len()
        invariant
            i <= bytes@.len(),
            (result + spec_hash_sum(bytes@, i as int)) % 0x1_0000_0000 == spec_hash_sum(bytes@, 0)
                % 0x1_0000_0000,
        decreases bytes@.len() - i,
    {
        let b = bytes[i];
        let lower: u8 = if 0x41 <= b && b <= 0x5a {
            b + 0x20
        } else {
            b
        };
        let ghost old_result = result;
        result = (((result as u64) + (lower as u64) * 13) % 0x1_0000_0000) as u32;
        proof {
            assert(spec_hash_sum(bytes@, i as int) == spec_lower_byte(bytes@[i as int]) * 13
                + spec_hash_sum(bytes@, i as int + 1));
            assert((result + spec_hash_sum(bytes@, i as int + 1)) % 0x1_0000_0000 == (old_result
                + spec_hash_sum(bytes@, i as int)) % 0x1_0000_0000) by {
                vstd::arithmetic::div_mod::lemma_add_mod_noop(
                    old_result as int + spec_lower_byte(bytes@[i as int]) * 13,
                    spec_hash_sum(bytes@, i as int + 1),
                    0x1_0000_0000,
                );
                vstd::arithmetic::div_mod::lemma_add_mod_noop(
                    result as int,
                    spec_hash_sum(bytes@, i as int + 1),
                    0x1_0000_0000,
                );
                assert(result == (old_result + spec_lower_byte(bytes@[i as int]) * 13)
                    % 0x1_0000_0000);
            }
        }
        i = i + 1;
    }
    proof {
        assert(spec_hash_sum(bytes@, bytes@.len() as int) == 0);
        vstd::arithmetic::div_mod::lemma_small_mod(result as nat, 0x1_0000_0000);
    }
    result
}

/// The canonical (lowercased) bytes of a key.
fn canonical_key_bytes(s: &[u8]) -> (r: Vec<u8>)
    ensures
        r@ == spec_lower_bytes(s@),
{
    let mut out: Vec<u8> = Vec::new();
    let mut i: usize = 0;
    while i < s.len()
        invariant
            i <= s@.len(),
            out@.len() == i,
            forall|k: int| 0 <= k < i ==> out@[k] == spec_lower_byte(s@[k]),
        decreases s@.len() - i,
    {
        let b = s[i];
        if 0x41 <= b && b <= 0x5a {
            out.push(b + 0x20);
        } else {
            out.push(b);
        }
        i = i + 1;
    }
    proof {
        assert(out@ =~= spec_lower_bytes(s@));
    }
    out
}

/// The NUL-terminated string at `off` of the pool, decoded, where it
/// exists and is valid UTF-8.
fn get_string(strings: &Vec<u8>, off: u32) -> (r: Option<String>)
    ensures
        match spec_get_string(strings@, off) {
            None => r is None,
            Some(b) => (r matches Some(s) && s@ == decode_utf8(b)),
        },
{
    if off as u64 >= strings.len() as u64 {
        return None;
    }
    let start = off as usize;
    let mut end: usize = start;
    while end < strings.len() && strings[end] != 0
        invariant
            start <= end <= strings@.len(),
            spec_first_nul(strings@, start as int) == spec_first_nul(strings@, end as int),
        decreases strings@.len() - end,
    {
        end = end + 1;
    }
    proof {
        assert(spec_first_nul(strings@, end as int) == end);
    }
    if end >= strings.len() {
        return None;
    }
    utf8_checked(&strings.as_slice()[start..end])
}

impl HeaderMap {
    /// An empty header map with eight empty buckets.
    pub fn new() -> (r: HeaderMap)
        ensures
            r@.wf(),
            r@.num_entries == 0,
            r@.num_buckets == 8,
            r@.max_value_length == 0,
            r@.buckets =~= Seq::new(8nat, |i: int| (0u32, 0u32, 0u32)),
            r@.strings =~= Seq::<u8>::empty(),
            r@.keys =~= Seq::<Seq<u8>>::empty(),
            r@.modified == false,
            r.cache_ok(),
    {
        let mut buckets: Vec<(u32, u32, u32)> = Vec::new();
        let mut i: usize = 0;
        while i < 8
            invariant
                i <= 8,
                buckets@.len() == i,
                forall|k: int| 0 <= k < i ==> buckets@[k] == (0u32, 0u32, 0u32),
            decreases 8 - i,
        {
            buckets.push((0, 0, 0));
            i = i + 1;
        }
        let r = HeaderMap {
            num_entries: 0,
            num_buckets: 8,
            max_value_length: 0,
            buckets,
            strings: Vec::new(),
            keys: Vec::new(),
            offsets: Vec::new(),
            modified: false,
        };
        proof {
            assert(r@.buckets =~= Seq::new(8nat, |i: int| (0u32, 0u32, 0u32)));
            assert(r@.keys =~= Seq::<Seq<u8>>::empty());
        }
        r
    }

    /// Parse a header map, honoring either byte order: exactly what
    /// `spec_hmap_read` says, with the canonical keys of every
    /// resolvable bucket recorded.
    pub fn read(data: &[u8]) -> (r: Result<HeaderMap, HMapError>)
        ensures
            match spec_hmap_read(data@) {
                Ok((ne, nb, mvl, bks, strs)) => (r matches Ok(h) && {
                    &&& h@.wf()
                    &&& h@.num_entries == ne
                    &&& h@.num_buckets == nb
                    &&& h@.max_value_length == mvl
                    &&& h@.buckets == bks
                    &&& h@.strings == strs
                    &&& h@.keys == spec_scan_keys(bks, strs, 0)
                    &&& h@.modified == false
                    &&& h.cache_ok()
                }),
                Err(e) => (r matches Err(e2) && e2 == e),
            },
    {
        if data.len() < 24 {
            return Err(HMapError::FileTooSmall);
        }
        let magic = read_u32_be(data, 0);
        let swapped = magic == 0x70616d68;
        if magic != 0x686d6170 && !swapped {
            return Err(HMapError::InvalidMagic);
        }

        let version = if swapped {
            read_u16_le(data, 4)
        } else {
            read_u16_be(data, 4)
        };
        let reserved = if swapped {
            read_u16_le(data, 6)
        } else {
            read_u16_be(data, 6)
        };
        let strings_offset = if swapped {
            read_u32_le(data, 8)
        } else {
            read_u32_be(data, 8)
        };
        let num_entries = if swapped {
            read_u32_le(data, 12)
        } else {
            read_u32_be(data, 12)
        };
        let num_buckets = if swapped {
            read_u32_le(data, 16)
        } else {
            read_u32_be(data, 16)
        };
        let max_value_length = if swapped {
            read_u32_le(data, 20)
        } else {
            read_u32_be(data, 20)
        };

        if version != 1 {
            return Err(HMapError::InvalidVersion(version));
        }
        if reserved != 0 {
            return Err(HMapError::NonZeroReserved);
        }
        if strings_offset as u64 > data.len() as u64 {
            return Err(HMapError::StringsOffsetOutOfBounds(strings_offset, data.len()));
        }
        if 24u64 + 12u64 * (num_buckets as u64) > data.len() as u64 {
            return Err(HMapError::BucketsOutOfBounds);
        }

        let mut buckets: Vec<(u32, u32, u32)> = Vec::new();
        let ghost bks = spec_read_buckets(data@, swapped, 0, num_buckets as int);
        let mut i: usize = 0;
        while i < num_buckets as usize
            invariant
                24 + 12 * (num_buckets as int) <= data@.len(),
                data@.len() <= usize::MAX,
                i <= num_buckets,
                bks == spec_read_buckets(data@, swapped, 0, num_buckets as int),
                buckets@.len() == i,
                forall|k: int|
                    0 <= k < i ==> buckets@[k] == (
                        spec_rd32(data@, 24 + 12 * k, swapped),
                        spec_rd32(data@, 24 + 12 * k + 4, swapped),
                        spec_rd32(data@, 24 + 12 * k + 8, swapped),
                    ),
            decreases num_buckets - i,
        {
            let base = 24 + 12 * i;
            let k0 = if swapped {
                read_u32_le(data, base)
            } else {
                read_u32_be(data, base)
            };
            let k1 = if swapped {
                read_u32_le(data, base + 4)
            } else {
                read_u32_be(data, base + 4)
            };
            let k2 = if swapped {
                read_u32_le(data, base + 8)
            } else {
                read_u32_be(data, base + 8)
            };
            buckets.push((k0, k1, k2));
            i = i + 1;
        }
        proof {
            lemma_read_buckets_from(data@, swapped, 0, num_buckets as int);
            assert forall|k: int| 0 <= k < num_buckets implies buckets@[k] == #[trigger] bks[k] by {
                assert(bks[k] == (
                    spec_rd32(data@, 24 + 12 * (0 + k), swapped),
                    spec_rd32(data@, 24 + 12 * (0 + k) + 4, swapped),
                    spec_rd32(data@, 24 + 12 * (0 + k) + 8, swapped),
                ));
            }
            assert(buckets@ =~= bks);
        }

        let strings = vstd::slice::slice_to_vec(
            &data[strings_offset as usize..data.len()],
        );

        let mut keys: Vec<Vec<u8>> = Vec::new();
        let mut offsets: Vec<(Vec<u8>, u32)> = Vec::new();
        let ghost skeys = spec_scan_keys(buckets@, strings@, 0);
        let mut bi: usize = 0;
        while bi < buckets.len()
            invariant
                buckets@ == bks,
                strings@.len() <= data@.len(),
                bi <= buckets@.len(),
                skeys == spec_scan_keys(buckets@, strings@, 0),
                keys_views(keys@) + spec_scan_keys(buckets@, strings@, bi as int) =~= skeys,
                forall|k: int|
                    0 <= k < offsets@.len() ==> spec_get_string(
                        strings@,
                        (#[trigger] offsets@[k]).1,
                    ) == Some(offsets@[k].0@),
            decreases buckets@.len() - bi,
        {
            let (bk, bp, bs) = buckets[bi];
            if bk != 0 && (bk as u64) < strings.len() as u64 && (bs as u64) < strings.len() as u64
                && (bp as u64) < strings.len() as u64 {
                match get_string(&strings, bk) {
                    Some(key_str) => {
                        let kb = key_str.as_str().as_bytes();
                        let canon = canonical_key_bytes(kb);
                        proof {
                            lemma_lower_of_decoded(
                                spec_get_string(strings@, bk).unwrap(),
                                key_str@,
                            );
                        }
                        let ghost old_keys = keys@;
                        keys.push(canon);
                        offsets.push((vstd::slice::slice_to_vec(kb), bk));
                        proof {
                            assert(keys_views(keys@) =~= keys_views(old_keys) + seq![
                                spec_lower_bytes(spec_get_string(strings@, bk).unwrap()),
                            ]);
                            vstd::utf8::decode_utf8_encode_utf8(
                                spec_get_string(strings@, bk).unwrap(),
                            );
                        }
                    },
                    None => {},
                }
                match get_string(&strings, bp) {
                    Some(prefix_str) => {
                        offsets.push(
                            (vstd::slice::slice_to_vec(prefix_str.as_str().as_bytes()), bp),
                        );
                        proof {
                            vstd::utf8::decode_utf8_encode_utf8(
                                spec_get_string(strings@, bp).unwrap(),
                            );
                        }
                    },
                    None => {},
                }
                match get_string(&strings, bs) {
                    Some(suffix_str) => {
                        offsets.push(
                            (vstd::slice::slice_to_vec(suffix_str.as_str().as_bytes()), bs),
                        );
                        proof {
                            vstd::utf8::decode_utf8_encode_utf8(
                                spec_get_string(strings@, bs).unwrap(),
                            );
                        }
                    },
                    None => {},
                }
            }
            bi = bi + 1;
        }
        proof {
            assert(spec_scan_keys(buckets@, strings@, buckets@.len() as int) =~= Seq::<
                Seq<u8>,
            >::empty());
            assert(keys_views(keys@) + Seq::<Seq<u8>>::empty() =~= keys_views(keys@));
        }

        let result = HeaderMap {
            num_entries,
            num_buckets,
            max_value_length,
            buckets,
            strings,
            keys,
            offsets,
            modified: false,
        };
        proof {
            assert(result.cache_ok());
        }
        Ok(result)
    }

    /// Every resolvable bucket's key, prefix and suffix, in bucket
    /// order, decoded.
    pub fn entries(&self) -> (r: Vec<HMapEntry>)
        ensures
            ({
                let es = spec_scan_entries(self@.buckets, self@.strings, 0);
                &&& r@.len() == es.len()
                &&& forall|i: int|
                    0 <= i < r@.len() ==> (#[trigger] r@[i]).key@ == decode_utf8(es[i].0)
                        && r@[i].prefix@ == decode_utf8(es[i].1) && r@[i].suffix@ == decode_utf8(
                        es[i].2,
                    )
            }),
    {
        let ghost es = spec_scan_entries(self@.buckets, self@.strings, 0);
        let mut result: Vec<HMapEntry> = Vec::new();
        let mut bi: usize = 0;
        while bi < self.buckets.len()
            invariant
                bi <= self@.buckets.len(),
                es == spec_scan_entries(self@.buckets, self@.strings, 0),
                result@.len() + spec_scan_entries(self@.buckets, self@.strings, bi as int).len()
                    == es.len(),
                forall|i: int|
                    0 <= i < result@.len() ==> (#[trigger] result@[i]).key@ == decode_utf8(
                        es[i].0,
                    ) && result@[i].prefix@ == decode_utf8(es[i].1) && result@[i].suffix@
                        == decode_utf8(es[i].2),
                spec_scan_entries(self@.buckets, self@.strings, bi as int) =~= es.skip(
                    result@.len() as int,
                ),
            decreases self@.buckets.len() - bi,
        {
            let (bk, bp, bs) = self.buckets[bi];
            if bk != 0 {
                match (get_string(&self.strings, bk), get_string(&self.strings, bp), get_string(
                    &self.strings,
                    bs,
                )) {
                    (Some(key), Some(prefix), Some(suffix)) => {
                        proof {
                            assert(spec_scan_entries(self@.buckets, self@.strings, bi as int)[0]
                                == es.skip(result@.len() as int)[0]);
                            assert(es.skip(result@.len() as int).drop_first() =~= es.skip(
                                result@.len() as int + 1,
                            ));
                        }
                        result.push(HMapEntry { key, prefix, suffix });
                    },
                    _ => {},
                }
            }
            bi = bi + 1;
        }
        result
    }
}

/// The byte views of a list of canonical keys.
pub open spec fn keys_views(keys: Seq<Vec<u8>>) -> Seq<Seq<u8>> {
    keys.map(|i: int, k: Vec<u8>| k@)
}

/// Lowercasing the raw bytes of a valid UTF-8 string equals lowercasing
/// its characters' UTF-8 bytes, because multi-byte characters use bytes
/// the ASCII range never touches.
pub proof fn lemma_lower_of_decoded(raw: Seq<u8>, chars: Seq<char>)
    requires
        valid_utf8(raw),
        chars == decode_utf8(raw),
    ensures
        spec_lower_bytes(vstd::utf8::encode_utf8(chars)) == spec_lower_bytes(raw),
{
    broadcast use vstd::utf8::group_utf8_lib;

    assert(vstd::utf8::encode_utf8(decode_utf8(raw)) == raw);
}

/// The parsed bucket records from `i` on, by position.
pub proof fn lemma_read_buckets_from(bytes: Seq<u8>, swapped: bool, i: int, n: int)
    requires
        0 <= i <= n,
    ensures
        spec_read_buckets(bytes, swapped, i, n).len() == n - i,
        forall|k: int|
            0 <= k < n - i ==> #[trigger] spec_read_buckets(bytes, swapped, i, n)[k] == (
                spec_rd32(bytes, 24 + 12 * (i + k), swapped),
                spec_rd32(bytes, 24 + 12 * (i + k) + 4, swapped),
                spec_rd32(bytes, 24 + 12 * (i + k) + 8, swapped),
            ),
    decreases n - i,
{
    if i < n {
        lemma_read_buckets_from(bytes, swapped, i + 1, n);
        let s = spec_read_buckets(bytes, swapped, i, n);
        let rest = spec_read_buckets(bytes, swapped, i + 1, n);
        assert forall|k: int|
            0 <= k < n - i implies #[trigger] s[k] == (
            spec_rd32(bytes, 24 + 12 * (i + k), swapped),
            spec_rd32(bytes, 24 + 12 * (i + k) + 4, swapped),
            spec_rd32(bytes, 24 + 12 * (i + k) + 8, swapped),
        ) by {
            if k > 0 {
                assert(s[k] == rest[k - 1]);
                assert(rest[k - 1] == (
                    spec_rd32(bytes, 24 + 12 * (i + 1 + (k - 1)), swapped),
                    spec_rd32(bytes, 24 + 12 * (i + 1 + (k - 1)) + 4, swapped),
                    spec_rd32(bytes, 24 + 12 * (i + 1 + (k - 1)) + 8, swapped),
                ));
                assert(i + 1 + (k - 1) == i + k);
            }
        }
    }
}

impl HeaderMap {
    /// Record `s` in the string pool, reusing a previous offset where the
    /// same string was stored before.  A NUL-free string resolves at the
    /// returned offset, and every offset that resolved before still
    /// resolves to the same string.
    #[verifier::rlimit(100)]
    #[verifier::spinoff_prover]
    fn add_string(&mut self, s: &[u8]) -> (r: u32)
        requires
            old(self)@.wf(),
            old(self).cache_ok(),
            old(self)@.strings.len() + s@.len() + 2 <= u32::MAX,
        ensures
            final(self)@.wf(),
            final(self).cache_ok(),
            final(self)@.keys == old(self)@.keys,
            final(self)@.buckets == old(self)@.buckets,
            final(self)@.num_buckets == old(self)@.num_buckets,
            final(self)@.num_entries == old(self)@.num_entries,
            final(self)@.max_value_length == old(self)@.max_value_length,
            final(self)@.modified == old(self)@.modified,
            old(self)@.strings.len() <= final(self)@.strings.len() <= old(self)@.strings.len()
                + s@.len() + 2,
            spec_nul_free(s@) && vstd::utf8::valid_utf8(s@) ==> spec_get_string(
                final(self)@.strings,
                r,
            ) == Some(s@),
            forall|off: u32|
                spec_get_string(old(self)@.strings, off) is Some
                    ==> #[trigger] spec_get_string(final(self)@.strings, off) == spec_get_string(
                    old(self)@.strings,
                    off,
                ),
    {
        let mut i: usize = 0;
        while i < self.offsets.len()
            invariant
                *self == *old(self),
                old(self)@.wf(),
                old(self).cache_ok(),
                i <= self.offsets@.len(),
            decreases self.offsets@.len() - i,
        {
            if bytes_eq(self.offsets[i].0.as_slice(), s) {
                return self.offsets[i].1;
            }
            i = i + 1;
        }

        let ghost s0 = self.strings@;
        if self.strings.len() == 0 {
            self.strings.push(0);
        }
        let ghost s1 = self.strings@;
        let offset = self.strings.len() as u32;
        self.strings.extend_from_slice(s);
        self.strings.push(0);
        self.offsets.push((vstd::slice::slice_to_vec(s), offset));
        proof {
            assert(self@.keys =~= old(self)@.keys);
            let ext = self.strings@.subrange(s0.len() as int, self.strings@.len() as int);
            assert(self.strings@ =~= s0 + ext);
            assert(self.strings@ =~= s1 + (s@ + seq![0u8]));
            if spec_nul_free(s@) && vstd::utf8::valid_utf8(s@) {
                assert(forall|i2: int|
                    offset <= i2 < offset + s@.len() ==> self.strings@[i2] == s@[i2 - offset]
                        && self.strings@[i2] != 0);
                assert(self.strings@[offset + s@.len()] == 0);
                lemma_first_nul_found(
                    self.strings@,
                    offset as int,
                    offset as int + s@.len() as int,
                );
                assert(self.strings@.subrange(offset as int, offset + s@.len()) =~= s@);
                assert(spec_get_string(self.strings@, offset) == Some(s@));
            }
            assert(forall|off: u32|
                spec_get_string(s0, off) is Some ==> #[trigger] spec_get_string(
                    self.strings@,
                    off,
                ) == spec_get_string(s0, off)) by {
                assert forall|off: u32|
                    spec_get_string(s0, off) is Some implies #[trigger] spec_get_string(
                    self.strings@,
                    off,
                ) == spec_get_string(s0, off) by {
                    lemma_get_string_append(s0, ext, off);
                }
            }
            assert(self.cache_ok()) by {
                assert forall|k: int|
                    0 <= k < self.offsets@.len() implies (spec_nul_free(
                    (#[trigger] self.offsets@[k]).0@,
                ) && vstd::utf8::valid_utf8(self.offsets@[k].0@) ==> spec_get_string(
                    self.strings@,
                    self.offsets@[k].1,
                ) == Some(self.offsets@[k].0@)) by {
                    if k < self.offsets@.len() - 1 {
                        assert(self.offsets@[k] == old(self).offsets@[k]);
                        if spec_nul_free(self.offsets@[k].0@) && vstd::utf8::valid_utf8(
                            self.offsets@[k].0@,
                        ) {
                            lemma_get_string_append(s0, ext, self.offsets@[k].1);
                        }
                    }
                }
            }
        }
        offset
    }

    /// Place a record in the first empty bucket probed from `hash`,
    /// counting it unless the table is being regrown.  Either exactly one
    /// empty bucket now holds the record, or none was empty and the
    /// table is unchanged.
    fn set_bucket(&mut self, hash: u32, key: u32, prefix: u32, suffix: u32, growing: bool)
        requires
            old(self)@.wf(),
            old(self)@.num_buckets >= 1,
            old(self)@.num_buckets <= 0x4000_0000,
            hash < old(self)@.num_buckets,
            old(self)@.num_entries < u32::MAX,
        ensures
            final(self)@.wf(),
            final(self)@.keys == old(self)@.keys,
            final(self)@.strings == old(self)@.strings,
            final(self)@.num_buckets == old(self)@.num_buckets,
            final(self)@.max_value_length == old(self)@.max_value_length,
            final(self)@.modified == old(self)@.modified,
            old(self)@.num_entries <= final(self)@.num_entries <= old(self)@.num_entries + 1,
            growing ==> final(self)@.num_entries == old(self)@.num_entries,
            old(self).cache_ok() ==> final(self).cache_ok(),
            (exists|k: int|
                0 <= k < old(self)@.buckets.len() && (#[trigger] old(self)@.buckets[k]).0 == 0
                    && final(self)@.buckets == old(self)@.buckets.update(
                    k,
                    (key, prefix, suffix),
                )) || (final(self)@.buckets == old(self)@.buckets && forall|k: int|
                0 <= k < old(self)@.buckets.len() ==> (#[trigger] old(self)@.buckets[k]).0 != 0),
    {
        let n = self.num_buckets as usize;
        let mut i: usize = 0;
        while i < n
            invariant
                self@.wf(),
                *self == *old(self),
                n == self@.num_buckets,
                1 <= n <= 0x4000_0000,
                hash < n,
                i <= n,
                self@.num_entries < u32::MAX,
                forall|p: int|
                    0 <= p < i ==> (#[trigger] self@.buckets[(hash + p) % (n as int)]).0 != 0,
            decreases n - i,
        {
            let idx = (hash as usize + i) % n;
            if self.buckets[idx].0 == 0 {
                let ghost pre = self@.buckets;
                self.buckets[idx] = (key, prefix, suffix);
                if !growing {
                    self.num_entries = self.num_entries + 1;
                }
                proof {
                    assert(self@.keys =~= old(self)@.keys);
                    assert(self@.buckets =~= pre.update(idx as int, (key, prefix, suffix)));
                }
                return ;
            }
            i = i + 1;
        }
        proof {
            let ni = n as int;
            let h = hash as int;
            assert forall|sl: int|
                0 <= sl < ni implies (#[trigger] self@.buckets[sl]).0 != 0 by {
                let p = if sl >= h {
                    sl - h
                } else {
                    sl + ni - h
                };
                assert(0 <= p < ni);
                assert((h + p) % ni == sl) by {
                    if sl >= h {
                        vstd::arithmetic::div_mod::lemma_small_mod(sl as nat, ni as nat);
                    } else {
                        vstd::arithmetic::div_mod::lemma_mod_multiples_vanish(1, sl, ni);
                        vstd::arithmetic::div_mod::lemma_small_mod(sl as nat, ni as nat);
                    }
                }
                assert(self@.buckets[(h + p) % ni].0 != 0);
            }
        }
    }

    /// Rebuild the bucket array at `new_num_buckets`, re-placing every
    /// resolvable record by its hash.
    fn rehash(&mut self, new_num_buckets: u32)
        requires
            old(self)@.wf(),
            1 <= new_num_buckets <= 0x4000_0000,
        ensures
            final(self)@.wf(),
            final(self)@.keys == old(self)@.keys,
            final(self)@.strings == old(self)@.strings,
            final(self)@.num_buckets == new_num_buckets,
            final(self)@.max_value_length == old(self)@.max_value_length,
            final(self)@.modified == false,
            final(self)@.num_entries == 0,
            old(self).cache_ok() ==> final(self).cache_ok(),
    {
        let mut old_buckets: Vec<(u32, u32, u32)> = Vec::new();
        let mut ci: usize = 0;
        while ci < self.buckets.len()
            invariant
                *self == *old(self),
                ci <= self.buckets@.len(),
                old_buckets@ == self.buckets@.subrange(0, ci as int),
            decreases self.buckets@.len() - ci,
        {
            let b = self.buckets[ci];
            old_buckets.push(b);
            proof {
                assert(old_buckets@ =~= self.buckets@.subrange(0, ci as int + 1));
            }
            ci = ci + 1;
        }
        self.buckets = Vec::new();
        let nb = new_num_buckets as usize;
        let mut i: usize = 0;
        while i < nb
            invariant
                i <= nb,
                self.buckets@.len() == i,
                self.strings == old(self).strings,
                self.keys == old(self).keys,
                self.offsets == old(self).offsets,
                self.max_value_length == old(self).max_value_length,
                self.modified == old(self).modified,
            decreases nb - i,
        {
            self.buckets.push((0, 0, 0));
            i = i + 1;
        }
        self.num_buckets = new_num_buckets;
        self.num_entries = 0;

        let mut bi: usize = 0;
        while bi < old_buckets.len()
            invariant
                self@.wf(),
                self@.num_buckets == new_num_buckets,
                1 <= new_num_buckets <= 0x4000_0000,
                self@.num_entries == 0,
                self@.keys == old(self)@.keys,
                self@.strings == old(self)@.strings,
                self@.max_value_length == old(self)@.max_value_length,
                old(self).cache_ok() ==> self.cache_ok(),
                bi <= old_buckets@.len(),
            decreases old_buckets@.len() - bi,
        {
            let (bk, bp, bs) = old_buckets[bi];
            if bk != 0 {
                match get_string(&self.strings, bk) {
                    Some(key_str) => {
                        let hash = hash_hmap_key(key_str.as_str()) % new_num_buckets;
                        self.set_bucket(hash, bk, bp, bs, true);
                    },
                    None => {},
                }
            }
            bi = bi + 1;
        }

        self.modified = false;
        proof {
            assert(self@.keys =~= old(self)@.keys);
        }
    }

    /// Double the table when it is three quarters full.
    fn grow(&mut self)
        requires
            old(self)@.wf(),
            1 <= old(self)@.num_buckets <= 0x2000_0000,
        ensures
            final(self)@.wf(),
            final(self)@.keys == old(self)@.keys,
            final(self)@.strings == old(self)@.strings,
            final(self)@.max_value_length == old(self)@.max_value_length,
            old(self)@.num_buckets <= final(self)@.num_buckets <= 2 * old(self)@.num_buckets,
            1 <= final(self)@.num_buckets <= 0x4000_0000,
            final(self)@.num_entries == old(self)@.num_entries || final(self)@.num_entries == 0,
            old(self).cache_ok() ==> final(self).cache_ok(),
    {
        if (self.num_entries as u64) + 1 >= (self.num_buckets as u64) * 3 / 4 {
            let doubled = self.num_buckets * 2;
            self.rehash(doubled);
        }
    }

    /// Record a key with its prefix and suffix.  Returns `false`, and
    /// changes nothing, when any argument is empty or the key (compared
    /// case-insensitively) is already present; otherwise records the
    /// canonical key and returns `true`, and — for NUL-free strings —
    /// some bucket of the final table holds offsets that resolve to
    /// exactly the three strings, unless every bucket was already full.
    pub fn add(&mut self, key: &str, prefix: &str, suffix: &str) -> (r: bool)
        requires
            old(self)@.wf(),
            old(self).cache_ok(),
            1 <= old(self)@.num_buckets <= 0x2000_0000,
            old(self)@.num_entries < u32::MAX,
            old(self)@.strings.len() + key.spec_bytes().len() + prefix.spec_bytes().len()
                + suffix.spec_bytes().len() + 8 <= u32::MAX,
        ensures
            final(self)@.wf(),
            final(self).cache_ok(),
            r == !(key@.len() == 0 || prefix@.len() == 0 || suffix@.len() == 0
                || spec_keys_contain(old(self)@.keys, spec_lower_bytes(key.spec_bytes()))),
            !r ==> final(self)@ == old(self)@,
            r ==> final(self)@.keys == old(self)@.keys + seq![
                spec_lower_bytes(key.spec_bytes()),
            ],
            r ==> final(self)@.modified == true,
            r ==> old(self)@.num_buckets <= final(self)@.num_buckets <= 2 * old(
                self,
            )@.num_buckets,
            r && spec_nul_free(key.spec_bytes()) && spec_nul_free(prefix.spec_bytes())
                && spec_nul_free(suffix.spec_bytes()) ==> ((exists|idx: int|
                0 <= idx < final(self)@.buckets.len() && ({
                    let b = #[trigger] final(self)@.buckets[idx];
                    &&& spec_get_string(final(self)@.strings, b.0) == Some(key.spec_bytes())
                    &&& spec_get_string(final(self)@.strings, b.1) == Some(prefix.spec_bytes())
                    &&& spec_get_string(final(self)@.strings, b.2) == Some(suffix.spec_bytes())
                })) || (forall|idx: int|
                0 <= idx < final(self)@.buckets.len() ==> (#[trigger] final(self)@.buckets[
                    idx
                ]).0 != 0)),
    {
        if key.is_empty() || prefix.is_empty() || suffix.is_empty() {
            return false;
        }

        let canon = canonical_key_bytes(key.as_bytes());
        let mut i: usize = 0;
        while i < self.keys.len()
            invariant
                *self == *old(self),
                old(self)@.wf(),
                old(self).cache_ok(),
                i <= self.keys@.len(),
                canon@ == spec_lower_bytes(key.spec_bytes()),
                forall|k: int| 0 <= k < i ==> self@.keys[k] != canon@,
            decreases self.keys@.len() - i,
        {
            if bytes_eq(self.keys[i].as_slice(), canon.as_slice()) {
                proof {
                    assert(self@.keys[i as int] == canon@);
                    assert(spec_keys_contain(old(self)@.keys, canon@));
                }
                return false;
            }
            i = i + 1;
        }
        proof {
            assert(!spec_keys_contain(old(self)@.keys, canon@)) by {
                if spec_keys_contain(old(self)@.keys, canon@) {
                    let w = choose|k: int|
                        0 <= k < old(self)@.keys.len() && old(self)@.keys[k] == canon@;
                    assert(old(self)@.keys[w] != canon@);
                }
            }
        }

        let k_off = self.add_string(key.as_bytes());
        let p_off = self.add_string(prefix.as_bytes());
        let s_off = self.add_string(suffix.as_bytes());
        proof {
            if spec_nul_free(key.spec_bytes()) && spec_nul_free(prefix.spec_bytes())
                && spec_nul_free(suffix.spec_bytes()) {
                vstd::utf8::encode_utf8_valid_utf8(key@);
                vstd::utf8::encode_utf8_valid_utf8(prefix@);
                vstd::utf8::encode_utf8_valid_utf8(suffix@);
                assert(spec_get_string(self@.strings, k_off) == Some(key.spec_bytes()));
                assert(spec_get_string(self@.strings, p_off) == Some(prefix.spec_bytes()));
                assert(spec_get_string(self@.strings, s_off) == Some(suffix.spec_bytes()));
            }
        }

        let ghost keys_before = self@.keys;
        self.keys.push(canon);
        proof {
            assert(self@.keys =~= keys_before + seq![spec_lower_bytes(key.spec_bytes())]);
        }

        self.grow();

        let hash = hash_hmap_key(key) % self.num_buckets;
        let ghost bb = self@.buckets;
        self.set_bucket(hash, k_off, p_off, s_off, false);
        proof {
            if spec_nul_free(key.spec_bytes()) && spec_nul_free(prefix.spec_bytes())
                && spec_nul_free(suffix.spec_bytes()) {
                if exists|k: int|
                    0 <= k < bb.len() && (#[trigger] bb[k]).0 == 0 && self@.buckets == bb.update(
                        k,
                        (k_off, p_off, s_off),
                    ) {
                    let k = choose|k: int|
                        0 <= k < bb.len() && (#[trigger] bb[k]).0 == 0 && self@.buckets
                            == bb.update(k, (k_off, p_off, s_off));
                    assert(self@.buckets[k] == (k_off, p_off, s_off));
                }
            }
        }

        let key_len = key.as_bytes().len();
        if (key_len as u64) > (self.max_value_length as u64) {
            self.max_value_length = key_len as u32;
        }

        self.modified = true;
        true
    }

    /// Serialize the header map, big-endian: the header, the bucket
    /// array, the string pool.  A map changed since it was built is
    /// rehashed in place first.
    pub fn write(&mut self) -> (out: Vec<u8>)
        requires
            old(self)@.wf(),
            old(self)@.modified ==> 1 <= old(self)@.num_buckets <= 0x4000_0000,
            24 + 12 * (old(self)@.num_buckets as int) + old(self)@.strings.len() <= u32::MAX,
        ensures
            final(self)@.wf(),
            final(self)@.keys == old(self)@.keys,
            final(self)@.strings == old(self)@.strings,
            final(self)@.num_buckets == old(self)@.num_buckets,
            final(self)@.max_value_length == old(self)@.max_value_length,
            final(self)@.modified == false,
            old(self).cache_ok() ==> final(self).cache_ok(),
            !old(self)@.modified ==> final(self)@.num_entries == old(self)@.num_entries,
            out@ == be32(HMAP_MAGIC) + be16(1) + be16(0) + be32(
                (24 + 12 * final(self)@.num_buckets) as u32,
            ) + be32(final(self)@.num_entries) + be32(final(self)@.num_buckets) + be32(
                final(self)@.max_value_length,
            ) + spec_bucket_bytes(final(self)@.buckets, 0) + final(self)@.strings,
    {
        if self.modified {
            let nb = self.num_buckets;
            self.rehash(nb);
        } else {
            self.modified = false;
        }

        let strings_offset: u32 = 24 + 12 * self.num_buckets;
        let mut out: Vec<u8> = Vec::new();
        push_u32_be(&mut out, 0x686d6170);
        push_u16_be(&mut out, 1);
        push_u16_be(&mut out, 0);
        push_u32_be(&mut out, strings_offset);
        push_u32_be(&mut out, self.num_entries);
        push_u32_be(&mut out, self.num_buckets);
        push_u32_be(&mut out, self.max_value_length);
        let ghost header = be32(HMAP_MAGIC) + be16(1) + be16(0) + be32(strings_offset) + be32(
            self@.num_entries,
        ) + be32(self@.num_buckets) + be32(self@.max_value_length);
        proof {
            assert(out@ =~= header);
        }

        let ghost w = self@;
        let mut i: usize = 0;
        while i < self.buckets.len()
            invariant
                w == self@,
                i <= self@.buckets.len(),
                out@ + spec_bucket_bytes(w.buckets, i as int) =~= header + spec_bucket_bytes(
                    w.buckets,
                    0,
                ),
                header == be32(HMAP_MAGIC) + be16(1) + be16(0) + be32(strings_offset) + be32(
                    w.num_entries,
                ) + be32(w.num_buckets) + be32(w.max_value_length),
            decreases self@.buckets.len() - i,
        {
            let (bk, bp, bs) = self.buckets[i];
            push_u32_be(&mut out, bk);
            push_u32_be(&mut out, bp);
            push_u32_be(&mut out, bs);
            proof {
                assert(spec_bucket_bytes(w.buckets, i as int) == be32(w.buckets[i as int].0)
                    + be32(w.buckets[i as int].1) + be32(w.buckets[i as int].2)
                    + spec_bucket_bytes(w.buckets, i as int + 1));
                assert(out@ + spec_bucket_bytes(w.buckets, i as int + 1) =~= header
                    + spec_bucket_bytes(w.buckets, 0));
            }
            i = i + 1;
        }
        proof {
            assert(spec_bucket_bytes(w.buckets, w.buckets.len() as int) =~= Seq::<u8>::empty());
            assert(out@ =~= header + spec_bucket_bytes(w.buckets, 0));
        }

        out.extend_from_slice(self.strings.as_slice());
        out
    }
}


} // verus!
