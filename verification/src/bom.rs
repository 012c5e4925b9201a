//! Reader for BOM (Bill Of Materials) archives.
//!
//! A BOM archive is a single byte buffer holding a 32-byte header, numbered
//! opaque byte blocks, an index table mapping block numbers to byte ranges,
//! and a table of named variables pointing at block numbers.  A keyed tree
//! of byte pairs can be layered on the blocks; [`Bom::tree_entries`] walks
//! it.  Every access is bounds-checked against the buffer, so a corrupt or
//! crafted archive can never cause an out-of-range read.

use vstd::prelude::*;

use crate::bytes::{r16, r32, read_u16_be, read_u32_be};
use crate::strutil::{spec_utf8_lossy, utf8_lossy};

verus! {

/// The failure modes of loading and walking an archive.
#[derive(Debug, Clone, PartialEq, Eq)]
pub enum BomError {
    /// The buffer is shorter than the fixed 32-byte header.
    FileTooSmall,
    /// The first eight bytes are not `BOMStore`.
    InvalidMagic,
    /// The header version field is not 1; holds the value found.
    InvalidVersion(u32),
    /// The declared index table does not fit in the buffer.
    IndexOutOfBounds,
    /// The declared variables table does not fit in the buffer.
    VariablesOutOfBounds,
    /// A block number has no usable index entry; holds the number.
    IndexOutOfRange(u32),
    /// No variable of the given name exists; holds the name.
    TreeNotFound(String),
    /// The block a tree variable points at does not start with `tree`.
    InvalidTreeMagic,
    /// The tree header version is not 1.
    InvalidTreeVersion,
    /// A tree node's declared entry count overruns the node's bytes.
    DataOutOfBounds,
    /// A node chain, or a path record's parent chain, is longer than its
    /// structure allows, which only a cyclic (corrupt) structure can
    /// produce.
    CorruptTree,
}

/// One entry of the block index table: a byte range of the buffer.
#[derive(Debug, Clone)]
pub struct BomIndex {
    pub address: u32,
    pub length: u32,
}

/// A named root pointer: a variable name and the block number it points at.
#[derive(Debug, Clone)]
pub struct BomVariable {
    pub name: String,
    pub index: u32,
}

/// One key/value byte pair read back from a tree.
#[derive(Debug, Clone)]
pub struct BomTreeEntry {
    pub key: Vec<u8>,
    pub value: Vec<u8>,
}

/// The mathematical content of a loaded archive: the raw bytes and the three
/// header-derived numbers every lookup starts from.
pub ghost struct BomView {
    pub data: Seq<u8>,
    pub index_offset: int,
    pub index_count: u32,
    pub variables_offset: int,
}

/// The eight magic bytes `BOMStore`.
pub open spec fn bom_magic() -> Seq<u8> {
    seq![0x42u8, 0x4fu8, 0x4du8, 0x53u8, 0x74u8, 0x6fu8, 0x72u8, 0x65u8]
}

/// The four magic bytes `tree`.
pub open spec fn tree_magic() -> Seq<u8> {
    seq![0x74u8, 0x72u8, 0x65u8, 0x65u8]
}

impl BomView {
    /// What `Bom::load` establishes and every method relies on.
    pub open spec fn wf(self) -> bool {
        &&& self.data.len() >= 32
        &&& 0 <= self.index_offset
        &&& self.index_offset + 4 <= self.data.len()
        &&& 0 <= self.variables_offset
        &&& self.variables_offset + 4 <= self.data.len()
        &&& self.index_count == r32(self.data, self.index_offset)
    }
}

/// Loading an archive, stated over the raw bytes: either every header check
/// passes and the three derived numbers are fixed, or the first failing
/// check names the error.
pub open spec fn spec_load(bytes: Seq<u8>) -> Result<BomView, BomError> {
    if bytes.len() < 32 {
        Err(BomError::FileTooSmall)
    } else if bytes.subrange(0, 8) != bom_magic() {
        Err(BomError::InvalidMagic)
    } else if r32(bytes, 8) != 1 {
        Err(BomError::InvalidVersion(r32(bytes, 8)))
    } else {
        let index_offset = r32(bytes, 16) as int;
        let index_length = r32(bytes, 20) as int;
        if index_offset + 4 > bytes.len() || index_offset + index_length > bytes.len() {
            Err(BomError::IndexOutOfBounds)
        } else {
            let variables_offset = r32(bytes, 24) as int;
            if variables_offset + 4 > bytes.len() {
                Err(BomError::VariablesOutOfBounds)
            } else {
                Ok(
                    BomView {
                        data: bytes,
                        index_offset,
                        index_count: r32(bytes, index_offset),
                        variables_offset,
                    },
                )
            }
        }
    }
}

/// The bytes of block `i`, if `i` is in range, its index entry lies inside
/// the buffer, and the range the entry declares lies inside the buffer.
pub open spec fn spec_block(v: BomView, i: u32) -> Option<Seq<u8>> {
    if i >= v.index_count {
        None
    } else {
        let entry_offset = v.index_offset + 4 + 8 * (i as int);
        if entry_offset + 8 > v.data.len() {
            None
        } else {
            let address = r32(v.data, entry_offset) as int;
            let length = r32(v.data, entry_offset + 4) as int;
            if address + length > v.data.len() {
                None
            } else {
                Some(v.data.subrange(address, address + length))
            }
        }
    }
}

/// The bytes of block `i`, or the empty sequence where the block is not
/// addressable — how a leaf resolves its key and value numbers.
pub open spec fn spec_block_or_empty(v: BomView, i: u32) -> Seq<u8> {
    match spec_block(v, i) {
        Some(b) => b,
        None => Seq::empty(),
    }
}

/// The variable records parsed from `off`, reading at most `remaining` of
/// them and stopping early at the first record that would overrun the
/// buffer.  Each record is `(index: u32, name_len: u8, name bytes)`; the
/// result pairs the raw name bytes with the index.
pub open spec fn spec_parse_vars(bytes: Seq<u8>, off: int, remaining: nat) -> Seq<(Seq<u8>, u32)>
    decreases remaining,
{
    if remaining == 0 {
        Seq::empty()
    } else if off < 0 || off + 5 > bytes.len() {
        Seq::empty()
    } else {
        let index = r32(bytes, off);
        let name_len = bytes[off + 4] as int;
        if off + 5 + name_len > bytes.len() {
            Seq::empty()
        } else {
            seq![(bytes.subrange(off + 5, off + 5 + name_len), index)] + spec_parse_vars(
                bytes,
                off + 5 + name_len,
                (remaining - 1) as nat,
            )
        }
    }
}

/// The whole variable table of an archive: raw name bytes and block number,
/// in file order.
pub open spec fn spec_variables(v: BomView) -> Seq<(Seq<u8>, u32)> {
    spec_parse_vars(v.data, v.variables_offset + 4, r32(v.data, v.variables_offset) as nat)
}

/// The block number of the first variable whose decoded name equals
/// `name`, if any.
pub open spec fn spec_find_var(vars: Seq<(Seq<u8>, u32)>, name: Seq<char>) -> Option<u32>
    decreases vars.len(),
{
    if vars.len() == 0 {
        None
    } else if spec_utf8_lossy(vars[0].0) == name {
        Some(vars[0].1)
    } else {
        spec_find_var(vars.drop_first(), name)
    }
}

/// `Bom::variable_get`, stated over the view.
pub open spec fn spec_variable_get(v: BomView, name: Seq<char>) -> Option<u32> {
    spec_find_var(spec_variables(v), name)
}

/// A read-only BOM archive: the owned buffer and the header-derived offsets.
#[derive(Debug, Clone)]
pub struct Bom {
    data: Vec<u8>,
    index_offset: usize,
    index_count: u32,
    variables_offset: usize,
}

impl View for Bom {
    type V = BomView;

    closed spec fn view(&self) -> BomView {
        BomView {
            data: self.data@,
            index_offset: self.index_offset as int,
            index_count: self.index_count,
            variables_offset: self.variables_offset as int,
        }
    }
}

impl Bom {
    /// Validate the header of `data` and derive the index and variable
    /// offsets; returns exactly what `spec_load` says for these bytes, and
    /// on success a well-formed archive over the unchanged bytes.
    pub fn load(data: Vec<u8>) -> (r: Result<Bom, BomError>)
        ensures
            match spec_load(data@) {
                Ok(v) => r matches Ok(b) && b@ == v && b@.wf(),
                Err(e) => r matches Err(e2) && e2 == e,
            },
    {
        if data.len() < 32 {
            return Err(BomError::FileTooSmall);
        }
        if !(data[0] == 0x42 && data[1] == 0x4f && data[2] == 0x4d && data[3] == 0x53 && data[4]
            == 0x74 && data[5] == 0x6f && data[6] == 0x72 && data[7] == 0x65) {
            proof {
                assert(data@.subrange(0, 8) != bom_magic()) by {
                    if data@.subrange(0, 8) == bom_magic() {
                        assert(data@[0] == data@.subrange(0, 8)[0]);
                        assert(data@[1] == data@.subrange(0, 8)[1]);
                        assert(data@[2] == data@.subrange(0, 8)[2]);
                        assert(data@[3] == data@.subrange(0, 8)[3]);
                        assert(data@[4] == data@.subrange(0, 8)[4]);
                        assert(data@[5] == data@.subrange(0, 8)[5]);
                        assert(data@[6] == data@.subrange(0, 8)[6]);
                        assert(data@[7] == data@.subrange(0, 8)[7]);
                    }
                }
            }
            return Err(BomError::InvalidMagic);
        }
        proof {
            assert(data@.subrange(0, 8) =~= bom_magic());
        }
        let version = read_u32_be(data.as_slice(), 8);
        if version != 1 {
            return Err(BomError::InvalidVersion(version));
        }

        let index_offset_32 = read_u32_be(data.as_slice(), 16);
        let index_length_32 = read_u32_be(data.as_slice(), 20);
        let len64: u64 = data.len() as u64;

        if index_offset_32 as u64 + 4 > len64 {
            return Err(BomError::IndexOutOfBounds);
        }
        if index_offset_32 as u64 + index_length_32 as u64 > len64 {
            return Err(BomError::IndexOutOfBounds);
        }

        let variables_offset_32 = read_u32_be(data.as_slice(), 24);
        if variables_offset_32 as u64 + 4 > len64 {
            return Err(BomError::VariablesOutOfBounds);
        }

        let index_offset = index_offset_32 as usize;
        let variables_offset = variables_offset_32 as usize;
        let index_count = read_u32_be(data.as_slice(), index_offset);

        Ok(Bom { data, index_offset, index_count, variables_offset })
    }

    /// The `block_count` field of the header.
    pub fn block_count(&self) -> (r: u32)
        requires
            self@.wf(),
        ensures
            r == r32(self@.data, 12),
    {
        read_u32_be(self.data.as_slice(), 12)
    }

    /// The `index_length` field of the header.
    pub fn index_length(&self) -> (r: u32)
        requires
            self@.wf(),
        ensures
            r == r32(self@.data, 20),
    {
        read_u32_be(self.data.as_slice(), 20)
    }

    /// The `trailer_len` field of the header.
    pub fn trailer_len(&self) -> (r: u32)
        requires
            self@.wf(),
        ensures
            r == r32(self@.data, 28),
    {
        read_u32_be(self.data.as_slice(), 28)
    }

    /// The whole underlying buffer.
    pub fn data(&self) -> (r: &[u8])
        ensures
            r@ == self@.data,
    {
        self.data.as_slice()
    }

    /// The bytes of block `index`: `None` if the number is out of range or
    /// the entry or its range overruns the buffer, and never a slice that
    /// extends past the buffer.
    pub fn index_get(&self, index: u32) -> (r: Option<&[u8]>)
        requires
            self@.wf(),
        ensures
            match spec_block(self@, index) {
                Some(b) => r matches Some(s) && s@ == b && s@.len() <= self@.data.len(),
                None => r is None,
            },
    {
        if index >= self.index_count {
            return None;
        }

        let entry_offset_128: u128 = self.index_offset as u128 + 4 + (index as u128) * 8;
        let len64: u64 = self.data.len() as u64;
        if entry_offset_128 + 8 > len64 as u128 {
            return None;
        }
        let entry_offset = entry_offset_128 as usize;

        let address = read_u32_be(self.data.as_slice(), entry_offset);
        let length = read_u32_be(self.data.as_slice(), entry_offset + 4);

        if address as u64 + length as u64 > len64 {
            return None;
        }

        let address = address as usize;
        let length = length as usize;
        Some(&self.data.as_slice()[address..address + length])
    }

    /// Every index entry whose record fits in the buffer, with its block
    /// number, in table order; stops at the first entry that overruns.
    pub fn indices(&self) -> (r: Vec<(u32, BomIndex)>)
        requires
            self@.wf(),
        ensures
            r@.len() <= self@.index_count,
            forall|k: int|
                0 <= k < r@.len() ==> {
                    let entry_offset = self@.index_offset + 4 + 8 * k;
                    &&& (#[trigger] r@[k]).0 == k as u32
                    &&& r@[k].1.address == r32(self@.data, entry_offset)
                    &&& r@[k].1.length == r32(self@.data, entry_offset + 4)
                },
            r@.len() < self@.index_count ==> self@.index_offset + 4 + 8 * r@.len() + 8
                > self@.data.len(),
    {
        let mut result: Vec<(u32, BomIndex)> = Vec::new();
        let len64: u64 = self.data.len() as u64;
        let mut i: u32 = 0;
        while i < self.index_count
            invariant
                self@.wf(),
                i <= self@.index_count,
                len64 == self@.data.len(),
                len64 <= usize::MAX,
                result@.len() == i,
                forall|k: int|
                    0 <= k < i ==> {
                        let entry_offset = self@.index_offset + 4 + 8 * k;
                        &&& (#[trigger] result@[k]).0 == k as u32
                        &&& result@[k].1.address == r32(self@.data, entry_offset)
                        &&& result@[k].1.length == r32(self@.data, entry_offset + 4)
                    },
            decreases self@.index_count - i,
        {
            let entry_offset_128: u128 = self.index_offset as u128 + 4 + (i as u128) * 8;
            if entry_offset_128 + 8 > len64 as u128 {
                return result;
            }
            let entry_offset = entry_offset_128 as usize;
            assert(entry_offset == self@.index_offset + 4 + 8 * (i as int));
            let address = read_u32_be(self.data.as_slice(), entry_offset);
            let length = read_u32_be(self.data.as_slice(), entry_offset + 4);
            result.push((i, BomIndex { address, length }));
            i = i + 1;
        }
        result
    }

    /// The variable table as raw name bytes and block numbers, exactly as
    /// `spec_variables` reads it.
    pub fn raw_variables(&self) -> (r: Vec<(Vec<u8>, u32)>)
        requires
            self@.wf(),
        ensures
            r@.len() == spec_variables(self@).len(),
            forall|k: int|
                0 <= k < r@.len() ==> (#[trigger] r@[k]).0@ == spec_variables(self@)[k].0
                    && r@[k].1 == spec_variables(self@)[k].1,
    {
        let ghost full: Seq<(Seq<u8>, u32)> = spec_variables(self@);
        let mut result: Vec<(Vec<u8>, u32)> = Vec::new();
        let len64: u64 = self.data.len() as u64;
        let count = read_u32_be(self.data.as_slice(), self.variables_offset);
        let mut offset: usize = self.variables_offset + 4;
        let mut remaining: u32 = count;

        loop
            invariant
                self@.wf(),
                len64 == self@.data.len(),
                len64 <= usize::MAX,
                offset <= self@.data.len(),
                full == spec_variables(self@),
                full =~= spec_parse_prefix(result@) + spec_parse_vars(
                    self@.data,
                    offset as int,
                    remaining as nat,
                ),
                forall|k: int|
                    0 <= k < result@.len() ==> (#[trigger] result@[k]).0@ == full[k].0 && result@[
                        k
                    ].1 == full[k].1,
            ensures
                full =~= spec_parse_prefix(result@),
                forall|k: int|
                    0 <= k < result@.len() ==> (#[trigger] result@[k]).0@ == full[k].0 && result@[
                        k
                    ].1 == full[k].1,
            decreases remaining,
        {
            if remaining == 0 {
                proof {
                    assert(spec_parse_vars(self@.data, offset as int, remaining as nat)
                        =~= Seq::empty());
                    assert(spec_parse_prefix(result@) + Seq::empty() =~= spec_parse_prefix(
                        result@,
                    ));
                }
                break ;
            }
            if (len64 - offset as u64) < 5 {
                proof {
                    assert(spec_parse_vars(self@.data, offset as int, remaining as nat)
                        =~= Seq::empty());
                    assert(spec_parse_prefix(result@) + Seq::empty() =~= spec_parse_prefix(
                        result@,
                    ));
                }
                break ;
            }
            let index = read_u32_be(self.data.as_slice(), offset);
            let name_len = self.data[offset + 4] as usize;
            if (len64 - offset as u64) < 5 + name_len as u64 {
                proof {
                    assert(spec_parse_vars(self@.data, offset as int, remaining as nat)
                        =~= Seq::empty());
                    assert(spec_parse_prefix(result@) + Seq::empty() =~= spec_parse_prefix(
                        result@,
                    ));
                }
                break ;
            }
            let name = vstd::slice::slice_to_vec(
                &self.data.as_slice()[offset + 5..offset + 5 + name_len],
            );
            let ghost old_result = result@;
            result.push((name, index));
            proof {
                assert(spec_parse_prefix(result@) =~= spec_parse_prefix(old_result) + seq![
                    (self@.data.subrange(
                        offset + 5,
                        offset + 5 + name_len as int,
                    ), index),
                ]);
            }
            offset = offset + 5 + name_len;
            remaining = remaining - 1;
        }
        result
    }

    /// The variable table with each name lossily decoded to a string.
    pub fn variables(&self) -> (r: Vec<BomVariable>)
        requires
            self@.wf(),
        ensures
            r@.len() == spec_variables(self@).len(),
            forall|k: int|
                0 <= k < r@.len() ==> (#[trigger] r@[k]).index == spec_variables(self@)[k].1
                    && r@[k].name@ == spec_utf8_lossy(spec_variables(self@)[k].0),
    {
        let raw = self.raw_variables();
        let mut result: Vec<BomVariable> = Vec::new();
        let mut i: usize = 0;
        while i < raw.len()
            invariant
                i <= raw@.len(),
                raw@.len() == spec_variables(self@).len(),
                forall|k: int|
                    0 <= k < raw@.len() ==> (#[trigger] raw@[k]).0@ == spec_variables(self@)[k].0
                        && raw@[k].1 == spec_variables(self@)[k].1,
                result@.len() == i,
                forall|k: int|
                    0 <= k < i ==> (#[trigger] result@[k]).index == spec_variables(self@)[k].1
                        && result@[k].name@ == spec_utf8_lossy(spec_variables(self@)[k].0),
            decreases raw@.len() - i,
        {
            let name = utf8_lossy(raw[i].0.as_slice());
            result.push(BomVariable { name, index: raw[i].1 });
            i = i + 1;
        }
        result
    }

    /// The block number of the first variable whose decoded name equals
    /// `name`, or `None` where there is none.
    pub fn variable_get(&self, name: &str) -> (r: Option<u32>)
        requires
            self@.wf(),
        ensures
            r == spec_variable_get(self@, name@),
    {
        let raw = self.raw_variables();
        let ghost sv = spec_variables(self@);
        proof {
            assert(sv.skip(0) =~= sv);
        }
        let mut i: usize = 0;
        while i < raw.len()
            invariant
                i <= raw@.len(),
                sv == spec_variables(self@),
                raw@.len() == sv.len(),
                forall|k: int|
                    0 <= k < raw@.len() ==> (#[trigger] raw@[k]).0@ == sv[k].0 && raw@[k].1 == sv[
                        k
                    ].1,
                spec_find_var(sv, name@) == spec_find_var(sv.skip(i as int), name@),
            decreases raw@.len() - i,
        {
            proof {
                assert(sv.skip(i as int)[0] == sv[i as int]);
                assert(sv.skip(i as int).drop_first() =~= sv.skip(i as int + 1));
            }
            let candidate = utf8_lossy(raw[i].0.as_slice());
            if crate::strutil::str_eq(candidate.as_str(), name) {
                return Some(raw[i].1);
            }
            i = i + 1;
        }
        proof {
            assert(sv.skip(sv.len() as int).len() == 0);
        }
        None
    }
}

/// The raw-variable view of an executable variable list.
pub open spec fn spec_parse_prefix(r: Seq<(Vec<u8>, u32)>) -> Seq<(Seq<u8>, u32)> {
    r.map(|k: int, p: (Vec<u8>, u32)| (p.0@, p.1))
}

/// The key/value byte pairs of leaf node `nd` from entry `j` on: each
/// entry names its value and key blocks, and an entry whose key or value
/// number is not addressable fails with `IndexOutOfRange`.
pub open spec fn spec_leaf_pairs(v: BomView, nd: Seq<u8>, j: int, count: int) -> Result<
    Seq<(Seq<u8>, Seq<u8>)>,
    BomError,
>
    recommends
        12 + 8 * count <= nd.len(),
    decreases count - j,
{
    if j >= count {
        Ok(Seq::empty())
    } else {
        let value_index = r32(nd, 12 + 8 * j);
        let key_index = r32(nd, 12 + 8 * j + 4);
        match spec_block(v, key_index) {
            None => Err(BomError::IndexOutOfRange(key_index)),
            Some(kd) => match spec_block(v, value_index) {
                None => Err(BomError::IndexOutOfRange(value_index)),
                Some(vd) => match spec_leaf_pairs(v, nd, j + 1, count) {
                    Ok(rest) => Ok(seq![(kd, vd)] + rest),
                    Err(e) => Err(e),
                },
            },
        }
    }
}

/// The pairs gathered from the node chain starting at block `idx`: a
/// non-leaf node is followed into its first child, a leaf contributes its
/// pairs and is followed along its forward pointer.  A leaf whose
/// declared entry count overruns its bytes fails with `DataOutOfBounds`,
/// and an unresolvable key or value number with `IndexOutOfRange`.
/// `fuel` bounds the chain length; a chain that exhausts it can only be
/// cyclic, and fails with `CorruptTree`.
pub open spec fn spec_collect(v: BomView, idx: u32, fuel: nat) -> Result<
    Seq<(Seq<u8>, Seq<u8>)>,
    BomError,
>
    decreases fuel,
{
    if fuel == 0 {
        Err(BomError::CorruptTree)
    } else {
        match spec_block(v, idx) {
            None => Err(BomError::IndexOutOfRange(idx)),
            Some(nd) => {
                if nd.len() < 12 {
                    Err(BomError::DataOutOfBounds)
                } else {
                    let is_leaf = r16(nd, 0);
                    let count = r16(nd, 2) as int;
                    let forward = r32(nd, 4);
                    if is_leaf == 0 {
                        if count > 0 && nd.len() >= 20 {
                            spec_collect(v, r32(nd, 12), (fuel - 1) as nat)
                        } else {
                            Ok(Seq::empty())
                        }
                    } else {
                        if 12 + 8 * count > nd.len() {
                            Err(BomError::DataOutOfBounds)
                        } else {
                            match spec_leaf_pairs(v, nd, 0, count) {
                                Err(e) => Err(e),
                                Ok(here) => if forward != 0 {
                                    match spec_collect(v, forward, (fuel - 1) as nat) {
                                        Ok(rest) => Ok(here + rest),
                                        Err(e) => Err(e),
                                    }
                                } else {
                                    Ok(here)
                                },
                            }
                        }
                    }
                }
            },
        }
    }
}

/// `Bom::tree_entries` after the variable has been resolved to the block
/// number of the tree header.
pub open spec fn spec_tree_result(v: BomView, tree_index: u32) -> Result<
    Seq<(Seq<u8>, Seq<u8>)>,
    BomError,
> {
    match spec_block(v, tree_index) {
        None => Err(BomError::IndexOutOfRange(tree_index)),
        Some(td) => {
            if td.len() < 21 {
                Err(BomError::InvalidTreeMagic)
            } else if td.subrange(0, 4) != tree_magic() {
                Err(BomError::InvalidTreeMagic)
            } else if r32(td, 4) != 1 {
                Err(BomError::InvalidTreeVersion)
            } else {
                spec_collect(v, r32(td, 8), (v.index_count + 1) as nat)
            }
        },
    }
}

/// Whether block `i` starts like a valid tree header.
pub open spec fn spec_is_tree(v: BomView, i: u32) -> bool {
    match spec_block(v, i) {
        None => false,
        Some(d) => d.len() >= 21 && d.subrange(0, 4) == tree_magic() && r32(d, 4) == 1,
    }
}

/// The key/value byte pairs held by a list of tree entries.
pub open spec fn tree_entries_view(es: Seq<BomTreeEntry>) -> Seq<(Seq<u8>, Seq<u8>)> {
    es.map(|k: int, e: BomTreeEntry| (e.key@, e.value@))
}

impl Bom {
    /// Whether the block the variable number points at carries the tree
    /// magic and version.
    pub fn is_tree(&self, variable_index: u32) -> (r: bool)
        requires
            self@.wf(),
        ensures
            r == spec_is_tree(self@, variable_index),
    {
        match self.index_get(variable_index) {
            Some(d) => {
                if d.len() >= 21 && d[0] == 0x74 && d[1] == 0x72 && d[2] == 0x65 && d[3] == 0x65 {
                    proof {
                        assert(d@.subrange(0, 4) =~= tree_magic());
                    }
                    let version = read_u32_be(d, 4);
                    version == 1
                } else {
                    proof {
                        if d@.len() >= 21 && d@.subrange(0, 4) == tree_magic() {
                            assert(d@[0] == d@.subrange(0, 4)[0]);
                            assert(d@[1] == d@.subrange(0, 4)[1]);
                            assert(d@[2] == d@.subrange(0, 4)[2]);
                            assert(d@[3] == d@.subrange(0, 4)[3]);
                        }
                    }
                    false
                }
            },
            None => false,
        }
    }

    /// Resolve `variable_name` to a tree and gather its key/value pairs in
    /// leaf-chain order: exactly what `spec_variable_get` and
    /// `spec_tree_result` say for this archive, including each error case.
    pub fn tree_entries(&self, variable_name: &str) -> (r: Result<Vec<BomTreeEntry>, BomError>)
        requires
            self@.wf(),
        ensures
            match spec_variable_get(self@, variable_name@) {
                None => r matches Err(BomError::TreeNotFound(n)) && n@ == variable_name@,
                Some(ti) => match spec_tree_result(self@, ti) {
                    Ok(s) => r matches Ok(es) && tree_entries_view(es@) == s,
                    Err(e) => r matches Err(e2) && e2 == e,
                },
            },
    {
        let tree_index = match self.variable_get(variable_name) {
            Some(t) => t,
            None => {
                return Err(BomError::TreeNotFound(variable_name.to_owned()));
            },
        };

        let tree_data = match self.index_get(tree_index) {
            Some(d) => d,
            None => {
                return Err(BomError::IndexOutOfRange(tree_index));
            },
        };

        if tree_data.len() < 21 {
            return Err(BomError::InvalidTreeMagic);
        }
        if !(tree_data[0] == 0x74 && tree_data[1] == 0x72 && tree_data[2] == 0x65 && tree_data[3]
            == 0x65) {
            proof {
                if tree_data@.subrange(0, 4) == tree_magic() {
                    assert(tree_data@[0] == tree_data@.subrange(0, 4)[0]);
                    assert(tree_data@[1] == tree_data@.subrange(0, 4)[1]);
                    assert(tree_data@[2] == tree_data@.subrange(0, 4)[2]);
                    assert(tree_data@[3] == tree_data@.subrange(0, 4)[3]);
                }
            }
            return Err(BomError::InvalidTreeMagic);
        }
        proof {
            assert(tree_data@.subrange(0, 4) =~= tree_magic());
        }

        let tree_version = read_u32_be(tree_data, 4);
        if tree_version != 1 {
            return Err(BomError::InvalidTreeVersion);
        }

        let child_index = read_u32_be(tree_data, 8);
        self.collect_chain(child_index)
    }

    /// Walk the node chain from `start`, with the fuel bound
    /// `spec_collect` is stated over.
    #[verifier::rlimit(100)]
    #[verifier::spinoff_prover]
    fn collect_chain(&self, start: u32) -> (r: Result<Vec<BomTreeEntry>, BomError>)
        requires
            self@.wf(),
        ensures
            match spec_collect(self@, start, (self@.index_count + 1) as nat) {
                Ok(s) => r matches Ok(es) && tree_entries_view(es@) == s,
                Err(e) => r matches Err(e2) && e2 == e,
            },
    {
        let ghost fuel0: nat = (self@.index_count + 1) as nat;
        let ghost goal = spec_collect(self@, start, fuel0);
        let mut entries: Vec<BomTreeEntry> = Vec::new();
        let mut cur: u32 = start;
        let mut fuel: u64 = self.index_count as u64 + 1;
        proof {
            assert(tree_entries_view(entries@) =~= Seq::<(Seq<u8>, Seq<u8>)>::empty());
        }

        loop
            invariant_except_break
                match spec_collect(self@, cur, fuel as nat) {
                    Ok(rest) => goal == Ok::<Seq<(Seq<u8>, Seq<u8>)>, BomError>(
                        tree_entries_view(entries@) + rest,
                    ),
                    Err(e) => goal == Err::<Seq<(Seq<u8>, Seq<u8>)>, BomError>(e),
                },
            invariant
                self@.wf(),
                goal == spec_collect(self@, start, fuel0),
                fuel0 == (self@.index_count + 1) as nat,
            ensures
                goal == Ok::<Seq<(Seq<u8>, Seq<u8>)>, BomError>(tree_entries_view(entries@)),
            decreases fuel,
        {
            if fuel == 0 {
                return Err(BomError::CorruptTree);
            }

            let entry_data = match self.index_get(cur) {
                Some(d) => d,
                None => {
                    return Err(BomError::IndexOutOfRange(cur));
                },
            };

            if entry_data.len() < 12 {
                return Err(BomError::DataOutOfBounds);
            }

            let is_leaf = read_u16_be(entry_data, 0);
            let count = read_u16_be(entry_data, 2);
            let forward = read_u32_be(entry_data, 4);

            if is_leaf == 0 {
                if count > 0 && entry_data.len() >= 20 {
                    let child = read_u32_be(entry_data, 12);
                    cur = child;
                    fuel = fuel - 1;
                } else {
                    proof {
                        assert(tree_entries_view(entries@) + Seq::<(Seq<u8>, Seq<u8>)>::empty()
                            =~= tree_entries_view(entries@));
                    }
                    break ;
                }
            } else {
                let ghost nd = entry_data@;
                let count_us = count as usize;
                if entry_data.len() < 12 + 8 * count_us {
                    proof {
                        assert(spec_block(self@, cur) == Some(nd));
                        assert(spec_collect(self@, cur, fuel as nat)
                            == Err::<Seq<(Seq<u8>, Seq<u8>)>, BomError>(BomError::DataOutOfBounds));
                    }
                    return Err(BomError::DataOutOfBounds);
                }
                let ghost base = tree_entries_view(entries@);
                let mut j: usize = 0;

                while j < count_us
                    invariant
                        self@.wf(),
                        nd == entry_data@,
                        count_us == count,
                        j <= count_us,
                        12 + 8 * (count as int) <= nd.len(),
                        goal == spec_collect(self@, start, fuel0),
                        fuel0 == (self@.index_count + 1) as nat,
                        fuel >= 1,
                        spec_block(self@, cur) == Some(nd),
                        r16(nd, 0) == is_leaf,
                        is_leaf != 0,
                        r16(nd, 2) == count,
                        r32(nd, 4) == forward,
                        match spec_collect(self@, cur, fuel as nat) {
                            Ok(rest) => goal == Ok::<Seq<(Seq<u8>, Seq<u8>)>, BomError>(
                                base + rest,
                            ),
                            Err(e) => goal == Err::<Seq<(Seq<u8>, Seq<u8>)>, BomError>(e),
                        },
                        match spec_leaf_pairs(self@, nd, j as int, count as int) {
                            Ok(rest) => (match spec_leaf_pairs(self@, nd, 0, count as int) {
                                Ok(full) => tree_entries_view(entries@) + rest == base + full,
                                Err(_) => false,
                            }),
                            Err(e) => spec_leaf_pairs(self@, nd, 0, count as int) == Err::<
                                Seq<(Seq<u8>, Seq<u8>)>,
                                BomError,
                            >(e),
                        },
                    decreases count_us - j,
                {
                    let idx_offset = 12 + 8 * j;
                    let value_index = read_u32_be(entry_data, idx_offset);
                    let key_index = read_u32_be(entry_data, idx_offset + 4);

                    let key_data: Vec<u8> = match self.index_get(key_index) {
                        Some(s) => vstd::slice::slice_to_vec(s),
                        None => {
                            proof {
                                assert(spec_leaf_pairs(self@, nd, j as int, count as int)
                                    == Err::<Seq<(Seq<u8>, Seq<u8>)>, BomError>(
                                    BomError::IndexOutOfRange(key_index),
                                ));
                                assert(spec_collect(self@, cur, fuel as nat) == Err::<
                                    Seq<(Seq<u8>, Seq<u8>)>,
                                    BomError,
                                >(BomError::IndexOutOfRange(key_index)));
                            }
                            return Err(BomError::IndexOutOfRange(key_index));
                        },
                    };
                    let value_data: Vec<u8> = match self.index_get(value_index) {
                        Some(s) => vstd::slice::slice_to_vec(s),
                        None => {
                            proof {
                                assert(spec_leaf_pairs(self@, nd, j as int, count as int)
                                    == Err::<Seq<(Seq<u8>, Seq<u8>)>, BomError>(
                                    BomError::IndexOutOfRange(value_index),
                                ));
                                assert(spec_collect(self@, cur, fuel as nat) == Err::<
                                    Seq<(Seq<u8>, Seq<u8>)>,
                                    BomError,
                                >(BomError::IndexOutOfRange(value_index)));
                            }
                            return Err(BomError::IndexOutOfRange(value_index));
                        },
                    };
                    let ghost old_entries = entries@;
                    let ghost pair = (key_data@, value_data@);
                    entries.push(BomTreeEntry { key: key_data, value: value_data });
                    proof {
                        assert(tree_entries_view(entries@) =~= tree_entries_view(old_entries)
                            + seq![pair]);
                        match spec_leaf_pairs(self@, nd, j as int + 1, count as int) {
                            Ok(rest2) => {
                                assert(spec_leaf_pairs(self@, nd, j as int, count as int) == Ok::<
                                    Seq<(Seq<u8>, Seq<u8>)>,
                                    BomError,
                                >(seq![pair] + rest2));
                                assert((tree_entries_view(old_entries) + (seq![pair] + rest2))
                                    =~= (tree_entries_view(entries@) + rest2));
                            },
                            Err(_) => {},
                        }
                    }
                    j = j + 1;
                }

                proof {
                    assert(spec_leaf_pairs(self@, nd, count as int, count as int) == Ok::<
                        Seq<(Seq<u8>, Seq<u8>)>,
                        BomError,
                    >(Seq::empty()));
                    assert(spec_leaf_pairs(self@, nd, 0, count as int) is Ok);
                    let here = spec_leaf_pairs(self@, nd, 0, count as int)->Ok_0;
                    assert(tree_entries_view(entries@) + Seq::<(Seq<u8>, Seq<u8>)>::empty()
                        =~= tree_entries_view(entries@));
                    assert(tree_entries_view(entries@) == base + here);
                    assert(spec_block(self@, cur) == Some(nd));
                    assert(r16(nd, 0) == is_leaf && r16(nd, 2) == count && r32(nd, 4) == forward);
                    assert(spec_collect(self@, cur, fuel as nat) == (if forward != 0 {
                        match spec_collect(self@, forward, (fuel - 1) as nat) {
                            Ok(rest) => Ok::<Seq<(Seq<u8>, Seq<u8>)>, BomError>(here + rest),
                            Err(e) => Err::<Seq<(Seq<u8>, Seq<u8>)>, BomError>(e),
                        }
                    } else {
                        Ok::<Seq<(Seq<u8>, Seq<u8>)>, BomError>(here)
                    }));
                    if forward != 0 {
                        match spec_collect(self@, forward, (fuel - 1) as nat) {
                            Ok(rest) => {
                                assert((base + here) + rest =~= base + (here + rest));
                            },
                            Err(_) => {},
                        }
                    }
                }
                if forward != 0 {
                    cur = forward;
                    fuel = fuel - 1;
                } else {
                    break ;
                }
            }
        }

        Ok(entries)
    }
}

} // verus!
