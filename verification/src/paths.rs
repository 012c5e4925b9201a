//! Fixed-layout path records stored in the `Paths` tree of a BOM archive:
//! the tree key (`FileKey`), the tree value (`PathInfo1`), the metadata
//! block it points at (`PathInfo2`), and parent-chain path resolution.

use vstd::prelude::*;

use std::collections::HashMap;

use vstd::string::StringExecFns;
use vstd::string::StringSliceAdditionalSpecFns;
use vstd::utf8::{decode_utf8, encode_utf8, valid_utf8};

use crate::bom::BomError;
use crate::bytes::{be16, be32, push_u16_be, push_u32_be, r16, r32, read_u16_be, read_u32_be};
use crate::strutil::{spec_utf8_lossy, utf8_lossy};

verus! {

broadcast use vstd::std_specs::hash::group_hash_axioms;

/// What kind of filesystem entry a path record describes.
#[derive(Debug, Clone, Copy, PartialEq, Eq, Structural)]
pub enum PathType {
    File,
    Directory,
    Link,
    Device,
}

/// The type a stored type byte denotes; unknown codes count as files.
pub open spec fn spec_path_type(b: u8) -> PathType {
    if b == 1 {
        PathType::File
    } else if b == 2 {
        PathType::Directory
    } else if b == 3 {
        PathType::Link
    } else if b == 4 {
        PathType::Device
    } else {
        PathType::File
    }
}

/// The tree value of a path entry: the entry's id and the block number of
/// its `PathInfo2` metadata.
#[derive(Debug, Clone)]
pub struct PathInfo1 {
    pub id: u32,
    pub index: u32,
}

impl PathInfo1 {
    /// Decode from a block: two big-endian words, or `None` under 8 bytes.
    pub fn from_bytes(data: &[u8]) -> (r: Option<PathInfo1>)
        ensures
            data@.len() < 8 ==> r is None,
            data@.len() >= 8 ==> (r matches Some(p) && p.id == r32(data@, 0) && p.index == r32(
                data@,
                4,
            )),
    {
        if data.len() < 8 {
            return None;
        }
        Some(PathInfo1 { id: read_u32_be(data, 0), index: read_u32_be(data, 4) })
    }

    /// Encode as two big-endian words.
    pub fn to_bytes(&self) -> (r: Vec<u8>)
        ensures
            r@ == be32(self.id) + be32(self.index),
    {
        let mut data: Vec<u8> = Vec::new();
        push_u32_be(&mut data, self.id);
        push_u32_be(&mut data, self.index);
        data
    }
}

/// The filesystem metadata block of a path entry.
#[derive(Debug, Clone)]
pub struct PathInfo2 {
    pub path_type: u8,
    pub architecture: u16,
    pub mode: u16,
    pub user: u32,
    pub group: u32,
    pub modtime: u32,
    pub size: u32,
    pub checksum: u32,
    pub link_name: String,
}

/// The stored checksum, or 0 where the optional tail is missing.
pub open spec fn spec_pi2_checksum(d: Seq<u8>) -> u32 {
    if d.len() >= 27 {
        r32(d, 23)
    } else {
        0u32
    }
}

/// The symlink-target bytes, or empty where the optional tail is missing
/// or truncated.
pub open spec fn spec_pi2_link_bytes(d: Seq<u8>) -> Seq<u8> {
    if d.len() >= 31 {
        let link_len = r32(d, 27) as int;
        if d.len() >= 31 + link_len {
            d.subrange(31, 31 + link_len)
        } else {
            Seq::empty()
        }
    } else {
        Seq::empty()
    }
}

impl PathInfo2 {
    /// Decode from a block.  22 bytes carry the required fields; checksum
    /// and symlink target are optional tails that default to 0 and empty.
    pub fn from_bytes(data: &[u8]) -> (r: Option<PathInfo2>)
        ensures
            data@.len() < 22 ==> r is None,
            data@.len() >= 22 ==> (r matches Some(p) && {
                &&& p.path_type == data@[0]
                &&& p.architecture == r16(data@, 2)
                &&& p.mode == r16(data@, 4)
                &&& p.user == r32(data@, 6)
                &&& p.group == r32(data@, 10)
                &&& p.modtime == r32(data@, 14)
                &&& p.size == r32(data@, 18)
                &&& p.checksum == spec_pi2_checksum(data@)
                &&& p.link_name@ == spec_utf8_lossy(spec_pi2_link_bytes(data@))
            }),
    {
        if data.len() < 22 {
            return None;
        }
        let path_type = data[0];
        let architecture = read_u16_be(data, 2);
        let mode = read_u16_be(data, 4);
        let user = read_u32_be(data, 6);
        let group = read_u32_be(data, 10);
        let modtime = read_u32_be(data, 14);
        let size = read_u32_be(data, 18);
        let checksum = if data.len() >= 27 {
            read_u32_be(data, 23)
        } else {
            0
        };
        let link_name = if data.len() >= 31 {
            let link_len_32 = read_u32_be(data, 27);
            let link_len = link_len_32 as usize;
            if data.len() as u64 >= 31 + link_len_32 as u64 {
                utf8_lossy(&data[31..31 + link_len])
            } else {
                String::new()
            }
        } else {
            String::new()
        };

        proof {
            assert(valid_utf8(Seq::<u8>::empty()));
            assert(decode_utf8(Seq::<u8>::empty()) =~= Seq::<char>::empty());
        }
        Some(
            PathInfo2 {
                path_type,
                architecture,
                mode,
                user,
                group,
                modtime,
                size,
                checksum,
                link_name,
            },
        )
    }

    /// The type the stored byte denotes; unknown codes count as files.
    pub fn path_type(&self) -> (r: PathType)
        ensures
            r == spec_path_type(self.path_type),
    {
        match self.path_type {
            1 => PathType::File,
            2 => PathType::Directory,
            3 => PathType::Link,
            4 => PathType::Device,
            _ => PathType::File,
        }
    }

    /// Encode with the full optional tail: a regular device-type byte, the
    /// checksum, and the symlink target with its length word.
    pub fn to_bytes(&self) -> (r: Vec<u8>)
        requires
            encode_utf8(self.link_name@).len() <= u32::MAX,
        ensures
            r@ == seq![self.path_type, 0u8] + be16(self.architecture) + be16(self.mode) + be32(
                self.user,
            ) + be32(self.group) + be32(self.modtime) + be32(self.size) + seq![1u8] + be32(
                self.checksum,
            ) + be32(encode_utf8(self.link_name@).len() as u32) + encode_utf8(self.link_name@),
    {
        let mut data: Vec<u8> = Vec::new();
        data.push(self.path_type);
        data.push(0);
        push_u16_be(&mut data, self.architecture);
        push_u16_be(&mut data, self.mode);
        push_u32_be(&mut data, self.user);
        push_u32_be(&mut data, self.group);
        push_u32_be(&mut data, self.modtime);
        push_u32_be(&mut data, self.size);
        data.push(1);
        push_u32_be(&mut data, self.checksum);
        let link_bytes: &[u8] = self.link_name.as_str().as_bytes();
        push_u32_be(&mut data, link_bytes.len() as u32);
        data.extend_from_slice(link_bytes);
        proof {
            assert(data@ =~= seq![self.path_type, 0u8] + be16(self.architecture) + be16(self.mode)
                + be32(self.user) + be32(self.group) + be32(self.modtime) + be32(self.size)
                + seq![1u8] + be32(self.checksum) + be32(encode_utf8(self.link_name@).len() as u32)
                + encode_utf8(self.link_name@));
        }
        data
    }
}

/// The tree key of a path entry: parent id and entry name.
#[derive(Debug, Clone)]
pub struct FileKey {
    pub parent: u32,
    pub name: String,
}

/// The index of the first NUL byte of `d` at or after `from`, or the
/// length where there is none.
pub open spec fn spec_first_nul(d: Seq<u8>, from: int) -> int
    decreases d.len() - from,
{
    if from < 0 || from >= d.len() {
        d.len() as int
    } else if d[from] == 0 {
        from
    } else {
        spec_first_nul(d, from + 1)
    }
}

/// The name bytes of an encoded file key: everything from byte 4 up to
/// (not including) the first NUL.
pub open spec fn spec_file_key_name_bytes(d: Seq<u8>) -> Seq<u8> {
    d.subrange(4, spec_first_nul(d, 4))
}

impl FileKey {
    /// Decode from a block: a big-endian parent id, then name bytes up to
    /// the first NUL; `None` under 5 bytes.
    pub fn from_bytes(data: &[u8]) -> (r: Option<FileKey>)
        ensures
            data@.len() < 5 ==> r is None,
            data@.len() >= 5 ==> (r matches Some(k) && k.parent == r32(data@, 0) && k.name@
                == spec_utf8_lossy(spec_file_key_name_bytes(data@))),
    {
        if data.len() < 5 {
            return None;
        }
        let parent = read_u32_be(data, 0);
        let mut end: usize = 4;
        while end < data.len() && data[end] != 0
            invariant
                4 <= end <= data@.len(),
                spec_first_nul(data@, 4) == spec_first_nul(data@, end as int),
            decreases data@.len() - end,
        {
            end = end + 1;
        }
        proof {
            assert(spec_first_nul(data@, end as int) == end);
        }
        let name = utf8_lossy(&data[4..end]);
        Some(FileKey { parent, name })
    }

    /// Encode as a big-endian parent id, the name bytes, and a NUL.
    pub fn to_bytes(&self) -> (r: Vec<u8>)
        ensures
            r@ == be32(self.parent) + encode_utf8(self.name@) + seq![0u8],
    {
        let mut data: Vec<u8> = Vec::new();
        push_u32_be(&mut data, self.parent);
        data.extend_from_slice(self.name.as_str().as_bytes());
        data.push(0);
        proof {
            assert(data@ =~= be32(self.parent) + encode_utf8(self.name@) + seq![0u8]);
        }
        data
    }
}

/// The path that the parent chain of (`name`, `parent`) spells: each
/// known ancestor's name is prepended with a slash, until an id has no
/// entry.  `fuel` bounds the walk; a chain that exhausts it revisits
/// some id, so only a cyclic (corrupt) map fails with `CorruptTree`.
pub open spec fn spec_resolve_path(
    name: Seq<char>,
    parent: u32,
    files: Map<u32, (u32, String)>,
    fuel: nat,
) -> Result<Seq<char>, BomError>
    decreases fuel,
{
    if !files.contains_key(parent) {
        Ok(name)
    } else if fuel == 0 {
        Err(BomError::CorruptTree)
    } else {
        spec_resolve_path(
            files[parent].1@ + seq!['/'] + name,
            files[parent].0,
            files,
            (fuel - 1) as nat,
        )
    }
}

/// Walk up the parent chain of `file_key` through `files`, prepending
/// each ancestor's name: at most one step per map entry, which every
/// acyclic chain stays within, so a cyclic (corrupt) map fails with a
/// distinct error instead of looping.
pub fn resolve_path(file_key: &FileKey, files: &HashMap<u32, (u32, String)>) -> (r: Result<
    String,
    BomError,
>)
    ensures
        match spec_resolve_path(file_key.name@, file_key.parent, files@, files@.len() + 1) {
            Ok(p) => (r matches Ok(s) && s@ == p),
            Err(e) => (r matches Err(e2) && e2 == e),
        },
{
    let ghost fuel0: nat = files@.len() + 1;
    let ghost goal = spec_resolve_path(file_key.name@, file_key.parent, files@, fuel0);
    let mut path: String = file_key.name.clone();
    let mut next: u32 = file_key.parent;
    let mut fuel: u128 = files.len() as u128 + 1;

    loop
        invariant_except_break
            fuel as nat <= fuel0,
            goal == spec_resolve_path(path@, next, files@, fuel as nat),
        invariant
            fuel0 == files@.len() + 1,
            goal == spec_resolve_path(file_key.name@, file_key.parent, files@, fuel0),
        ensures
            goal == Ok::<Seq<char>, BomError>(path@),
        decreases fuel,
    {
        match files.get(&next) {
            Some(pair) => {
                if fuel == 0 {
                    proof {
                        assert(goal == Err::<Seq<char>, BomError>(BomError::CorruptTree));
                    }
                    return Err(BomError::CorruptTree);
                }
                let mut prefix: String = pair.1.clone();
                prefix.append("/");
                prefix.append(path.as_str());
                proof {
                    reveal_strlit("/");
                    assert(("/")@ =~= seq!['/']);
                    assert(prefix@ == files@[next].1@ + seq!['/'] + path@);
                }
                path = prefix;
                next = pair.0;
                fuel = fuel - 1;
            },
            None => {
                break ;
            },
        }
    }
    Ok(path)
}

} // verus!
