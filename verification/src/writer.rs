//! Writer for BOM archives: collect blocks and variables, lay a keyed tree
//! over them, and serialize the whole archive into one byte buffer.
//!
//! The tree is an append-only log dressed as a tree: entries keep their
//! input order, chunked into leaves of at most 256 pairs that are chained
//! through forward pointers under a single tree-header block.  Every block
//! the tree creates sits at a closed-form index, which is what the
//! round-trip argument in [`crate::roundtrip`] is built on.

use vstd::prelude::*;

use vstd::string::StringSliceAdditionalSpecFns;
use vstd::utf8::encode_utf8;

use crate::bom::{bom_magic, tree_magic};
use crate::bytes::{be16, be32, push_u16_be, push_u32_be};

verus! {

/// The mathematical content of a writer: the block list (block 0 reserved
/// and empty) and the named variables.
pub ghost struct WriterView {
    pub blocks: Seq<Seq<u8>>,
    pub vars: Seq<(Seq<char>, u32)>,
}

impl WriterView {
    /// What `BomWriter::new` establishes and every method keeps: at least
    /// the reserved block, block numbers that fit `u32`, and variable
    /// names whose UTF-8 form fits the one-byte length field.
    pub open spec fn wf(self) -> bool {
        &&& self.blocks.len() >= 1
        &&& self.blocks.len() <= u32::MAX
        &&& self.vars.len() <= u32::MAX
        &&& forall|i: int|
            0 <= i < self.vars.len() ==> encode_utf8((#[trigger] self.vars[i]).0).len() <= 255
    }
}

/// The view of an executable entry list: each pair as its key and value
/// bytes.
pub open spec fn pairs_view(s: Seq<(Vec<u8>, Vec<u8>)>) -> Seq<(Seq<u8>, Seq<u8>)> {
    s.map(|i: int, p: (Vec<u8>, Vec<u8>)| (p.0@, p.1@))
}

/// How many leaves a tree over `n` entries has: one per 256 entries, and a
/// single empty leaf when there are none.
pub open spec fn num_leaves(n: int) -> int {
    if n == 0 {
        1
    } else {
        (n + 255) / 256
    }
}

/// How many entries leaf `j` holds.
pub open spec fn chunk_len(n: int, j: int) -> int {
    if n - 256 * j < 256 {
        n - 256 * j
    } else {
        256
    }
}

/// The block number holding the value bytes of entry `e`, for a tree built
/// when the writer already had `base` blocks.
pub open spec fn value_block_index(base: int, e: int) -> int {
    base + 513 * (e / 256) + 2 * (e % 256)
}

/// The block number holding the key bytes of entry `e`.
pub open spec fn key_block_index(base: int, e: int) -> int {
    value_block_index(base, e) + 1
}

/// The block number of leaf `j`.
pub open spec fn leaf_block_index(base: int, n: int, j: int) -> int {
    base + 513 * j + 2 * chunk_len(n, j)
}

/// The block number of the tree-header block, which `build_tree` returns.
pub open spec fn tree_root_index(base: int, n: int) -> int {
    base + 2 * n + num_leaves(n)
}

/// The forward pointer of leaf `j`: the next leaf, or 0 on the last.
pub open spec fn leaf_forward(base: int, n: int, j: int) -> u32 {
    if j + 1 < num_leaves(n) {
        leaf_block_index(base, n, j + 1) as u32
    } else {
        0u32
    }
}

/// The bytes of the entry records of leaf `j` from pair `p` on: each pair
/// is the value block number then the key block number.
pub open spec fn leaf_pairs_bytes(base: int, n: int, j: int, p: int) -> Seq<u8>
    decreases chunk_len(n, j) - p,
{
    if p >= chunk_len(n, j) {
        Seq::empty()
    } else {
        be32(value_block_index(base, 256 * j + p) as u32) + be32(
            key_block_index(base, 256 * j + p) as u32,
        ) + leaf_pairs_bytes(base, n, j, p + 1)
    }
}

/// The full bytes of leaf block `j`.
pub open spec fn leaf_block_bytes(base: int, n: int, j: int) -> Seq<u8> {
    be16(1) + be16(chunk_len(n, j) as u16) + be32(leaf_forward(base, n, j)) + be32(0)
        + leaf_pairs_bytes(base, n, j, 0)
}

/// The bytes of the tree-header block: magic, version 1, first leaf,
/// nominal block size, entry count, one reserved byte.
pub open spec fn tree_header_bytes(child: u32, path_count: u32) -> Seq<u8> {
    tree_magic() + be32(1) + be32(child) + be32(4096) + be32(path_count) + seq![0u8]
}

/// What `build_tree` leaves behind when the writer had `base` blocks: the
/// key, value, leaf and header blocks all at their closed-form numbers.
pub open spec fn tree_blocks_built(
    blocks: Seq<Seq<u8>>,
    base: int,
    entries: Seq<(Seq<u8>, Seq<u8>)>,
    root: int,
) -> bool {
    let n = entries.len() as int;
    let k = num_leaves(n);
    &&& root == tree_root_index(base, n)
    &&& blocks.len() == root + 1
    &&& forall|e: int|
        0 <= e < n ==> blocks[value_block_index(base, e)] == (#[trigger] entries[e]).1 && blocks[
            key_block_index(base, e)
        ] == entries[e].0
    &&& forall|j: int|
        0 <= j < k ==> blocks[#[trigger] leaf_block_index(base, n, j)] == leaf_block_bytes(
            base,
            n,
            j,
        )
    &&& blocks[root] == tree_header_bytes(
        leaf_block_index(base, n, 0) as u32,
        entries.len() as u32,
    )
}

/// The total length of blocks `0..i`.
pub open spec fn prefix_len(blocks: Seq<Seq<u8>>, i: int) -> int
    decreases i,
{
    if i <= 0 {
        0
    } else {
        prefix_len(blocks, i - 1) + blocks[i - 1].len()
    }
}

/// The bytes of blocks `i..` laid end to end.
pub open spec fn body_bytes(blocks: Seq<Seq<u8>>, i: int) -> Seq<u8>
    decreases blocks.len() - i,
{
    if i < 0 || i >= blocks.len() {
        Seq::empty()
    } else {
        blocks[i] + body_bytes(blocks, i + 1)
    }
}

/// The index-table records for blocks `i..`: each block's address (it sits
/// after the 32-byte header at its prefix offset) and length.
pub open spec fn index_table_bytes(blocks: Seq<Seq<u8>>, i: int) -> Seq<u8>
    decreases blocks.len() - i,
{
    if i < 0 || i >= blocks.len() {
        Seq::empty()
    } else {
        be32((32 + prefix_len(blocks, i)) as u32) + be32(blocks[i].len() as u32)
            + index_table_bytes(blocks, i + 1)
    }
}

/// One variable record: block number, name length, name bytes.
pub open spec fn var_record_bytes(v: (Seq<char>, u32)) -> Seq<u8> {
    be32(v.1) + seq![encode_utf8(v.0).len() as u8] + encode_utf8(v.0)
}

/// The variable records for variables `i..`.
pub open spec fn vars_table_bytes(vars: Seq<(Seq<char>, u32)>, i: int) -> Seq<u8>
    decreases vars.len() - i,
{
    if i < 0 || i >= vars.len() {
        Seq::empty()
    } else {
        var_record_bytes(vars[i]) + vars_table_bytes(vars, i + 1)
    }
}

/// Where the index table starts: after the header and every block.
pub open spec fn spec_index_offset(w: WriterView) -> int {
    32 + prefix_len(w.blocks, w.blocks.len() as int)
}

/// The index table's length: a count word and one record per block.
pub open spec fn spec_index_size(w: WriterView) -> int {
    4 + 8 * w.blocks.len() as int
}

/// Where the variables table starts: right after the index table.
pub open spec fn spec_vars_offset(w: WriterView) -> int {
    spec_index_offset(w) + spec_index_size(w)
}

/// The variables table's length: a count word and the records.
pub open spec fn spec_vars_size(w: WriterView) -> int {
    4 + vars_table_bytes(w.vars, 0).len() as int
}

/// The serialized archive: header, blocks, index table, variables table.
pub open spec fn spec_serialize(w: WriterView) -> Seq<u8> {
    bom_magic() + be32(1) + be32(w.blocks.len() as u32) + be32(spec_index_offset(w) as u32) + be32(
        spec_index_size(w) as u32,
    ) + be32(spec_vars_offset(w) as u32) + be32(spec_vars_size(w) as u32) + body_bytes(w.blocks, 0)
        + be32(w.blocks.len() as u32) + index_table_bytes(w.blocks, 0) + be32(w.vars.len() as u32)
        + vars_table_bytes(w.vars, 0)
}

/// Prefix lengths are non-negative and grow with the index.
pub proof fn lemma_prefix_len_mono(blocks: Seq<Seq<u8>>, i: int, j: int)
    requires
        0 <= i <= j,
    ensures
        0 <= prefix_len(blocks, i) <= prefix_len(blocks, j),
    decreases j,
{
    if j > 0 {
        lemma_prefix_len_mono(
            blocks,
            if i < j {
                i
            } else {
                j - 1
            },
            j - 1,
        );
    }
}

/// A writer for building a BOM archive in memory.
pub struct BomWriter {
    blocks: Vec<Vec<u8>>,
    variables: Vec<(String, u32)>,
}

impl View for BomWriter {
    type V = WriterView;

    closed spec fn view(&self) -> WriterView {
        WriterView {
            blocks: self.blocks@.map(|i: int, b: Vec<u8>| b@),
            vars: self.variables@.map(|i: int, v: (String, u32)| (v.0@, v.1)),
        }
    }
}

impl BomWriter {
    /// A writer holding only the reserved empty block 0 and no variables.
    pub fn new() -> (r: BomWriter)
        ensures
            r@.wf(),
            r@.blocks =~= seq![Seq::<u8>::empty()],
            r@.vars =~= Seq::<(Seq<char>, u32)>::empty(),
    {
        let mut blocks: Vec<Vec<u8>> = Vec::new();
        blocks.push(Vec::new());
        let w = BomWriter { blocks, variables: Vec::new() };
        proof {
            assert(w@.blocks =~= seq![Seq::<u8>::empty()]);
            assert(w@.vars =~= Seq::<(Seq<char>, u32)>::empty());
        }
        w
    }

    /// Append `data` as a new block and return its number.
    pub fn add_block(&mut self, data: Vec<u8>) -> (r: u32)
        requires
            old(self)@.wf(),
            old(self)@.blocks.len() < u32::MAX,
        ensures
            final(self)@.wf(),
            r == old(self)@.blocks.len(),
            final(self)@.blocks =~= old(self)@.blocks + seq![data@],
            final(self)@.vars == old(self)@.vars,
    {
        let idx = self.blocks.len() as u32;
        self.blocks.push(data);
        proof {
            assert(self@.blocks =~= old(self)@.blocks + seq![data@]);
            assert(self@.vars =~= old(self)@.vars);
        }
        idx
    }

    /// Record a named variable pointing at block `index`.  The name's
    /// UTF-8 form must fit the one-byte length field of the archive.
    pub fn add_variable(&mut self, name: &str, index: u32)
        requires
            old(self)@.wf(),
            old(self)@.vars.len() < u32::MAX,
            name.spec_bytes().len() <= 255,
        ensures
            final(self)@.wf(),
            final(self)@.blocks == old(self)@.blocks,
            final(self)@.vars =~= old(self)@.vars + seq![(name@, index)],
    {
        self.variables.push((name.to_owned(), index));
        proof {
            assert(self@.blocks =~= old(self)@.blocks);
            assert(self@.vars =~= old(self)@.vars + seq![(name@, index)]);
        }
    }

    /// Store `entries` as a tree — every value and key as its own block,
    /// the chained leaves over them, a tree-header block on top — and
    /// return the header's block number.  Entries keep their input order.
    pub fn build_tree(&mut self, entries: &[(Vec<u8>, Vec<u8>)]) -> (r: u32)
        requires
            old(self)@.wf(),
            old(self)@.blocks.len() + 2 * entries@.len() + num_leaves(entries@.len() as int) + 1
                <= u32::MAX,
        ensures
            final(self)@.wf(),
            final(self)@.vars == old(self)@.vars,
            final(self)@.blocks.subrange(0, old(self)@.blocks.len() as int) == old(self)@.blocks,
            r == tree_root_index(old(self)@.blocks.len() as int, entries@.len() as int),
            tree_blocks_built(
                final(self)@.blocks,
                old(self)@.blocks.len() as int,
                pairs_view(entries@),
                r as int,
            ),
    {
        let base = self.blocks.len();
        let n = entries.len();
        let k = if n == 0 {
            1
        } else {
            (n + 255) / 256
        };
        let ghost gbase = base as int;
        let ghost gn = n as int;
        let ghost ev = pairs_view(entries@);
        let ghost old_blocks = self@.blocks;
        proof {
            assert(k == num_leaves(gn));
            if n > 0 {
                vstd::arithmetic::div_mod::lemma_fundamental_div_mod((gn + 255) as int, 256);
            }
            assert(gn <= 256 * (k as int) && (k as int - 1) * 256 < gn || gn == 0);
            assert(self@.blocks.subrange(0, gbase) =~= old_blocks);
        }

        let mut j: usize = 0;
        while j < k
            invariant
                self@.wf(),
                self@.vars == old(self)@.vars,
                gbase == base,
                gn == n,
                gn == ev.len(),
                ev == pairs_view(entries@),
                k == num_leaves(gn),
                j <= k,
                gbase + 2 * gn + (k as int) + 1 <= u32::MAX,
                gn == 0 || (k as int - 1) * 256 < gn,
                gn <= 256 * (k as int),
                self@.blocks.len() == gbase + (if (j as int) < (k as int) {
                    513 * (j as int)
                } else {
                    2 * gn + (k as int)
                }),
                self@.blocks.subrange(0, gbase) == old_blocks,
                forall|e: int|
                    0 <= e < gn && e < 256 * (j as int) ==> self@.blocks[value_block_index(
                        gbase,
                        e,
                    )] == (#[trigger] ev[e]).1 && self@.blocks[key_block_index(gbase, e)] == ev[
                        e
                    ].0,
                forall|i: int|
                    0 <= i < j ==> self@.blocks[#[trigger] leaf_block_index(gbase, gn, i)]
                        == leaf_block_bytes(gbase, gn, i),
            decreases k - j,
        {
            let start = 256 * j;
            proof {
                if gn > 0 {
                    assert(256 * (j as int) <= 256 * (k as int - 1)) by (nonlinear_arith)
                        requires
                            (j as int) <= (k as int) - 1,
                    ;
                }
            }
            let cnt = if n - start >= 256 {
                256
            } else {
                n - start
            };
            proof {
                assert(cnt == chunk_len(gn, j as int));
            }
            let fwd: u32 = if j + 1 < k {
                proof {
                    assert(256 * (j as int + 1) <= 256 * (k as int - 1)) by (nonlinear_arith)
                        requires
                            (j as int) + 1 <= (k as int) - 1,
                    ;
                }
                let next_start = start + 256;
                let next_cnt = if n - next_start >= 256 {
                    256
                } else {
                    n - next_start
                };
                proof {
                    assert(next_cnt == chunk_len(gn, j as int + 1));
                    assert(gbase + 513 * (j as int + 1) + 2 * (next_cnt as int)
                        == leaf_block_index(gbase, gn, j as int + 1));
                }
                (base + 513 * (j + 1) + 2 * next_cnt) as u32
            } else {
                0
            };
            proof {
                assert(fwd == leaf_forward(gbase, gn, j as int));
            }

            let mut leaf_data: Vec<u8> = Vec::new();
            push_u16_be(&mut leaf_data, 1);
            push_u16_be(&mut leaf_data, cnt as u16);
            push_u32_be(&mut leaf_data, fwd);
            push_u32_be(&mut leaf_data, 0);
            let ghost leaf_head = be16(1) + be16(cnt as u16) + be32(fwd) + be32(0);
            proof {
                assert(leaf_data@ =~= leaf_head);
            }

            let mut p: usize = 0;
            while p < cnt
                invariant
                    self@.wf(),
                    self@.vars == old(self)@.vars,
                    gbase == base,
                    gn == n,
                    gn == ev.len(),
                    ev == pairs_view(entries@),
                    k == num_leaves(gn),
                    (j as int) < (k as int),
                    gbase + 2 * gn + (k as int) + 1 <= u32::MAX,
                    gn == 0 || (k as int - 1) * 256 < gn,
                    gn <= 256 * (k as int),
                    start == 256 * (j as int),
                    cnt == chunk_len(gn, j as int),
                    p <= cnt,
                    fwd == leaf_forward(gbase, gn, j as int),
                    leaf_head == be16(1) + be16(cnt as u16) + be32(fwd) + be32(0),
                    leaf_data@ + leaf_pairs_bytes(gbase, gn, j as int, p as int) =~= leaf_head
                        + leaf_pairs_bytes(gbase, gn, j as int, 0),
                    self@.blocks.len() == gbase + 513 * (j as int) + 2 * (p as int),
                    self@.blocks.subrange(0, gbase) == old_blocks,
                    forall|e: int|
                        0 <= e < gn && e < 256 * (j as int) + (p as int) ==> self@.blocks[
                            value_block_index(gbase, e)
                        ] == (#[trigger] ev[e]).1 && self@.blocks[key_block_index(gbase, e)] == ev[
                            e
                        ].0,
                    forall|i: int|
                        0 <= i < j ==> self@.blocks[#[trigger] leaf_block_index(gbase, gn, i)]
                            == leaf_block_bytes(gbase, gn, i),
                decreases cnt - p,
            {
                let e = start + p;
                proof {
                    vstd::arithmetic::div_mod::lemma_fundamental_div_mod_converse(
                        e as int,
                        256,
                        j as int,
                        p as int,
                    );
                    assert(e < gn);
                }
                let value_block = vstd::slice::slice_to_vec(entries[e].1.as_slice());
                let key_block = vstd::slice::slice_to_vec(entries[e].0.as_slice());
                let ghost blocks_before = self@.blocks;
                let vidx = self.add_block(value_block);
                let kidx = self.add_block(key_block);
                proof {
                    assert(vidx == value_block_index(gbase, e as int));
                    assert(kidx == key_block_index(gbase, e as int));
                    assert(self@.blocks[vidx as int] == ev[e as int].1);
                    assert(self@.blocks[kidx as int] == ev[e as int].0);
                    assert(self@.blocks.subrange(0, gbase) =~= old_blocks);
                }
                let ghost leaf_before = leaf_data@;
                push_u32_be(&mut leaf_data, vidx);
                push_u32_be(&mut leaf_data, kidx);
                proof {
                    assert(leaf_data@ =~= leaf_before + (be32(vidx) + be32(kidx)));
                    assert(leaf_pairs_bytes(gbase, gn, j as int, p as int) == (be32(
                        value_block_index(gbase, 256 * (j as int) + p as int) as u32,
                    ) + be32(key_block_index(gbase, 256 * (j as int) + p as int) as u32))
                        + leaf_pairs_bytes(gbase, gn, j as int, p as int + 1));
                    assert(leaf_data@ + leaf_pairs_bytes(gbase, gn, j as int, p as int + 1)
                        =~= leaf_head + leaf_pairs_bytes(gbase, gn, j as int, 0));
                }
                p = p + 1;
            }

            proof {
                assert(leaf_pairs_bytes(gbase, gn, j as int, cnt as int) =~= Seq::<u8>::empty());
                assert(leaf_data@ =~= leaf_head + leaf_pairs_bytes(gbase, gn, j as int, 0));
                assert(leaf_data@ == leaf_block_bytes(gbase, gn, j as int));
            }
            let ghost blocks_before_leaf = self@.blocks;
            let leaf_idx = self.add_block(leaf_data);
            proof {
                assert(leaf_idx == leaf_block_index(gbase, gn, j as int));
                assert(self@.blocks[leaf_idx as int] == leaf_block_bytes(gbase, gn, j as int));
                assert(self@.blocks.subrange(0, gbase) =~= old_blocks);
            }
            j = j + 1;
            proof {
                if (j as int) < (k as int) {
                    assert(cnt == 256);
                }
            }
        }

        let child: u32 = if n == 0 {
            base as u32
        } else if n >= 256 {
            (base + 512) as u32
        } else {
            (base + 2 * n) as u32
        };
        proof {
            assert(child == leaf_block_index(gbase, gn, 0) as u32);
        }

        let mut tree_data: Vec<u8> = Vec::new();
        tree_data.push(0x74);
        tree_data.push(0x72);
        tree_data.push(0x65);
        tree_data.push(0x65);
        push_u32_be(&mut tree_data, 1);
        push_u32_be(&mut tree_data, child);
        push_u32_be(&mut tree_data, 4096);
        push_u32_be(&mut tree_data, n as u32);
        tree_data.push(0);
        proof {
            assert(tree_data@ =~= tree_header_bytes(child, gn as u32));
        }

        let root = self.add_block(tree_data);
        proof {
            assert(root == tree_root_index(gbase, gn));
            assert(self@.blocks.subrange(0, gbase) =~= old_blocks);
            assert(tree_blocks_built(self@.blocks, gbase, ev, root as int));
        }
        root
    }

    /// Lay the archive out as one buffer — header, blocks in order, index
    /// table, variables table — returning exactly `spec_serialize` of this
    /// writer.  The whole archive must fit the header's `u32` offsets.
    pub fn serialize(&self) -> (out: Vec<u8>)
        requires
            self@.wf(),
            spec_vars_offset(self@) + spec_vars_size(self@) <= u32::MAX,
        ensures
            out@ == spec_serialize(self@),
    {
        let ghost w = self@;
        let nblocks32 = self.blocks.len() as u32;
        proof {
            lemma_prefix_len_mono(w.blocks, 0, w.blocks.len() as int);
        }

        let mut data_offset: u32 = 32;
        let mut i: usize = 0;
        while i < self.blocks.len()
            invariant
                w == self@,
                self@.wf(),
                i <= self@.blocks.len(),
                data_offset == 32 + prefix_len(w.blocks, i as int),
                spec_vars_offset(w) + spec_vars_size(w) <= u32::MAX,
            decreases self@.blocks.len() - i,
        {
            proof {
                lemma_prefix_len_mono(w.blocks, i as int + 1, w.blocks.len() as int);
            }
            data_offset = data_offset + self.blocks[i].len() as u32;
            i = i + 1;
        }
        proof {
            assert(data_offset == spec_index_offset(w));
        }

        let index_size: u32 = (4u64 + 8u64 * (nblocks32 as u64)) as u32;
        let vars_offset: u32 = data_offset + index_size;
        proof {
            assert(index_size == spec_index_size(w));
            assert(vars_offset == spec_vars_offset(w));
        }

        let mut vars_size: u32 = 4;
        let mut vi: usize = 0;
        while vi < self.variables.len()
            invariant
                w == self@,
                self@.wf(),
                vi <= self@.vars.len(),
                vars_size as int + vars_table_bytes(w.vars, vi as int).len() == spec_vars_size(w),
                spec_vars_offset(w) + spec_vars_size(w) <= u32::MAX,
            decreases self@.vars.len() - vi,
        {
            let name_len = self.variables[vi].0.as_str().len();
            proof {
                lemma_prefix_len_mono(w.blocks, 0, w.blocks.len() as int);
                assert(spec_vars_offset(w) >= 0);
                assert(w.vars[vi as int] == (self.variables@[vi as int].0@, self.variables@[
                    vi as int
                ].1));
                assert(vars_table_bytes(w.vars, vi as int) == var_record_bytes(w.vars[vi as int])
                    + vars_table_bytes(w.vars, vi as int + 1));
                assert(var_record_bytes(w.vars[vi as int]).len() == 5 + name_len);
            }
            vars_size = vars_size + 5 + name_len as u32;
            vi = vi + 1;
        }
        proof {
            assert(vars_size == spec_vars_size(w));
        }

        let mut out: Vec<u8> = Vec::new();
        out.push(0x42);
        out.push(0x4f);
        out.push(0x4d);
        out.push(0x53);
        out.push(0x74);
        out.push(0x6f);
        out.push(0x72);
        out.push(0x65);
        proof {
            assert(out@ =~= bom_magic());
        }
        push_u32_be(&mut out, 1);
        push_u32_be(&mut out, nblocks32);
        push_u32_be(&mut out, data_offset);
        push_u32_be(&mut out, index_size);
        push_u32_be(&mut out, vars_offset);
        push_u32_be(&mut out, vars_size);
        let ghost header = bom_magic() + be32(1) + be32(w.blocks.len() as u32) + be32(
            spec_index_offset(w) as u32,
        ) + be32(spec_index_size(w) as u32) + be32(spec_vars_offset(w) as u32) + be32(
            spec_vars_size(w) as u32,
        );
        proof {
            assert(out@ =~= header);
        }

        let mut i: usize = 0;
        while i < self.blocks.len()
            invariant
                w == self@,
                self@.wf(),
                i <= self@.blocks.len(),
                header == bom_magic() + be32(1) + be32(w.blocks.len() as u32) + be32(
                    spec_index_offset(w) as u32,
                ) + be32(spec_index_size(w) as u32) + be32(spec_vars_offset(w) as u32) + be32(
                    spec_vars_size(w) as u32,
                ),
                out@ + body_bytes(w.blocks, i as int) =~= header + body_bytes(w.blocks, 0),
            decreases self@.blocks.len() - i,
        {
            let ghost out_before = out@;
            out.extend_from_slice(self.blocks[i].as_slice());
            proof {
                assert(w.blocks[i as int] == self.blocks@[i as int]@);
                assert(body_bytes(w.blocks, i as int) == w.blocks[i as int] + body_bytes(
                    w.blocks,
                    i as int + 1,
                ));
                assert(out@ + body_bytes(w.blocks, i as int + 1) =~= header + body_bytes(
                    w.blocks,
                    0,
                ));
            }
            i = i + 1;
        }
        proof {
            assert(body_bytes(w.blocks, w.blocks.len() as int) =~= Seq::<u8>::empty());
            assert(out@ =~= header + body_bytes(w.blocks, 0));
        }

        push_u32_be(&mut out, nblocks32);
        let ghost before_table = out@;
        let mut off: u32 = 32;
        let mut i: usize = 0;
        while i < self.blocks.len()
            invariant
                w == self@,
                self@.wf(),
                i <= self@.blocks.len(),
                off == 32 + prefix_len(w.blocks, i as int),
                spec_vars_offset(w) + spec_vars_size(w) <= u32::MAX,
                out@ + index_table_bytes(w.blocks, i as int) =~= before_table + index_table_bytes(
                    w.blocks,
                    0,
                ),
            decreases self@.blocks.len() - i,
        {
            proof {
                lemma_prefix_len_mono(w.blocks, i as int + 1, w.blocks.len() as int);
            }
            let blen = self.blocks[i].len() as u32;
            push_u32_be(&mut out, off);
            push_u32_be(&mut out, blen);
            proof {
                assert(w.blocks[i as int] == self.blocks@[i as int]@);
                assert(index_table_bytes(w.blocks, i as int) == (be32(
                    (32 + prefix_len(w.blocks, i as int)) as u32,
                ) + be32(w.blocks[i as int].len() as u32)) + index_table_bytes(
                    w.blocks,
                    i as int + 1,
                ));
                assert(out@ + index_table_bytes(w.blocks, i as int + 1) =~= before_table
                    + index_table_bytes(w.blocks, 0));
            }
            off = off + blen;
            i = i + 1;
        }
        proof {
            assert(index_table_bytes(w.blocks, w.blocks.len() as int) =~= Seq::<u8>::empty());
            assert(out@ =~= before_table + index_table_bytes(w.blocks, 0));
        }

        push_u32_be(&mut out, self.variables.len() as u32);
        let ghost before_vars = out@;
        let mut vi: usize = 0;
        while vi < self.variables.len()
            invariant
                w == self@,
                self@.wf(),
                vi <= self@.vars.len(),
                out@ + vars_table_bytes(w.vars, vi as int) =~= before_vars + vars_table_bytes(
                    w.vars,
                    0,
                ),
            decreases self@.vars.len() - vi,
        {
            push_u32_be(&mut out, self.variables[vi].1);
            let nb: &[u8] = self.variables[vi].0.as_str().as_bytes();
            out.push(nb.len() as u8);
            out.extend_from_slice(nb);
            proof {
                assert(w.vars[vi as int] == (self.variables@[vi as int].0@, self.variables@[
                    vi as int
                ].1));
                assert(nb@ == encode_utf8(w.vars[vi as int].0));
                assert(vars_table_bytes(w.vars, vi as int) == var_record_bytes(w.vars[vi as int])
                    + vars_table_bytes(w.vars, vi as int + 1));
                assert(out@ + vars_table_bytes(w.vars, vi as int + 1) =~= before_vars
                    + vars_table_bytes(w.vars, 0));
            }
            vi = vi + 1;
        }
        proof {
            assert(vars_table_bytes(w.vars, w.vars.len() as int) =~= Seq::<u8>::empty());
            assert(out@ =~= before_vars + vars_table_bytes(w.vars, 0));
            assert(out@ =~= spec_serialize(w));
        }
        out
    }
}

} // verus!
