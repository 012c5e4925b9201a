//! The round-trip law: a tree built from any list of key/value byte pairs
//! and registered under a variable, once serialized, loads back as an
//! archive whose tree yields the same pairs in the same order.
//!
//! The argument composes the contracts of `BomWriter::build_tree` (which
//! pins every created block at a closed-form number), `BomWriter::serialize`
//! (which pins the archive bytes), and the reader's spec functions.

use vstd::prelude::*;

use vstd::utf8::encode_utf8;

use crate::bom::{
    bom_magic, spec_block, spec_collect, spec_find_var, spec_leaf_pairs, spec_load,
    spec_parse_vars, spec_tree_result, spec_variable_get, spec_variables, tree_magic, BomError,
    BomView,
};
use crate::bytes::{be16, be32, lemma_r16_be16, lemma_r16_frame, lemma_r32_be32, lemma_r32_frame,
    r16, r32};
use crate::writer::{
    body_bytes, chunk_len, index_table_bytes, key_block_index, leaf_block_bytes, leaf_block_index,
    leaf_forward, leaf_pairs_bytes, num_leaves, prefix_len, lemma_prefix_len_mono,
    spec_index_offset, spec_index_size, spec_serialize, spec_vars_offset, spec_vars_size,
    tree_blocks_built, tree_header_bytes, tree_root_index, value_block_index, var_record_bytes,
    vars_table_bytes, WriterView,
};

verus! {

/// A subrange taken inside the left part of a concatenation.
pub proof fn lemma_subrange_left(a: Seq<u8>, b: Seq<u8>, x: int, y: int)
    requires
        0 <= x <= y <= a.len(),
    ensures
        (a + b).subrange(x, y) == a.subrange(x, y),
{
    assert((a + b).subrange(x, y) =~= a.subrange(x, y));
}

/// A subrange taken inside the right part of a concatenation.
pub proof fn lemma_subrange_right(a: Seq<u8>, b: Seq<u8>, x: int, y: int)
    requires
        a.len() <= x <= y <= a.len() + b.len(),
    ensures
        (a + b).subrange(x, y) == b.subrange(x - a.len(), y - a.len()),
{
    assert((a + b).subrange(x, y) =~= b.subrange(x - a.len(), y - a.len()));
}

/// Read back a `u32` whose encoding sits at offset `off`.
pub proof fn lemma_r32_at(s: Seq<u8>, off: int, x: u32)
    requires
        0 <= off,
        off + 4 <= s.len(),
        s.subrange(off, off + 4) == be32(x),
    ensures
        r32(s, off) == x,
{
    assert(be32(x).subrange(0, 4) =~= be32(x));
    lemma_r32_frame(s, off, be32(x), 0);
    lemma_r32_be32(x);
}

/// Read back a `u16` whose encoding sits at offset `off`.
pub proof fn lemma_r16_at(s: Seq<u8>, off: int, x: u16)
    requires
        0 <= off,
        off + 2 <= s.len(),
        s.subrange(off, off + 2) == be16(x),
    ensures
        r16(s, off) == x,
{
    assert(be16(x).subrange(0, 2) =~= be16(x));
    lemma_r16_frame(s, off, be16(x), 0);
    lemma_r16_be16(x);
}

/// The length of the laid-out blocks is the total prefix length.
pub proof fn lemma_body_len(blocks: Seq<Seq<u8>>, i: int)
    requires
        0 <= i <= blocks.len(),
    ensures
        body_bytes(blocks, i).len() == prefix_len(blocks, blocks.len() as int) - prefix_len(
            blocks,
            i,
        ),
    decreases blocks.len() - i,
{
    if i < blocks.len() {
        lemma_body_len(blocks, i + 1);
        lemma_prefix_step(blocks, i + 1);
    }
}

/// Unfold one step of `prefix_len` from the top.
pub proof fn lemma_prefix_step(blocks: Seq<Seq<u8>>, i: int)
    requires
        1 <= i <= blocks.len(),
    ensures
        prefix_len(blocks, i) == prefix_len(blocks, i - 1) + blocks[i - 1].len(),
{
}

/// The index table's records take eight bytes per block.
pub proof fn lemma_index_table_len(blocks: Seq<Seq<u8>>, i: int)
    requires
        0 <= i <= blocks.len(),
    ensures
        index_table_bytes(blocks, i).len() == 8 * (blocks.len() - i),
    decreases blocks.len() - i,
{
    if i < blocks.len() {
        lemma_index_table_len(blocks, i + 1);
    }
}

/// The record of block `i` inside the index table built from block `j` on.
pub proof fn lemma_index_table_entry(blocks: Seq<Seq<u8>>, i: int, j: int)
    requires
        0 <= j <= i < blocks.len(),
    ensures
        index_table_bytes(blocks, j).subrange(8 * (i - j), 8 * (i - j) + 4) == be32(
            (32 + prefix_len(blocks, i)) as u32,
        ),
        index_table_bytes(blocks, j).subrange(8 * (i - j) + 4, 8 * (i - j) + 8) == be32(
            blocks[i].len() as u32,
        ),
    decreases i - j,
{
    let t = index_table_bytes(blocks, j);
    let a = be32((32 + prefix_len(blocks, j)) as u32);
    let b = be32(blocks[j].len() as u32);
    let rest = index_table_bytes(blocks, j + 1);
    lemma_index_table_len(blocks, j + 1);
    assert(t == (a + b) + rest);
    if i == j {
        lemma_subrange_left(a + b, rest, 0, 4);
        lemma_subrange_left(a, b, 0, 4);
        assert(a.subrange(0, 4) =~= a);
        lemma_subrange_left(a + b, rest, 4, 8);
        lemma_subrange_right(a, b, 4, 8);
        assert(b.subrange(0, 4) =~= b);
    } else {
        lemma_index_table_entry(blocks, i, j + 1);
        lemma_subrange_right(a + b, rest, 8 * (i - j), 8 * (i - j) + 4);
        lemma_subrange_right(a + b, rest, 8 * (i - j) + 4, 8 * (i - j) + 8);
    }
}

/// Block `i` sits at its prefix offset inside the laid-out blocks.
pub proof fn lemma_body_block(blocks: Seq<Seq<u8>>, i: int, j: int)
    requires
        0 <= j <= i < blocks.len(),
    ensures
        body_bytes(blocks, j).subrange(
            prefix_len(blocks, i) - prefix_len(blocks, j),
            prefix_len(blocks, i) - prefix_len(blocks, j) + blocks[i].len(),
        ) == blocks[i],
    decreases i - j,
{
    let body = body_bytes(blocks, j);
    let rest = body_bytes(blocks, j + 1);
    lemma_body_len(blocks, j + 1);
    lemma_prefix_len_mono(blocks, j, i);
    lemma_prefix_len_mono(blocks, 0, j);
    assert(body == blocks[j] + rest);
    if i == j {
        lemma_subrange_left(blocks[j], rest, 0, blocks[j].len() as int);
        assert(blocks[j].subrange(0, blocks[j].len() as int) =~= blocks[j]);
    } else {
        lemma_body_block(blocks, i, j + 1);
        lemma_prefix_step(blocks, j + 1);
        lemma_prefix_step(blocks, i + 1);
        lemma_prefix_len_mono(blocks, j + 1, i);
        lemma_prefix_len_mono(blocks, i + 1, blocks.len() as int);
        lemma_subrange_right(
            blocks[j],
            rest,
            prefix_len(blocks, i) - prefix_len(blocks, j),
            prefix_len(blocks, i) - prefix_len(blocks, j) + blocks[i].len(),
        );
    }
}

/// The serialized archive parses back to a well-formed view with the
/// writer's own counts and offsets.
pub proof fn lemma_serialized_load(w: WriterView)
    requires
        w.wf(),
        spec_vars_offset(w) + spec_vars_size(w) <= u32::MAX,
    ensures
        spec_load(spec_serialize(w)) == Ok::<BomView, BomError>(
            BomView {
                data: spec_serialize(w),
                index_offset: spec_index_offset(w),
                index_count: w.blocks.len() as u32,
                variables_offset: spec_vars_offset(w),
            },
        ),
        spec_serialize(w).len() == spec_vars_offset(w) + spec_vars_size(w),
{
    let s = spec_serialize(w);
    let blocks = w.blocks;
    let nb = blocks.len() as u32;
    let io = spec_index_offset(w);
    let vo = spec_vars_offset(w);
    let total = prefix_len(blocks, blocks.len() as int);

    lemma_body_len(blocks, 0);
    lemma_index_table_len(blocks, 0);
    lemma_prefix_len_mono(blocks, 0, blocks.len() as int);

    let m = bom_magic();
    let a1 = be32(1);
    let a2 = be32(nb);
    let a3 = be32(io as u32);
    let a4 = be32(spec_index_size(w) as u32);
    let a5 = be32(vo as u32);
    let a6 = be32(spec_vars_size(w) as u32);
    let bb = body_bytes(blocks, 0);
    let c = be32(nb);
    let t = index_table_bytes(blocks, 0);
    let d = be32(w.vars.len() as u32);
    let v = vars_table_bytes(w.vars, 0);

    let h = m + a1 + a2 + a3 + a4 + a5 + a6;
    assert(s == h + bb + c + t + d + v);
    assert(h.len() == 32);
    assert(s.len() == vo + spec_vars_size(w));

    let hb = h + bb;
    let hbc = hb + c;
    let hbct = hbc + t;
    let hbctd = hbct + d;
    assert(s == hbctd + v);

    // Header fields.
    lemma_subrange_left(hbctd, v, 0, 32);
    lemma_subrange_left(hbct, d, 0, 32);
    lemma_subrange_left(hbc, t, 0, 32);
    lemma_subrange_left(hb, c, 0, 32);
    lemma_subrange_left(h, bb, 0, 32);
    assert(h.subrange(0, 32) =~= h);
    assert(s.subrange(0, 32) == h);

    assert forall|x: int, y: int| 0 <= x <= y <= 32 implies #[trigger] s.subrange(x, y)
        == h.subrange(x, y) by {
        assert(s.subrange(x, y) =~= s.subrange(0, 32).subrange(x, y));
        assert(h.subrange(x, y) =~= h.subrange(0, 32).subrange(x, y));
    }

    assert(h.subrange(0, 8) =~= m);
    assert(h.subrange(8, 12) =~= a1);
    assert(h.subrange(12, 16) =~= a2);
    assert(h.subrange(16, 20) =~= a3);
    assert(h.subrange(20, 24) =~= a4);
    assert(h.subrange(24, 28) =~= a5);
    assert(h.subrange(28, 32) =~= a6);

    assert(s.subrange(0, 8) == m);
    lemma_r32_at(s, 8, 1);
    lemma_r32_at(s, 12, nb);
    lemma_r32_at(s, 16, io as u32);
    lemma_r32_at(s, 20, spec_index_size(w) as u32);
    lemma_r32_at(s, 24, vo as u32);
    lemma_r32_at(s, 28, spec_vars_size(w) as u32);

    // The block count stored at the start of the index table.
    assert(hbc.subrange(io, io + 4) == c) by {
        lemma_subrange_right(hb, c, io, io + 4);
        assert(c.subrange(0, 4) =~= c);
    }
    lemma_subrange_left(hbc, t, io, io + 4);
    lemma_subrange_left(hbct, d, io, io + 4);
    lemma_subrange_left(hbctd, v, io, io + 4);
    assert(s.subrange(io, io + 4) == c);
    lemma_r32_at(s, io, nb);

    // The variable count stored at the start of the variables table.
    assert(hbctd.subrange(vo, vo + 4) == d) by {
        lemma_subrange_right(hbct, d, vo, vo + 4);
        assert(d.subrange(0, 4) =~= d);
    }
    lemma_subrange_left(hbctd, v, vo, vo + 4);
    assert(s.subrange(vo, vo + 4) == d);
    lemma_r32_at(s, vo, w.vars.len() as u32);

    assert(spec_load(s) == Ok::<BomView, BomError>(
        BomView {
            data: s,
            index_offset: io,
            index_count: nb,
            variables_offset: vo,
        },
    ));
}

/// Every block of the writer is readable from the serialized archive
/// under its own number.
pub proof fn lemma_serialized_block(w: WriterView, i: int)
    requires
        w.wf(),
        spec_vars_offset(w) + spec_vars_size(w) <= u32::MAX,
        0 <= i < w.blocks.len(),
    ensures
        spec_block(
            BomView {
                data: spec_serialize(w),
                index_offset: spec_index_offset(w),
                index_count: w.blocks.len() as u32,
                variables_offset: spec_vars_offset(w),
            },
            i as u32,
        ) == Some(w.blocks[i]),
{
    let s = spec_serialize(w);
    let blocks = w.blocks;
    let nb = blocks.len() as u32;
    let io = spec_index_offset(w);
    let vo = spec_vars_offset(w);
    let bv = BomView { data: s, index_offset: io, index_count: nb, variables_offset: vo };

    lemma_body_len(blocks, 0);
    lemma_index_table_len(blocks, 0);
    lemma_prefix_len_mono(blocks, 0, i);
    lemma_prefix_len_mono(blocks, i + 1, blocks.len() as int);
    lemma_prefix_step(blocks, i + 1);

    let m = bom_magic();
    let a1 = be32(1);
    let a2 = be32(nb);
    let a3 = be32(io as u32);
    let a4 = be32(spec_index_size(w) as u32);
    let a5 = be32(vo as u32);
    let a6 = be32(spec_vars_size(w) as u32);
    let bb = body_bytes(blocks, 0);
    let c = be32(nb);
    let t = index_table_bytes(blocks, 0);
    let d = be32(w.vars.len() as u32);
    let v = vars_table_bytes(w.vars, 0);
    let h = m + a1 + a2 + a3 + a4 + a5 + a6;
    let hb = h + bb;
    let hbc = hb + c;
    let hbct = hbc + t;
    let hbctd = hbct + d;
    assert(s == hbctd + v);
    assert(h.len() == 32);

    // The index entry of block i sits at io + 4 + 8 i.
    let eo = io + 4 + 8 * i;
    lemma_index_table_entry(blocks, i, 0);
    assert(hbct.subrange(eo, eo + 4) == be32((32 + prefix_len(blocks, i)) as u32)) by {
        lemma_subrange_right(hbc, t, eo, eo + 4);
    }
    assert(hbct.subrange(eo + 4, eo + 8) == be32(blocks[i].len() as u32)) by {
        lemma_subrange_right(hbc, t, eo + 4, eo + 8);
    }
    lemma_subrange_left(hbct, d, eo, eo + 4);
    lemma_subrange_left(hbct, d, eo + 4, eo + 8);
    lemma_subrange_left(hbctd, v, eo, eo + 4);
    lemma_subrange_left(hbctd, v, eo + 4, eo + 8);
    lemma_r32_at(s, eo, (32 + prefix_len(blocks, i)) as u32);
    lemma_r32_at(s, eo + 4, blocks[i].len() as u32);

    // The block's bytes sit at its prefix offset after the header.
    let addr = 32 + prefix_len(blocks, i);
    let blen = blocks[i].len() as int;
    lemma_body_block(blocks, i, 0);
    assert(hb.subrange(addr, addr + blen) == blocks[i]) by {
        lemma_subrange_right(h, bb, addr, addr + blen);
    }
    lemma_subrange_left(hb, c, addr, addr + blen);
    lemma_subrange_left(hbc, t, addr, addr + blen);
    lemma_subrange_left(hbct, d, addr, addr + blen);
    lemma_subrange_left(hbctd, v, addr, addr + blen);
    assert(s.subrange(addr, addr + blen) == blocks[i]);

    assert(spec_block(bv, i as u32) == Some(blocks[i]));
}

/// A subrange of a subrange that is known to equal `rec`.
pub proof fn lemma_subrange_sub(s: Seq<u8>, off: int, rec: Seq<u8>, x: int, y: int)
    requires
        0 <= off,
        off + rec.len() <= s.len(),
        s.subrange(off, off + rec.len() as int) == rec,
        0 <= x <= y <= rec.len(),
    ensures
        s.subrange(off + x, off + y) == rec.subrange(x, y),
{
    assert forall|q: int| 0 <= q < rec.len() implies s[off + q] == #[trigger] rec[q] by {
        assert(rec[q] == s.subrange(off, off + rec.len() as int)[q]);
    }
    assert(s.subrange(off + x, off + y) =~= rec.subrange(x, y));
}

/// The byte length of the variable records before record `i`.
pub open spec fn vars_prefix_len(vars: Seq<(Seq<char>, u32)>, i: int) -> int
    decreases i,
{
    if i <= 0 {
        0
    } else {
        vars_prefix_len(vars, i - 1) + 5 + encode_utf8(vars[i - 1].0).len()
    }
}

/// What the reader should find in the variables table: each name's UTF-8
/// bytes with its block number, in order, from record `i` on.
pub open spec fn vars_records(vars: Seq<(Seq<char>, u32)>, i: int) -> Seq<(Seq<u8>, u32)>
    decreases vars.len() - i,
{
    if i < 0 || i >= vars.len() {
        Seq::empty()
    } else {
        seq![(encode_utf8(vars[i].0), vars[i].1)] + vars_records(vars, i + 1)
    }
}

/// The variables table's length is the prefix length past the last record.
pub proof fn lemma_vars_table_len(vars: Seq<(Seq<char>, u32)>, i: int)
    requires
        0 <= i <= vars.len(),
    ensures
        vars_table_bytes(vars, i).len() == vars_prefix_len(vars, vars.len() as int)
            - vars_prefix_len(vars, i),
    decreases vars.len() - i,
{
    if i < vars.len() {
        lemma_vars_table_len(vars, i + 1);
        assert(vars_prefix_len(vars, i + 1) == vars_prefix_len(vars, i) + 5 + encode_utf8(
            vars[i].0,
        ).len());
    }
}

/// Prefix lengths of variable records are non-negative and monotone.
pub proof fn lemma_vars_prefix_mono(vars: Seq<(Seq<char>, u32)>, i: int, j: int)
    requires
        0 <= i <= j,
    ensures
        0 <= vars_prefix_len(vars, i) <= vars_prefix_len(vars, j),
    decreases j,
{
    if j > 0 {
        lemma_vars_prefix_mono(
            vars,
            if i < j {
                i
            } else {
                j - 1
            },
            j - 1,
        );
    }
}

/// Record `i` sits at its prefix offset inside the variables table.
pub proof fn lemma_vars_table_record(vars: Seq<(Seq<char>, u32)>, i: int, j: int)
    requires
        0 <= j <= i < vars.len(),
    ensures
        vars_table_bytes(vars, j).subrange(
            vars_prefix_len(vars, i) - vars_prefix_len(vars, j),
            vars_prefix_len(vars, i) - vars_prefix_len(vars, j) + var_record_bytes(
                vars[i],
            ).len() as int,
        ) == var_record_bytes(vars[i]),
    decreases i - j,
{
    let t = vars_table_bytes(vars, j);
    let rec = var_record_bytes(vars[j]);
    let rest = vars_table_bytes(vars, j + 1);
    lemma_vars_table_len(vars, j + 1);
    lemma_vars_prefix_mono(vars, j, i);
    lemma_vars_prefix_mono(vars, i + 1, vars.len() as int);
    assert(vars_prefix_len(vars, i + 1) == vars_prefix_len(vars, i) + 5 + encode_utf8(
        vars[i].0,
    ).len());
    assert(t == rec + rest);
    assert(rec.len() == 5 + encode_utf8(vars[j].0).len());
    if i == j {
        lemma_subrange_left(rec, rest, 0, rec.len() as int);
        assert(rec.subrange(0, rec.len() as int) =~= rec);
    } else {
        lemma_vars_table_record(vars, i, j + 1);
        lemma_vars_prefix_mono(vars, j + 1, i);
        assert(vars_prefix_len(vars, j + 1) == vars_prefix_len(vars, j) + 5 + encode_utf8(
            vars[j].0,
        ).len());
        lemma_subrange_right(
            rec,
            rest,
            vars_prefix_len(vars, i) - vars_prefix_len(vars, j),
            vars_prefix_len(vars, i) - vars_prefix_len(vars, j) + var_record_bytes(
                vars[i],
            ).len() as int,
        );
    }
}

/// Parsing the serialized variables table from record `i` on yields the
/// writer's own variables.
pub proof fn lemma_serialized_vars(w: WriterView, i: int)
    requires
        w.wf(),
        spec_vars_offset(w) + spec_vars_size(w) <= u32::MAX,
        0 <= i <= w.vars.len(),
    ensures
        spec_parse_vars(
            spec_serialize(w),
            spec_vars_offset(w) + 4 + vars_prefix_len(w.vars, i),
            (w.vars.len() - i) as nat,
        ) == vars_records(w.vars, i),
    decreases w.vars.len() - i,
{
    let s = spec_serialize(w);
    let vars = w.vars;
    let vo = spec_vars_offset(w);
    let off = vo + 4 + vars_prefix_len(vars, i);
    lemma_serialized_load(w);
    lemma_vars_table_len(vars, 0);
    lemma_vars_prefix_mono(vars, 0, i);
    if i == vars.len() {
        assert(spec_parse_vars(s, off, 0nat) =~= Seq::<(Seq<u8>, u32)>::empty());
    } else {
        let rec = var_record_bytes(vars[i]);
        let name_bytes = encode_utf8(vars[i].0);
        let nl = name_bytes.len() as int;
        lemma_vars_prefix_mono(vars, i + 1, vars.len() as int);
        assert(vars_prefix_len(vars, i + 1) == vars_prefix_len(vars, i) + 5 + nl);

        // Locate the record inside the whole archive.
        let v = vars_table_bytes(vars, 0);
        let hbctd_len = vo + 4;
        lemma_vars_table_record(vars, i, 0);
        assert(s.len() == hbctd_len + v.len());
        lemma_vars_table_subrange(
            w,
            vars_prefix_len(vars, i),
            vars_prefix_len(vars, i) + rec.len() as int,
        );
        assert(s.subrange(off, off + rec.len() as int) == rec);

        // Split the record into its three fields.
        let ba = be32(vars[i].1);
        let bl = seq![nl as u8];
        assert(rec == (ba + bl) + name_bytes);
        assert(rec.subrange(0, 4) =~= ba);
        assert(rec.subrange(4, 5) =~= bl);
        assert(rec.subrange(5, 5 + nl) =~= name_bytes);
        lemma_subrange_sub(s, off, rec, 0, 4);
        lemma_subrange_sub(s, off, rec, 4, 5);
        lemma_subrange_sub(s, off, rec, 5, 5 + nl);
        lemma_r32_at(s, off, vars[i].1);
        assert(s[off + 4] == nl as u8) by {
            assert(s.subrange(off + 4, off + 5)[0] == s[off + 4]);
        }
        assert((nl as u8) as int == nl);

        lemma_serialized_vars(w, i + 1);
        assert(spec_parse_vars(s, off, (vars.len() - i) as nat) =~= seq![(name_bytes, vars[i].1)]
            + vars_records(vars, i + 1));
        assert(vars_records(vars, i) =~= seq![(name_bytes, vars[i].1)] + vars_records(
            vars,
            i + 1,
        ));
    }
}

/// A subrange of the variables table, seen from the whole archive.
pub proof fn lemma_vars_table_subrange(w: WriterView, x: int, y: int)
    requires
        w.wf(),
        spec_vars_offset(w) + spec_vars_size(w) <= u32::MAX,
        0 <= x <= y <= vars_table_bytes(w.vars, 0).len(),
    ensures
        spec_serialize(w).subrange(
            spec_vars_offset(w) + 4 + x,
            spec_vars_offset(w) + 4 + y,
        ) == vars_table_bytes(w.vars, 0).subrange(x, y),
{
    let blocks = w.blocks;
    let s = spec_serialize(w);
    let vo = spec_vars_offset(w);
    lemma_body_len(blocks, 0);
    lemma_index_table_len(blocks, 0);
    lemma_prefix_len_mono(blocks, 0, blocks.len() as int);
    let h = bom_magic() + be32(1) + be32(blocks.len() as u32) + be32(spec_index_offset(w) as u32)
        + be32(spec_index_size(w) as u32) + be32(vo as u32) + be32(spec_vars_size(w) as u32);
    let hbctd = h + body_bytes(blocks, 0) + be32(blocks.len() as u32) + index_table_bytes(
        blocks,
        0,
    ) + be32(w.vars.len() as u32);
    let v = vars_table_bytes(w.vars, 0);
    assert(s == hbctd + v);
    assert(hbctd.len() == vo + 4);
    lemma_subrange_right(hbctd, v, vo + 4 + x, vo + 4 + y);
}

/// The pair records of a leaf take eight bytes per pair.
pub proof fn lemma_leaf_pairs_len(base: int, n: int, j: int, p: int)
    requires
        0 <= p <= chunk_len(n, j),
    ensures
        leaf_pairs_bytes(base, n, j, p).len() == 8 * (chunk_len(n, j) - p),
    decreases chunk_len(n, j) - p,
{
    if p < chunk_len(n, j) {
        lemma_leaf_pairs_len(base, n, j, p + 1);
    }
}

/// The record of pair `p` inside the pair records from pair `q` on.
pub proof fn lemma_leaf_pair_record(base: int, n: int, j: int, p: int, q: int)
    requires
        0 <= q <= p < chunk_len(n, j),
    ensures
        leaf_pairs_bytes(base, n, j, q).subrange(8 * (p - q), 8 * (p - q) + 4) == be32(
            value_block_index(base, 256 * j + p) as u32,
        ),
        leaf_pairs_bytes(base, n, j, q).subrange(8 * (p - q) + 4, 8 * (p - q) + 8) == be32(
            key_block_index(base, 256 * j + p) as u32,
        ),
    decreases p - q,
{
    let t = leaf_pairs_bytes(base, n, j, q);
    let a = be32(value_block_index(base, 256 * j + q) as u32);
    let b = be32(key_block_index(base, 256 * j + q) as u32);
    let rest = leaf_pairs_bytes(base, n, j, q + 1);
    lemma_leaf_pairs_len(base, n, j, q + 1);
    assert(t == (a + b) + rest);
    if p == q {
        lemma_subrange_left(a + b, rest, 0, 4);
        lemma_subrange_left(a, b, 0, 4);
        assert(a.subrange(0, 4) =~= a);
        lemma_subrange_left(a + b, rest, 4, 8);
        lemma_subrange_right(a, b, 4, 8);
        assert(b.subrange(0, 4) =~= b);
    } else {
        lemma_leaf_pair_record(base, n, j, p, q + 1);
        lemma_subrange_right(a + b, rest, 8 * (p - q), 8 * (p - q) + 4);
        lemma_subrange_right(a + b, rest, 8 * (p - q) + 4, 8 * (p - q) + 8);
    }
}

/// Arithmetic facts about chunk `j` of a tree over `n` entries.
pub proof fn lemma_chunk_arith(base: int, n: int, j: int)
    requires
        0 <= base,
        0 <= n,
        0 <= j < num_leaves(n),
    ensures
        0 <= chunk_len(n, j) <= 256,
        256 * j + chunk_len(n, j) <= n || n == 0,
        j + 1 < num_leaves(n) ==> chunk_len(n, j) == 256,
        j + 1 == num_leaves(n) ==> 256 * j + chunk_len(n, j) == n,
        leaf_block_index(base, n, j) < tree_root_index(base, n),
        base <= leaf_block_index(base, n, j),
        forall|p: int|
            0 <= p < chunk_len(n, j) ==> base <= #[trigger] value_block_index(base, 256 * j + p)
                && key_block_index(base, 256 * j + p) < leaf_block_index(base, n, j)
                && value_block_index(base, 256 * j + p) == base + 513 * j + 2 * p,
{
    let k = num_leaves(n);
    let cnt = chunk_len(n, j);
    if n == 0 {
        assert(k == 1 && j == 0 && cnt == 0);
    } else {
        vstd::arithmetic::div_mod::lemma_fundamental_div_mod(n + 255, 256);
        assert(256 * (k - 1) < n <= 256 * k);
        if j + 1 <= k - 1 {
            assert(256 * (j + 1) <= 256 * (k - 1)) by (nonlinear_arith)
                requires
                    j + 1 <= k - 1,
            ;
        }
        assert(256 * j < n) by {
            assert(256 * j <= 256 * (k - 1)) by (nonlinear_arith)
                requires
                    j <= k - 1,
            ;
        }
    }
    assert forall|p: int| 0 <= p < chunk_len(n, j) implies base <= #[trigger] value_block_index(
        base,
        256 * j + p,
    ) && key_block_index(base, 256 * j + p) < leaf_block_index(base, n, j) && value_block_index(
        base,
        256 * j + p,
    ) == base + 513 * j + 2 * p by {
        vstd::arithmetic::div_mod::lemma_fundamental_div_mod_converse(256 * j + p, 256, j, p);
    }
    assert(leaf_block_index(base, n, j) < tree_root_index(base, n)) by {
        if n == 0 {
        } else {
            assert(256 * j + cnt <= n);
            assert(k >= j + 1);
        }
    }
}

/// The value and key block numbers stored in entry `p` of leaf `j`.
#[verifier::rlimit(100)]
#[verifier::spinoff_prover]
pub proof fn lemma_leaf_entry_words(base: int, n: int, j: int, p: int)
    requires
        0 <= base,
        0 <= n,
        0 <= j < num_leaves(n),
        0 <= p < chunk_len(n, j),
        value_block_index(base, 256 * j + p) + 1 <= u32::MAX,
    ensures
        r32(leaf_block_bytes(base, n, j), 12 + 8 * p) == value_block_index(
            base,
            256 * j + p,
        ) as u32,
        r32(leaf_block_bytes(base, n, j), 12 + 8 * p + 4) == key_block_index(
            base,
            256 * j + p,
        ) as u32,
{
    let cnt = chunk_len(n, j);
    let ld = leaf_block_bytes(base, n, j);
    let vbi = value_block_index(base, 256 * j + p);
    let kbi = key_block_index(base, 256 * j + p);
    let ph = be16(1) + be16(cnt as u16) + be32(leaf_forward(base, n, j)) + be32(0);
    let pb = leaf_pairs_bytes(base, n, j, 0);
    lemma_leaf_pairs_len(base, n, j, 0);
    assert(ld == ph + pb);
    assert(ph.len() == 12);
    lemma_leaf_pair_record(base, n, j, p, 0);
    lemma_subrange_right(ph, pb, 12 + 8 * p, 12 + 8 * p + 4);
    lemma_subrange_right(ph, pb, 12 + 8 * p + 4, 12 + 8 * p + 8);
    lemma_r32_at(ld, 12 + 8 * p, vbi as u32);
    lemma_r32_at(ld, 12 + 8 * p + 4, kbi as u32);
}

/// The pairs of leaf `j` from pair `p` on resolve to the entries stored
/// in the key and value blocks.
#[verifier::rlimit(100)]
#[verifier::spinoff_prover]
pub proof fn lemma_leaf_pairs_resolved(
    v: BomView,
    blocks: Seq<Seq<u8>>,
    base: int,
    entries: Seq<(Seq<u8>, Seq<u8>)>,
    j: int,
    p: int,
)
    requires
        0 <= base,
        tree_blocks_built(blocks, base, entries, tree_root_index(base, entries.len() as int)),
        forall|idx: int|
            0 <= idx < blocks.len() ==> #[trigger] spec_block(v, idx as u32) == Some(blocks[idx]),
        blocks.len() <= u32::MAX,
        0 <= j < num_leaves(entries.len() as int),
        0 <= p <= chunk_len(entries.len() as int, j),
    ensures
        spec_leaf_pairs(
            v,
            leaf_block_bytes(base, entries.len() as int, j),
            p,
            chunk_len(entries.len() as int, j),
        ) == Ok::<Seq<(Seq<u8>, Seq<u8>)>, BomError>(
            entries.subrange(256 * j + p, 256 * j + chunk_len(entries.len() as int, j)),
        ),
    decreases chunk_len(entries.len() as int, j) - p,
{
    let n = entries.len() as int;
    let cnt = chunk_len(n, j);
    let ld = leaf_block_bytes(base, n, j);
    lemma_chunk_arith(base, n, j);
    if p == cnt {
        assert(spec_leaf_pairs(v, ld, p, cnt) == Ok::<Seq<(Seq<u8>, Seq<u8>)>, BomError>(
            Seq::empty(),
        ));
        assert(entries.subrange(256 * j + cnt, 256 * j + cnt) =~= Seq::<
            (Seq<u8>, Seq<u8>),
        >::empty());
    } else {
        let e = 256 * j + p;
        let vbi = value_block_index(base, e);
        let kbi = key_block_index(base, e);
        lemma_leaf_entry_words(base, n, j, p);
        assert(vbi < blocks.len() && kbi < blocks.len());
        assert(spec_block(v, vbi as u32) == Some(blocks[vbi]));
        assert(spec_block(v, kbi as u32) == Some(blocks[kbi]));
        assert(blocks[vbi] == entries[e].1 && blocks[kbi] == entries[e].0);
        let tail = entries.subrange(256 * j + p + 1, 256 * j + cnt);
        lemma_leaf_pairs_resolved(v, blocks, base, entries, j, p + 1);
        assert(spec_leaf_pairs(v, ld, p + 1, cnt) == Ok::<Seq<(Seq<u8>, Seq<u8>)>, BomError>(
            tail,
        ));
        assert(spec_leaf_pairs(v, ld, p, cnt) == Ok::<Seq<(Seq<u8>, Seq<u8>)>, BomError>(
            seq![(entries[e].0, entries[e].1)] + tail,
        ));
        assert(seq![(entries[e].0, entries[e].1)] + tail =~= entries.subrange(
            256 * j + p,
            256 * j + cnt,
        ));
    }
}

/// Walking the leaf chain from leaf `j` yields the entries from `256 j`
/// on, given fuel for the remaining leaves.
#[verifier::rlimit(100)]
#[verifier::spinoff_prover]
pub proof fn lemma_collect_built(
    v: BomView,
    blocks: Seq<Seq<u8>>,
    base: int,
    entries: Seq<(Seq<u8>, Seq<u8>)>,
    j: int,
    fuel: nat,
)
    requires
        0 <= base,
        tree_blocks_built(blocks, base, entries, tree_root_index(base, entries.len() as int)),
        forall|idx: int|
            0 <= idx < blocks.len() ==> #[trigger] spec_block(v, idx as u32) == Some(blocks[idx]),
        blocks.len() <= u32::MAX,
        0 <= j < num_leaves(entries.len() as int),
        fuel >= num_leaves(entries.len() as int) - j,
    ensures
        spec_collect(v, leaf_block_index(base, entries.len() as int, j) as u32, fuel) == Ok::<
            Seq<(Seq<u8>, Seq<u8>)>,
            BomError,
        >(entries.skip(256 * j)),
    decreases num_leaves(entries.len() as int) - j,
{
    let n = entries.len() as int;
    let k = num_leaves(n);
    let cnt = chunk_len(n, j);
    let li = leaf_block_index(base, n, j);
    let ld = leaf_block_bytes(base, n, j);
    lemma_chunk_arith(base, n, j);
    lemma_leaf_pairs_len(base, n, j, 0);
    assert(li < blocks.len());
    assert(blocks[li] == ld);
    assert(spec_block(v, li as u32) == Some(ld));

    let ph1 = be16(1);
    let ph2 = be16(cnt as u16);
    let ph3 = be32(leaf_forward(base, n, j));
    let ph4 = be32(0);
    let pb = leaf_pairs_bytes(base, n, j, 0);
    assert(ld == ph1 + ph2 + ph3 + ph4 + pb);
    assert(ld.len() == 12 + 8 * cnt);

    let h12 = ph1 + ph2;
    let h123 = h12 + ph3;
    let h1234 = h123 + ph4;
    assert(ld == h1234 + pb);
    lemma_subrange_left(h1234, pb, 0, 2);
    lemma_subrange_left(h123, ph4, 0, 2);
    lemma_subrange_left(h12, ph3, 0, 2);
    lemma_subrange_left(ph1, ph2, 0, 2);
    assert(ph1.subrange(0, 2) =~= ph1);
    lemma_r16_at(ld, 0, 1);

    lemma_subrange_left(h1234, pb, 2, 4);
    lemma_subrange_left(h123, ph4, 2, 4);
    lemma_subrange_left(h12, ph3, 2, 4);
    lemma_subrange_right(ph1, ph2, 2, 4);
    assert(ph2.subrange(0, 2) =~= ph2);
    lemma_r16_at(ld, 2, cnt as u16);

    lemma_subrange_left(h1234, pb, 4, 8);
    lemma_subrange_left(h123, ph4, 4, 8);
    lemma_subrange_right(h12, ph3, 4, 8);
    assert(ph3.subrange(0, 4) =~= ph3);
    lemma_r32_at(ld, 4, leaf_forward(base, n, j));

    assert((cnt as u16) as int == cnt);
    assert(12 + 8 * cnt <= ld.len());
    lemma_leaf_pairs_resolved(v, blocks, base, entries, j, 0);
    assert(spec_leaf_pairs(v, ld, 0, cnt) == Ok::<Seq<(Seq<u8>, Seq<u8>)>, BomError>(
        entries.subrange(256 * j, 256 * j + cnt),
    ));
    let here = entries.subrange(256 * j, 256 * j + cnt);

    if j + 1 < k {
        assert(leaf_forward(base, n, j) == leaf_block_index(base, n, j + 1) as u32);
        lemma_chunk_arith(base, n, j + 1);
        assert(leaf_block_index(base, n, j + 1) > base >= 0);
        assert(leaf_forward(base, n, j) != 0);
        lemma_collect_built(v, blocks, base, entries, j + 1, (fuel - 1) as nat);
        assert(cnt == 256);
        assert(here + entries.skip(256 * (j + 1)) =~= entries.skip(256 * j));
        assert(spec_collect(v, li as u32, fuel) == Ok::<Seq<(Seq<u8>, Seq<u8>)>, BomError>(
            here + entries.skip(256 * (j + 1)),
        ));
    } else {
        assert(leaf_forward(base, n, j) == 0);
        assert(256 * j + cnt == n || n == 0);
        assert(here =~= entries.skip(256 * j));
        assert(spec_collect(v, li as u32, fuel) == Ok::<Seq<(Seq<u8>, Seq<u8>)>, BomError>(here));
    }
}

/// The round-trip law: a tree built over any list of key/value byte pairs
/// and registered as the only variable, once serialized and loaded,
/// resolves through that variable to exactly the same pairs in the same
/// order.
#[verifier::rlimit(100)]
#[verifier::spinoff_prover]
pub proof fn lemma_tree_round_trip(
    w: WriterView,
    base: int,
    entries: Seq<(Seq<u8>, Seq<u8>)>,
    root: int,
    name: Seq<char>,
)
    requires
        w.wf(),
        0 <= base,
        tree_blocks_built(w.blocks, base, entries, root),
        root == tree_root_index(base, entries.len() as int),
        w.vars == seq![(name, root as u32)],
        spec_vars_offset(w) + spec_vars_size(w) <= u32::MAX,
    ensures
        spec_load(spec_serialize(w)) is Ok,
        ({
            let v = spec_load(spec_serialize(w)).unwrap();
            &&& spec_variable_get(v, name) == Some(root as u32)
            &&& spec_tree_result(v, root as u32) == Ok::<Seq<(Seq<u8>, Seq<u8>)>, BomError>(
                entries,
            )
        }),
{
    let s = spec_serialize(w);
    let blocks = w.blocks;
    let n = entries.len() as int;
    let k = num_leaves(n);
    lemma_serialized_load(w);
    let v = spec_load(s).unwrap();

    // Every writer block is readable under its own number.
    assert forall|idx: int| 0 <= idx < blocks.len() implies #[trigger] spec_block(v, idx as u32)
        == Some(blocks[idx]) by {
        lemma_serialized_block(w, idx);
    }

    // The single variable resolves to the tree root.
    lemma_serialized_vars(w, 0);
    assert(vars_prefix_len(w.vars, 0) == 0);
    assert(spec_variables(v) == vars_records(w.vars, 0));
    assert(vars_records(w.vars, 1) =~= Seq::<(Seq<u8>, u32)>::empty());
    assert(vars_records(w.vars, 0) =~= seq![(encode_utf8(name), root as u32)]);
    assert(crate::strutil::spec_utf8_lossy(encode_utf8(name)) == name) by {
        vstd::utf8::encode_utf8_valid_utf8(name);
        vstd::utf8::encode_utf8_decode_utf8(name);
    }
    assert(spec_find_var(spec_variables(v), name) == Some(root as u32));

    // The root block parses as a tree header pointing at the first leaf.
    let child = leaf_block_index(base, n, 0) as u32;
    let td = tree_header_bytes(child, entries.len() as u32);
    assert(blocks[root] == td);
    assert(spec_block(v, root as u32) == Some(td));
    let t1 = tree_magic();
    let t2 = be32(1);
    let t3 = be32(child);
    let t4 = be32(4096);
    let t5 = be32(entries.len() as u32);
    let t6 = seq![0u8];
    assert(td == t1 + t2 + t3 + t4 + t5 + t6);
    assert(td.len() == 21);
    let u12 = t1 + t2;
    let u123 = u12 + t3;
    let u1234 = u123 + t4;
    let u12345 = u1234 + t5;
    assert(td == u12345 + t6);
    lemma_subrange_left(u12345, t6, 0, 4);
    lemma_subrange_left(u1234, t5, 0, 4);
    lemma_subrange_left(u123, t4, 0, 4);
    lemma_subrange_left(u12, t3, 0, 4);
    lemma_subrange_left(t1, t2, 0, 4);
    assert(t1.subrange(0, 4) =~= t1);
    assert(td.subrange(0, 4) == tree_magic());
    lemma_subrange_left(u12345, t6, 4, 8);
    lemma_subrange_left(u1234, t5, 4, 8);
    lemma_subrange_left(u123, t4, 4, 8);
    lemma_subrange_left(u12, t3, 4, 8);
    lemma_subrange_right(t1, t2, 4, 8);
    assert(t2.subrange(0, 4) =~= t2);
    lemma_r32_at(td, 4, 1);
    lemma_subrange_left(u12345, t6, 8, 12);
    lemma_subrange_left(u1234, t5, 8, 12);
    lemma_subrange_left(u123, t4, 8, 12);
    lemma_subrange_right(u12, t3, 8, 12);
    assert(t3.subrange(0, 4) =~= t3);
    lemma_r32_at(td, 8, child);

    // Walking the chain from the first leaf yields every entry.
    lemma_chunk_arith(base, n, 0);
    assert(v.index_count == blocks.len() as u32);
    assert((v.index_count + 1) as nat >= k - 0);
    lemma_collect_built(v, blocks, base, entries, 0, (v.index_count + 1) as nat);
    assert(entries.skip(0) =~= entries);
}

} // verus!
