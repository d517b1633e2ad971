//! Read side of the automaton format: parse the 18-byte header and
//! answer `get` / `prefix` over the serialized bytes with no
//! decompression step. Every read is bounds-checked, so a corrupt buffer
//! degrades to "no match" instead of panicking.
//!
//! The functions here are written over a plain byte slice plus the
//! parsed [`FsaLayout`], so that [`Fsa`] (which owns its bytes) and the
//! two-level dictionary (which embeds an automaton in a larger buffer)
//! share them.

use vstd::prelude::*;

use crate::fsa::varint::{rd_uvarint, uvarint_at};

verus! {

/// Header length: magic 4 · version 1 · width 1 · value_count 4 ·
/// root_off 4 · state_count 4.
pub const HEADER_LEN: usize = 18;

/// Max key length walked during a prefix scan. Valid IME keys are tiny;
/// this only bounds the depth of the walk over a corrupt buffer.
pub const MAX_WALK_DEPTH: usize = 4096;

/// Error parsing an automaton buffer.
#[derive(Debug, PartialEq, Eq)]
pub enum FsaError {
    BadMagic,
    BadVersion(u8),
    Truncated,
}

/// The header fields of a serialized automaton, and where its sections
/// start.
#[derive(Clone, Copy, Debug)]
pub struct FsaLayout {
    pub value_width: usize,
    pub value_count: u32,
    pub state_count: u32,
    pub root_rel: u32,
    pub blob_start: usize,
    pub values_start: usize,
}

// ─── Decoding, as specifications over the raw bytes ───────────────────

/// `a + c` wrapping around at 2^64.
pub open spec fn wadd(a: u64, c: u64) -> u64 {
    if a + c > u64::MAX {
        (a + c - 0x1_0000_0000_0000_0000int) as u64
    } else {
        (a + c) as u64
    }
}

/// Executable [`wadd`].
pub fn wadd_exec(a: u64, c: u64) -> (r: u64)
    ensures
        r == wadd(a, c),
{
    if a <= u64::MAX - c {
        a + c
    } else {
        a - (u64::MAX - c) - 1
    }
}

/// Byte `i` of `b`, when in range.
pub open spec fn byte_at(b: Seq<u8>, i: int) -> Option<u8> {
    if 0 <= i < b.len() {
        Some(b[i])
    } else {
        None
    }
}

/// Byte `i` of `b`, or 0 past the end.
pub open spec fn byte_or_zero(b: Seq<u8>, i: int) -> u8 {
    if 0 <= i < b.len() {
        b[i]
    } else {
        0
    }
}

/// Little-endian u32 at `at` (caller ensures four bytes are there).
pub open spec fn le_u32_at(b: Seq<u8>, at: int) -> u32 {
    (b[at] as u32) | ((b[at + 1] as u32) << 8u32) | ((b[at + 2] as u32) << 16u32) | ((b[at
        + 3] as u32) << 24u32)
}

/// The layout of `b`, or why it is not an automaton. The header must be
/// there with magic "IXFA" and version 3, and the value table
/// (`value_count × value_width` bytes) must fit after the header; the
/// value table is the tail of the buffer.
pub open spec fn parse_layout(b: Seq<u8>) -> Result<FsaLayout, FsaError> {
    if b.len() < 18 {
        Err(FsaError::Truncated)
    } else if !(b[0] == 0x49u8 && b[1] == 0x58u8 && b[2] == 0x46u8 && b[3] == 0x41u8) {
        Err(FsaError::BadMagic)
    } else if b[4] != 3 {
        Err(FsaError::BadVersion(b[4]))
    } else {
        let value_width = b[5] as usize;
        let value_count = le_u32_at(b, 6);
        let values_len = value_count * value_width;
        if b.len() < 18 + values_len {
            Err(FsaError::Truncated)
        } else {
            Ok(
                FsaLayout {
                    value_width,
                    value_count,
                    state_count: le_u32_at(b, 14),
                    root_rel: le_u32_at(b, 10),
                    blob_start: 18,
                    values_start: (b.len() - values_len) as usize,
                },
            )
        }
    }
}

/// The value at ordinal `ord`: `value_width` little-endian bytes read
/// from the value table, missing bytes read as zero and bytes past the
/// eighth shifted out of the 64-bit result.
pub open spec fn value_rec(b: Seq<u8>, at: int, i: int, w: int, acc: u64) -> u64
    decreases w - i,
{
    if i >= w || i >= 8 {
        acc
    } else {
        value_rec(b, at, i + 1, w, acc | ((byte_or_zero(b, at + i) as u64) << ((8 * i) as u64)))
    }
}

pub open spec fn read_value_spec(b: Seq<u8>, lay: FsaLayout, ord: u64) -> u64 {
    value_rec(b, lay.values_start + ord * lay.value_width, 0, lay.value_width as int, 0)
}

/// Whether the state at relative offset `rel` is final.
pub open spec fn is_final_spec(b: Seq<u8>, lay: FsaLayout, rel: u32) -> bool {
    match byte_at(b, lay.blob_start + rel) {
        Some(flags) => flags & 1 != 0,
        None => false,
    }
}

/// Target of a back-delta from `rel`, when the delta fits.
pub open spec fn back_target(rel: u32, delta: u64) -> Option<u32> {
    if delta <= rel {
        Some((rel - delta) as u32)
    } else {
        None
    }
}

/// Scan of the `n` remaining (label, delta, count) records of a multi-
/// transition state starting at `p`, looking for `byte`; `ord` grows by
/// the count of every label sorting before it.
pub open spec fn step_multi(b: Seq<u8>, rel: u32, p: int, n: u64, byte: u8, ord: u64) -> Option<
    (u32, u64),
>
    decreases n,
{
    if n == 0 {
        None
    } else {
        match byte_at(b, p) {
            None => None,
            Some(label) => match uvarint_at(b, p + 1) {
                None => None,
                Some((delta, p2)) => match uvarint_at(b, p2) {
                    None => None,
                    Some((numt, p3)) => if label < byte {
                        step_multi(b, rel, p3, (n - 1) as u64, byte, wadd(ord, numt))
                    } else if label == byte {
                        match back_target(rel, delta) {
                            Some(t) => Some((t, ord)),
                            None => None,
                        }
                    } else {
                        None
                    },
                },
            },
        }
    }
}

/// One step of the rank walk: from the state at `rel` take `byte`,
/// returning the target state and the running ordinal (increased by one
/// for a final state, since its shorter word sorts first, and by the
/// sizes of the branches before `byte`).
pub open spec fn step_spec(b: Seq<u8>, lay: FsaLayout, rel: u32, byte: u8, ord: u64) -> Option<
    (u32, u64),
> {
    let p = lay.blob_start + rel;
    match byte_at(b, p) {
        None => None,
        Some(flags) => {
            let ord1 = if flags & 1 != 0 {
                wadd(ord, 1)
            } else {
                ord
            };
            if flags & 2 != 0 {
                match byte_at(b, p + 1) {
                    None => None,
                    Some(label) => match uvarint_at(b, p + 2) {
                        None => None,
                        Some((delta, _)) => if label == byte {
                            match back_target(rel, delta) {
                                Some(t) => Some((t, ord1)),
                                None => None,
                            }
                        } else {
                            None
                        },
                    },
                }
            } else {
                match uvarint_at(b, p + 1) {
                    None => None,
                    Some((n, q)) => step_multi(b, rel, q, n, byte, ord1),
                }
            }
        },
    }
}

/// Walk `key` from the state at `rel` with running ordinal `ord`.
pub open spec fn walk_spec(b: Seq<u8>, lay: FsaLayout, rel: u32, key: Seq<u8>, ord: u64) -> Option<
    (u32, u64),
>
    decreases key.len(),
{
    if key.len() == 0 {
        Some((rel, ord))
    } else {
        match step_spec(b, lay, rel, key[0], ord) {
            None => None,
            Some((r2, o2)) => walk_spec(b, lay, r2, key.drop_first(), o2),
        }
    }
}

/// Walk `prefix` from the root; `None` for an empty automaton.
pub open spec fn walk_to_spec(b: Seq<u8>, lay: FsaLayout, prefix: Seq<u8>) -> Option<(u32, u64)> {
    if lay.value_count == 0 {
        None
    } else {
        walk_spec(b, lay, lay.root_rel, prefix, 0)
    }
}

/// The value stored for `key`, as the bytes encode it.
pub open spec fn get_spec(b: Seq<u8>, lay: FsaLayout, key: Seq<u8>) -> Option<u64> {
    match walk_to_spec(b, lay, key) {
        None => None,
        Some((rel, ord)) => if is_final_spec(b, lay, rel) {
            Some(read_value_spec(b, lay, ord))
        } else {
            None
        },
    }
}

/// Target of a DFS edge: strictly earlier in the buffer (no self loop).
pub open spec fn dfs_target(rel: u32, delta: u64) -> Option<u32> {
    if 0 < delta <= rel {
        Some((rel - delta) as u32)
    } else {
        None
    }
}

/// The (key, value) pairs met by the label-ordered depth-first walk from
/// the state at `rel`, where `cur` is the key spelled so far and `ord`
/// the ordinal of the next final state; also returns the ordinal after
/// the walk.
pub open spec fn subtree_spec(b: Seq<u8>, lay: FsaLayout, rel: u32, cur: Seq<u8>, ord: u64) -> (
    Seq<(Seq<u8>, u64)>,
    u64,
)
    decreases rel, 0x1_0000_0000_0000_0000int,
{
    if cur.len() > MAX_WALK_DEPTH {
        (seq![], ord)
    } else {
        let p = lay.blob_start + rel;
        match byte_at(b, p) {
            None => (seq![], ord),
            Some(flags) => {
                let (here, ord1) = if flags & 1 != 0 {
                    (seq![(cur, read_value_spec(b, lay, ord))], wadd(ord, 1))
                } else {
                    (seq![], ord)
                };
                if flags & 2 != 0 {
                    match byte_at(b, p + 1) {
                        None => (here, ord1),
                        Some(label) => match uvarint_at(b, p + 2) {
                            None => (here, ord1),
                            Some((delta, _)) => match dfs_target(rel, delta) {
                                None => (here, ord1),
                                Some(t) => {
                                    let (sub, ord2) = subtree_spec(
                                        b,
                                        lay,
                                        t,
                                        cur.push(label),
                                        ord1,
                                    );
                                    (here + sub, ord2)
                                },
                            },
                        },
                    }
                } else {
                    match uvarint_at(b, p + 1) {
                        None => (here, ord1),
                        Some((n, q)) => {
                            let (rest, ord2) = children_spec(b, lay, rel, q, n, cur, ord1);
                            (here + rest, ord2)
                        },
                    }
                }
            },
        }
    }
}

/// The DFS over the `n` remaining transition records of a multi-
/// transition state, starting at byte `p`.
pub open spec fn children_spec(
    b: Seq<u8>,
    lay: FsaLayout,
    rel: u32,
    p: int,
    n: u64,
    cur: Seq<u8>,
    ord: u64,
) -> (Seq<(Seq<u8>, u64)>, u64)
    decreases rel, n,
{
    if n == 0 {
        (seq![], ord)
    } else {
        match byte_at(b, p) {
            None => (seq![], ord),
            Some(label) => match uvarint_at(b, p + 1) {
                None => (seq![], ord),
                Some((delta, p2)) => match uvarint_at(b, p2) {
                    None => (seq![], ord),
                    Some((_numt, p3)) => match dfs_target(rel, delta) {
                        None => children_spec(b, lay, rel, p3, (n - 1) as u64, cur, ord),
                        Some(t) => {
                            let (sub, ord2) = subtree_spec(b, lay, t, cur.push(label), ord);
                            let (rest, ord3) = children_spec(
                                b,
                                lay,
                                rel,
                                p3,
                                (n - 1) as u64,
                                cur,
                                ord2,
                            );
                            (sub + rest, ord3)
                        },
                    },
                },
            },
        }
    }
}

/// All (key, value) pairs under `prefix`, in the order the walk meets
/// them.
pub open spec fn prefix_spec(b: Seq<u8>, lay: FsaLayout, prefix: Seq<u8>) -> Seq<(Seq<u8>, u64)> {
    match walk_to_spec(b, lay, prefix) {
        None => seq![],
        Some((rel, ord)) => subtree_spec(b, lay, rel, prefix, ord).0,
    }
}

// ─── Executable reader ────────────────────────────────────────────────

/// Little-endian u32 at `at`.
pub fn rd_u32(b: &[u8], at: usize) -> (r: u32)
    requires
        at + 4 <= b@.len(),
    ensures
        r == le_u32_at(b@, at as int),
{
    (b[at] as u32) | ((b[at + 1] as u32) << 8u32) | ((b[at + 2] as u32) << 16u32) | ((b[at
        + 3] as u32) << 24u32)
}

/// Parse the header of the automaton in `b`.
pub fn parse_layout_exec(b: &[u8]) -> (r: Result<FsaLayout, FsaError>)
    ensures
        r == parse_layout(b@),
{
    if b.len() < HEADER_LEN {
        return Err(FsaError::Truncated);
    }
    if !(b[0] == 0x49u8 && b[1] == 0x58u8 && b[2] == 0x46u8 && b[3] == 0x41u8) {
        return Err(FsaError::BadMagic);
    }
    if b[4] != 3 {
        return Err(FsaError::BadVersion(b[4]));
    }
    let value_width = b[5] as usize;
    let value_count = rd_u32(b, 6);
    let root_rel = rd_u32(b, 10);
    let state_count = rd_u32(b, 14);
    assert((value_count as u64) * (value_width as u64) <= 0xffff_ffffu64 * 255u64) by (nonlinear_arith)
        requires
            value_count <= 0xffff_ffffu32,
            value_width <= 255,
    ;
    let values_len: u64 = value_count as u64 * value_width as u64;
    if (b.len() as u64) < 18 + values_len {
        return Err(FsaError::Truncated);
    }
    let values_start = b.len() - values_len as usize;
    Ok(
        FsaLayout {
            value_width,
            value_count,
            state_count,
            root_rel,
            blob_start: HEADER_LEN,
            values_start,
        },
    )
}

/// Well-formed layout of the buffer `b`.
pub open spec fn layout_of(b: Seq<u8>, lay: FsaLayout) -> bool {
    parse_layout(b) == Ok::<FsaLayout, FsaError>(lay)
}

pub fn read_value(b: &[u8], lay: &FsaLayout, ord: u64) -> (v: u64)
    requires
        layout_of(b@, *lay),
    ensures
        v == read_value_spec(b@, *lay, ord),
{
    let w = lay.value_width;
    let ghost at_int = lay.values_start + ord * lay.value_width;
    assert((ord as u128) * (w as u128) <= 0xffff_ffff_ffff_ffffu128 * 255u128) by (nonlinear_arith)
        requires
            ord <= 0xffff_ffff_ffff_ffffu64,
            w <= 255,
    ;
    let at: u128 = lay.values_start as u128 + (ord as u128) * (w as u128);
    assert(at == at_int);
    let mut v: u64 = 0;
    let mut i: usize = 0;
    while i < w && i < 8
        invariant
            w == lay.value_width,
            at == at_int,
            at <= 0x1_0000_0000_0000_0000u128 * 256u128,
            i <= 8,
            value_rec(b@, at_int, 0, w as int, 0) == value_rec(b@, at_int, i as int, w as int, v),
        decreases 8 - i,
    {
        let idx: u128 = at + i as u128;
        let byte: u8 = if idx < b.len() as u128 {
            b[idx as usize]
        } else {
            0
        };
        assert(byte == byte_or_zero(b@, at_int + i));
        v = v | ((byte as u64) << ((8 * i) as u64));
        i = i + 1;
    }
    v
}

/// Byte position of the state at `rel`, when it is inside the buffer.
pub fn state_pos(b: &[u8], lay: &FsaLayout, rel: u32) -> (r: Option<usize>)
    requires
        layout_of(b@, *lay),
    ensures
        match r {
            Some(p) => p == lay.blob_start + rel && p < b@.len(),
            None => lay.blob_start + rel >= b@.len(),
        },
{
    let p: u64 = lay.blob_start as u64 + rel as u64;
    if p < b.len() as u64 {
        Some(p as usize)
    } else {
        None
    }
}

pub fn is_final(b: &[u8], lay: &FsaLayout, rel: u32) -> (r: bool)
    requires
        layout_of(b@, *lay),
    ensures
        r == is_final_spec(b@, *lay, rel),
{
    match state_pos(b, lay, rel) {
        Some(p) => b[p] & 1 != 0,
        None => false,
    }
}

/// Walk one state: from the state at `rel` take `byte`. Returns the
/// target state's relative offset and the running ordinal, or `None` if
/// there is no such transition or a read falls outside the buffer.
pub fn step(b: &[u8], lay: &FsaLayout, rel: u32, byte: u8, ord: u64) -> (r: Option<(u32, u64)>)
    requires
        layout_of(b@, *lay),
    ensures
        r == step_spec(b@, *lay, rel, byte, ord),
{
    let mut p = match state_pos(b, lay, rel) {
        Some(p) => p,
        None => return None,
    };
    let flags = b[p];
    p = p + 1;
    let ord1 = if flags & 1 != 0 {
        wadd_exec(ord, 1)
    } else {
        ord
    };
    if flags & 0b10 != 0 {
        if p >= b.len() {
            return None;
        }
        let label = b[p];
        p = p + 1;
        let delta = match rd_uvarint(b, &mut p) {
            Some(d) => d,
            None => return None,
        };
        if label == byte {
            if delta <= rel as u64 {
                return Some(((rel as u64 - delta) as u32, ord1));
            }
            return None;
        }
        return None;
    }
    let ntrans = match rd_uvarint(b, &mut p) {
        Some(n) => n,
        None => return None,
    };
    let mut left = ntrans;
    let mut ord2 = ord1;
    while left > 0
        invariant
            step_spec(b@, *lay, rel, byte, ord) == step_multi(b@, rel, p as int, left, byte, ord2),
        decreases left,
    {
        if p >= b.len() {
            return None;
        }
        let label = b[p];
        p = p + 1;
        let delta = match rd_uvarint(b, &mut p) {
            Some(d) => d,
            None => return None,
        };
        let numt = match rd_uvarint(b, &mut p) {
            Some(n) => n,
            None => return None,
        };
        if label < byte {
            ord2 = wadd_exec(ord2, numt);
        } else if label == byte {
            if delta <= rel as u64 {
                return Some(((rel as u64 - delta) as u32, ord2));
            }
            return None;
        } else {
            return None;
        }
        left = left - 1;
    }
    None
}

/// Walk `prefix` from the root; `(state, ordinal)` where it ends.
pub fn walk_to(b: &[u8], lay: &FsaLayout, prefix: &[u8]) -> (r: Option<(u32, u64)>)
    requires
        layout_of(b@, *lay),
    ensures
        r == walk_to_spec(b@, *lay, prefix@),
{
    if lay.value_count == 0 {
        return None;
    }
    let mut rel = lay.root_rel;
    let mut ord: u64 = 0;
    let mut i: usize = 0;
    assert(prefix@.subrange(0, prefix@.len() as int) == prefix@);
    while i < prefix.len()
        invariant
            lay.value_count != 0,
            i <= prefix@.len(),
            layout_of(b@, *lay),
            walk_to_spec(b@, *lay, prefix@) == walk_spec(
                b@,
                *lay,
                rel,
                prefix@.subrange(i as int, prefix@.len() as int),
                ord,
            ),
        decreases prefix@.len() - i,
    {
        let ghost rest = prefix@.subrange(i as int, prefix@.len() as int);
        assert(rest.drop_first() == prefix@.subrange(i + 1, prefix@.len() as int));
        match step(b, lay, rel, prefix[i], ord) {
            Some((r2, o2)) => {
                rel = r2;
                ord = o2;
            },
            None => return None,
        }
        i = i + 1;
    }
    assert(prefix@.subrange(prefix@.len() as int, prefix@.len() as int) == Seq::<u8>::empty());
    Some((rel, ord))
}

/// `Some(value)` for an exact match of `key`, `None` otherwise.
pub fn get_in(b: &[u8], lay: &FsaLayout, key: &[u8]) -> (r: Option<u64>)
    requires
        layout_of(b@, *lay),
    ensures
        r == get_spec(b@, *lay, key@),
{
    match walk_to(b, lay, key) {
        None => None,
        Some((rel, ord)) => if is_final(b, lay, rel) {
            Some(read_value(b, lay, ord))
        } else {
            None
        },
    }
}

/// Owned view of a list of (key, value) pairs.
pub open spec fn deep_pairs(s: Seq<(Vec<u8>, u64)>) -> Seq<(Seq<u8>, u64)> {
    s.map_values(|p: (Vec<u8>, u64)| (p.0@, p.1))
}

proof fn lemma_deep_pairs_append(a: Seq<(Vec<u8>, u64)>, c: Seq<(Vec<u8>, u64)>)
    ensures
        deep_pairs(a + c) == deep_pairs(a) + deep_pairs(c),
{
    assert(deep_pairs(a + c) =~= deep_pairs(a) + deep_pairs(c));
}

/// Appends `src` to `dst`.
fn append_pairs(dst: &mut Vec<(Vec<u8>, u64)>, src: Vec<(Vec<u8>, u64)>)
    ensures
        deep_pairs(final(dst)@) == deep_pairs(old(dst)@) + deep_pairs(src@),
{
    let mut src = src;
    let ghost s0 = src@;
    dst.append(&mut src);
    proof {
        lemma_deep_pairs_append(old(dst)@, s0);
    }
}

/// Depth-first walk in label order from the state at `rel`: the
/// accepted (key, value) pairs below it, keys spelled from `cur`, and
/// the ordinal after the walk.
pub fn visit_subtree(b: &[u8], lay: &FsaLayout, rel: u32, cur: &mut Vec<u8>, ord: u64) -> (r: (
    Vec<(Vec<u8>, u64)>,
    u64,
))
    requires
        layout_of(b@, *lay),
    ensures
        final(cur)@ == old(cur)@,
        (deep_pairs(r.0@), r.1) == subtree_spec(b@, *lay, rel, old(cur)@, ord),
    decreases rel, 0x1_0000_0000_0000_0000int,
{
    let mut out: Vec<(Vec<u8>, u64)> = Vec::new();
    if cur.len() > MAX_WALK_DEPTH {
        return (out, ord);
    }
    let mut p = match state_pos(b, lay, rel) {
        Some(p) => p,
        None => return (out, ord),
    };
    let flags = b[p];
    p = p + 1;
    let mut ord1 = ord;
    if flags & 1 != 0 {
        let v = read_value(b, lay, ord);
        let k = cur.clone();
        out.push((k, v));
        ord1 = wadd_exec(ord, 1);
    }
    assert(deep_pairs(out@) =~= (if flags & 1 != 0 {
        seq![(cur@, read_value_spec(b@, *lay, ord))]
    } else {
        seq![]
    }));
    if flags & 0b10 != 0 {
        if p >= b.len() {
            return (out, ord1);
        }
        let label = b[p];
        p = p + 1;
        let delta = match rd_uvarint(b, &mut p) {
            Some(d) => d,
            None => return (out, ord1),
        };
        if 0 < delta && delta <= rel as u64 {
            let target = (rel as u64 - delta) as u32;
            cur.push(label);
            let (sub, ord2) = visit_subtree(b, lay, target, cur, ord1);
            cur.pop();
            assert(cur@ == old(cur)@);
            append_pairs(&mut out, sub);
            return (out, ord2);
        }
        return (out, ord1);
    }
    let ntrans = match rd_uvarint(b, &mut p) {
        Some(n) => n,
        None => return (out, ord1),
    };
    let (rest, ord3) = visit_children(b, lay, rel, p, ntrans, cur, ord1);
    append_pairs(&mut out, rest);
    (out, ord3)
}

/// The depth-first walk over the `n` transition records of a multi-
/// transition state starting at byte `p`.
pub fn visit_children(
    b: &[u8],
    lay: &FsaLayout,
    rel: u32,
    p: usize,
    n: u64,
    cur: &mut Vec<u8>,
    ord: u64,
) -> (r: (Vec<(Vec<u8>, u64)>, u64))
    requires
        layout_of(b@, *lay),
    ensures
        final(cur)@ == old(cur)@,
        (deep_pairs(r.0@), r.1) == children_spec(b@, *lay, rel, p as int, n, old(cur)@, ord),
    decreases rel, n,
{
    let mut out: Vec<(Vec<u8>, u64)> = Vec::new();
    let mut pos = p;
    let mut left = n;
    let mut o = ord;
    assert(deep_pairs(out@) =~= Seq::<(Seq<u8>, u64)>::empty());
    while left > 0
        invariant
            layout_of(b@, *lay),
            cur@ == old(cur)@,
            left <= n,
            ({
                let (rest, orest) = children_spec(b@, *lay, rel, pos as int, left, cur@, o);
                (deep_pairs(out@) + rest, orest) == children_spec(
                    b@,
                    *lay,
                    rel,
                    p as int,
                    n,
                    old(cur)@,
                    ord,
                )
            }),
        decreases left,
    {
        let ghost pp = pos as int;
        let ghost oo = o;
        let ghost out_before = deep_pairs(out@);
        if pos >= b.len() {
            assert(children_spec(b@, *lay, rel, pos as int, left, cur@, o) == (
                Seq::<(Seq<u8>, u64)>::empty(),
                o,
            ));
            assert(out_before + Seq::<(Seq<u8>, u64)>::empty() =~= out_before);
            return (out, o);
        }
        let label = b[pos];
        pos = pos + 1;
        let delta = match rd_uvarint(b, &mut pos) {
            Some(d) => d,
            None => {
                assert(out_before + seq![] =~= out_before);
                return (out, o);
            },
        };
        let _num = match rd_uvarint(b, &mut pos) {
            Some(x) => x,
            None => {
                assert(out_before + seq![] =~= out_before);
                return (out, o);
            },
        };
        if 0 < delta && delta <= rel as u64 {
            let target = (rel as u64 - delta) as u32;
            let ghost c0 = cur@;
            cur.push(label);
            let (sub, ord2) = visit_subtree(b, lay, target, cur, o);
            cur.pop();
            assert(cur@ =~= c0);
            append_pairs(&mut out, sub);
            o = ord2;
            proof {
                let (rest, _) = children_spec(b@, *lay, rel, pos as int, (left - 1) as u64, cur@, o);
                let (sub_s, _) = subtree_spec(b@, *lay, target, c0.push(label), oo);
                assert(deep_pairs(out@) == out_before + sub_s);
                assert((out_before + sub_s) + rest =~= out_before + (sub_s + rest));
            }
        }
        left = left - 1;
    }
    assert(deep_pairs(out@) + seq![] =~= deep_pairs(out@));
    (out, o)
}

} // verus!

verus! {

/// The value stored for `key` in the automaton encoded by `b`.
pub open spec fn bytes_get(b: Seq<u8>, key: Seq<u8>) -> Option<u64> {
    match parse_layout(b) {
        Ok(lay) => get_spec(b, lay, key),
        Err(_) => None,
    }
}

/// Whether some key of the automaton encoded by `b` starts with `prefix`.
pub open spec fn bytes_has_prefix(b: Seq<u8>, prefix: Seq<u8>) -> bool {
    match parse_layout(b) {
        Ok(lay) => walk_to_spec(b, lay, prefix) is Some,
        Err(_) => false,
    }
}

/// The (key, value) pairs under `prefix` of the automaton encoded by `b`.
pub open spec fn bytes_prefix(b: Seq<u8>, prefix: Seq<u8>) -> Seq<(Seq<u8>, u64)> {
    match parse_layout(b) {
        Ok(lay) => prefix_spec(b, lay, prefix),
        Err(_) => seq![],
    }
}

/// A read-only automaton map over owned bytes.
pub struct Fsa {
    data: Vec<u8>,
    lay: FsaLayout,
}

impl Fsa {
    #[verifier::type_invariant]
    spec fn inv(&self) -> bool {
        layout_of(self.data@, self.lay)
    }

    /// The serialized bytes this map reads.
    pub closed spec fn bytes(&self) -> Seq<u8> {
        self.data@
    }

    /// The parsed header of this map.
    pub closed spec fn layout(&self) -> FsaLayout {
        self.lay
    }

    /// Load an automaton from a serialized byte buffer. Only the 18-byte
    /// header is parsed. Errors: `Truncated` when the buffer is shorter
    /// than the header or than header plus value table, `BadMagic`,
    /// `BadVersion(v)` for a version byte other than 3.
    pub fn new(data: Vec<u8>) -> (r: Result<Fsa, FsaError>)
        ensures
            match parse_layout(data@) {
                Ok(lay) => r matches Ok(f) && f.bytes() == data@ && f.layout() == lay,
                Err(e) => r == Err::<Fsa, FsaError>(e),
            },
    {
        match parse_layout_exec(data.as_slice()) {
            Ok(lay) => Ok(Fsa { data, lay }),
            Err(e) => Err(e),
        }
    }

    /// Number of keys stored.
    pub fn len(&self) -> (r: u64)
        ensures
            r == self.layout().value_count,
            parse_layout(self.bytes()) == Ok::<FsaLayout, FsaError>(self.layout()),
    {
        proof {
            use_type_invariant(self);
        }
        self.lay.value_count as u64
    }

    pub fn is_empty(&self) -> (r: bool)
        ensures
            r == (self.layout().value_count == 0),
            parse_layout(self.bytes()) == Ok::<FsaLayout, FsaError>(self.layout()),
    {
        proof {
            use_type_invariant(self);
        }
        self.lay.value_count == 0
    }

    /// Total number of states in the automaton (diagnostics).
    pub fn state_count(&self) -> (r: u32)
        ensures
            r == self.layout().state_count,
            parse_layout(self.bytes()) == Ok::<FsaLayout, FsaError>(self.layout()),
    {
        proof {
            use_type_invariant(self);
        }
        self.lay.state_count
    }

    /// Look up `key`: `Some(value)` for an exact match, `None` otherwise.
    pub fn get(&self, key: &[u8]) -> (r: Option<u64>)
        ensures
            r == bytes_get(self.bytes(), key@),
    {
        proof {
            use_type_invariant(self);
        }
        get_in(self.data.as_slice(), &self.lay, key)
    }

    /// `true` if any stored key starts with `prefix`.
    pub fn contains_prefix(&self, prefix: &[u8]) -> (r: bool)
        ensures
            r == bytes_has_prefix(self.bytes(), prefix@),
    {
        proof {
            use_type_invariant(self);
        }
        walk_to(self.data.as_slice(), &self.lay, prefix).is_some()
    }

    /// All (key, value) pairs whose key starts with `prefix`, in order.
    pub fn prefix(&self, prefix: &[u8]) -> (r: Vec<(Vec<u8>, u64)>)
        ensures
            deep_pairs(r@) == bytes_prefix(self.bytes(), prefix@),
    {
        proof {
            use_type_invariant(self);
        }
        match walk_to(self.data.as_slice(), &self.lay, prefix) {
            Some((rel, ord)) => {
                let mut cur = slice_to_vec_u8(prefix);
                let (out, _) = visit_subtree(self.data.as_slice(), &self.lay, rel, &mut cur, ord);
                out
            },
            None => {
                let out: Vec<(Vec<u8>, u64)> = Vec::new();
                assert(deep_pairs(out@) =~= Seq::<(Seq<u8>, u64)>::empty());
                out
            },
        }
    }

    /// Invoke `visit(key, value)` for every pair whose key starts with
    /// `prefix`, in the order of [`Fsa::prefix`].
    pub fn prefix_for_each<F: FnMut(&[u8], u64)>(&self, prefix: &[u8], visit: F)
        requires
            forall|k: &[u8], v: u64| call_requires(visit, (k, v)),
    {
        let items = self.prefix(prefix);
        let mut visit = visit;
        let mut i: usize = 0;
        while i < items.len()
            invariant
                forall|k: &[u8], v: u64| call_requires(visit, (k, v)),
            decreases items.len() - i,
        {
            visit(items[i].0.as_slice(), items[i].1);
            i = i + 1;
        }
    }
}

impl Fsa {
    /// Iterator over every (key, value) pair, in key order.
    pub fn iter(&self) -> (r: FsaIter)
        ensures
            r.rest() == bytes_prefix(self.bytes(), Seq::empty()),
    {
        let empty: [u8; 0] = [];
        proof {
            assert(empty@ =~= Seq::<u8>::empty());
        }
        self.range(&empty)
    }

    /// Iterator over the pairs whose key starts with `prefix`, in key
    /// order: the sequence [`Fsa::prefix`] returns.
    pub fn range(&self, prefix: &[u8]) -> (r: FsaIter)
        ensures
            r.rest() == bytes_prefix(self.bytes(), prefix@),
    {
        let items = self.prefix(prefix);
        let r = FsaIter { items, pos: 0 };
        assert(r.rest() =~= deep_pairs(r.items@));
        r
    }
}

/// The pairs of an [`Fsa`] under a prefix, handed out one at a time.
pub struct FsaIter {
    items: Vec<(Vec<u8>, u64)>,
    pos: usize,
}

impl FsaIter {
    #[verifier::type_invariant]
    spec fn inv(&self) -> bool {
        self.pos <= self.items@.len()
    }

    /// The pairs not yet handed out.
    pub closed spec fn rest(&self) -> Seq<(Seq<u8>, u64)> {
        deep_pairs(self.items@).skip(self.pos as int)
    }

    /// The next pair, or `None` when all were handed out.
    pub fn next(&mut self) -> (r: Option<(Vec<u8>, u64)>)
        ensures
            old(self).rest().len() == 0 ==> r is None && final(self).rest() == old(self).rest(),
            old(self).rest().len() > 0 ==> (r matches Some(x) && (x.0@, x.1) == old(self).rest()[0]
                && final(self).rest() == old(self).rest().drop_first()),
    {
        proof {
            use_type_invariant(&*self);
        }
        if self.pos < self.items.len() {
            let k = slice_to_vec_u8(self.items[self.pos].0.as_slice());
            let v = self.items[self.pos].1;
            self.pos = self.pos + 1;
            assert(self.rest() =~= old(self).rest().drop_first());
            Some((k, v))
        } else {
            None
        }
    }
}

/// Copy of a byte slice.
pub fn slice_to_vec_u8(s: &[u8]) -> (r: Vec<u8>)
    ensures
        r@ == s@,
{
    let mut r: Vec<u8> = Vec::new();
    let mut i: usize = 0;
    while i < s.len()
        invariant
            i <= s@.len(),
            r@ == s@.subrange(0, i as int),
        decreases s@.len() - i,
    {
        r.push(s[i]);
        i = i + 1;
    }
    r
}

} // verus!
