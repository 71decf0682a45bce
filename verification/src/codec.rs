//! Binary page codec.
//!
//! A page record is laid out as a fixed 39-byte header followed by the three
//! element arrays, all little-endian:
//!
//! - byte 0: node kind (0 internal, 1 leaf)
//! - bytes 1..5: page id (`u32`)
//! - bytes 5..13, 13..21, 21..29: key, child and value counts (`u64`)
//! - byte 29 and bytes 30..34: next-leaf flag and id
//! - byte 34 and bytes 35..39: parent flag and id
//! - keys (4 bytes each, biased), then child ids (4 bytes), then values (8
//!   bytes).
//!
//! The encoding is length-implicit: trailing bytes after the arrays (the zero
//! padding of a page slot) are ignored by the decoder, and decoding recovers
//! exactly the record that was encoded.

use vstd::prelude::*;

use crate::storage::{NodeType, PageData, PageView};

verus! {

/// Length of the fixed header that precedes the element arrays.
pub const HEADER_LEN: usize = 39;

// ---------------------------------------------------------------------------
// Little-endian byte views of fixed-width integers.
// ---------------------------------------------------------------------------

pub open spec fn u32_le(x: u32) -> Seq<u8> {
    seq![
        (x & 0xff) as u8,
        ((x >> 8) & 0xff) as u8,
        ((x >> 16) & 0xff) as u8,
        ((x >> 24) & 0xff) as u8,
    ]
}

pub open spec fn u64_le(x: u64) -> Seq<u8> {
    seq![
        (x & 0xff) as u8,
        ((x >> 8) & 0xff) as u8,
        ((x >> 16) & 0xff) as u8,
        ((x >> 24) & 0xff) as u8,
        ((x >> 32) & 0xff) as u8,
        ((x >> 40) & 0xff) as u8,
        ((x >> 48) & 0xff) as u8,
        ((x >> 56) & 0xff) as u8,
    ]
}

/// Signed keys are stored biased by `2^31` so that the byte image is a plain
/// unsigned number.
pub open spec fn key_to_u32(k: i32) -> u32 {
    (k as int + 0x8000_0000) as u32
}

pub open spec fn u32_to_key(x: u32) -> i32 {
    (x as int - 0x8000_0000) as i32
}

pub proof fn lemma_key_bias_round_trip()
    ensures
        forall|k: i32| #[trigger] u32_to_key(key_to_u32(k)) == k,
        forall|x: u32| #[trigger] key_to_u32(u32_to_key(x)) == x,
{
}

pub proof fn lemma_u32_le_injective(a: u32, b: u32)
    requires
        u32_le(a) == u32_le(b),
    ensures
        a == b,
{
    assert(u32_le(a)[0] == u32_le(b)[0]);
    assert(u32_le(a)[1] == u32_le(b)[1]);
    assert(u32_le(a)[2] == u32_le(b)[2]);
    assert(u32_le(a)[3] == u32_le(b)[3]);
    assert((a & 0xff) as u8 == (b & 0xff) as u8 && ((a >> 8) & 0xff) as u8 == ((b >> 8) & 0xff)
        as u8 && ((a >> 16) & 0xff) as u8 == ((b >> 16) & 0xff) as u8 && ((a >> 24) & 0xff) as u8
        == ((b >> 24) & 0xff) as u8 ==> a == b) by (bit_vector);
}

pub proof fn lemma_u64_le_injective(a: u64, b: u64)
    requires
        u64_le(a) == u64_le(b),
    ensures
        a == b,
{
    assert(forall|i: int| 0 <= i < 8 ==> u64_le(a)[i] == u64_le(b)[i]);
    assert((a & 0xff) as u8 == (b & 0xff) as u8 && ((a >> 8) & 0xff) as u8 == ((b >> 8) & 0xff)
        as u8 && ((a >> 16) & 0xff) as u8 == ((b >> 16) & 0xff) as u8 && ((a >> 24) & 0xff) as u8
        == ((b >> 24) & 0xff) as u8 && ((a >> 32) & 0xff) as u8 == ((b >> 32) & 0xff) as u8 && ((a
        >> 40) & 0xff) as u8 == ((b >> 40) & 0xff) as u8 && ((a >> 48) & 0xff) as u8 == ((b >> 48)
        & 0xff) as u8 && ((a >> 56) & 0xff) as u8 == ((b >> 56) & 0xff) as u8 ==> a == b)
        by (bit_vector);
}

// ---------------------------------------------------------------------------
// Encoded form of a whole record.
// ---------------------------------------------------------------------------

pub open spec fn kind_byte(t: NodeType) -> u8 {
    match t {
        NodeType::Internal => 0u8,
        NodeType::Leaf => 1u8,
    }
}

pub open spec fn flag_byte(o: Option<u32>) -> u8 {
    match o {
        Option::Some(_) => 1u8,
        Option::None => 0u8,
    }
}

pub open spec fn opt_val(o: Option<u32>) -> u32 {
    match o {
        Option::Some(x) => x,
        Option::None => 0u32,
    }
}

pub open spec fn keys_bytes(s: Seq<i32>) -> Seq<u8> {
    Seq::new(4 * s.len(), |i: int| u32_le(key_to_u32(s[i / 4]))[i % 4])
}

pub open spec fn children_bytes(s: Seq<u32>) -> Seq<u8> {
    Seq::new(4 * s.len(), |i: int| u32_le(s[i / 4])[i % 4])
}

pub open spec fn values_bytes(s: Seq<u64>) -> Seq<u8> {
    Seq::new(8 * s.len(), |i: int| u64_le(s[i / 8])[i % 8])
}

pub open spec fn header_bytes(m: PageView) -> Seq<u8> {
    seq![kind_byte(m.node_type)] + u32_le(m.id) + u64_le(m.keys.len() as u64) + u64_le(
        m.children.len() as u64,
    ) + u64_le(m.values.len() as u64) + seq![flag_byte(m.next)] + u32_le(opt_val(m.next)) + seq![
        flag_byte(m.parent_id),
    ] + u32_le(opt_val(m.parent_id))
}

pub open spec fn spec_encode(m: PageView) -> Seq<u8> {
    header_bytes(m) + keys_bytes(m.keys) + children_bytes(m.children) + values_bytes(m.values)
}

/// Exact length of the encoded form.
pub open spec fn encoded_len(m: PageView) -> int {
    39 + 4 * m.keys.len() as int + 4 * m.children.len() as int + 8 * m.values.len() as int
}

/// Bounds under which the header counts are unambiguous.
pub open spec fn small(m: PageView) -> bool {
    &&& m.keys.len() < 0x1000_0000
    &&& m.children.len() < 0x1000_0000
    &&& m.values.len() < 0x1000_0000
}

/// `pre` is an initial segment of `b`.
pub open spec fn starts_with(b: Seq<u8>, pre: Seq<u8>) -> bool {
    pre.len() <= b.len() && pre == b.subrange(0, pre.len() as int)
}

proof fn lemma_div4(j: int, i: int)
    requires
        4 * i <= j < 4 * i + 4,
    ensures
        j / 4 == i,
        j % 4 == j - 4 * i,
{
    assert(j / 4 == i && j % 4 == j - 4 * i) by (nonlinear_arith)
        requires
            4 * i <= j < 4 * i + 4,
    ;
}

proof fn lemma_div8(j: int, i: int)
    requires
        8 * i <= j < 8 * i + 8,
    ensures
        j / 8 == i,
        j % 8 == j - 8 * i,
{
    assert(j / 8 == i && j % 8 == j - 8 * i) by (nonlinear_arith)
        requires
            8 * i <= j < 8 * i + 8,
    ;
}

pub proof fn lemma_encode_len(m: PageView)
    ensures
        spec_encode(m).len() == encoded_len(m),
        header_bytes(m).len() == 39,
{
}

/// Where each region of `m` sits inside `spec_encode(m)`.
pub proof fn lemma_encode_index(m: PageView)
    ensures
        spec_encode(m).len() == encoded_len(m),
        forall|i: int| 0 <= i < 39 ==> #[trigger] spec_encode(m)[i] == header_bytes(m)[i],
        forall|i: int|
            39 <= i < 39 + 4 * m.keys.len() ==> #[trigger] spec_encode(m)[i] == u32_le(
                key_to_u32(m.keys[(i - 39) / 4]),
            )[(i - 39) % 4],
        forall|i: int|
            39 + 4 * m.keys.len() <= i < 39 + 4 * m.keys.len() + 4 * m.children.len()
                ==> #[trigger] spec_encode(m)[i] == u32_le(
                m.children[(i - 39 - 4 * m.keys.len() as int) / 4],
            )[(i - 39 - 4 * m.keys.len() as int) % 4],
        forall|i: int|
            39 + 4 * m.keys.len() + 4 * m.children.len() <= i < encoded_len(m) ==> #[trigger]
            spec_encode(m)[i] == u64_le(
                m.values[(i - 39 - 4 * m.keys.len() as int - 4 * m.children.len() as int) / 8],
            )[(i - 39 - 4 * m.keys.len() as int - 4 * m.children.len() as int) % 8],
{
    let h = header_bytes(m);
    let kb = keys_bytes(m.keys);
    let cb = children_bytes(m.children);
    let vb = values_bytes(m.values);
    assert(h.len() == 39);
    assert forall|i: int| 0 <= i < 39 implies #[trigger] spec_encode(m)[i] == header_bytes(
        m,
    )[i] by {
        assert(spec_encode(m)[i] == h[i]);
    }
    assert forall|i: int| 39 <= i < 39 + 4 * m.keys.len() implies #[trigger] spec_encode(m)[i]
        == u32_le(key_to_u32(m.keys[(i - 39) / 4]))[(i - 39) % 4] by {
        assert(spec_encode(m)[i] == kb[i - 39]);
    }
    assert forall|i: int| 39 + 4 * m.keys.len() <= i < 39 + 4 * m.keys.len() + 4
        * m.children.len() implies #[trigger] spec_encode(m)[i] == u32_le(
        m.children[(i - 39 - 4 * m.keys.len() as int) / 4],
    )[(i - 39 - 4 * m.keys.len() as int) % 4] by {
        assert(spec_encode(m)[i] == cb[i - 39 - 4 * m.keys.len() as int]);
    }
    assert forall|i: int| 39 + 4 * m.keys.len() + 4 * m.children.len() <= i < encoded_len(m)
        implies #[trigger] spec_encode(m)[i] == u64_le(
        m.values[(i - 39 - 4 * m.keys.len() as int - 4 * m.children.len() as int) / 8],
    )[(i - 39 - 4 * m.keys.len() as int - 4 * m.children.len() as int) % 8] by {
        assert(spec_encode(m)[i] == vb[i - 39 - 4 * m.keys.len() as int - 4 * m.children.len()
            as int]);
    }
}

// ---------------------------------------------------------------------------
// Executable helpers.
// ---------------------------------------------------------------------------

fn push_u32_le(out: &mut Vec<u8>, x: u32)
    ensures
        final(out)@ == old(out)@ + u32_le(x),
{
    out.push((x & 0xff) as u8);
    out.push(((x >> 8) & 0xff) as u8);
    out.push(((x >> 16) & 0xff) as u8);
    out.push(((x >> 24) & 0xff) as u8);
    proof {
        assert(out@ =~= old(out)@ + u32_le(x));
    }
}

fn push_u64_le(out: &mut Vec<u8>, x: u64)
    ensures
        final(out)@ == old(out)@ + u64_le(x),
{
    out.push((x & 0xff) as u8);
    out.push(((x >> 8) & 0xff) as u8);
    out.push(((x >> 16) & 0xff) as u8);
    out.push(((x >> 24) & 0xff) as u8);
    out.push(((x >> 32) & 0xff) as u8);
    out.push(((x >> 40) & 0xff) as u8);
    out.push(((x >> 48) & 0xff) as u8);
    out.push(((x >> 56) & 0xff) as u8);
    proof {
        assert(out@ =~= old(out)@ + u64_le(x));
    }
}

fn read_u32_at(b: &Vec<u8>, off: usize) -> (x: u32)
    requires
        off + 4 <= b@.len(),
    ensures
        u32_le(x) == b@.subrange(off as int, off as int + 4),
{
    let blen = b.len();
    let b0 = b[off];
    let b1 = b[off + 1];
    let b2 = b[off + 2];
    let b3 = b[off + 3];
    let x = (b0 as u32) | ((b1 as u32) << 8) | ((b2 as u32) << 16) | ((b3 as u32) << 24);
    proof {
        let y = (b0 as u32) | ((b1 as u32) << 8) | ((b2 as u32) << 16) | ((b3 as u32) << 24);
        assert((y & 0xff) as u8 == b0 && ((y >> 8) & 0xff) as u8 == b1 && ((y >> 16) & 0xff) as u8
            == b2 && ((y >> 24) & 0xff) as u8 == b3) by (bit_vector)
            requires
                y == (b0 as u32) | ((b1 as u32) << 8) | ((b2 as u32) << 16) | ((b3 as u32) << 24),
        ;
        assert(u32_le(x) =~= b@.subrange(off as int, off as int + 4));
    }
    x
}

fn read_u64_at(b: &Vec<u8>, off: usize) -> (x: u64)
    requires
        off + 8 <= b@.len(),
    ensures
        u64_le(x) == b@.subrange(off as int, off as int + 8),
{
    let blen = b.len();
    let b0 = b[off];
    let b1 = b[off + 1];
    let b2 = b[off + 2];
    let b3 = b[off + 3];
    let b4 = b[off + 4];
    let b5 = b[off + 5];
    let b6 = b[off + 6];
    let b7 = b[off + 7];
    let x = (b0 as u64) | ((b1 as u64) << 8) | ((b2 as u64) << 16) | ((b3 as u64) << 24) | ((
    b4 as u64) << 32) | ((b5 as u64) << 40) | ((b6 as u64) << 48) | ((b7 as u64) << 56);
    proof {
        let y = (b0 as u64) | ((b1 as u64) << 8) | ((b2 as u64) << 16) | ((b3 as u64) << 24) | ((
        b4 as u64) << 32) | ((b5 as u64) << 40) | ((b6 as u64) << 48) | ((b7 as u64) << 56);
        assert((y & 0xff) as u8 == b0 && ((y >> 8) & 0xff) as u8 == b1 && ((y >> 16) & 0xff) as u8
            == b2 && ((y >> 24) & 0xff) as u8 == b3 && ((y >> 32) & 0xff) as u8 == b4 && ((y >> 40)
            & 0xff) as u8 == b5 && ((y >> 48) & 0xff) as u8 == b6 && ((y >> 56) & 0xff) as u8 == b7)
            by (bit_vector)
            requires
                y == (b0 as u64) | ((b1 as u64) << 8) | ((b2 as u64) << 16) | ((b3 as u64) << 24)
                    | ((b4 as u64) << 32) | ((b5 as u64) << 40) | ((b6 as u64) << 48) | ((b7 as u64)
                    << 56),
        ;
        assert(u64_le(x) =~= b@.subrange(off as int, off as int + 8));
    }
    x
}

fn key_encode(k: i32) -> (x: u32)
    ensures
        x == key_to_u32(k),
{
    let v: i64 = (k as i64) + 0x8000_0000i64;
    v as u32
}

fn key_decode(x: u32) -> (k: i32)
    ensures
        k == u32_to_key(x),
{
    let v: i64 = (x as i64) - 0x8000_0000i64;
    v as i32
}

// ---------------------------------------------------------------------------
// Encoding.
// ---------------------------------------------------------------------------

/// Encodes a page record. The result is exactly `spec_encode(p@)`.
pub fn encode_page(p: &PageData) -> (out: Vec<u8>)
    ensures
        out@ == spec_encode(p@),
{
    let mut out: Vec<u8> = Vec::new();
    match p.node_type {
        NodeType::Internal => out.push(0u8),
        NodeType::Leaf => out.push(1u8),
    }
    push_u32_le(&mut out, p.id);
    push_u64_le(&mut out, p.keys.len() as u64);
    push_u64_le(&mut out, p.children.len() as u64);
    push_u64_le(&mut out, p.values.len() as u64);
    match p.next {
        Some(x) => {
            out.push(1u8);
            push_u32_le(&mut out, x);
        },
        None => {
            out.push(0u8);
            push_u32_le(&mut out, 0u32);
        },
    }
    match p.parent_id {
        Some(x) => {
            out.push(1u8);
            push_u32_le(&mut out, x);
        },
        None => {
            out.push(0u8);
            push_u32_le(&mut out, 0u32);
        },
    }
    proof {
        assert(out@ =~= header_bytes(p@));
    }
    let mut i: usize = 0;
    while i < p.keys.len()
        invariant
            i <= p.keys.len(),
            out@ == header_bytes(p@) + keys_bytes(p@.keys.take(i as int)),
        decreases p.keys.len() - i,
    {
        push_u32_le(&mut out, key_encode(p.keys[i]));
        proof {
            lemma_keys_bytes_step(p@.keys, i as int);
        }
        i += 1;
    }
    proof {
        assert(p@.keys.take(p.keys@.len() as int) =~= p@.keys);
    }
    let mut i: usize = 0;
    while i < p.children.len()
        invariant
            i <= p.children.len(),
            out@ == header_bytes(p@) + keys_bytes(p@.keys) + children_bytes(
                p@.children.take(i as int),
            ),
        decreases p.children.len() - i,
    {
        push_u32_le(&mut out, p.children[i]);
        proof {
            lemma_children_bytes_step(p@.children, i as int);
        }
        i += 1;
    }
    proof {
        assert(p@.children.take(p.children@.len() as int) =~= p@.children);
    }
    let mut i: usize = 0;
    while i < p.values.len()
        invariant
            i <= p.values.len(),
            out@ == header_bytes(p@) + keys_bytes(p@.keys) + children_bytes(p@.children)
                + values_bytes(p@.values.take(i as int)),
        decreases p.values.len() - i,
    {
        push_u64_le(&mut out, p.values[i]);
        proof {
            lemma_values_bytes_step(p@.values, i as int);
        }
        i += 1;
    }
    proof {
        assert(p@.values.take(p.values@.len() as int) =~= p@.values);
        assert(out@ =~= spec_encode(p@));
    }
    out
}

proof fn lemma_keys_bytes_step(s: Seq<i32>, i: int)
    requires
        0 <= i < s.len(),
    ensures
        keys_bytes(s.take(i + 1)) == keys_bytes(s.take(i)) + u32_le(key_to_u32(s[i])),
{
    assert forall|j: int| 0 <= j < 4 * (i + 1) implies keys_bytes(s.take(i + 1))[j] == (keys_bytes(
        s.take(i),
    ) + u32_le(key_to_u32(s[i])))[j] by {
        if j < 4 * i {
            lemma_div4(j, j / 4);
            assert(0 <= j / 4 < i);
            assert(s.take(i + 1)[j / 4] == s.take(i)[j / 4]);
        } else {
            lemma_div4(j, i);
            assert(s.take(i + 1)[i] == s[i]);
        }
    }
    assert(keys_bytes(s.take(i + 1)) =~= keys_bytes(s.take(i)) + u32_le(key_to_u32(s[i])));
}

proof fn lemma_children_bytes_step(s: Seq<u32>, i: int)
    requires
        0 <= i < s.len(),
    ensures
        children_bytes(s.take(i + 1)) == children_bytes(s.take(i)) + u32_le(s[i]),
{
    assert forall|j: int| 0 <= j < 4 * (i + 1) implies children_bytes(s.take(i + 1))[j] == (
    children_bytes(s.take(i)) + u32_le(s[i]))[j] by {
        if j < 4 * i {
            lemma_div4(j, j / 4);
            assert(0 <= j / 4 < i);
            assert(s.take(i + 1)[j / 4] == s.take(i)[j / 4]);
        } else {
            lemma_div4(j, i);
            assert(s.take(i + 1)[i] == s[i]);
        }
    }
    assert(children_bytes(s.take(i + 1)) =~= children_bytes(s.take(i)) + u32_le(s[i]));
}

proof fn lemma_values_bytes_step(s: Seq<u64>, i: int)
    requires
        0 <= i < s.len(),
    ensures
        values_bytes(s.take(i + 1)) == values_bytes(s.take(i)) + u64_le(s[i]),
{
    assert forall|j: int| 0 <= j < 8 * (i + 1) implies values_bytes(s.take(i + 1))[j] == (
    values_bytes(s.take(i)) + u64_le(s[i]))[j] by {
        if j < 8 * i {
            lemma_div8(j, j / 8);
            assert(0 <= j / 8 < i);
            assert(s.take(i + 1)[j / 8] == s.take(i)[j / 8]);
        } else {
            lemma_div8(j, i);
            assert(s.take(i + 1)[i] == s[i]);
        }
    }
    assert(values_bytes(s.take(i + 1)) =~= values_bytes(s.take(i)) + u64_le(s[i]));
}

// ---------------------------------------------------------------------------
// Decoding.
// ---------------------------------------------------------------------------

/// What the decoder promises: whenever `bytes` begins with the encoding of a
/// record `m` (of sane element counts), the result is exactly `m`.
pub open spec fn decodes_all(bytes: Seq<u8>, r: Option<PageData>) -> bool {
    forall|m: PageView|
        small(m) && starts_with(bytes, #[trigger] spec_encode(m)) ==> match r {
            Option::Some(p) => p@ == m,
            Option::None => false,
        }
}

/// Decodes the page record at the start of `bytes`, ignoring any trailing
/// padding. Returns `None` exactly on byte strings that no record encodes:
/// whenever some record's encoding begins `bytes`, that record comes back.
pub fn decode_page(bytes: &Vec<u8>) -> (r: Option<PageData>)
    ensures
        decodes_all(bytes@, r),
        r is None ==> forall|m: PageView|
            !(small(m) && starts_with(bytes@, #[trigger] spec_encode(m))),
{
    if bytes.len() < HEADER_LEN {
        proof {
            assert forall|m: PageView| !(small(m) && starts_with(
                bytes@,
                #[trigger] spec_encode(m),
            )) by {
                if starts_with(bytes@, spec_encode(m)) {
                    lemma_encode_len(m);
                }
            }
        }
        return None;
    }
    let kind_b = bytes[0];
    let id = read_u32_at(bytes, 1);
    let k64 = read_u64_at(bytes, 5);
    let c64 = read_u64_at(bytes, 13);
    let v64 = read_u64_at(bytes, 21);
    let nf = bytes[29];
    let nv = read_u32_at(bytes, 30);
    let pf = bytes[34];
    let pv = read_u32_at(bytes, 35);
    proof {
        // Whenever a small record is encoded at the start of `bytes`, the
        // header fields just read agree with it.
        assert forall|m: PageView| small(m) && starts_with(bytes@, #[trigger] spec_encode(m))
            implies {
            &&& encoded_len(m) <= bytes@.len()
            &&& kind_b == kind_byte(m.node_type)
            &&& k64 == m.keys.len()
            &&& c64 == m.children.len()
            &&& v64 == m.values.len()
            &&& nf == flag_byte(m.next)
            &&& pf == flag_byte(m.parent_id)
            &&& nv == opt_val(m.next)
            &&& pv == opt_val(m.parent_id)
        } by {
            lemma_prefix_facts(m, bytes@);
            lemma_u64_le_injective(k64, m.keys.len() as u64);
            lemma_u64_le_injective(c64, m.children.len() as u64);
            lemma_u64_le_injective(v64, m.values.len() as u64);
            lemma_u32_le_injective(nv, opt_val(m.next));
            lemma_u32_le_injective(pv, opt_val(m.parent_id));
        }
    }
    if kind_b > 1 {
        return None;
    }
    let node_type = if kind_b == 1 {
        NodeType::Leaf
    } else {
        NodeType::Internal
    };
    if nf > 1 || pf > 1 {
        return None;
    }
    let next = if nf == 1 {
        Some(nv)
    } else {
        None
    };
    let parent_id = if pf == 1 {
        Some(pv)
    } else {
        None
    };
    let blen = bytes.len();
    let rem0 = blen - 39;
    if k64 > (rem0 / 4) as u64 {
        return None;
    }
    let nkeys = k64 as usize;
    let rem1 = rem0 - 4 * nkeys;
    if c64 > (rem1 / 4) as u64 {
        return None;
    }
    let nchildren = c64 as usize;
    let rem2 = rem1 - 4 * nchildren;
    if v64 > (rem2 / 8) as u64 {
        return None;
    }
    let nvalues = v64 as usize;

    let mut keys: Vec<i32> = Vec::new();
    let mut i: usize = 0;
    while i < nkeys
        invariant
            i <= nkeys,
            blen == bytes@.len(),
            39 + 4 * nkeys <= blen,
            keys@.len() == i,
            forall|j: int|
                0 <= j < i ==> u32_le(key_to_u32(keys@[j])) == bytes@.subrange(
                    39 + 4 * j,
                    39 + 4 * j + 4,
                ),
        decreases nkeys - i,
    {
        let x = read_u32_at(bytes, 39 + 4 * i);
        keys.push(key_decode(x));
        proof {
            lemma_key_bias_round_trip();
        }
        i += 1;
    }
    let coff = 39 + 4 * nkeys;
    let mut children: Vec<u32> = Vec::new();
    let mut i: usize = 0;
    while i < nchildren
        invariant
            i <= nchildren,
            blen == bytes@.len(),
            coff == 39 + 4 * nkeys,
            coff + 4 * nchildren <= blen,
            children@.len() == i,
            forall|j: int|
                0 <= j < i ==> u32_le(children@[j]) == bytes@.subrange(
                    coff + 4 * j,
                    coff + 4 * j + 4,
                ),
        decreases nchildren - i,
    {
        let x = read_u32_at(bytes, coff + 4 * i);
        children.push(x);
        i += 1;
    }
    let voff = coff + 4 * nchildren;
    let mut values: Vec<u64> = Vec::new();
    let mut i: usize = 0;
    while i < nvalues
        invariant
            i <= nvalues,
            blen == bytes@.len(),
            voff == 39 + 4 * nkeys + 4 * nchildren,
            voff + 8 * nvalues <= blen,
            values@.len() == i,
            forall|j: int|
                0 <= j < i ==> u64_le(values@[j]) == bytes@.subrange(
                    voff + 8 * j,
                    voff + 8 * j + 8,
                ),
        decreases nvalues - i,
    {
        let x = read_u64_at(bytes, voff + 8 * i);
        values.push(x);
        i += 1;
    }
    let page = PageData { id, node_type, keys, children, values, next, parent_id };
    proof {
        assert forall|m: PageView| small(m) && starts_with(bytes@, #[trigger] spec_encode(m))
            implies page@ == m by {
            lemma_decode_matches(m, bytes@, page@, k64, c64, v64, nf, pf, nv, pv);
        }
    }
    Some(page)
}

/// Facts the early-exit paths need: whenever a record `m` is encoded at the
/// start of `bytes`, every header field read from `bytes` agrees with `m`.
spec fn prefix_facts(m: PageView, bytes: Seq<u8>) -> bool {
    &&& bytes.len() >= 39
    &&& bytes[0] == kind_byte(m.node_type)
    &&& bytes.subrange(1, 5) == u32_le(m.id)
    &&& bytes.subrange(5, 13) == u64_le(m.keys.len() as u64)
    &&& bytes.subrange(13, 21) == u64_le(m.children.len() as u64)
    &&& bytes.subrange(21, 29) == u64_le(m.values.len() as u64)
    &&& bytes[29] == flag_byte(m.next)
    &&& bytes.subrange(30, 34) == u32_le(opt_val(m.next))
    &&& bytes[34] == flag_byte(m.parent_id)
    &&& bytes.subrange(35, 39) == u32_le(opt_val(m.parent_id))
}

proof fn lemma_prefix_facts(m: PageView, bytes: Seq<u8>)
    requires
        starts_with(bytes, spec_encode(m)),
    ensures
        encoded_len(m) <= bytes.len(),
        prefix_facts(m, bytes),
{
    lemma_encode_index(m);
    let enc = spec_encode(m);
    let h = header_bytes(m);
    assert(h.len() == 39);
    assert(forall|i: int| 0 <= i < enc.len() ==> #[trigger] bytes[i] == enc[i]);
    assert(bytes[0] == h[0]);
    assert(bytes[29] == h[29]);
    assert(bytes[34] == h[34]);
    assert(bytes.subrange(1, 5) =~= u32_le(m.id));
    assert(bytes.subrange(5, 13) =~= u64_le(m.keys.len() as u64));
    assert(bytes.subrange(13, 21) =~= u64_le(m.children.len() as u64));
    assert(bytes.subrange(21, 29) =~= u64_le(m.values.len() as u64));
    assert(bytes.subrange(30, 34) =~= u32_le(opt_val(m.next)));
    assert(bytes.subrange(35, 39) =~= u32_le(opt_val(m.parent_id)));
}

#[verifier::rlimit(50)]
proof fn lemma_decode_matches(
    m: PageView,
    bytes: Seq<u8>,
    p: PageView,
    k64: u64,
    c64: u64,
    v64: u64,
    nf: u8,
    pf: u8,
    nv: u32,
    pv: u32,
)
    requires
        small(m),
        starts_with(bytes, spec_encode(m)),
        bytes.len() >= 39,
        kind_byte(p.node_type) == bytes[0],
        u32_le(p.id) == bytes.subrange(1, 5),
        u64_le(k64) == bytes.subrange(5, 13),
        u64_le(c64) == bytes.subrange(13, 21),
        u64_le(v64) == bytes.subrange(21, 29),
        nf == bytes[29],
        u32_le(nv) == bytes.subrange(30, 34),
        pf == bytes[34],
        u32_le(pv) == bytes.subrange(35, 39),
        nf <= 1 && pf <= 1,
        p.next == (if nf == 1 {
            Option::Some(nv)
        } else {
            Option::<u32>::None
        }),
        p.parent_id == (if pf == 1 {
            Option::Some(pv)
        } else {
            Option::<u32>::None
        }),
        p.keys.len() == k64,
        p.children.len() == c64,
        p.values.len() == v64,
        forall|j: int|
            0 <= j < p.keys.len() ==> u32_le(key_to_u32(p.keys[j])) == bytes.subrange(
                39 + 4 * j,
                39 + 4 * j + 4,
            ),
        forall|j: int|
            0 <= j < p.children.len() ==> u32_le(p.children[j]) == bytes.subrange(
                39 + 4 * p.keys.len() + 4 * j,
                39 + 4 * p.keys.len() + 4 * j + 4,
            ),
        forall|j: int|
            0 <= j < p.values.len() ==> u64_le(p.values[j]) == bytes.subrange(
                39 + 4 * p.keys.len() + 4 * p.children.len() + 8 * j,
                39 + 4 * p.keys.len() + 4 * p.children.len() + 8 * j + 8,
            ),
    ensures
        p == m,
{
    lemma_prefix_facts(m, bytes);
    lemma_encode_index(m);
    // Counts agree.
    lemma_u64_le_injective(k64, m.keys.len() as u64);
    lemma_u64_le_injective(c64, m.children.len() as u64);
    lemma_u64_le_injective(v64, m.values.len() as u64);
    assert(p.keys.len() == m.keys.len());
    assert(p.children.len() == m.children.len());
    assert(p.values.len() == m.values.len());
    // Scalar fields agree.
    lemma_u32_le_injective(p.id, m.id);
    assert(p.node_type == m.node_type);
    lemma_u32_le_injective(nv, opt_val(m.next));
    lemma_u32_le_injective(pv, opt_val(m.parent_id));
    assert(p.next == m.next);
    assert(p.parent_id == m.parent_id);
    // Element arrays agree.
    lemma_key_bias_round_trip();
    let enc = spec_encode(m);
    assert(forall|i: int| 0 <= i < enc.len() ==> #[trigger] bytes[i] == enc[i]);
    assert forall|j: int| 0 <= j < m.keys.len() implies p.keys[j] == m.keys[j] by {
        let a = bytes.subrange(39 + 4 * j, 39 + 4 * j + 4);
        assert forall|t: int| 0 <= t < 4 implies a[t] == u32_le(key_to_u32(m.keys[j]))[t] by {
            lemma_div4(4 * j + t, j);
            assert(a[t] == bytes[39 + 4 * j + t]);
            assert(bytes[39 + 4 * j + t] == enc[39 + 4 * j + t]);
        }
        assert(u32_le(key_to_u32(m.keys[j])) =~= a);
        lemma_u32_le_injective(key_to_u32(p.keys[j]), key_to_u32(m.keys[j]));
        assert(u32_to_key(key_to_u32(p.keys[j])) == u32_to_key(key_to_u32(m.keys[j])));
    }
    let ck = 39 + 4 * m.keys.len() as int;
    assert forall|j: int| 0 <= j < m.children.len() implies p.children[j] == m.children[j] by {
        let a = bytes.subrange(ck + 4 * j, ck + 4 * j + 4);
        assert forall|t: int| 0 <= t < 4 implies a[t] == u32_le(m.children[j])[t] by {
            lemma_div4(4 * j + t, j);
            assert(a[t] == bytes[ck + 4 * j + t]);
            assert(bytes[ck + 4 * j + t] == enc[ck + 4 * j + t]);
        }
        assert(u32_le(m.children[j]) =~= a);
        lemma_u32_le_injective(p.children[j], m.children[j]);
    }
    let cv = ck + 4 * m.children.len() as int;
    assert forall|j: int| 0 <= j < m.values.len() implies p.values[j] == m.values[j] by {
        let a = bytes.subrange(cv + 8 * j, cv + 8 * j + 8);
        assert forall|t: int| 0 <= t < 8 implies a[t] == u64_le(m.values[j])[t] by {
            lemma_div8(8 * j + t, j);
            assert(a[t] == bytes[cv + 8 * j + t]);
            assert(bytes[cv + 8 * j + t] == enc[cv + 8 * j + t]);
        }
        assert(u64_le(m.values[j]) =~= a);
        lemma_u64_le_injective(p.values[j], m.values[j]);
    }
    assert(p.keys =~= m.keys);
    assert(p.children =~= m.children);
    assert(p.values =~= m.values);
    assert(p =~~= m);
}

/// The encoding is unambiguous: two records (of sane element counts)
/// encoded at the start of the same byte string are the same record.
#[verifier::rlimit(50)]
pub proof fn lemma_codec_unique(bytes: Seq<u8>, m1: PageView, m2: PageView)
    requires
        small(m1),
        small(m2),
        starts_with(bytes, spec_encode(m1)),
        starts_with(bytes, spec_encode(m2)),
    ensures
        m1 == m2,
{
    lemma_prefix_facts(m1, bytes);
    lemma_prefix_facts(m2, bytes);
    lemma_u64_le_injective(m1.keys.len() as u64, m2.keys.len() as u64);
    lemma_u64_le_injective(m1.children.len() as u64, m2.children.len() as u64);
    lemma_u64_le_injective(m1.values.len() as u64, m2.values.len() as u64);
    lemma_u32_le_injective(m1.id, m2.id);
    lemma_u32_le_injective(opt_val(m1.next), opt_val(m2.next));
    lemma_u32_le_injective(opt_val(m1.parent_id), opt_val(m2.parent_id));
    assert(m1.keys.len() == m2.keys.len());
    assert(m1.children.len() == m2.children.len());
    assert(m1.values.len() == m2.values.len());
    assert(m1.node_type == m2.node_type);
    assert(m1.next == m2.next);
    assert(m1.parent_id == m2.parent_id);
    lemma_encode_index(m1);
    lemma_encode_index(m2);
    let enc1 = spec_encode(m1);
    let enc2 = spec_encode(m2);
    assert(forall|i: int| 0 <= i < enc1.len() ==> #[trigger] bytes[i] == enc1[i]);
    assert(forall|i: int| 0 <= i < enc2.len() ==> #[trigger] bytes[i] == enc2[i]);
    lemma_key_bias_round_trip();
    assert forall|j: int| 0 <= j < m1.keys.len() implies m1.keys[j] == m2.keys[j] by {
        assert forall|t: int| 0 <= t < 4 implies u32_le(key_to_u32(m1.keys[j]))[t] == u32_le(
            key_to_u32(m2.keys[j]),
        )[t] by {
            lemma_div4(4 * j + t, j);
            assert(bytes[39 + 4 * j + t] == enc1[39 + 4 * j + t]);
            assert(bytes[39 + 4 * j + t] == enc2[39 + 4 * j + t]);
        }
        assert(u32_le(key_to_u32(m1.keys[j])) =~= u32_le(key_to_u32(m2.keys[j])));
        lemma_u32_le_injective(key_to_u32(m1.keys[j]), key_to_u32(m2.keys[j]));
        assert(u32_to_key(key_to_u32(m1.keys[j])) == u32_to_key(key_to_u32(m2.keys[j])));
    }
    let ck = 39 + 4 * m1.keys.len() as int;
    assert forall|j: int| 0 <= j < m1.children.len() implies m1.children[j] == m2.children[
        j] by {
        assert forall|t: int| 0 <= t < 4 implies u32_le(m1.children[j])[t] == u32_le(
            m2.children[j],
        )[t] by {
            lemma_div4(4 * j + t, j);
            assert(bytes[ck + 4 * j + t] == enc1[ck + 4 * j + t]);
            assert(bytes[ck + 4 * j + t] == enc2[ck + 4 * j + t]);
        }
        assert(u32_le(m1.children[j]) =~= u32_le(m2.children[j]));
        lemma_u32_le_injective(m1.children[j], m2.children[j]);
    }
    let cv = ck + 4 * m1.children.len() as int;
    assert forall|j: int| 0 <= j < m1.values.len() implies m1.values[j] == m2.values[j] by {
        assert forall|t: int| 0 <= t < 8 implies u64_le(m1.values[j])[t] == u64_le(
            m2.values[j],
        )[t] by {
            lemma_div8(8 * j + t, j);
            assert(bytes[cv + 8 * j + t] == enc1[cv + 8 * j + t]);
            assert(bytes[cv + 8 * j + t] == enc2[cv + 8 * j + t]);
        }
        assert(u64_le(m1.values[j]) =~= u64_le(m2.values[j]));
        lemma_u64_le_injective(m1.values[j], m2.values[j]);
    }
    assert(m1.keys =~= m2.keys);
    assert(m1.children =~= m2.children);
    assert(m1.values =~= m2.values);
    assert(m1 =~~= m2);
}

/// Law: the codec round-trips. Whatever begins with the encoding of a record
/// `m` — in particular, the zero-padded page slot written for `m` — decodes
/// to exactly `m`.
pub proof fn lemma_codec_round_trip(bytes: Seq<u8>, m: PageView, r: Option<PageData>)
    requires
        small(m),
        starts_with(bytes, spec_encode(m)),
        decodes_all(bytes, r),
    ensures
        r matches Option::Some(p) && p@ == m,
{
}

} // verus!
