//! Little-endian byte encoding of the integers stored in an index buffer.
use vstd::prelude::*;
use vstd::arithmetic::div_mod::{
    lemma_div_denominator, lemma_fundamental_div_mod, lemma_fundamental_div_mod_converse,
};

verus! {

/// `256` to the power `w`: the number of values `w` bytes can hold.
pub open spec fn pow256(w: nat) -> nat
    decreases w,
{
    if w == 0 {
        1
    } else {
        256 * pow256((w - 1) as nat)
    }
}

/// The `w` little-endian bytes of `v` (the value taken modulo `256^w`).
pub open spec fn le_bytes(v: nat, w: nat) -> Seq<u8>
    decreases w,
{
    if w == 0 {
        Seq::empty()
    } else {
        seq![(v % 256) as u8] + le_bytes(v / 256, (w - 1) as nat)
    }
}

/// The unsigned value of a little-endian byte sequence.
pub open spec fn le_value(s: Seq<u8>) -> nat
    decreases s.len(),
{
    if s.len() == 0 {
        0
    } else {
        s[0] as nat + 256 * le_value(s.drop_first())
    }
}

/// The unsigned representation of `v` in `w` bytes (two's complement for negative values).
pub open spec fn to_repr(v: int, w: nat) -> nat {
    if v < 0 {
        (v + pow256(w)) as nat
    } else {
        v as nat
    }
}

/// The value of an unsigned representation `u` of `w` bytes, read as signed or unsigned.
pub open spec fn from_repr(u: nat, w: nat, signed: bool) -> int {
    if signed && u >= pow256(w) / 2 {
        u - pow256(w)
    } else {
        u as int
    }
}

/// The range of values representable in `w` bytes.
pub open spec fn repr_min(w: nat, signed: bool) -> int {
    if signed {
        -((pow256(w) / 2) as int)
    } else {
        0
    }
}

/// The largest value representable in `w` bytes.
pub open spec fn repr_max(w: nat, signed: bool) -> int {
    if signed {
        pow256(w) / 2 - 1
    } else {
        pow256(w) - 1
    }
}

/// The encoding of a single value in `w` bytes.
pub open spec fn encode_value(v: int, w: nat) -> Seq<u8> {
    le_bytes(to_repr(v, w), w)
}

/// The concatenated encodings of a sequence of values, `w` bytes each.
pub open spec fn encode_seq(vals: Seq<int>, w: nat) -> Seq<u8>
    decreases vals.len(),
{
    if vals.len() == 0 {
        Seq::empty()
    } else {
        encode_seq(vals.drop_last(), w) + encode_value(vals.last(), w)
    }
}

/// The value decoded from the `w` bytes of `data` that start at `off`.
pub open spec fn decode_value(data: Seq<u8>, off: int, w: nat, signed: bool) -> int {
    from_repr(le_value(data.subrange(off, off + w)), w, signed)
}

pub proof fn lemma_pow256_facts()
    ensures
        pow256(0) == 1,
        pow256(1) == 256,
        pow256(2) == 65536,
        pow256(4) == 4294967296,
        pow256(8) == 18446744073709551616,
{
    reveal_with_fuel(pow256, 9);
}

pub proof fn lemma_pow256_pos(w: nat)
    ensures
        pow256(w) >= 1,
    decreases w,
{
    if w > 0 {
        lemma_pow256_pos((w - 1) as nat);
    }
}

pub proof fn lemma_le_bytes_len(v: nat, w: nat)
    ensures
        le_bytes(v, w).len() == w,
    decreases w,
{
    if w > 0 {
        lemma_le_bytes_len(v / 256, (w - 1) as nat);
    }
}

/// Appending one more byte: the next byte is digit `w` of `v`.
pub proof fn lemma_le_bytes_push(v: nat, w: nat)
    ensures
        le_bytes(v, w + 1) == le_bytes(v, w).push(((v / pow256(w)) % 256) as u8),
    decreases w,
{
    if w == 0 {
        reveal_with_fuel(le_bytes, 2);
        assert(le_bytes(v, 1) =~= seq![(v % 256) as u8]);
        assert(le_bytes(v, 0).push(((v / 1) % 256) as u8) =~= seq![(v % 256) as u8]);
    } else {
        lemma_le_bytes_push(v / 256, (w - 1) as nat);
        lemma_pow256_pos((w - 1) as nat);
        lemma_div_denominator(v as int, 256, pow256((w - 1) as nat) as int);
        assert((v / 256) / pow256((w - 1) as nat) == v / pow256(w));
        assert(le_bytes(v, w + 1) =~= le_bytes(v, w).push(((v / pow256(w)) % 256) as u8));
    }
}

/// Decoding the encoding of a value that fits gives the value back.
pub proof fn lemma_le_roundtrip(v: nat, w: nat)
    requires
        v < pow256(w),
    ensures
        le_value(le_bytes(v, w)) == v,
    decreases w,
{
    if w > 0 {
        let rest = le_bytes(v / 256, (w - 1) as nat);
        assert((seq![(v % 256) as u8] + rest).drop_first() =~= rest);
        assert(v / 256 < pow256((w - 1) as nat)) by (nonlinear_arith)
            requires
                v < 256 * pow256((w - 1) as nat),
        ;
        lemma_le_roundtrip(v / 256, (w - 1) as nat);
        lemma_fundamental_div_mod(v as int, 256);
    }
}

/// A decoded value is smaller than `256` to the number of bytes.
pub proof fn lemma_le_value_bound(s: Seq<u8>)
    ensures
        le_value(s) < pow256(s.len()),
    decreases s.len(),
{
    if s.len() > 0 {
        lemma_le_value_bound(s.drop_first());
        let r = le_value(s.drop_first());
        let p = pow256((s.len() - 1) as nat);
        assert(s[0] as nat + 256 * r < 256 * p) by (nonlinear_arith)
            requires
                r < p,
                s[0] < 256,
        ;
    }
}

/// Encoding the decoded value of a byte sequence gives the same bytes.
pub proof fn lemma_le_bytes_of_value(s: Seq<u8>)
    ensures
        le_bytes(le_value(s), s.len()) == s,
    decreases s.len(),
{
    if s.len() > 0 {
        let r = le_value(s.drop_first());
        lemma_le_bytes_of_value(s.drop_first());
        let v = le_value(s);
        lemma_fundamental_div_mod_converse(v as int, 256, r as int, s[0] as int);
        assert(le_bytes(v, s.len()) =~= s);
    }
}

/// The representation of a value of the range is in `[0, 256^w)` and reads back to the value.
pub proof fn lemma_repr_roundtrip(v: int, w: nat, signed: bool)
    requires
        repr_min(w, signed) <= v <= repr_max(w, signed),
        w >= 1,
    ensures
        to_repr(v, w) < pow256(w),
        from_repr(to_repr(v, w), w, signed) == v,
{
    lemma_pow256_pos(w);
    assert(pow256(w) == 256 * pow256((w - 1) as nat));
    lemma_pow256_pos((w - 1) as nat);
}

pub proof fn lemma_encode_value_len(v: int, w: nat)
    ensures
        encode_value(v, w).len() == w,
{
    lemma_le_bytes_len(to_repr(v, w), w);
}

pub proof fn lemma_encode_seq_len(vals: Seq<int>, w: nat)
    ensures
        encode_seq(vals, w).len() == vals.len() * w,
    decreases vals.len(),
{
    if vals.len() > 0 {
        lemma_encode_seq_len(vals.drop_last(), w);
        lemma_encode_value_len(vals.last(), w);
        assert((vals.len() - 1) * w + w == vals.len() * w) by (nonlinear_arith);
    }
}

/// The bytes of element `i` in an encoded sequence are the encoding of `vals[i]`.
pub proof fn lemma_encode_seq_index(vals: Seq<int>, w: nat, i: int)
    requires
        0 <= i < vals.len(),
    ensures
        0 <= i * w,
        i * w + w <= vals.len() * w,
        encode_seq(vals, w).subrange(i * w, i * w + w) == encode_value(vals[i], w),
    decreases vals.len(),
{
    lemma_encode_seq_len(vals, w);
    lemma_encode_seq_len(vals.drop_last(), w);
    lemma_encode_value_len(vals.last(), w);
    assert(0 <= i * w) by (nonlinear_arith)
        requires
            0 <= i,
    ;
    assert(i * w + w <= vals.len() * w) by (nonlinear_arith)
        requires
            i < vals.len(),
    ;
    let n = vals.len() - 1;
    if i == n {
        assert(encode_seq(vals, w).subrange(i * w, i * w + w) =~= encode_value(vals[i], w));
    } else {
        lemma_encode_seq_index(vals.drop_last(), w, i);
        assert(i * w + w <= n * w) by (nonlinear_arith)
            requires
                i < n,
        ;
        assert(encode_seq(vals, w).subrange(i * w, i * w + w) =~= encode_seq(
            vals.drop_last(),
            w,
        ).subrange(i * w, i * w + w));
    }
}

/// Every element of an encoded sequence decodes back to itself.
pub proof fn lemma_encode_seq_decode(vals: Seq<int>, w: nat, signed: bool, i: int)
    requires
        0 <= i < vals.len(),
        w >= 1,
        repr_min(w, signed) <= vals[i] <= repr_max(w, signed),
    ensures
        0 <= i * w,
        i * w + w <= vals.len() * w,
        decode_value(encode_seq(vals, w), i * w, w, signed) == vals[i],
{
    lemma_encode_seq_index(vals, w, i);
    lemma_repr_roundtrip(vals[i], w, signed);
    lemma_le_roundtrip(to_repr(vals[i], w), w);
}

/// Appends the `w` little-endian bytes of `v`.
pub fn push_le(out: &mut Vec<u8>, v: u64, w: usize)
    requires
        w <= 8,
        v < pow256(w as nat),
    ensures
        final(out)@ == old(out)@ + le_bytes(v as nat, w as nat),
{
    let mut x: u64 = v;
    let mut i: usize = 0;
    proof {
        lemma_pow256_facts();
        assert(old(out)@ + le_bytes(v as nat, 0) =~= old(out)@);
    }
    while i < w
        invariant
            i <= w,
            x as nat == v as nat / pow256(i as nat),
            out@ == old(out)@ + le_bytes(v as nat, i as nat),
        decreases w - i,
    {
        proof {
            lemma_le_bytes_push(v as nat, i as nat);
            lemma_pow256_pos(i as nat);
            lemma_div_denominator(v as int, pow256(i as nat) as int, 256);
            assert(pow256(i as nat) * 256 == pow256((i + 1) as nat));
        }
        out.push((x % 256) as u8);
        x = x / 256;
        i = i + 1;
        proof {
            assert(out@ =~= old(out)@ + le_bytes(v as nat, i as nat));
        }
    }
}

/// Reads the unsigned little-endian value of the `w` bytes at `off`.
pub fn read_le(data: &[u8], off: usize, w: usize) -> (r: u64)
    requires
        w <= 8,
        off + w <= data@.len(),
    ensures
        r as nat == le_value(data@.subrange(off as int, off + w)),
{
    let mut acc: u64 = 0;
    let mut j: usize = w;
    let len = data.len();
    proof {
        lemma_pow256_facts();
    }
    while j > 0
        invariant
            len == data@.len(),
            j <= w <= 8,
            off + w <= data@.len(),
            acc as nat == le_value(data@.subrange(off + j, off + w)),
            acc < pow256((w - j) as nat),
            pow256((w - j) as nat) <= pow256(8),
        decreases j,
    {
        let ghost s = data@.subrange(off + j - 1, off + w);
        proof {
            assert(s.drop_first() =~= data@.subrange(off + j, off + w));
            assert(pow256((w - j + 1) as nat) == 256 * pow256((w - j) as nat));
            lemma_pow_mono((w - j + 1) as nat, 8);
            lemma_pow256_facts();
        }
        let b = data[off + j - 1];
        acc = acc * 256 + b as u64;
        j = j - 1;
    }
    acc
}

pub proof fn lemma_pow_mono(a: nat, b: nat)
    requires
        a <= b,
    ensures
        pow256(a) <= pow256(b),
    decreases b,
{
    if a < b {
        lemma_pow_mono(a, (b - 1) as nat);
        lemma_pow256_pos((b - 1) as nat);
    }
}

/// The unsigned representation of a value of the range, in `w` bytes.
pub fn repr_of(v: i64, w: usize, signed: bool) -> (r: u64)
    requires
        1 <= w <= 4,
        repr_min(w as nat, signed) <= v <= repr_max(w as nat, signed),
    ensures
        r as nat == to_repr(v as int, w as nat),
        (r as nat) < pow256(w as nat),
{
    proof {
        lemma_repr_roundtrip(v as int, w as nat, signed);
        lemma_pow_mono(w as nat, 4);
        lemma_pow256_facts();
    }
    if v < 0 {
        let p: u64 = if w == 1 {
            256
        } else if w == 2 {
            65536
        } else if w == 3 {
            16777216
        } else {
            4294967296
        };
        proof {
            reveal_with_fuel(pow256, 5);
        }
        (v + p as i64) as u64
    } else {
        v as u64
    }
}

/// The value of an unsigned representation `u` of `w` bytes.
pub fn value_of_repr(u: u64, w: usize, signed: bool) -> (r: i64)
    requires
        1 <= w <= 4,
        (u as nat) < pow256(w as nat),
    ensures
        r as int == from_repr(u as nat, w as nat, signed),
        repr_min(w as nat, signed) <= r <= repr_max(w as nat, signed),
{
    proof {
        reveal_with_fuel(pow256, 5);
    }
    let p: u64 = if w == 1 {
        256
    } else if w == 2 {
        65536
    } else if w == 3 {
        16777216
    } else {
        4294967296
    };
    if signed && u >= p / 2 {
        u as i64 - p as i64
    } else {
        u as i64
    }
}

/// Appends the encoding of each value, `w` bytes each.
pub fn push_values(out: &mut Vec<u8>, vals: &Vec<i64>, w: usize, signed: bool)
    requires
        1 <= w <= 4,
        forall|i: int|
            0 <= i < vals@.len() ==> repr_min(w as nat, signed) <= #[trigger] vals@[i] <= repr_max(
                w as nat,
                signed,
            ),
    ensures
        final(out)@ == old(out)@ + encode_seq(vals@.map_values(|x: i64| x as int), w as nat),
{
    let ghost ints = vals@.map_values(|x: i64| x as int);
    let mut i: usize = 0;
    proof {
        assert(ints.take(0) =~= Seq::<int>::empty());
        assert(old(out)@ + encode_seq(ints.take(0), w as nat) =~= old(out)@);
    }
    while i < vals.len()
        invariant
            i <= vals@.len(),
            1 <= w <= 4,
            ints == vals@.map_values(|x: i64| x as int),
            forall|k: int|
                0 <= k < vals@.len() ==> repr_min(w as nat, signed) <= #[trigger] vals@[k]
                    <= repr_max(w as nat, signed),
            out@ == old(out)@ + encode_seq(ints.take(i as int), w as nat),
        decreases vals@.len() - i,
    {
        let r = repr_of(vals[i], w, signed);
        proof {
            lemma_pow_mono(w as nat, 8);
            lemma_pow256_facts();
        }
        push_le(out, r, w);
        proof {
            assert(ints.take(i + 1).drop_last() =~= ints.take(i as int));
            assert(ints.take(i + 1).last() == vals@[i as int] as int);
        }
        i = i + 1;
        proof {
            assert(out@ =~= old(out)@ + encode_seq(ints.take(i as int), w as nat));
        }
    }
    proof {
        assert(ints.take(vals@.len() as int) =~= ints);
    }
}

/// Decodes `count` values of `w` bytes each, starting at `off`.
pub fn read_values(data: &[u8], off: usize, count: usize, w: usize, signed: bool) -> (r: Vec<i64>)
    requires
        1 <= w <= 4,
        off + count * w <= data@.len(),
    ensures
        r@.len() == count,
        forall|i: int|
            0 <= i < count ==> #[trigger] r@[i] as int == decode_value(
                data@,
                off + i * w,
                w as nat,
                signed,
            ),
        forall|i: int|
            0 <= i < count ==> repr_min(w as nat, signed) <= #[trigger] r@[i] <= repr_max(
                w as nat,
                signed,
            ),
{
    let mut r: Vec<i64> = Vec::new();
    let mut i: usize = 0;
    let len = data.len();
    while i < count
        invariant
            len == data@.len(),
            i <= count,
            1 <= w <= 4,
            off + count * w <= data@.len(),
            r@.len() == i,
            forall|k: int|
                0 <= k < i ==> #[trigger] r@[k] as int == decode_value(
                    data@,
                    off + k * w,
                    w as nat,
                    signed,
                ),
            forall|k: int|
                0 <= k < i ==> repr_min(w as nat, signed) <= #[trigger] r@[k] <= repr_max(
                    w as nat,
                    signed,
                ),
        decreases count - i,
    {
        proof {
            assert(i * w + w <= count * w) by (nonlinear_arith)
                requires
                    i < count,
            ;
            assert(0 <= i * w) by (nonlinear_arith);
        }
        let start = off + i * w;
        let u = read_le(data, start, w);
        proof {
            lemma_le_value_bound(data@.subrange(start as int, start + w));
        }
        let v = value_of_repr(u, w, signed);
        r.push(v);
        i = i + 1;
    }
    r
}

/// The 8-byte header shared by both index layouts: a magic byte, the version in the high and the
/// coordinate type in the low four bits of the second byte, the node size as a little-endian
/// `u16`, and the number of items as a little-endian `u32`.
pub open spec fn header_bytes(magic: u8, version: u8, type_index: u8, node_size: nat, num_items: nat)
    -> Seq<u8> {
    seq![magic, (version * 16 + type_index) as u8] + le_bytes(node_size, 2) + le_bytes(num_items, 4)
}

/// The fields of a header can be read back from its bytes.
pub proof fn lemma_header_fields(
    magic: u8,
    version: u8,
    type_index: u8,
    node_size: nat,
    num_items: nat,
)
    requires
        version < 16,
        type_index < 16,
        node_size < 65536,
        num_items < 4294967296,
    ensures
        header_bytes(magic, version, type_index, node_size, num_items).len() == 8,
        header_bytes(magic, version, type_index, node_size, num_items)[0] == magic,
        header_bytes(magic, version, type_index, node_size, num_items)[1] / 16 == version,
        header_bytes(magic, version, type_index, node_size, num_items)[1] % 16 == type_index,
        le_value(header_bytes(magic, version, type_index, node_size, num_items).subrange(2, 4))
            == node_size,
        le_value(header_bytes(magic, version, type_index, node_size, num_items).subrange(4, 8))
            == num_items,
{
    let h = header_bytes(magic, version, type_index, node_size, num_items);
    lemma_le_bytes_len(node_size, 2);
    lemma_le_bytes_len(num_items, 4);
    lemma_pow256_facts();
    assert(h.subrange(2, 4) =~= le_bytes(node_size, 2));
    assert(h.subrange(4, 8) =~= le_bytes(num_items, 4));
    lemma_le_roundtrip(node_size, 2);
    lemma_le_roundtrip(num_items, 4);
}

/// Appends the 8-byte header.
pub fn push_header(
    out: &mut Vec<u8>,
    magic: u8,
    version: u8,
    type_index: u8,
    node_size: u16,
    num_items: u32,
)
    requires
        version < 16,
        type_index < 16,
    ensures
        final(out)@ == old(out)@ + header_bytes(
            magic,
            version,
            type_index,
            node_size as nat,
            num_items as nat,
        ),
{
    out.push(magic);
    out.push(version * 16 + type_index);
    proof {
        lemma_pow256_facts();
    }
    push_le(out, node_size as u64, 2);
    push_le(out, num_items as u64, 4);
    proof {
        assert(final(out)@ =~= old(out)@ + header_bytes(
            magic,
            version,
            type_index,
            node_size as nat,
            num_items as nat,
        ));
    }
}

} // verus!
