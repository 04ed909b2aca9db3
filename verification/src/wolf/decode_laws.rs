//! What the archive decoders give back of what an encoder wrote.
use vstd::prelude::*;

use vstd::arithmetic::div_mod::{lemma_mod_add_multiples_vanish, lemma_small_mod};
use vstd::bytes::*;

use crate::wolf::decryptor::{
    copy_back, huff_symbols, huff_tree_after, huff_walk, lightest_roots, lsb_bit, lz_decoded, lz_run, lz_token, u32_le_at, HuffTree, LzToken,
};

verus! {

// ---------------------------------------------------------------------------
// Huffman: a symbol's code leads to the symbol
// ---------------------------------------------------------------------------

/// Symbol `s` is a leaf of the subtree under node `n`, following each
/// node's two child links (children always below their parent).
pub open spec fn under(t: HuffTree, n: int, s: int) -> bool
    decreases n,
{
    if n < 0 || n >= 511 {
        false
    } else if n <= 255 {
        n == s
    } else {
        (0 <= t.c0[n] < n && under(t, t.c0[n] as int, s)) || (0 <= t.c1[n] < n && under(t, t.c1[n] as int, s))
    }
}

/// The code of symbol `s` from node `n`, as the encoder writes it: 0 to go
/// to a node's first child, 1 to go to its second, down to the leaf.
pub open spec fn code_of(t: HuffTree, n: int, s: int) -> Seq<u32>
    decreases n,
{
    if n < 0 || n >= 511 || n <= 255 {
        Seq::empty()
    } else if 0 <= t.c0[n] < n && under(t, t.c0[n] as int, s) {
        seq![0u32] + code_of(t, t.c0[n] as int, s)
    } else if 0 <= t.c1[n] < n {
        seq![1u32] + code_of(t, t.c1[n] as int, s)
    } else {
        Seq::empty()
    }
}

/// Decoding reads a code back: when the body's bits from `q` on are the
/// code of symbol `s` below node `n` (0 for the first child, 1 for the
/// second), the walk from `n` takes exactly those bits and reaches `s`.
pub proof fn lemma_huff_walk_reads_code(t: HuffTree, press: Seq<u8>, n: int, q: int, s: int)
    requires
        under(t, n, s),
        forall|i: int| 0 <= i < code_of(t, n, s).len() ==> lsb_bit(press, q + i) == #[trigger] code_of(t, n, s)[i],
    ensures
        huff_walk(t, press, n, q) == Some((s, q + code_of(t, n, s).len())),
    decreases n,
{
    if n > 255 {
        let code = code_of(t, n, s);
        let c0 = t.c0[n] as int;
        let c1 = t.c1[n] as int;
        if 0 <= c0 < n && under(t, c0, s) {
            assert(code[0] == 0u32);
            assert(lsb_bit(press, q) == 0u32);
            let rest = code_of(t, c0, s);
            assert forall|i: int| 0 <= i < rest.len() implies lsb_bit(press, q + 1 + i) == #[trigger] rest[i] by {
                assert(code[i + 1] == rest[i]);
            }
            lemma_huff_walk_reads_code(t, press, c0, q + 1, s);
        } else {
            assert(0 <= c1 < n && under(t, c1, s));
            assert(code[0] == 1u32);
            assert(lsb_bit(press, q) == 1u32);
            let rest = code_of(t, c1, s);
            assert forall|i: int| 0 <= i < rest.len() implies lsb_bit(press, q + 1 + i) == #[trigger] rest[i] by {
                assert(code[i + 1] == rest[i]);
            }
            lemma_huff_walk_reads_code(t, press, c1, q + 1, s);
        }
    }
}

/// The codes of `syms` from the root `t.nodes - 1`, one after another.
pub open spec fn codes_of(t: HuffTree, syms: Seq<u8>) -> Seq<u32>
    decreases syms.len(),
{
    if syms.len() == 0 {
        Seq::empty()
    } else {
        codes_of(t, syms.drop_last()) + code_of(t, t.nodes - 1, syms.last() as int)
    }
}

/// Decoding a body that holds the codes of `syms` (each symbol below the
/// root) gives `syms` back, and stops right after the last code.
pub proof fn lemma_huff_symbols_read_codes(t: HuffTree, press: Seq<u8>, syms: Seq<u8>)
    requires
        forall|i: int| 0 <= i < syms.len() ==> under(t, t.nodes - 1, #[trigger] syms[i] as int),
        forall|i: int| 0 <= i < codes_of(t, syms).len() ==> lsb_bit(press, i) == #[trigger] codes_of(t, syms)[i],
    ensures
        huff_symbols(t, press, syms.len()) == Some((syms, codes_of(t, syms).len() as int)),
    decreases syms.len(),
{
    if syms.len() > 0 {
        let init = syms.drop_last();
        let last = syms.last();
        let a = codes_of(t, init);
        let b = code_of(t, t.nodes - 1, last as int);
        assert(codes_of(t, syms) == a + b);
        assert forall|i: int| 0 <= i < init.len() implies under(t, t.nodes - 1, #[trigger] init[i] as int) by {
            assert(init[i] == syms[i]);
        }
        assert forall|i: int| 0 <= i < a.len() implies lsb_bit(press, i) == #[trigger] a[i] by {
            assert((a + b)[i] == a[i]);
        }
        lemma_huff_symbols_read_codes(t, press, init);
        assert(under(t, t.nodes - 1, syms[syms.len() - 1] as int));
        assert forall|i: int| 0 <= i < b.len() implies lsb_bit(press, a.len() + i) == #[trigger] b[i] by {
            assert((a + b)[a.len() + i] == b[i]);
        }
        lemma_huff_walk_reads_code(t, press, t.nodes - 1, a.len() as int, last as int);
        assert((last as int) as u8 == last);
        assert(init.push(last) =~= syms);
    } else {
        assert(syms =~= Seq::<u8>::empty());
    }
}

// ---------------------------------------------------------------------------
// LZ: what an encoder wrote decodes to what it encoded
// ---------------------------------------------------------------------------

/// One step of an LZ encoder: a literal byte, or a copy of `len` bytes
/// starting `dist` bytes back in the output.
pub enum LzOp {
    Lit(u8),
    Copy(nat, nat),
}

/// `out` with `len` more bytes, each a repeat of the byte `dist` back,
/// written one at a time (so a copy may overlap what it writes).
pub open spec fn repeat_back(out: Seq<u8>, dist: nat, len: nat) -> Seq<u8>
    decreases len,
{
    if len == 0 {
        out
    } else {
        let o = repeat_back(out, dist, (len - 1) as nat);
        o.push(o[o.len() - dist])
    }
}

/// The bytes the operations stand for.
pub open spec fn lz_output(ops: Seq<LzOp>) -> Seq<u8>
    decreases ops.len(),
{
    if ops.len() == 0 {
        Seq::empty()
    } else {
        let o = lz_output(ops.drop_last());
        match ops.last() {
            LzOp::Lit(b) => o.push(b),
            LzOp::Copy(len, dist) => repeat_back(o, dist, len),
        }
    }
}

/// The byte count, less one, of a copy's stored distance: one byte below
/// 256 (stored less one), two below 65536, else three.
pub open spec fn dist_width(dist: nat) -> nat {
    if dist - 1 < 256 {
        0
    } else if dist - 1 < 65536 {
        1
    } else {
        2
    }
}

/// A copy's distance, stored less one, little-endian in `dist_width + 1`
/// bytes.
pub open spec fn dist_bytes(dist: nat) -> Seq<u8> {
    let d = (dist - 1) as nat;
    if dist_width(dist) == 0 {
        seq![d as u8]
    } else if dist_width(dist) == 1 {
        seq![(d % 256) as u8, (d / 256) as u8]
    } else {
        seq![(d % 256) as u8, ((d / 256) % 256) as u8, (d / 65536) as u8]
    }
}

/// A copy's code: its length less 4, modulo 32, in the upper five bits;
/// bit 2 set when the length less 4 is 32 or more (a second length byte,
/// counting 32s, follows); the distance's width in the low two bits.
pub open spec fn copy_code(len: nat, dist: nat) -> nat {
    let x = (len - 4) as nat;
    (x % 32) * 8 + (if x >= 32 {
        4nat
    } else {
        0nat
    }) + dist_width(dist)
}

/// The bytes an encoder with key code `k` writes for one operation: a
/// literal as itself (`k` doubled); a copy as `k`, then its code (one more
/// when it is not below `k`, so that it never reads as `k`), then the
/// second length byte when there is one, then the distance bytes.
pub open spec fn lz_op_bytes(op: LzOp, k: u8) -> Seq<u8> {
    match op {
        LzOp::Lit(b) => if b == k {
            seq![k, k]
        } else {
            seq![b]
        },
        LzOp::Copy(len, dist) => {
            let c = copy_code(len, dist);
            let x = (len - 4) as nat;
            seq![k, (if c >= k {
                c + 1
            } else {
                c
            }) as u8] + (if x >= 32 {
                seq![(x / 32) as u8]
            } else {
                Seq::empty()
            }) + dist_bytes(dist)
        },
    }
}

pub open spec fn lz_stream(ops: Seq<LzOp>, k: u8) -> Seq<u8>
    decreases ops.len(),
{
    if ops.len() == 0 {
        Seq::empty()
    } else {
        lz_stream(ops.drop_last(), k) + lz_op_bytes(ops.last(), k)
    }
}

/// Operations such an encoder can write: copies of 4 to 8195 bytes, from
/// 1 to 2^24 bytes back, and never from before the start of the output.
pub open spec fn lz_ops_ok(ops: Seq<LzOp>) -> bool {
    forall|i: int|
        0 <= i < ops.len() ==> match #[trigger] ops[i] {
            LzOp::Lit(_) => true,
            LzOp::Copy(len, dist) => 4 <= len < 4 + 32 * 256 && 1 <= dist <= 0x100_0000 && dist <= lz_output(
                ops.take(i),
            ).len(),
        }
}

/// The whole compressed file: the output size, the stream size counting
/// the 9-byte header, the key code `k`, then the stream.
pub open spec fn lz_file(ops: Seq<LzOp>, k: u8) -> Seq<u8> {
    spec_u32_to_le_bytes(lz_output(ops).len() as u32) + spec_u32_to_le_bytes((lz_stream(ops, k).len() + 9) as u32)
        + seq![k] + lz_stream(ops, k)
}

proof fn lemma_repeat_is_copy(out: Seq<u8>, dist: nat, len: nat)
    requires
        1 <= dist <= out.len(),
    ensures
        repeat_back(out, dist, len) == copy_back(out, dist as int, len as int),
    decreases len,
{
    if len > 0 {
        lemma_repeat_is_copy(out, dist, (len - 1) as nat);
        let o = copy_back(out, dist as int, len - 1);
        let n1 = len - 1;
        let idx = out.len() + n1 - dist;
        if n1 < dist {
            lemma_small_mod(n1 as nat, dist);
            assert(o[idx] == out[out.len() - dist + n1 % (dist as int)]);
        } else {
            lemma_mod_add_multiples_vanish(n1 - dist, dist as int);
            assert(o[idx] == out[out.len() - dist + (n1 - dist) % (dist as int)]);
        }
        assert(o.push(o[o.len() - dist]) =~= copy_back(out, dist as int, len as int));
    }
}

proof fn lemma_output_step(ops: Seq<LzOp>, i: int, k: u8)
    requires
        0 <= i < ops.len(),
    ensures
        lz_output(ops.take(i + 1)) == match ops[i] {
            LzOp::Lit(b) => lz_output(ops.take(i)).push(b),
            LzOp::Copy(len, dist) => repeat_back(lz_output(ops.take(i)), dist, len),
        },
        lz_stream(ops.take(i + 1), k) == lz_stream(ops.take(i), k) + lz_op_bytes(ops[i], k),
{
    assert(ops.take(i + 1).drop_last() =~= ops.take(i));
    assert(ops.take(i + 1).last() == ops[i]);
}

proof fn lemma_repeat_len(out: Seq<u8>, dist: nat, len: nat)
    ensures
        repeat_back(out, dist, len).len() == out.len() + len,
    decreases len,
{
    if len > 0 {
        lemma_repeat_len(out, dist, (len - 1) as nat);
    }
}

proof fn lemma_prefix_lengths(ops: Seq<LzOp>, i: int, k: u8)
    requires
        0 <= i <= ops.len(),
        lz_ops_ok(ops),
    ensures
        lz_output(ops.take(i)).len() <= lz_output(ops).len(),
        i < ops.len() ==> lz_output(ops.take(i)).len() < lz_output(ops).len(),
        lz_stream(ops, k).take(lz_stream(ops.take(i), k).len() as int) == lz_stream(ops.take(i), k),
        lz_stream(ops.take(i), k).len() <= lz_stream(ops, k).len(),
    decreases ops.len() - i,
{
    if i < ops.len() {
        lemma_prefix_lengths(ops, i + 1, k);
        lemma_output_step(ops, i, k);
        match ops[i] {
            LzOp::Lit(_) => {},
            LzOp::Copy(len, dist) => {
                lemma_repeat_len(lz_output(ops.take(i)), dist, len);
                assert(4 <= len);
            },
        }
        let a = lz_stream(ops.take(i), k);
        let b = lz_stream(ops.take(i + 1), k);
        assert(b.take(a.len() as int) =~= a);
        assert(lz_stream(ops, k).take(a.len() as int) =~= lz_stream(ops, k).take(b.len() as int).take(
            a.len() as int,
        ));
    } else {
        assert(ops.take(i) =~= ops);
    }
}

/// The token a decoder reads for one operation.
pub open spec fn op_token(op: LzOp) -> LzToken {
    match op {
        LzOp::Lit(b) => LzToken::Literal(b),
        LzOp::Copy(len, dist) => LzToken::Copy { len: len as usize, dist: dist as usize },
    }
}

proof fn lemma_code_parts(len: nat, dist: nat)
    requires
        4 <= len < 4 + 32 * 256,
        1 <= dist <= 0x100_0000,
    ensures
        ({
            let x = (len - 4) as nat;
            let c = copy_code(len, dist) as int;
            &&& c <= 254
            &&& ((c / 4) % 2 == 1) == (x >= 32)
            &&& c / 8 + (if x >= 32 {
                (x / 32) * 32
            } else {
                0
            }) + 4 == len
            &&& x >= 32 ==> x / 32 < 256
            &&& c % 4 == dist_width(dist)
        }),
{
    let x = (len - 4) as nat;
    let low = x % 32;
    let e: int = if x >= 32 {
        1
    } else {
        0
    };
    let w = dist_width(dist) as int;
    let c = copy_code(len, dist) as int;
    assert(c == low * 8 + e * 4 + w);
    assert(0 <= w <= 2);
    assert(0 <= low < 32);
    assert(c <= 254) by (nonlinear_arith)
        requires
            c == low * 8 + e * 4 + w,
            0 <= low < 32,
            0 <= e <= 1,
            0 <= w <= 2,
    ;
    assert(c / 4 == low * 2 + e && c / 8 == low && c % 4 == w) by (nonlinear_arith)
        requires
            c == low * 8 + e * 4 + w,
            0 <= low < 32,
            0 <= e <= 1,
            0 <= w <= 2,
    ;
    assert((low * 2 + e) % 2 == e) by (nonlinear_arith)
        requires
            0 <= e <= 1,
            0 <= low,
    ;
    assert(low + (x / 32) * 32 == x) by (nonlinear_arith)
        requires
            low == x % 32,
    ;
    if x < 32 {
        assert(low == x);
    }
}

proof fn lemma_dist_parts(dist: nat)
    requires
        1 <= dist <= 0x100_0000,
    ensures
        ({
            let d = (dist - 1) as int;
            let b = dist_bytes(dist);
            &&& b.len() == dist_width(dist) + 1
            &&& dist_width(dist) == 0 ==> b[0] as int + 1 == dist
            &&& dist_width(dist) == 1 ==> b[0] as int + b[1] as int * 256 + 1 == dist
            &&& dist_width(dist) == 2 ==> b[0] as int + b[1] as int * 256 + b[2] as int * 65536 + 1 == dist
        }),
{
    let d = (dist - 1) as nat;
    if dist_width(dist) == 1 {
        assert((d % 256) as u8 as int == d % 256);
        assert(d / 256 < 256);
        assert((d / 256) as u8 as int == d / 256);
        assert(d % 256 + (d / 256) * 256 == d) by (nonlinear_arith);
    } else if dist_width(dist) == 2 {
        assert((d % 256) as u8 as int == d % 256);
        assert(((d / 256) % 256) as u8 as int == (d / 256) % 256);
        assert(d / 65536 < 256);
        assert((d / 65536) as u8 as int == d / 65536);
        assert(d % 256 + ((d / 256) % 256) * 256 + (d / 65536) * 65536 == d) by (nonlinear_arith);
    }
}

proof fn lemma_token_of_op(data: Seq<u8>, sp: int, rem: int, op: LzOp, k: u8)
    requires
        0 <= sp,
        sp + lz_op_bytes(op, k).len() <= data.len(),
        data.subrange(sp, sp + lz_op_bytes(op, k).len()) == lz_op_bytes(op, k),
        rem >= lz_op_bytes(op, k).len(),
        op matches LzOp::Copy(len, dist) ==> 4 <= len < 4 + 32 * 256 && 1 <= dist <= 0x100_0000,
    ensures
        lz_token(data, k, sp, rem) == Some(
            (op_token(op), sp + lz_op_bytes(op, k).len(), rem - lz_op_bytes(op, k).len()),
        ),
{
    let b = lz_op_bytes(op, k);
    assert forall|j: int| 0 <= j < b.len() implies data[sp + j] == #[trigger] b[j] by {
        assert(data.subrange(sp, sp + b.len())[j] == b[j]);
    }
    match op {
        LzOp::Lit(x) => {
            if x == k {
                assert(b[0] == k && b[1] == k);
                assert(data[sp] == k && data[sp + 1] == k);
            } else {
                assert(b[0] == x);
                assert(data[sp] == x);
            }
        },
        LzOp::Copy(len, dist) => {
            lemma_code_parts(len, dist);
            lemma_dist_parts(dist);
            let x = (len - 4) as nat;
            let c = copy_code(len, dist);
            let byte: u8 = (if c >= k {
                c + 1
            } else {
                c
            }) as u8;
            let ext: Seq<u8> = if x >= 32 {
                seq![(x / 32) as u8]
            } else {
                Seq::empty()
            };
            let db = dist_bytes(dist);
            assert(b == seq![k, byte] + ext + db);
            assert(b[0] == k && b[1] == byte);
            assert(data[sp] == k && data[sp + 1] == byte);
            assert(byte != k);
            let code: int = if byte > k {
                byte - 1
            } else {
                byte as int
            };
            assert(code == c);
            let e = ext.len() as int;
            if x >= 32 {
                assert(b[2] == (x / 32) as u8);
                assert(data[sp + 2] == (x / 32) as u8);
                assert(((x / 32) as u8) as int == x / 32);
            }
            assert forall|j: int| 0 <= j < db.len() implies data[sp + 2 + e + j] == db[j] by {
                assert(b[2 + e + j] == db[j]);
            }
        },
    }
}

proof fn lemma_file_at(ops: Seq<LzOp>, i: int, k: u8)
    requires
        lz_ops_ok(ops),
        0 <= i < ops.len(),
    ensures
        ({
            let data = lz_file(ops, k);
            let a = lz_stream(ops.take(i), k);
            let b = lz_op_bytes(ops[i], k);
            &&& data.len() == 9 + lz_stream(ops, k).len()
            &&& a.len() + b.len() <= lz_stream(ops, k).len()
            &&& data.subrange(9 + a.len() as int, 9 + a.len() as int + b.len() as int) == b
        }),
{
    let data = lz_file(ops, k);
    let stream = lz_stream(ops, k);
    lemma_prefix_lengths(ops, i + 1, k);
    lemma_output_step(ops, i, k);
    let a = lz_stream(ops.take(i), k);
    let b = lz_op_bytes(ops[i], k);
    let sp: int = 9 + a.len() as int;
    assert(stream.take((a + b).len() as int) == a + b);
    lemma_auto_spec_u32_to_from_le_bytes();
    assert(data.len() == 9 + stream.len());
    assert forall|j: int| 0 <= j < b.len() implies data.subrange(sp, sp + b.len() as int)[j] == b[j] by {
        assert(data[sp + j] == stream[a.len() + j]);
        assert(stream.take((a + b).len() as int)[a.len() + j] == (a + b)[a.len() + j]);
    }
    assert(data.subrange(sp, sp + b.len() as int) =~= b);
}

#[verifier::spinoff_prover]
#[verifier::rlimit(40)]
proof fn lemma_run_step(ops: Seq<LzOp>, i: int, k: u8)
    requires
        lz_ops_ok(ops),
        0 <= i < ops.len(),
        lz_output(ops).len() <= u32::MAX,
        lz_stream(ops, k).len() + 9 <= u32::MAX,
    ensures
        lz_run(
            lz_file(ops, k),
            k,
            9 + lz_stream(ops.take(i), k).len() as int,
            lz_stream(ops, k).len() - lz_stream(ops.take(i), k).len(),
            lz_output(ops.take(i)),
            lz_output(ops).len() as int,
        ) == lz_run(
            lz_file(ops, k),
            k,
            9 + lz_stream(ops.take(i + 1), k).len() as int,
            lz_stream(ops, k).len() - lz_stream(ops.take(i + 1), k).len(),
            lz_output(ops.take(i + 1)),
            lz_output(ops).len() as int,
        ),
{
    let data = lz_file(ops, k);
    lemma_prefix_lengths(ops, i, k);
    lemma_prefix_lengths(ops, i + 1, k);
    lemma_output_step(ops, i, k);
    lemma_file_at(ops, i, k);
    let op = ops[i];
    let a = lz_stream(ops.take(i), k);
    let sp: int = 9 + a.len() as int;
    let rem: int = lz_stream(ops, k).len() - a.len();
    let out = lz_output(ops.take(i));
    match op {
        LzOp::Lit(_) => {},
        LzOp::Copy(len, dist) => {
            assert(4 <= len < 4 + 32 * 256 && 1 <= dist <= 0x100_0000 && dist <= out.len());
            lemma_repeat_len(out, dist, len);
            lemma_repeat_is_copy(out, dist, len);
        },
    }
    lemma_token_of_op(data, sp, rem, op, k);
}

proof fn lemma_run_from(ops: Seq<LzOp>, i: int, k: u8)
    requires
        lz_ops_ok(ops),
        0 <= i <= ops.len(),
        lz_output(ops).len() <= u32::MAX,
        lz_stream(ops, k).len() + 9 <= u32::MAX,
    ensures
        lz_run(
            lz_file(ops, k),
            k,
            9 + lz_stream(ops.take(i), k).len() as int,
            lz_stream(ops, k).len() - lz_stream(ops.take(i), k).len(),
            lz_output(ops.take(i)),
            lz_output(ops).len() as int,
        ) == lz_output(ops),
    decreases ops.len() - i,
{
    if i == ops.len() {
        assert(ops.take(i) =~= ops);
    } else {
        lemma_run_step(ops, i, k);
        lemma_run_from(ops, i + 1, k);
    }
}

/// Decoding what an LZ encoder wrote gives back what it encoded: for any
/// key code `k` and any literals and copies (4 to 8195 bytes, from 1 to
/// 2^24 bytes back, within the output so far), written with a length `L`
/// stored as `L - 4` (its low five bits in the code, the rest in a second
/// length byte counting 32s) and a distance `D` stored as `D - 1` in one to
/// three bytes, `lz_decoded` of the file is exactly the bytes the
/// operations stand for.
pub proof fn lemma_lz_decodes_encoded(ops: Seq<LzOp>, k: u8)
    requires
        lz_ops_ok(ops),
        lz_output(ops).len() <= u32::MAX,
        lz_stream(ops, k).len() + 9 <= u32::MAX,
    ensures
        lz_decoded(lz_file(ops, k)) == Some(lz_output(ops)),
{
    let data = lz_file(ops, k);
    let stream = lz_stream(ops, k);
    let out = lz_output(ops);
    lemma_auto_spec_u32_to_from_le_bytes();
    let h0 = spec_u32_to_le_bytes(out.len() as u32);
    let h1 = spec_u32_to_le_bytes((stream.len() + 9) as u32);
    assert(data.subrange(0, 4) =~= h0);
    assert(data.subrange(4, 8) =~= h1);
    assert(data[8] == k);
    assert(u32_le_at(data, 0) == out.len());
    assert(u32_le_at(data, 4) == stream.len() + 9);
    assert(ops.take(0) =~= Seq::<LzOp>::empty());
    lemma_run_from(ops, 0, k);
    assert(out + Seq::new(0, |i: int| 0u8) =~= out);
}

// ---------------------------------------------------------------------------
// Huffman: how the tree is built
// ---------------------------------------------------------------------------

/// `a` comes before `b` among roots: lighter, or as light and earlier.
pub open spec fn lighter(w: Seq<u64>, a: int, b: int) -> bool {
    w[a] < w[b] || (w[a] == w[b] && a < b)
}

proof fn lemma_lightest_roots(w: Seq<u64>, parent: Seq<i32>, n: int)
    requires
        0 <= n <= w.len(),
        n <= parent.len(),
        n <= 511,
    ensures
        ({
            let (m1, m2) = lightest_roots(w, parent, n);
            &&& m1 != -1 ==> 0 <= m1 < n && parent[m1 as int] == -1
            &&& m2 != -1 ==> 0 <= m2 < n && parent[m2 as int] == -1 && m1 != -1 && m1 != m2 && lighter(
                w,
                m1 as int,
                m2 as int,
            )
            &&& m1 != -1 ==> forall|j: int| 0 <= j < n && parent[j] == -1 && j != m1 ==> lighter(w, m1 as int, j)
            &&& m2 != -1 ==> forall|j: int|
                0 <= j < n && parent[j] == -1 && j != m1 && j != m2 ==> lighter(w, m2 as int, j)
            &&& m1 == -1 ==> forall|j: int| 0 <= j < n ==> parent[j] != -1
            &&& m1 != -1 && m2 == -1 ==> forall|j: int| 0 <= j < n && j != m1 ==> parent[j] != -1
        }),
    decreases n,
{
    if n > 0 {
        lemma_lightest_roots(w, parent, n - 1);
        let (p1, p2) = lightest_roots(w, parent, n - 1);
        let i = n - 1;
        let (m1, m2) = lightest_roots(w, parent, n);
        if parent[i] != -1 {
            assert(m1 == p1 && m2 == p2);
        } else if p1 == -1 || w[p1 as int] > w[i] {
            assert(m1 as int == i && m2 == p1);
            if p1 != -1 {
                assert forall|j: int| 0 <= j < n && parent[j] == -1 && j != m1 && j != m2 implies lighter(
                    w,
                    m2 as int,
                    j,
                ) by {
                    assert(j < i);
                }
            }
        } else if p2 == -1 || w[p2 as int] > w[i] {
            assert(m1 == p1 && m2 as int == i);
            assert(p1 < i);
        } else {
            assert(m1 == p1 && m2 == p2);
            assert(p1 < i && p2 < i);
        }
    }
}

/// How DxLib builds its tree: every merged node's first child (the one bit
/// 0 leads to) is the lighter of the two roots it joined, or, as light,
/// the earlier one; each merge joins two distinct roots.
pub proof fn lemma_huff_first_child_lighter(weights: Seq<u16>, m: nat)
    requires
        weights.len() >= 256,
    ensures
        ({
            let t = huff_tree_after(weights, m);
            &&& 256 <= t.nodes <= 511
            &&& t.w.len() == 511 && t.parent.len() == 511 && t.c0.len() == 511 && t.c1.len() == 511
            &&& forall|n: int|
                256 <= n < t.nodes ==> 0 <= #[trigger] t.c0[n] < n && 0 <= t.c1[n] < n && t.c0[n] != t.c1[n]
                    && lighter(t.w, t.c0[n] as int, t.c1[n] as int)
        }),
    decreases m,
{
    if m > 0 {
        lemma_huff_first_child_lighter(weights, (m - 1) as nat);
        let t = huff_tree_after(weights, (m - 1) as nat);
        lemma_lightest_roots(t.w, t.parent, t.nodes);
        let (m1, m2) = lightest_roots(t.w, t.parent, t.nodes);
        if !(t.nodes >= 511 || m1 == -1 || m2 == -1) {
            let t2 = huff_tree_after(weights, m);
            let n = t.nodes;
            assert forall|k: int| 256 <= k < t2.nodes implies 0 <= #[trigger] t2.c0[k] < k && 0 <= t2.c1[k] < k
                && t2.c0[k] != t2.c1[k] && lighter(t2.w, t2.c0[k] as int, t2.c1[k] as int) by {
                if k < n {
                    assert(t2.c0[k] == t.c0[k] && t2.c1[k] == t.c1[k]);
                    assert(t2.w[t.c0[k] as int] == t.w[t.c0[k] as int]);
                    assert(t2.w[t.c1[k] as int] == t.w[t.c1[k] as int]);
                } else {
                    assert(t2.c0[k] == m1 && t2.c1[k] == m2);
                    assert(t2.w[m1 as int] == t.w[m1 as int]);
                    assert(t2.w[m2 as int] == t.w[m2 as int]);
                }
            }
        }
    }
}

} // verus!
