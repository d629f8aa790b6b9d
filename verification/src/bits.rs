//! Big-endian bit streams over sequences of fixed-width symbols.
//!
//! A sequence of symbols, each contributing its low `w` bits, is read as one
//! continuous stream of bits, most significant bit first. Everything the
//! codec does to bits is a statement about such streams: repacking keeps the
//! stream and changes only where it is cut into symbols.

use vstd::arithmetic::div_mod::{
    lemma_div_denominator, lemma_fundamental_div_mod_converse, lemma_mod_breakdown,
};
use vstd::arithmetic::mul::{lemma_mul_inequality, lemma_mul_is_associative};
use vstd::arithmetic::power2::{lemma_pow2_pos, lemma_pow2_unfold, pow2};
use vstd::prelude::*;

verus! {

/// The bit of weight `2^i` in `v`.
pub open spec fn bit(v: nat, i: nat) -> bool {
    (v / pow2(i)) % 2 == 1
}

/// Bit `p` of the stream that lays the low `w` bits of each symbol of `s`
/// end to end, most significant bit first. Outside the stream every bit is
/// zero.
pub open spec fn stream_bit(s: Seq<u32>, w: nat, p: int) -> bool {
    0 <= p < s.len() * w && bit(s[p / (w as int)] as nat, (w - 1 - p % (w as int)) as nat)
}

/// The number whose `n` binary digits are the bits `p .. p + n` of the
/// stream, most significant first.
pub open spec fn window(s: Seq<u32>, w: nat, p: int, n: nat) -> nat
    decreases n,
{
    if n == 0 {
        0
    } else {
        2 * window(s, w, p, (n - 1) as nat) + if stream_bit(s, w, p + n - 1) {
            1nat
        } else {
            0nat
        }
    }
}

/// How many symbols of `ow` bits it takes to hold `n` symbols of `iw` bits.
pub open spec fn repack_len(n: nat, iw: nat, ow: nat) -> nat {
    ((n * iw + ow - 1) / (ow as int)) as nat
}

/// The stream of `s`, cut into symbols of `ow` bits. The last symbol is
/// filled up with zero bits where the stream ends inside it.
pub open spec fn repack(s: Seq<u32>, iw: nat, ow: nat) -> Seq<u32> {
    Seq::new(repack_len(s.len(), iw, ow), |q: int| window(s, iw, q * ow, ow) as u32)
}

/// How many whole symbols of `ow` bits `n` symbols of `iw` bits fill.
pub open spec fn whole_len(n: nat, iw: nat, ow: nat) -> nat {
    (n * iw) / ow
}

/// The stream of `s`, cut into symbols of `ow` bits, without the last
/// symbol where the stream ends inside it.
pub open spec fn repack_whole(s: Seq<u32>, iw: nat, ow: nat) -> Seq<u32> {
    Seq::new(whole_len(s.len(), iw, ow), |q: int| window(s, iw, q * ow, ow) as u32)
}

/// Position `j * w + r` of a stream lies in symbol `j`, at offset `r`.
pub proof fn lemma_stream_position(j: int, w: nat, r: int)
    requires
        0 <= r < w,
    ensures
        (j * w + r) / (w as int) == j,
        (j * w + r) % (w as int) == r,
{
    lemma_fundamental_div_mod_converse(j * w + r, w as int, j, r);
}

/// A window of `n` bits is a number below `2^n`.
pub proof fn lemma_window_bound(s: Seq<u32>, w: nat, p: int, n: nat)
    ensures
        window(s, w, p, n) < pow2(n),
    decreases n,
{
    if n == 0 {
        lemma_pow2_pos(0);
    } else {
        lemma_window_bound(s, w, p, (n - 1) as nat);
        lemma_pow2_unfold(n);
    }
}

/// A window is its first `a` bits, shifted up, plus the `b` bits that follow.
pub proof fn lemma_window_split(s: Seq<u32>, w: nat, p: int, a: nat, b: nat)
    ensures
        window(s, w, p, a + b) == window(s, w, p, a) * pow2(b) + window(s, w, p + a, b),
    decreases b,
{
    if b == 0 {
        vstd::arithmetic::power2::lemma2_to64();
    } else {
        let b1 = (b - 1) as nat;
        lemma_window_split(s, w, p, a, b1);
        lemma_pow2_unfold(b);
        let x = window(s, w, p, a);
        assert(x * pow2(b) == 2 * (x * pow2(b1))) by {
            lemma_mul_is_associative(x as int, 2, pow2(b1) as int);
            assert(x * (2 * pow2(b1)) == (x * 2) * pow2(b1));
            lemma_mul_is_associative(2, x as int, pow2(b1) as int);
        }
        assert((a + b - 1) as nat == a + b1);
        assert(p + (a + b) - 1 == (p + a) + b - 1);
    }
}

/// Bits that lie inside one symbol: the window of `m` bits that starts `c`
/// bits into symbol `j` is read off that symbol by a division and a
/// remainder.
pub proof fn lemma_window_in_symbol(s: Seq<u32>, w: nat, j: int, c: nat, m: nat)
    requires
        0 <= j < s.len(),
        c + m <= w,
    ensures
        window(s, w, j * w + c, m) == (s[j] as nat / pow2((w - c - m) as nat)) % pow2(m),
    decreases m,
{
    let v = s[j] as nat;
    let t = (w - c - m) as nat;
    lemma_pow2_pos(t);
    if m == 0 {
        vstd::arithmetic::power2::lemma2_to64();
    } else {
        let m1 = (m - 1) as nat;
        lemma_window_in_symbol(s, w, j, c, m1);
        let p = j * w + c + m - 1;
        lemma_stream_position(j, w, (c + m - 1) as int);
        assert(0 <= p < s.len() * w) by {
            assert(j * w + w == (j + 1) * w) by (nonlinear_arith);
            lemma_mul_inequality(j + 1, s.len() as int, w as int);
            assert(0 <= j * w) by (nonlinear_arith)
                requires
                    0 <= j,
                    0 <= w,
            ;
        }
        assert(stream_bit(s, w, p) == bit(v, t));
        let y = v / pow2(t);
        lemma_pow2_unfold(t + 1);
        lemma_pow2_unfold(m);
        lemma_pow2_pos(m1);
        assert(v / pow2(t + 1) == y / 2) by {
            lemma_div_denominator(v as int, pow2(t) as int, 2);
            assert(pow2(t) * 2 == pow2(t + 1));
        }
        assert((w - c - m1) as nat == t + 1);
        lemma_mod_breakdown(y as int, 2, pow2(m1) as int);
        assert(2 * pow2(m1) == pow2(m));
    }
}

/// Past the end of the stream every window reads zero.
pub proof fn lemma_window_past_end(s: Seq<u32>, w: nat, p: int, n: nat)
    requires
        p >= s.len() * w,
    ensures
        window(s, w, p, n) == 0,
    decreases n,
{
    if n > 0 {
        lemma_window_past_end(s, w, p, (n - 1) as nat);
    }
}

/// The binary digits of a window are the bits of the stream.
pub proof fn lemma_window_bit(s: Seq<u32>, w: nat, p: int, n: nat, j: nat)
    requires
        j < n,
    ensures
        bit(window(s, w, p, n), (n - 1 - j) as nat) == stream_bit(s, w, p + j),
    decreases n,
{
    let n1 = (n - 1) as nat;
    let head = window(s, w, p, n1);
    let last: nat = if stream_bit(s, w, p + n - 1) {
        1
    } else {
        0
    };
    assert(window(s, w, p, n) == 2 * head + last);
    if j == n1 {
        vstd::arithmetic::power2::lemma2_to64();
        assert(p + j == p + n - 1);
        assert((n - 1 - j) as nat == 0);
        assert(bit(2 * head + last, 0) == (last == 1));
    } else {
        lemma_window_bit(s, w, p, n1, j);
        let e = (n1 - 1 - j) as nat;
        lemma_pow2_unfold(e + 1);
        lemma_pow2_pos(e);
        assert((n - 1 - j) as nat == e + 1);
        assert((2 * head + last) / pow2(e + 1) == head / pow2(e)) by {
            lemma_div_denominator((2 * head + last) as int, 2, pow2(e) as int);
            assert((2 * head + last) / 2 == head);
            assert(2 * pow2(e) == pow2(e + 1));
        }
        assert(bit(2 * head + last, e + 1) == bit(head, e));
    }
}

/// Two windows are the same number where the streams under them agree bit
/// for bit; `d` is how far the second stream is shifted against the first.
pub proof fn lemma_window_agree(
    s1: Seq<u32>,
    w1: nat,
    s2: Seq<u32>,
    w2: nat,
    p: int,
    d: int,
    n: nat,
)
    requires
        forall|i: int|
            p <= i < p + n ==> #[trigger] stream_bit(s1, w1, i) == stream_bit(s2, w2, i + d),
    ensures
        window(s1, w1, p, n) == window(s2, w2, p + d, n),
    decreases n,
{
    if n > 0 {
        lemma_window_agree(s1, w1, s2, w2, p, d, (n - 1) as nat);
        assert(stream_bit(s1, w1, p + n - 1) == stream_bit(s2, w2, (p + n - 1) + d));
        assert(p + d + n - 1 == (p + n - 1) + d);
    }
}

/// A symbol of a repacked sequence is its window of the stream, and fits
/// its width.
pub proof fn lemma_repack_index(s: Seq<u32>, iw: nat, ow: nat, q: int)
    requires
        ow <= 32,
        0 <= q < repack(s, iw, ow).len(),
    ensures
        repack(s, iw, ow)[q] == window(s, iw, q * ow, ow),
        repack(s, iw, ow)[q] < pow2(ow),
{
    lemma_window_bound(s, iw, q * ow, ow);
    vstd::arithmetic::power2::lemma2_to64();
    if ow < 32 {
        vstd::arithmetic::power2::lemma_pow2_strictly_increases(ow, 32);
    }
}

/// Rounding up to a multiple of `d` adds less than `d`, and adds nothing
/// to what is a multiple already.
pub proof fn lemma_round_up(x: int, d: int)
    requires
        x >= 0,
        d >= 1,
    ensures
        x <= ((x + d - 1) / d) * d < x + d,
        (x % d == 0) <==> ((x + d - 1) / d) * d == x,
        (x + d - 1) / d >= 0,
{
    let s = (x + d - 1) / d;
    vstd::arithmetic::div_mod::lemma_fundamental_div_mod(x + d - 1, d);
    vstd::arithmetic::div_mod::lemma_fundamental_div_mod(x, d);
    vstd::arithmetic::div_mod::lemma_div_pos_is_pos(x + d - 1, d);
    assert(d * s == s * d) by (nonlinear_arith);
    assert(d * (x / d) == (x / d) * d) by (nonlinear_arith);
    if x % d == 0 {
        lemma_fundamental_div_mod_converse(x + d - 1, d, x / d, d - 1);
    } else {
        assert((x / d + 1) * d == (x / d) * d + d) by (nonlinear_arith);
        lemma_fundamental_div_mod_converse(x + d - 1, d, x / d + 1, x % d - 1);
    }
}

/// The symbol in which a bit of the stream lies.
pub proof fn lemma_symbol_of_bit(p: int, w: int, n: int)
    requires
        w >= 1,
        0 <= p < n * w,
    ensures
        0 <= p / w < n,
        p == (p / w) * w + p % w,
        0 <= p % w < w,
{
    vstd::arithmetic::div_mod::lemma_fundamental_div_mod(p, w);
    vstd::arithmetic::div_mod::lemma_div_pos_is_pos(p, w);
    let q = p / w;
    assert(w * q == q * w) by (nonlinear_arith);
    if q >= n {
        assert(q * w >= n * w) by (nonlinear_arith)
            requires
                q >= n,
                w >= 1,
        ;
    }
}

/// Repacking keeps the stream: bit for bit, the repacked symbols read as
/// the symbols that went in, with zero bits after them.
pub proof fn lemma_repack_stream(s: Seq<u32>, iw: nat, ow: nat, p: int)
    requires
        iw >= 1,
        1 <= ow <= 32,
    ensures
        stream_bit(repack(s, iw, ow), ow, p) == stream_bit(s, iw, p),
{
    let out = repack(s, iw, ow);
    let total = (s.len() * iw) as int;
    assert(total >= 0) by (nonlinear_arith)
        requires
            total == s.len() * iw,
    ;
    lemma_round_up(total, ow as int);
    assert(out.len() * ow >= total);
    if 0 <= p < out.len() * ow {
        lemma_symbol_of_bit(p, ow as int, out.len() as int);
        let q = p / (ow as int);
        let j = p % (ow as int);
        lemma_repack_index(s, iw, ow, q);
        lemma_window_bit(s, iw, q * ow, ow, j as nat);
    }
}

/// Repacked to another width and back, the symbols come out as they went
/// in, as far as their low `w` bits go, with zero symbols after them where
/// the stream had been filled up.
pub proof fn lemma_repack_back(s: Seq<u32>, w: nat, mid: nat, q: int)
    requires
        1 <= w <= 32,
        1 <= mid <= 32,
        0 <= q,
    ensures
        window(repack(s, w, mid), mid, q * w, w) == (if q < s.len() {
            s[q] as nat % pow2(w)
        } else {
            0
        }),
{
    let out = repack(s, w, mid);
    assert forall|i: int| q * w <= i < q * w + w implies #[trigger] stream_bit(out, mid, i)
        == stream_bit(s, w, i + 0) by {
        lemma_repack_stream(s, w, mid, i);
    }
    lemma_window_agree(out, mid, s, w, q * w, 0, w);
    if q < s.len() {
        lemma_window_in_symbol(s, w, q, 0, w);
        vstd::arithmetic::power2::lemma2_to64();
        let v = s[q] as nat;
        let one = pow2(0);
        assert(v / one == v) by (nonlinear_arith)
            requires
                one == 1,
        ;
        assert((w - 0 - w) as nat == 0);
    } else {
        assert(q * w >= s.len() * w) by (nonlinear_arith)
            requires
                q >= s.len(),
                w >= 1,
        ;
        lemma_window_past_end(s, w, q * w, w);
    }
}

/// The stream of two sequences, one after the other, is the one stream
/// followed by the other.
pub proof fn lemma_stream_concat(a: Seq<u32>, b: Seq<u32>, w: nat, p: int)
    requires
        w >= 1,
    ensures
        stream_bit(a + b, w, p) == (if p < a.len() * w {
            stream_bit(a, w, p)
        } else {
            stream_bit(b, w, p - a.len() * w)
        }),
{
    let ab = a + b;
    assert(ab.len() * w == a.len() * w + b.len() * w) by (nonlinear_arith)
        requires
            ab.len() == a.len() + b.len(),
    ;
    assert(a.len() * w >= 0 && b.len() * w >= 0) by (nonlinear_arith);
    if 0 <= p < ab.len() * w {
        lemma_symbol_of_bit(p, w as int, ab.len() as int);
        if p < a.len() * w {
            lemma_symbol_of_bit(p, w as int, a.len() as int);
        } else {
            let r = p - a.len() * w;
            lemma_symbol_of_bit(r, w as int, b.len() as int);
            let q = r / (w as int);
            assert((a.len() + q) * w == a.len() * w + q * w) by (nonlinear_arith);
            lemma_stream_position(a.len() + q, w, r % (w as int));
            assert(p == (a.len() + q) * w + r % (w as int));
        }
    }
}

/// Where the first of two sequences fills whole output symbols, repacking
/// the two together is repacking each by itself.
pub proof fn lemma_repack_concat(a: Seq<u32>, b: Seq<u32>, iw: nat, ow: nat)
    requires
        iw >= 1,
        1 <= ow <= 32,
        (a.len() * iw) % ow == 0,
    ensures
        repack(a + b, iw, ow) == repack(a, iw, ow) + repack(b, iw, ow),
{
    let ab = a + b;
    let ta = (a.len() * iw) as int;
    let tb = (b.len() * iw) as int;
    assert(ab.len() * iw == ta + tb) by (nonlinear_arith)
        requires
            ab.len() == a.len() + b.len(),
            ta == a.len() * iw,
            tb == b.len() * iw,
    ;
    assert(ta >= 0 && tb >= 0) by (nonlinear_arith)
        requires
            ta == a.len() * iw,
            tb == b.len() * iw,
    ;
    lemma_round_up(ta, ow as int);
    lemma_round_up(tb, ow as int);
    lemma_round_up(ta + tb, ow as int);
    let na = repack(a, iw, ow).len() as int;
    let nb = repack(b, iw, ow).len() as int;
    let nab = repack(ab, iw, ow).len() as int;
    assert(na * ow == ta);
    assert(nab == na + nb) by {
        assert((na + nb) * ow == na * ow + nb * ow) by (nonlinear_arith);
        if nab < na + nb {
            assert(nab * ow <= (na + nb - 1) * ow) by (nonlinear_arith)
                requires
                    nab <= na + nb - 1,
                    ow >= 1,
            ;
            assert((na + nb - 1) * ow == (na + nb) * ow - ow) by (nonlinear_arith);
        }
        if nab > na + nb {
            assert(nab * ow >= (na + nb + 1) * ow) by (nonlinear_arith)
                requires
                    nab >= na + nb + 1,
                    ow >= 1,
            ;
            assert((na + nb + 1) * ow == (na + nb) * ow + ow) by (nonlinear_arith);
        }
    }
    assert forall|q: int| 0 <= q < nab implies repack(ab, iw, ow)[q] == (repack(a, iw, ow)
        + repack(b, iw, ow))[q] by {
        assert forall|i: int| #[trigger] stream_bit(ab, iw, i) == (if i < ta {
            stream_bit(a, iw, i)
        } else {
            stream_bit(b, iw, i - ta)
        }) by {
            lemma_stream_concat(a, b, iw, i);
        }
        if q < na {
            assert(q * ow + ow <= na * ow) by (nonlinear_arith)
                requires
                    q + 1 <= na,
                    ow >= 1,
            ;
            assert forall|i: int| q * ow <= i < q * ow + ow implies #[trigger] stream_bit(
                ab,
                iw,
                i,
            ) == stream_bit(a, iw, i + 0) by {}
            lemma_window_agree(ab, iw, a, iw, q * ow, 0, ow);
        } else {
            assert(q * ow >= na * ow) by (nonlinear_arith)
                requires
                    q >= na,
                    ow >= 1,
            ;
            assert((q - na) * ow == q * ow - na * ow) by (nonlinear_arith);
            assert forall|i: int| q * ow <= i < q * ow + ow implies #[trigger] stream_bit(
                ab,
                iw,
                i,
            ) == stream_bit(b, iw, i + (-ta)) by {}
            lemma_window_agree(ab, iw, b, iw, q * ow, -ta, ow);
        }
    }
    assert(repack(ab, iw, ow) =~= repack(a, iw, ow) + repack(b, iw, ow));
}

/// `2^e` as a machine word.
pub proof fn lemma_one_shl(e: u64)
    requires
        e <= 32,
    ensures
        (1u64 << e) == pow2(e as nat),
        0 < pow2(e as nat) <= 0x1_0000_0000,
{
    vstd::bits::lemma_u64_pow2_no_overflow(e as nat);
    vstd::bits::lemma_u64_shl_is_mul(1, e);
    vstd::arithmetic::power2::lemma2_to64();
    if e < 32 {
        vstd::arithmetic::power2::lemma_pow2_strictly_increases(e as nat, 32);
    }
}

} // verus!
