//! Padding: how many padding characters end an encoded text, and how many
//! bytes they take back off on decoding.

use crate::bits::repack_len;
use vstd::arithmetic::div_mod::{
    lemma_fundamental_div_mod, lemma_fundamental_div_mod_converse, lemma_mod_multiples_basic,
};
use vstd::prelude::*;

verus! {

/// The two ways of padding. Each carries the padding character, which is not
/// a character of the alphabet.
#[derive(Debug, Clone, Copy, PartialEq, Eq)]
pub enum PadType {
    /// "padding" is the same as in base64: it fills the text up to a whole
    /// number of blocks.
    BlockPad(char),
    /// "padding" signifies how many bytes to drop when decoding.
    DropPad(char),
}

impl PadType {
    /// The padding character.
    pub open spec fn ch(&self) -> char {
        match self {
            PadType::BlockPad(c) => *c,
            PadType::DropPad(c) => *c,
        }
    }
}

impl std::ops::Deref for PadType {
    type Target = char;

    /// The padding character, whichever the way of padding.
    fn deref(&self) -> (c: &char)
        ensures
            *c == self.ch(),
    {
        match self {
            Self::BlockPad(c) => c,
            Self::DropPad(c) => c,
        }
    }
}

/// `m` is a positive multiple of both `a` and `b`.
pub open spec fn common_multiple(m: int, a: int, b: int) -> bool {
    m > 0 && m % a == 0 && m % b == 0
}

/// `m` is the least among the positive common multiples of `a` and `b`.
pub open spec fn is_lcm(m: int, a: int, b: int) -> bool {
    common_multiple(m, a, b) && forall|c: int| #[trigger] common_multiple(c, a, b) ==> m <= c
}

/// The least common multiple of `a` and `b`.
pub open spec fn spec_lcm(a: nat, b: nat) -> nat {
    choose|m: nat| is_lcm(m as int, a as int, b as int)
}

/// `a / b`, rounded up.
pub open spec fn spec_div_ceil(a: nat, b: nat) -> nat {
    ((a + b - 1) / (b as int)) as nat
}

/// How many characters make a block: the least number of symbols of `k` bits
/// that hold a whole number of bytes.
pub open spec fn block_chars(k: nat) -> nat {
    spec_lcm(k, 8) / k
}

/// How many padding characters follow the symbols of `nbytes` bytes, with
/// symbols of `k` bits.
pub open spec fn spec_pad_len(pad: PadType, k: nat, nbytes: nat) -> nat {
    let symbols = repack_len(nbytes, 8, k);
    match pad {
        PadType::BlockPad(_) => {
            let block = block_chars(k);
            ((block - symbols % block) % (block as int)) as nat
        },
        PadType::DropPad(_) => spec_div_ceil((symbols * k - nbytes * 8) as nat, 8),
    }
}

/// How many bytes are taken off the end of what a chunk decodes to, for a
/// chunk of `symbols` characters of the alphabet and `pads` padding
/// characters after them, with symbols of `k` bits.
pub open spec fn spec_drop_count(pad: PadType, k: nat, symbols: nat, pads: nat) -> nat {
    match pad {
        PadType::BlockPad(_) => if symbols % block_chars(k) != 0 {
            1
        } else {
            0
        },
        PadType::DropPad(_) => pads,
    }
}

/// There is one least common multiple, and no more.
pub proof fn lemma_lcm_unique(m: int, a: nat, b: nat)
    requires
        is_lcm(m, a as int, b as int),
    ensures
        spec_lcm(a, b) == m,
{
    let l = spec_lcm(a, b);
    assert(is_lcm(m as nat as int, a as int, b as int));
    assert(is_lcm(l as int, a as int, b as int));
    assert(common_multiple(m, a as int, b as int));
    assert(common_multiple(l as int, a as int, b as int));
}

/// The least common multiple of `a` and `b`, found by counting up from the
/// larger of the two. It is enough that some common multiple fits the
/// machine word: the count never passes the least one.
pub fn lcm(a: usize, b: usize) -> (m: usize)
    requires
        a > 0,
        b > 0,
        exists|c: int| common_multiple(c, a as int, b as int) && c <= usize::MAX,
    ensures
        m == spec_lcm(a as nat, b as nat),
        m == spec_lcm(b as nat, a as nat),
        is_lcm(m as int, a as int, b as int),
{
    let ghost top = choose|c: int| common_multiple(c, a as int, b as int) && c <= usize::MAX;
    let mut crt = if a > b {
        a
    } else {
        b
    };
    proof {
        lemma_multiple_is_large(top, a as int);
        lemma_multiple_is_large(top, b as int);
        assert forall|c: int| #[trigger] common_multiple(c, a as int, b as int) implies crt <= c by {
            lemma_multiple_is_large(c, a as int);
            lemma_multiple_is_large(c, b as int);
        }
    }
    loop
        invariant
            a > 0,
            b > 0,
            0 < crt <= top <= usize::MAX,
            common_multiple(top, a as int, b as int),
            forall|c: int| #[trigger] common_multiple(c, a as int, b as int) ==> crt <= c,
        decreases top - crt,
    {
        if crt % a == 0 && crt % b == 0 {
            proof {
                lemma_lcm_unique(crt as int, a as nat, b as nat);
                lemma_is_lcm_symmetric(crt as int, a as int, b as int);
                lemma_lcm_unique(crt as int, b as nat, a as nat);
            }
            return crt;
        }
        proof {
            assert(!common_multiple(crt as int, a as int, b as int));
        }
        crt += 1;
    }
}

/// Eight times a width is a common multiple of the width and 8.
pub proof fn lemma_multiple_with_8(k: nat)
    requires
        k > 0,
    ensures
        common_multiple(k as int * 8, k as int, 8),
{
    lemma_mod_multiples_basic(8, k as int);
    lemma_mod_multiples_basic(k as int, 8);
    assert(8 * (k as int) == k as int * 8) by (nonlinear_arith);
}

/// The least common multiple of `a` and `b` is that of `b` and `a`.
pub proof fn lemma_is_lcm_symmetric(m: int, a: int, b: int)
    requires
        is_lcm(m, a, b),
    ensures
        is_lcm(m, b, a),
{
    assert forall|c: int| #[trigger] common_multiple(c, b, a) implies m <= c by {
        assert(common_multiple(c, a, b));
    }
}

/// The least of the common multiples of `a` and `b` from `from` on, where
/// there is none below `from` and `top` is one.
proof fn lemma_least_multiple(a: int, b: int, from: int, top: int) -> (m: int)
    requires
        common_multiple(top, a, b),
        0 < from <= top,
        forall|c: int| #[trigger] common_multiple(c, a, b) ==> from <= c,
    ensures
        is_lcm(m, a, b),
        from <= m <= top,
    decreases top - from,
{
    if common_multiple(from, a, b) {
        from
    } else {
        lemma_least_multiple(a, b, from + 1, top)
    }
}

/// Two positive numbers have a least common multiple, it is no more than
/// their product, and it does not depend on their order.
pub proof fn lemma_lcm(a: nat, b: nat)
    requires
        a > 0,
        b > 0,
    ensures
        is_lcm(spec_lcm(a, b) as int, a as int, b as int),
        spec_lcm(a, b) <= a * b,
        spec_lcm(a, b) == spec_lcm(b, a),
{
    let top = a as int * b as int;
    lemma_mod_multiples_basic(b as int, a as int);
    lemma_mod_multiples_basic(a as int, b as int);
    assert(a as int * b as int == b as int * a as int) by (nonlinear_arith);
    assert(top >= 1) by (nonlinear_arith)
        requires
            top == a as int * b as int,
            a > 0,
            b > 0,
    ;
    assert(common_multiple(top, a as int, b as int));
    let m = lemma_least_multiple(a as int, b as int, 1, top);
    lemma_lcm_unique(m, a, b);
    lemma_is_lcm_symmetric(m, a as int, b as int);
    lemma_lcm_unique(m, b, a);
}

/// A positive multiple of `d` is at least `d`.
proof fn lemma_multiple_is_large(c: int, d: int)
    requires
        c > 0,
        d > 0,
        c % d == 0,
    ensures
        c >= d,
{
    lemma_fundamental_div_mod(c, d);
    let q = c / d;
    if q <= 0 {
        assert(d * q <= 0) by (nonlinear_arith)
            requires
                d > 0,
                q <= 0,
        ;
    } else {
        assert(d * q >= d) by (nonlinear_arith)
            requires
                d > 0,
                q >= 1,
        ;
    }
}

/// `div` divided by `by`, rounded up. The operands are wide enough for the
/// number of bits in any buffer.
pub fn div_ceil(div: u128, by: u128) -> (r: u128)
    requires
        by > 0,
    ensures
        r == spec_div_ceil(div as nat, by as nat),
{
    let q = div / by;
    let r = div % by;
    proof {
        lemma_fundamental_div_mod(div as int, by as int);
        assert(by * q == q * by) by (nonlinear_arith);
        if r == 0 {
            lemma_fundamental_div_mod_converse(div + by - 1, by as int, q as int, by - 1);
        } else {
            assert((q + 1) * by == q * by + by) by (nonlinear_arith);
            assert(q * by >= q) by (nonlinear_arith)
                requires
                    by >= 1,
                    q >= 0,
            ;
            lemma_fundamental_div_mod_converse(div + by - 1, by as int, q + 1, r - 1);
        }
    }
    if r == 0 {
        q
    } else {
        q + 1
    }
}

/// Dividing by `k` and dividing by the same number under another name.
pub proof fn lemma_same_divisor(x: int, k: int, c: int)
    requires
        k == c,
    ensures
        x / k == x / c,
        x % k == x % c,
{
}

/// The least common multiple of 8 and a width of up to 8 bits, by the
/// width.
pub open spec fn lcm_with_8(k: nat) -> nat {
    if k == 3 || k == 6 {
        24
    } else if k == 5 {
        40
    } else if k == 7 {
        56
    } else {
        8
    }
}

/// `m` is the least common multiple of 8 and `k`, where `k` is the number
/// `c` and no smaller number than `m` is a multiple of both.
proof fn lemma_lcm_case(k: nat, c: int, m: int)
    requires
        k == c,
        c >= 1,
        m > 0,
        m % c == 0,
        m % 8 == 0,
        forall|x: int| #[trigger] common_multiple(x, c, 8) ==> m <= x,
    ensures
        spec_lcm(k, 8) == m,
        (m / (k as int)) * k == m,
        m / (k as int) == m / c,
{
    lemma_same_divisor(m, k as int, c);
    assert forall|x: int| #[trigger] common_multiple(x, k as int, 8) implies m <= x by {
        lemma_same_divisor(x, k as int, c);
        assert(common_multiple(x, c, 8));
    }
    lemma_lcm_unique(m, k, 8);
    lemma_fundamental_div_mod(m, k as int);
    assert((k as int) * (m / (k as int)) == (m / (k as int)) * k) by (nonlinear_arith);
}

/// The least common multiple of 8 and a width of up to 8 bits, and the
/// block that it gives.
pub proof fn lemma_lcm_with_8(k: nat)
    requires
        1 <= k <= 8,
    ensures
        spec_lcm(k, 8) == lcm_with_8(k),
        block_chars(k) * k == lcm_with_8(k),
        block_chars(k) == (if k == 1 {
            8nat
        } else if k == 2 {
            4nat
        } else if k == 3 {
            8nat
        } else if k == 4 {
            2nat
        } else if k == 5 {
            8nat
        } else if k == 6 {
            4nat
        } else if k == 7 {
            8nat
        } else {
            1nat
        }),
{
    if k == 1 {
        lemma_lcm_case(k, 1, 8);
    } else if k == 2 {
        lemma_lcm_case(k, 2, 8);
    } else if k == 3 {
        lemma_lcm_case(k, 3, 24);
    } else if k == 4 {
        lemma_lcm_case(k, 4, 8);
    } else if k == 5 {
        lemma_lcm_case(k, 5, 40);
    } else if k == 6 {
        lemma_lcm_case(k, 6, 24);
    } else if k == 7 {
        lemma_lcm_case(k, 7, 56);
    } else {
        lemma_lcm_case(k, 8, 8);
    }
}

/// Block padding, with numbers in place of names: `k` is the number `c`,
/// and a block has `block` characters.
proof fn lemma_block_pad_case(pad: PadType, k: nat, nbytes: nat, c: int, block: int)
    requires
        pad is BlockPad,
        k == c,
        1 <= c <= 8,
        block_chars(k) == block,
        spec_lcm(k, 8) == block * c,
        block >= 1,
        ({
            let n = nbytes as int;
            let symbols = (n * 8 + c - 1) / c;
            let last_bits = (n * 8) % (block * c);
            (block - symbols % block) % block == (if last_bits == 0 {
                0
            } else {
                (block * c - last_bits) / c
            })
        }),
    ensures
        spec_pad_len(pad, k, nbytes) == ({
            let block_len = spec_lcm(k, 8) as int;
            let last_bits = ((nbytes * 8) as int) % block_len;
            if last_bits == 0 {
                0
            } else {
                (block_len - last_bits) / (k as int)
            }
        }),
{
    let n = nbytes as int;
    lemma_same_divisor(n * 8 + k - 1, k as int, c);
    let last_bits = (n * 8) % (block * c);
    lemma_same_divisor(block * c - last_bits, k as int, c);
    assert(repack_len(nbytes, 8, k) == (n * 8 + c - 1) / c);
}

/// Block padding with symbols of 1 bits: filling the characters up to a
/// block of 8 is counting the whole symbols that the last 8 bits leave
/// room for.
proof fn lemma_block_pad_agrees_1(n: int)
    requires
        n >= 0,
    ensures
        ({
            let symbols = (n * 8 + 0) / 1;
            let last_bits = (n * 8) % 8;
            (8 - symbols % 8) % 8 == (if last_bits == 0 {
                0
            } else {
                (8 - last_bits) / 1
            })
        }),
{
}

/// Block padding with symbols of 2 bits: filling the characters up to a
/// block of 4 is counting the whole symbols that the last 8 bits leave
/// room for.
proof fn lemma_block_pad_agrees_2(n: int)
    requires
        n >= 0,
    ensures
        ({
            let symbols = (n * 8 + 1) / 2;
            let last_bits = (n * 8) % 8;
            (4 - symbols % 4) % 4 == (if last_bits == 0 {
                0
            } else {
                (8 - last_bits) / 2
            })
        }),
{
}

/// Block padding with symbols of 3 bits: filling the characters up to a
/// block of 8 is counting the whole symbols that the last 24 bits leave
/// room for.
proof fn lemma_block_pad_agrees_3(n: int)
    requires
        n >= 0,
    ensures
        ({
            let symbols = (n * 8 + 2) / 3;
            let last_bits = (n * 8) % 24;
            (8 - symbols % 8) % 8 == (if last_bits == 0 {
                0
            } else {
                (24 - last_bits) / 3
            })
        }),
{
    let q = n / 3;
    let r = n % 3;
    assert(n == 3 * q + r);
    if r == 0 {
        assert((n * 8 + 2) / 3 == 8 * q + 0);
    } else if r == 1 {
        assert((n * 8 + 2) / 3 == 8 * q + 3);
    } else {
        assert((n * 8 + 2) / 3 == 8 * q + 6);
    }
}

/// Block padding with symbols of 4 bits: filling the characters up to a
/// block of 2 is counting the whole symbols that the last 8 bits leave
/// room for.
proof fn lemma_block_pad_agrees_4(n: int)
    requires
        n >= 0,
    ensures
        ({
            let symbols = (n * 8 + 3) / 4;
            let last_bits = (n * 8) % 8;
            (2 - symbols % 2) % 2 == (if last_bits == 0 {
                0
            } else {
                (8 - last_bits) / 4
            })
        }),
{
}

/// Block padding with symbols of 5 bits: filling the characters up to a
/// block of 8 is counting the whole symbols that the last 40 bits leave
/// room for.
proof fn lemma_block_pad_agrees_5(n: int)
    requires
        n >= 0,
    ensures
        ({
            let symbols = (n * 8 + 4) / 5;
            let last_bits = (n * 8) % 40;
            (8 - symbols % 8) % 8 == (if last_bits == 0 {
                0
            } else {
                (40 - last_bits) / 5
            })
        }),
{
    let q = n / 5;
    let r = n % 5;
    assert(n == 5 * q + r);
    if r == 0 {
        assert((n * 8 + 4) / 5 == 8 * q + 0);
    } else if r == 1 {
        assert((n * 8 + 4) / 5 == 8 * q + 2);
    } else if r == 2 {
        assert((n * 8 + 4) / 5 == 8 * q + 4);
    } else if r == 3 {
        assert((n * 8 + 4) / 5 == 8 * q + 5);
    } else {
        assert((n * 8 + 4) / 5 == 8 * q + 7);
    }
}

/// Block padding with symbols of 6 bits: filling the characters up to a
/// block of 4 is counting the whole symbols that the last 24 bits leave
/// room for.
proof fn lemma_block_pad_agrees_6(n: int)
    requires
        n >= 0,
    ensures
        ({
            let symbols = (n * 8 + 5) / 6;
            let last_bits = (n * 8) % 24;
            (4 - symbols % 4) % 4 == (if last_bits == 0 {
                0
            } else {
                (24 - last_bits) / 6
            })
        }),
{
    let q = n / 3;
    let r = n % 3;
    assert(n == 3 * q + r);
    if r == 0 {
        assert((n * 8 + 5) / 6 == 4 * q + 0);
    } else if r == 1 {
        assert((n * 8 + 5) / 6 == 4 * q + 2);
    } else {
        assert((n * 8 + 5) / 6 == 4 * q + 3);
    }
}

/// Block padding with symbols of 7 bits: filling the characters up to a
/// block of 8 is counting the whole symbols that the last 56 bits leave
/// room for.
proof fn lemma_block_pad_agrees_7(n: int)
    requires
        n >= 0,
    ensures
        ({
            let symbols = (n * 8 + 6) / 7;
            let last_bits = (n * 8) % 56;
            (8 - symbols % 8) % 8 == (if last_bits == 0 {
                0
            } else {
                (56 - last_bits) / 7
            })
        }),
{
    let q = n / 7;
    let r = n % 7;
    assert(n == 7 * q + r);
    if r == 0 {
        assert((n * 8 + 6) / 7 == 8 * q + 0);
    } else if r == 1 {
        assert((n * 8 + 6) / 7 == 8 * q + 2);
    } else if r == 2 {
        assert((n * 8 + 6) / 7 == 8 * q + 3);
    } else if r == 3 {
        assert((n * 8 + 6) / 7 == 8 * q + 4);
    } else if r == 4 {
        assert((n * 8 + 6) / 7 == 8 * q + 5);
    } else if r == 5 {
        assert((n * 8 + 6) / 7 == 8 * q + 6);
    } else {
        assert((n * 8 + 6) / 7 == 8 * q + 7);
    }
}

/// Block padding with symbols of 8 bits: filling the characters up to a
/// block of 1 is counting the whole symbols that the last 8 bits leave
/// room for.
proof fn lemma_block_pad_agrees_8(n: int)
    requires
        n >= 0,
    ensures
        ({
            let symbols = (n * 8 + 7) / 8;
            let last_bits = (n * 8) % 8;
            (1 - symbols % 1) % 1 == (if last_bits == 0 {
                0
            } else {
                (8 - last_bits) / 8
            })
        }),
{
}

/// Block padding, counted in bits: the last block of the text holds
/// `(8 * nbytes) % lcm(k, 8)` bits of the bytes, and the padding stands for
/// the whole symbols that the rest of the block has room for.
pub proof fn lemma_block_pad_len(pad: PadType, k: nat, nbytes: nat)
    requires
        pad is BlockPad,
        1 <= k <= 8,
    ensures
        8 <= spec_lcm(k, 8) <= 56,
        spec_pad_len(pad, k, nbytes) == ({
            let block_len = spec_lcm(k, 8) as int;
            let last_bits = ((nbytes * 8) as int) % block_len;
            if last_bits == 0 {
                0
            } else {
                (block_len - last_bits) / (k as int)
            }
        }),
        nbytes == 0 ==> spec_pad_len(pad, k, nbytes) == 0,
{
    lemma_lcm_with_8(k);
    let n = nbytes as int;
    if k == 1 {
        lemma_block_pad_agrees_1(n);
        lemma_block_pad_case(pad, k, nbytes, 1, 8);
    } else if k == 2 {
        lemma_block_pad_agrees_2(n);
        lemma_block_pad_case(pad, k, nbytes, 2, 4);
    } else if k == 3 {
        lemma_block_pad_agrees_3(n);
        lemma_block_pad_case(pad, k, nbytes, 3, 8);
    } else if k == 4 {
        lemma_block_pad_agrees_4(n);
        lemma_block_pad_case(pad, k, nbytes, 4, 2);
    } else if k == 5 {
        lemma_block_pad_agrees_5(n);
        lemma_block_pad_case(pad, k, nbytes, 5, 8);
    } else if k == 6 {
        lemma_block_pad_agrees_6(n);
        lemma_block_pad_case(pad, k, nbytes, 6, 4);
    } else if k == 7 {
        lemma_block_pad_agrees_7(n);
        lemma_block_pad_case(pad, k, nbytes, 7, 8);
    } else {
        lemma_block_pad_agrees_8(n);
        lemma_block_pad_case(pad, k, nbytes, 8, 1);
    }
}

/// Drop padding, counted in bits: the symbols hold fewer than `k` bits more
/// than the bytes have, and the padding counts the bytes, whole or begun,
/// that those bits make.
pub proof fn lemma_drop_pad_len(pad: PadType, k: nat, nbytes: nat)
    requires
        pad is DropPad,
        k >= 1,
    ensures
        ({
            let out_bitlen = spec_div_ceil(nbytes * 8, k) * k;
            &&& nbytes * 8 <= out_bitlen < nbytes * 8 + k
            &&& spec_pad_len(pad, k, nbytes) == spec_div_ceil((out_bitlen - nbytes * 8) as nat, 8)
        }),
        nbytes == 0 ==> spec_pad_len(pad, k, nbytes) == 0,
{
    crate::bits::lemma_round_up((nbytes * 8) as int, k as int);
    if nbytes == 0 {
        vstd::arithmetic::div_mod::lemma_small_mod(0, k);
    }
}

} // verus!
