//! Repacking of symbols of one bit width into symbols of another.
//!
//! E.g. from 8 bits to 6 bits (or the other way round):
//!
//! `11111100 00001111` -> `111111 000000 111100`

use crate::bits::{
    lemma_window_bound, lemma_window_in_symbol, lemma_window_past_end, lemma_window_split,
    lemma_one_shl, repack, repack_whole, window,
};
use vstd::arithmetic::power2::{lemma_pow2_pos, lemma_pow2_strictly_increases, pow2};
use vstd::bits::{
    low_bits_mask, lemma_u64_low_bits_mask_is_mod, lemma_u64_shl_is_mul, lemma_u64_shr_is_div,
};
use vstd::prelude::*;

verus! {

/// Container type for a symbol of variable width.
#[allow(non_camel_case_types)]
pub type uVar = u32;

/// The widest symbol that a `uVar` holds.
pub const MAX_WIDTH: u8 = 32;

/// What becomes of the last output symbol where the input ends inside it.
#[derive(Debug, Clone, Copy, PartialEq, Eq)]
pub enum Tail {
    /// It is handed out, with zero bits in place of the bits that are
    /// missing.
    Emit,
    /// It is dropped.
    Discard,
}

/// Iterator that repacks the bits of symbols of `isize` bits into symbols of
/// `osize` bits. Only the low `isize` bits of an input symbol count.
pub struct RepackIterator {
    iband: Vec<uVar>,
    /// Index of the input symbol being read.
    pos: usize,
    /// How many bits of that symbol have been handed out.
    cbits: u8,
    isize: u8,
    osize: u8,
    tail: Tail,
}

/// Bits `skip .. skip + count` of the `nsize`-bit symbol `n`, counted from
/// its most significant bit, as a number.
///
/// ```text
/// 01234567
/// __XXXXX_ -> ___XXXXX
/// 76543210
/// ```
pub fn take_bits(n: uVar, nsize: u8, count: u8, skip: u8) -> (r: uVar)
    requires
        nsize <= MAX_WIDTH,
        skip + count <= nsize,
    ensures
        r == (n as nat / pow2((nsize - skip - count) as nat)) % pow2(count as nat),
{
    let from: u64 = (nsize - skip) as u64;
    let to: u64 = from - count as u64;
    proof {
        lemma_one_shl(from);
        lemma_one_shl(to);
        lemma_one_shl(count as u64);
        if to < from {
            lemma_pow2_strictly_increases(to as nat, from as nat);
        }
    }
    let mask: u64 = ((1u64 << from) - 1) - ((1u64 << to) - 1);
    let x: u64 = n as u64;
    let r: u64 = (x & mask) >> to;
    proof {
        let c: u64 = count as u64;
        assert((x & (((1u64 << from) - 1) as u64 - ((1u64 << to) - 1) as u64) as u64) >> to == (x
            >> to) & (((1u64 << c) - 1) as u64)) by (bit_vector)
            requires
                to <= from <= 32,
                c == from - to,
        ;
        lemma_u64_shr_is_div(x, to);
        assert(low_bits_mask(c as nat) as u64 == ((1u64 << c) - 1) as u64);
        lemma_u64_low_bits_mask_is_mod(x >> to, c as nat);
        assert(r == (x as nat / pow2(to as nat)) % pow2(c as nat));
        assert(r < pow2(c as nat));
    }
    r as u32
}

impl RepackIterator {
    /// The state is consistent: the widths are usable, the read position
    /// lies in the input, and between two calls it stands where an output
    /// symbol begins.
    pub closed spec fn wf(&self) -> bool {
        &&& 1 <= self.isize <= MAX_WIDTH
        &&& 1 <= self.osize <= MAX_WIDTH
        &&& self.pos <= self.iband.len()
        &&& self.cbits < self.isize
        &&& (self.pos == self.iband.len() ==> self.cbits == 0)
        &&& (self.pos < self.iband.len() ==> (self.pos * self.isize + self.cbits) % (
        self.osize as int) == 0)
    }

    /// All the output symbols, those that have been handed out too.
    pub closed spec fn output(&self) -> Seq<uVar> {
        match self.tail {
            Tail::Emit => repack(self.iband@, self.isize as nat, self.osize as nat),
            Tail::Discard => repack_whole(self.iband@, self.isize as nat, self.osize as nat),
        }
    }

    /// How many output symbols have been handed out.
    pub closed spec fn index(&self) -> nat {
        if self.pos < self.iband.len() {
            ((self.pos * self.isize + self.cbits) / (self.osize as int)) as nat
        } else {
            self.output().len()
        }
    }

    /// The input symbols.
    pub closed spec fn source(&self) -> Seq<uVar> {
        self.iband@
    }

    /// The width of an input symbol, in bits.
    pub closed spec fn in_width(&self) -> nat {
        self.isize as nat
    }

    /// The width of an output symbol, in bits.
    pub closed spec fn out_width(&self) -> nat {
        self.osize as nat
    }

    /// An iterator that hands out the last symbol also where the input ends
    /// inside it.
    pub fn new(iband: Vec<uVar>, isize: u8, osize: u8) -> (it: RepackIterator)
        requires
            1 <= isize <= MAX_WIDTH,
            1 <= osize <= MAX_WIDTH,
        ensures
            it.wf(),
            it.source() == iband@,
            it.in_width() == isize,
            it.out_width() == osize,
            it@ == repack(iband@, isize as nat, osize as nat),
    {
        RepackIterator::with_tail(iband, isize, osize, Tail::Emit)
    }

    /// An iterator that treats the last symbol as `tail` says where the
    /// input ends inside it.
    pub fn with_tail(iband: Vec<uVar>, isize: u8, osize: u8, tail: Tail) -> (it: RepackIterator)
        requires
            1 <= isize <= MAX_WIDTH,
            1 <= osize <= MAX_WIDTH,
        ensures
            it.wf(),
            it.source() == iband@,
            it.in_width() == isize,
            it.out_width() == osize,
            it@ == (match tail {
                Tail::Emit => repack(iband@, isize as nat, osize as nat),
                Tail::Discard => repack_whole(iband@, isize as nat, osize as nat),
            }),
    {
        let it = RepackIterator { iband, cbits: 0, pos: 0, isize, osize, tail };
        proof {
            assert(0int * (isize as int) == 0) by (nonlinear_arith);
            if it.iband.len() == 0 {
                vstd::arithmetic::div_mod::lemma_basic_div(osize as int - 1, osize as int);
                vstd::arithmetic::div_mod::lemma_basic_div(0, osize as int);
            }
            assert(it.index() == 0);
            assert(it@ =~= it.output());
        }
        it
    }

    /// The next output symbol, or `None` when there is no more. Where the
    /// input ends inside an output symbol, that symbol is handed out with
    /// zero bits in place of the bits that are missing, or dropped, as the
    /// iterator was made.
    pub fn next(&mut self) -> (r: Option<uVar>)
        requires
            old(self).wf(),
        ensures
            final(self).wf(),
            final(self).source() == old(self).source(),
            final(self).in_width() == old(self).in_width(),
            final(self).out_width() == old(self).out_width(),
            match r {
                Some(v) => old(self)@.len() > 0 && v == old(self)@[0] && final(self)@ == old(
                    self,
                )@.skip(1),
                None => old(self)@.len() == 0 && final(self)@ == old(self)@,
            },
    {
        let ghost src = self.iband@;
        let ghost iw = self.isize as nat;
        let ghost ow = self.osize as nat;
        let ghost total = src.len() * iw;
        let ghost out = self.output();
        let ghost tail = self.tail;
        if self.pos >= self.iband.len() {
            proof {
                assert(self@ =~= Seq::<u32>::empty());
            }
            return None;
        }
        let ghost start: int = self.pos * self.isize + self.cbits;
        let ghost q: int = start / (ow as int);
        proof {
            lemma_position_in_stream(self.pos as int, self.cbits as int, src.len() as int, iw as int);
            vstd::arithmetic::div_mod::lemma_fundamental_div_mod(start, ow as int);
            vstd::arithmetic::div_mod::lemma_div_pos_is_pos(start, ow as int);
            assert(q * ow == ow * q) by (nonlinear_arith);
            lemma_symbol_count(total as int, ow as int, q, 0);
            vstd::arithmetic::power2::lemma2_to64();
            assert(self@ =~= out.skip(q));
        }
        let mut acc: u64 = 0;
        let mut aln: u8 = 0;

        // 01234567 01234567 01234567
        // _____XXX XXXXXXXX XXXX____
        while aln < self.osize
            invariant
                self.iband@ == src,
                self.isize == iw,
                self.osize == ow,
                1 <= iw <= MAX_WIDTH,
                1 <= ow <= MAX_WIDTH,
                total == src.len() * iw,
                0 <= start < total,
                0 <= q,
                start == q * ow,
                self.tail == tail,
                out == (match tail {
                    Tail::Emit => repack(src, iw, ow),
                    Tail::Discard => repack_whole(src, iw, ow),
                }),
                old(self).source() == src,
                old(self).in_width() == iw,
                old(self).out_width() == ow,
                old(self)@ == out.skip(q),
                aln <= ow,
                self.pos <= src.len(),
                self.cbits < iw,
                self.pos == src.len() ==> self.cbits == 0,
                self.pos * iw + self.cbits == start + aln,
                acc == window(src, iw, start, aln as nat),
                acc < pow2(aln as nat),
            decreases ow - aln,
        {
            if self.pos >= self.iband.len() {
                let fill: u8 = self.osize - aln;
                proof {
                    lemma_window_split(src, iw, start, aln as nat, fill as nat);
                    lemma_window_past_end(src, iw, start + aln, fill as nat);
                    lemma_window_bound(src, iw, start, ow);
                    lemma_one_shl(ow as u64);
                    lemma_u64_shl_is_mul(acc, fill as u64);
                    lemma_symbol_count(total as int, ow as int, q, aln as int);
                    assert(self@ =~= Seq::<u32>::empty());
                }
                match self.tail {
                    Tail::Emit => {
                        proof {
                            assert(out.skip(q).skip(1) =~= Seq::<u32>::empty());
                        }
                        return Some((acc << (fill as u64)) as u32);
                    },
                    Tail::Discard => {
                        proof {
                            assert(out.skip(q) =~= Seq::<u32>::empty());
                        }
                        return None;
                    },
                }
            }
            let crt_n = self.iband[self.pos];

            let want: u8 = self.osize - aln;
            let have: u8 = self.isize - self.cbits;
            let munch: u8 = if want < have {
                want
            } else {
                have
            };
            let bits: u64 = take_bits(crt_n, self.isize, munch, self.cbits) as u64;
            proof {
                lemma_window_in_symbol(src, iw, self.pos as int, self.cbits as nat, munch as nat);
                lemma_window_split(src, iw, start, aln as nat, munch as nat);
                lemma_window_bound(src, iw, start, (aln + munch) as nat);
                lemma_window_bound(src, iw, start + aln, munch as nat);
                lemma_one_shl((aln + munch) as u64);
                lemma_one_shl(munch as u64);
                lemma_one_shl(aln as u64);
                lemma_pow2_pos(munch as nat);
                assert(acc * pow2(munch as nat) <= window(src, iw, start, (aln + munch) as nat));
                lemma_u64_shl_is_mul(acc, munch as u64);
                let m: u64 = munch as u64;
                assert(((acc << m) | bits) == (acc << m) + bits) by (bit_vector)
                    requires
                        m <= 32,
                        acc < 0x1_0000_0000,
                        bits < (1u64 << m),
                ;
            }
            acc = (acc << (munch as u64)) | bits;
            self.cbits = self.cbits + munch;
            aln = aln + munch;

            if self.cbits == self.isize {
                proof {
                    assert((self.pos + 1) * iw == self.pos * iw + iw) by (nonlinear_arith);
                }
                self.pos = self.pos + 1;
                self.cbits = 0;
            }
        }
        proof {
            lemma_window_bound(src, iw, start, ow);
            lemma_one_shl(ow as u64);
            lemma_symbol_count(total as int, ow as int, q, ow as int);
            assert((q + 1) * ow == q * ow + ow) by (nonlinear_arith);
            if self.pos < src.len() {
                lemma_stream_position_of(q + 1, ow as int);
                lemma_position_in_stream(
                    self.pos as int,
                    self.cbits as int,
                    src.len() as int,
                    iw as int,
                );
            }
            assert(q < out.len());
            assert(self@ =~= out.skip(q + 1));
            assert(out.skip(q).skip(1) =~= out.skip(q + 1));
        }
        Some(acc as u32)
    }

    /// All the output symbols that are left, in order.
    pub fn collect(self) -> (v: Vec<uVar>)
        requires
            self.wf(),
        ensures
            v@ == self@,
    {
        let mut it = self;
        let mut v: Vec<uVar> = Vec::new();
        loop
            invariant
                it.wf(),
                self@ == v@ + it@,
            ensures
                v@ == self@,
            decreases it@.len(),
        {
            match it.next() {
                Some(x) => {
                    v.push(x);
                },
                None => {
                    break ;
                },
            }
        }
        v
    }
}

impl View for RepackIterator {
    type V = Seq<uVar>;

    /// The output symbols that are still to come.
    closed spec fn view(&self) -> Seq<uVar> {
        self.output().skip(self.index() as int)
    }
}

/// A read position inside the input lies inside its stream of bits.
proof fn lemma_position_in_stream(pos: int, cbits: int, len: int, iw: int)
    requires
        0 <= pos < len,
        0 <= cbits < iw,
    ensures
        0 <= pos * iw + cbits < len * iw,
{
    assert(0 <= pos * iw + cbits < len * iw) by (nonlinear_arith)
        requires
            0 <= pos,
            pos + 1 <= len,
            0 <= cbits < iw,
    ;
}

/// An output symbol that begins at a multiple of the width begins at zero
/// modulo the width.
proof fn lemma_stream_position_of(q: int, ow: int)
    requires
        ow > 0,
    ensures
        (q * ow) % ow == 0,
        (q * ow) / ow == q,
{
    vstd::arithmetic::div_mod::lemma_fundamental_div_mod_converse(q * ow, ow, q, 0);
}

/// Counting output symbols. Output symbol `q` begins at bit `q * ow`. Where
/// the stream of `total` bits goes on past that bit, the symbol is one of
/// those that are counted with the incomplete one; where the stream ends
/// `a` bits into it, it is the last of them, and it is a whole symbol just
/// where `a` is the full width.
proof fn lemma_symbol_count(total: int, ow: int, q: int, a: int)
    requires
        ow > 0,
        0 <= q,
        0 <= a <= ow,
        q * ow < total,
    ensures
        q < (total + ow - 1) / ow,
        (q * ow) / ow == q,
        (a > 0 && total == q * ow + a) ==> (total + ow - 1) / ow == q + 1,
        (a < ow && total == q * ow + a) ==> total / ow == q,
        total >= q * ow + ow ==> q < total / ow,
        total == q * ow + ow ==> total / ow == q + 1,
{
    lemma_stream_position_of(q, ow);
    let n = (total + ow - 1) / ow;
    vstd::arithmetic::div_mod::lemma_fundamental_div_mod(total + ow - 1, ow);
    assert(n * ow == ow * n) by (nonlinear_arith);
    if n <= q {
        assert(n * ow <= q * ow) by (nonlinear_arith)
            requires
                n <= q,
                ow > 0,
        ;
    }
    assert((q + 1) * ow == q * ow + ow) by (nonlinear_arith);
    if a > 0 && total == q * ow + a {
        vstd::arithmetic::div_mod::lemma_fundamental_div_mod_converse(
            total + ow - 1,
            ow,
            q + 1,
            a - 1,
        );
    }
    if a < ow && total == q * ow + a {
        vstd::arithmetic::div_mod::lemma_fundamental_div_mod_converse(total, ow, q, a);
    }
    if total >= q * ow + ow {
        let m = total / ow;
        vstd::arithmetic::div_mod::lemma_fundamental_div_mod(total, ow);
        assert(m * ow == ow * m) by (nonlinear_arith);
        if m <= q {
            assert(m * ow <= q * ow) by (nonlinear_arith)
                requires
                    m <= q,
                    ow > 0,
            ;
        }
    }
    if total == q * ow + ow {
        vstd::arithmetic::div_mod::lemma_fundamental_div_mod_converse(total, ow, q + 1, 0);
    }
}

} // verus!
