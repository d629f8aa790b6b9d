//! What holds of every well-formed encoding.

use crate::bits::{
    lemma_repack_back, lemma_repack_concat, lemma_repack_index, lemma_round_up, repack,
    repack_len, repack_whole,
};
use crate::codec::{
    chunk_start, chunks, first_invalid, is_cut, lemma_all_valid, lemma_chunk_start,
    lemma_chunks_of_two, lemma_chunks_shape, lemma_chunks_single, lemma_first_chunk,
    lemma_first_invalid_at, lemma_log2_floor, lemma_unpadded_len, lemma_unpadded_len_covers,
    lemma_unpadded_shape, unpadded_len, Codec,
};
use crate::encoding::config::{lemma_registry, registry};
use crate::padding::{block_chars, lemma_lcm_with_8, spec_div_ceil, spec_drop_count, PadType};
use vstd::arithmetic::div_mod::{
    lemma_fundamental_div_mod, lemma_mod_multiples_vanish, lemma_mod_pos_bound,
};
use vstd::arithmetic::power2::pow2;
use vstd::prelude::*;

verus! {

/// In an alphabet that names no character twice, a character has the index
/// at which it stands.
pub proof fn lemma_index_of_char(alphabet: Seq<char>, i: int)
    requires
        alphabet.no_duplicates(),
        0 <= i < alphabet.len(),
    ensures
        alphabet.index_of_first(alphabet[i]) == Some(i),
{
    alphabet.index_of_first_ensures(alphabet[i]);
    assert(alphabet.contains(alphabet[i]));
}

/// The alphabet is a bijection between the symbols and their characters:
/// the character of symbol `i` has index `i`. This holds of every index of
/// the alphabet, and every symbol of `bitcount` bits is one.
pub proof fn alphabet_bijection(codec: Codec, i: int)
    requires
        codec.wf(),
        0 <= i < pow2(codec.bitcount()) || 0 <= i < codec.alphabet.len(),
    ensures
        0 <= i < codec.alphabet.len(),
        codec.alphabet.index_of_first(codec.alphabet[i]) == Some(i),
{
    lemma_log2_floor(codec.alphabet.len());
    lemma_index_of_char(codec.alphabet, i);
}

/// The width of a symbol of a well-formed encoding.
pub proof fn lemma_bitcount(codec: Codec)
    requires
        codec.wf(),
    ensures
        1 <= codec.bitcount() <= 31,
        pow2(codec.bitcount()) <= codec.alphabet.len(),
{
    let n = codec.alphabet.len();
    let k = codec.bitcount();
    lemma_log2_floor(n);
    vstd::arithmetic::power2::lemma2_to64();
    if k == 0 {
        assert(pow2(1) == 2);
    }
    if k > 32 {
        vstd::arithmetic::power2::lemma_pow2_strictly_increases(32, k);
    }
    assert(pow2(32) == 0x1_0000_0000);
}

/// The characters that stand for the symbols of `bytes`.
pub open spec fn symbol_chars(codec: Codec, bytes: Seq<u8>) -> Seq<char> {
    codec.symbols(bytes).map_values(|v: u32| codec.alphabet[v as int])
}

/// The shape of an encoded text: characters of the alphabet, one for each
/// symbol, whose indices are the symbols; then padding, and nothing else.
pub proof fn lemma_encoded_shape(codec: Codec, bytes: Seq<u8>)
    requires
        codec.wf(),
    ensures
        codec.encode(bytes) == symbol_chars(codec, bytes) + Seq::new(
            codec.pad_len(bytes.len()),
            |i: int| codec.pad.ch(),
        ),
        symbol_chars(codec, bytes).len() == codec.symbols(bytes).len(),
        forall|j: int|
            0 <= j < symbol_chars(codec, bytes).len() ==> codec.alphabet.contains(
                #[trigger] symbol_chars(codec, bytes)[j],
            ),
        forall|j: int|
            0 <= j < symbol_chars(codec, bytes).len() ==> #[trigger] symbol_chars(codec, bytes)[j]
                != codec.pad.ch(),
        codec.indices(symbol_chars(codec, bytes)) == codec.symbols(bytes),
{
    lemma_bitcount(codec);
    let k = codec.bitcount();
    let src = bytes.map_values(|b: u8| b as u32);
    let syms = codec.symbols(bytes);
    let chars = symbol_chars(codec, bytes);
    assert(codec.encode(bytes) =~= chars + Seq::new(
        codec.pad_len(bytes.len()),
        |i: int| codec.pad.ch(),
    ));
    assert forall|j: int| 0 <= j < chars.len() implies codec.alphabet.contains(#[trigger] chars[j])
        && chars[j] != codec.pad.ch() && codec.indices(chars)[j] == syms[j] by {
        lemma_repack_index(src, 8, k, j);
        lemma_index_of_char(codec.alphabet, syms[j] as int);
        assert(chars[j] == codec.alphabet[syms[j] as int]);
    }
    assert(codec.indices(chars) =~= syms);
}

/// Where `b * k` is a multiple of 8 and no smaller multiple of `k` is one,
/// the multiples of `b` are the numbers whose product with `k` is a
/// multiple of 8.
proof fn lemma_aligned_case(s: int, b: int, k: int)
    requires
        s >= 0,
        b >= 1,
        k >= 1,
        (b * k) % 8 == 0,
        forall|r: int| 1 <= r < b ==> #[trigger] ((r * k) % 8) != 0,
    ensures
        (s % b == 0) <==> ((s * k) % 8 == 0),
{
    let q = s / b;
    let r = s % b;
    let m = (b * k) / 8;
    lemma_fundamental_div_mod(s, b);
    lemma_fundamental_div_mod(b * k, 8);
    lemma_mod_pos_bound(s, b);
    assert(s * k == 8 * (m * q) + r * k) by (nonlinear_arith)
        requires
            s == b * q + r,
            b * k == 8 * m,
    ;
    lemma_mod_multiples_vanish(m * q, r * k, 8);
    if r == 0 {
        assert(r * k == 0) by (nonlinear_arith)
            requires
                r == 0,
        ;
    } else {
        assert((r * k) % 8 != 0);
    }
}

/// Whole blocks are whole bytes: a number of symbols is a multiple of the
/// block where the bits of the symbols are a multiple of 8.
pub proof fn lemma_block_aligned(k: nat, symbols: nat)
    requires
        1 <= k <= 8,
    ensures
        block_chars(k) >= 1,
        (symbols % block_chars(k) == 0) <==> ((symbols * k) % 8 == 0),
{
    lemma_lcm_with_8(k);
    let s = symbols as int;
    if k == 1 {
        assert(symbols * k == s * 1) by (nonlinear_arith)
            requires
                k == 1,
                s == symbols,
        ;
        lemma_aligned_case(s, 8, 1);
    } else if k == 2 {
        assert(symbols * k == s * 2) by (nonlinear_arith)
            requires
                k == 2,
                s == symbols,
        ;
        lemma_aligned_case(s, 4, 2);
    } else if k == 3 {
        assert(symbols * k == s * 3) by (nonlinear_arith)
            requires
                k == 3,
                s == symbols,
        ;
        lemma_aligned_case(s, 8, 3);
    } else if k == 4 {
        assert(symbols * k == s * 4) by (nonlinear_arith)
            requires
                k == 4,
                s == symbols,
        ;
        lemma_aligned_case(s, 2, 4);
    } else if k == 5 {
        assert(symbols * k == s * 5) by (nonlinear_arith)
            requires
                k == 5,
                s == symbols,
        ;
        lemma_aligned_case(s, 8, 5);
    } else if k == 6 {
        assert(symbols * k == s * 6) by (nonlinear_arith)
            requires
                k == 6,
                s == symbols,
        ;
        lemma_aligned_case(s, 4, 6);
    } else if k == 7 {
        assert(symbols * k == s * 7) by (nonlinear_arith)
            requires
                k == 7,
                s == symbols,
        ;
        lemma_aligned_case(s, 8, 7);
    } else {
        assert(symbols * k == s * 8) by (nonlinear_arith)
            requires
                k == 8,
                s == symbols,
        ;
        lemma_aligned_case(s, 1, 8);
    }
}

/// The bits that the symbols of `nbytes` bytes hold beyond the bits of the
/// bytes.
pub open spec fn excess_bits(k: nat, nbytes: nat) -> int {
    repack_len(nbytes, 8, k) * k - nbytes * 8
}

/// Counting back: the padding of an encoded text tells how many bytes the
/// symbols give beyond the bytes that were encoded, and it is empty just
/// where the symbols hold the bits of the bytes and no more.
pub proof fn lemma_counts(codec: Codec, nbytes: nat)
    requires
        codec.wf(),
    ensures
        ({
            let k = codec.bitcount();
            let symbols = repack_len(nbytes, 8, k);
            let pads = codec.pad_len(nbytes);
            &&& 0 <= excess_bits(k, nbytes) < k
            &&& repack_len(symbols, k, 8) == nbytes + spec_drop_count(codec.pad, k, symbols, pads)
            &&& (pads == 0 <==> excess_bits(k, nbytes) == 0)
        }),
{
    lemma_bitcount(codec);
    let k = codec.bitcount();
    let symbols = repack_len(nbytes, 8, k);
    let bits = symbols * k;
    let e = excess_bits(k, nbytes);
    lemma_round_up((nbytes * 8) as int, k as int);
    assert(bits == nbytes * 8 + e);
    assert(repack_len(symbols, k, 8) == (bits + 7) / 8);
    match codec.pad {
        PadType::BlockPad(_) => {
            lemma_block_aligned(k, symbols);
            let block = block_chars(k) as int;
            let rest = symbols as int % block;
            assert(0 <= rest < block);
            assert(codec.pad_len(nbytes) == (block - rest) % block);
            if rest == 0 {
                vstd::arithmetic::div_mod::lemma_mod_self_0(block);
            } else {
                vstd::arithmetic::div_mod::lemma_small_mod((block - rest) as nat, block as nat);
            }
        },
        PadType::DropPad(_) => {
            assert(codec.pad_len(nbytes) == spec_div_ceil(e as nat, 8));
        },
    }
}

/// The symbols of some bytes, read as bytes again, begin with those bytes.
pub proof fn lemma_bytes_back(codec: Codec, bytes: Seq<u8>)
    requires
        codec.wf(),
    ensures
        ({
            let back = repack(codec.symbols(bytes), codec.bitcount(), 8);
            &&& back.len() >= bytes.len()
            &&& back.take(bytes.len() as int).map_values(|v: u32| v as u8) == bytes
        }),
{
    lemma_bitcount(codec);
    lemma_counts(codec, bytes.len());
    let k = codec.bitcount();
    let src = bytes.map_values(|b: u8| b as u32);
    let back = repack(codec.symbols(bytes), k, 8);
    assert(back.len() == repack_len(repack_len(bytes.len(), 8, k), k, 8));
    let head = back.take(bytes.len() as int).map_values(|v: u32| v as u8);
    assert forall|q: int| 0 <= q < bytes.len() implies head[q] == bytes[q] by {
        lemma_repack_index(codec.symbols(bytes), k, 8, q);
        lemma_repack_back(src, 8, k, q);
        vstd::arithmetic::power2::lemma2_to64();
        assert(src[q] == bytes[q] as u32);
    }
    assert(head =~= bytes);
}

/// An encoded text is one chunk, and decodes to the bytes that it stands
/// for.
pub proof fn lemma_decode_single_of_encode(codec: Codec, bytes: Seq<u8>)
    requires
        codec.wf(),
    ensures
        chunks(codec.encode(bytes), codec.pad.ch()) == seq![codec.encode(bytes)],
        codec.decode_single(codec.encode(bytes)) == Ok::<Seq<u8>, (nat, char)>(bytes),
{
    let pad = codec.pad.ch();
    let text = codec.encode(bytes);
    let chars = symbol_chars(codec, bytes);
    let n = chars.len() as int;
    lemma_encoded_shape(codec, bytes);
    lemma_counts(codec, bytes.len());
    lemma_bytes_back(codec, bytes);
    assert forall|p: int| !#[trigger] is_cut(text, pad, p) by {
        if 0 < p < text.len() && text[p - 1] == pad {
            assert(p - 1 >= n);
        }
    }
    lemma_chunks_single(text, pad);
    assert(n > 0 ==> text[n - 1] == chars[n - 1]);
    lemma_unpadded_len(text, pad, n);
    assert(text.take(n) =~= chars);
    lemma_all_valid(codec.alphabet, chars);
    assert(first_invalid(codec.alphabet, chars) is None);
    let k = codec.bitcount();
    let drop = spec_drop_count(codec.pad, k, n as nat, (text.len() - n) as nat);
    let back = repack(codec.symbols(bytes), k, 8);
    assert(back.len() - drop == bytes.len());
    assert(codec.bytes_of(codec.indices(chars), drop) =~= bytes);
}

/// Round trip: what was encoded decodes to itself.
pub proof fn round_trip(codec: Codec, bytes: Seq<u8>)
    requires
        codec.wf(),
    ensures
        codec.decode(codec.encode(bytes)) == Ok::<Seq<u8>, (nat, char)>(bytes),
{
    lemma_decode_single_of_encode(codec, bytes);
    let text = codec.encode(bytes);
    let parts = seq![text];
    assert(parts.drop_last() =~= Seq::<Seq<char>>::empty());
    assert(codec.decode_chunks(parts.drop_last()) == Ok::<Seq<u8>, (nat, char)>(Seq::empty()));
    assert(Seq::<u8>::empty() + bytes =~= bytes);
}

/// Empty input: no bytes encode to the empty text, and the empty text
/// decodes to no bytes.
pub proof fn empty_input(codec: Codec)
    requires
        codec.wf(),
    ensures
        codec.encode(Seq::<u8>::empty()) == Seq::<char>::empty(),
        codec.decode(Seq::<char>::empty()) == Ok::<Seq<u8>, (nat, char)>(Seq::<u8>::empty()),
{
    let none = Seq::<u8>::empty();
    lemma_bitcount(codec);
    lemma_counts(codec, 0);
    let k = codec.bitcount();
    vstd::arithmetic::div_mod::lemma_basic_div(k as int - 1, k as int);
    assert(repack_len(0, 8, k) == 0);
    assert(0 * k == 0) by (nonlinear_arith);
    assert(excess_bits(k, 0) == 0);
    assert(codec.pad_len(none.len()) == 0);
    assert(codec.symbols(none).len() == 0);
    assert(codec.encode(none) =~= Seq::<char>::empty());
    round_trip(codec, none);
}

/// The characters that a text of the encoding is written with: those of
/// the alphabet, and the padding character.
pub open spec fn known(codec: Codec, c: char) -> bool {
    codec.alphabet.contains(c) || c == codec.pad.ch()
}

/// A chunk of known characters decodes to some bytes.
pub proof fn lemma_chunk_decodes(codec: Codec, chunk: Seq<char>)
    requires
        forall|p: int| !#[trigger] is_cut(chunk, codec.pad.ch(), p),
        forall|k: int| 0 <= k < chunk.len() ==> known(codec, #[trigger] chunk[k]),
    ensures
        codec.decode_single(chunk) is Ok,
{
    let pad = codec.pad.ch();
    let n = unpadded_len(chunk, pad);
    let unpadded = chunk.take(n as int);
    if n > 0 {
        lemma_unpadded_shape(chunk, pad, 0);
    }
    assert forall|j: int| 0 <= j < unpadded.len() implies codec.alphabet.contains(
        #[trigger] unpadded[j],
    ) by {
        lemma_unpadded_shape(chunk, pad, j);
        assert(known(codec, chunk[j]));
    }
    lemma_all_valid(codec.alphabet, unpadded);
}

/// Chunks that decode one by one decode one after the other.
pub proof fn lemma_chunks_decode(codec: Codec, parts: Seq<Seq<char>>)
    requires
        forall|c: int| 0 <= c < parts.len() ==> codec.decode_single(#[trigger] parts[c]) is Ok,
    ensures
        codec.decode_chunks(parts) is Ok,
    decreases parts.len(),
{
    if parts.len() > 0 {
        lemma_chunks_decode(codec, parts.drop_last());
        assert(codec.decode_single(parts[parts.len() - 1]) is Ok);
    }
}

/// A text of known characters decodes to some bytes.
pub proof fn lemma_known_text_decodes(codec: Codec, text: Seq<char>)
    requires
        forall|j: int| 0 <= j < text.len() ==> known(codec, #[trigger] text[j]),
    ensures
        codec.decode(text) is Ok,
{
    let pad = codec.pad.ch();
    let parts = chunks(text, pad);
    lemma_chunks_shape(text, pad);
    assert forall|c: int| 0 <= c < parts.len() implies codec.decode_single(
        #[trigger] parts[c],
    ) is Ok by {
        let chunk = parts[c];
        assert forall|p: int| !#[trigger] is_cut(chunk, pad, p) by {
            assert(!is_cut(parts[c], pad, p));
        }
        assert forall|k: int| 0 <= k < chunk.len() implies known(codec, #[trigger] chunk[k]) by {
            assert(text.contains(parts[c][k]));
            let at = choose|at: int| 0 <= at < text.len() && text[at] == chunk[k];
            assert(known(codec, text[at]));
        }
        lemma_chunk_decodes(codec, chunk);
    }
    lemma_chunks_decode(codec, parts);
}

/// Invalid input reporting: where a character of a text is neither in the
/// alphabet nor the padding character, and all before it are one or the
/// other, decoding fails, and the error names that character and its place
/// in its chunk.
pub proof fn invalid_character_reported(codec: Codec, text: Seq<char>, i: int)
    requires
        codec.wf(),
        0 <= i < text.len(),
        !known(codec, text[i]),
        forall|j: int| 0 <= j < i ==> known(codec, #[trigger] text[j]),
    ensures
        codec.decode(text) == Err::<Seq<u8>, (nat, char)>(
            ((i - chunk_start(text, codec.pad.ch(), i)) as nat, text[i]),
        ),
{
    let pad = codec.pad.ch();
    let start = chunk_start(text, pad, i);
    lemma_chunk_start(text, pad, i);
    let head = text.take(start);
    let rest = text.skip(start);
    let at = i - start;
    assert(rest[at] == text[i]);
    assert forall|j: int| 0 <= j < at implies rest[j] != pad && codec.alphabet.contains(
        #[trigger] rest[j],
    ) by {
        assert(rest[j] == text[start + j]);
        assert(known(codec, text[start + j]));
    }
    lemma_first_chunk(rest, pad, at);
    let first = chunks(rest, pad)[0];
    assert forall|j: int| 0 <= j < at implies codec.alphabet.contains(#[trigger] first[j]) by {
        assert(first[j] == rest[j]);
    }
    lemma_invalid_in_chunk(codec, first, at);
    let parts = chunks(text, pad);
    if start == 0 {
        assert(rest =~= text);
        assert(parts.take(1) =~= seq![first]);
        assert(seq![first].drop_last() =~= Seq::<Seq<char>>::empty());
        assert(codec.decode_chunks(seq![first].drop_last()) == Ok::<Seq<u8>, (nat, char)>(
            Seq::empty(),
        ));
        assert(codec.decode_chunks(seq![first]) == codec.decode_single(first));
        codec.lemma_decode_chunks_err(parts, 1);
    } else {
        assert(head + rest =~= text);
        lemma_chunks_of_two(head, rest, pad);
        assert forall|j: int| 0 <= j < head.len() implies known(codec, #[trigger] head[j]) by {
            assert(head[j] == text[j]);
        }
        lemma_known_text_decodes(codec, head);
        let before = chunks(head, pad);
        let through = parts.take(before.len() as int + 1);
        assert(through.drop_last() =~= before);
        assert(through.last() == first);
        assert(codec.decode_chunks(through) == codec.decode_single(first));
        codec.lemma_decode_chunks_err(parts, before.len() as int + 1);
    }
}

/// The first place of a text at which a character stands that is not
/// known, given one such place.
proof fn lemma_first_unknown(codec: Codec, text: Seq<char>, j: int) -> (i: int)
    requires
        0 <= j < text.len(),
        !known(codec, text[j]),
    ensures
        0 <= i <= j,
        !known(codec, text[i]),
        forall|m: int| 0 <= m < i ==> known(codec, #[trigger] text[m]),
    decreases j,
{
    if exists|m: int| 0 <= m < j && !known(codec, #[trigger] text[m]) {
        let m = choose|m: int| 0 <= m < j && !known(codec, #[trigger] text[m]);
        lemma_first_unknown(codec, text, m)
    } else {
        j
    }
}

/// When decoding succeeds: just where every character of the text is one
/// of the alphabet or the padding character.
pub proof fn decoding_succeeds(codec: Codec, text: Seq<char>)
    requires
        codec.wf(),
    ensures
        codec.decode(text) is Ok <==> forall|j: int|
            0 <= j < text.len() ==> known(codec, #[trigger] text[j]),
{
    if forall|j: int| 0 <= j < text.len() ==> known(codec, #[trigger] text[j]) {
        lemma_known_text_decodes(codec, text);
    } else {
        let j = choose|j: int| 0 <= j < text.len() && !known(codec, #[trigger] text[j]);
        let i = lemma_first_unknown(codec, text, j);
        invalid_character_reported(codec, text, i);
    }
}

/// Invalid input reporting, in one chunk: the error names the first
/// character before the padding that is not in the alphabet, and its place
/// in the chunk.
pub proof fn lemma_invalid_in_chunk(codec: Codec, chunk: Seq<char>, i: int)
    requires
        0 <= i < chunk.len(),
        !codec.alphabet.contains(chunk[i]),
        chunk[i] != codec.pad.ch(),
        forall|j: int| 0 <= j < i ==> codec.alphabet.contains(#[trigger] chunk[j]),
    ensures
        codec.decode_single(chunk) == Err::<Seq<u8>, (nat, char)>((i as nat, chunk[i])),
{
    let pad = codec.pad.ch();
    lemma_unpadded_len_covers(chunk, pad, i);
    let n = unpadded_len(chunk, pad);
    let unpadded = chunk.take(n as int);
    assert forall|j: int| 0 <= j < i implies codec.alphabet.contains(#[trigger] unpadded[j]) by {
        assert(unpadded[j] == chunk[j]);
    }
    lemma_first_invalid_at(codec.alphabet, unpadded, i);
}

/// Where the padding of `nbytes` bytes is empty, their symbols take as many
/// bits as the bytes have, and more bytes after them are padded as if they
/// stood alone.
pub proof fn lemma_aligned(codec: Codec, nbytes: nat, more: nat)
    requires
        codec.wf(),
        codec.pad_len(nbytes) == 0,
    ensures
        (nbytes * 8) % codec.bitcount() == 0,
        codec.pad_len(nbytes + more) == codec.pad_len(more),
        repack_len(nbytes + more, 8, codec.bitcount()) == repack_len(nbytes, 8, codec.bitcount())
            + repack_len(more, 8, codec.bitcount()),
{
    lemma_bitcount(codec);
    lemma_counts(codec, nbytes);
    let k = codec.bitcount();
    let s1 = repack_len(nbytes, 8, k) as int;
    let s2 = repack_len(more, 8, k) as int;
    let s = repack_len(nbytes + more, 8, k) as int;
    lemma_round_up((nbytes * 8) as int, k as int);
    lemma_round_up((more * 8) as int, k as int);
    lemma_round_up(((nbytes + more) * 8) as int, k as int);
    assert(s1 * k == nbytes * 8);
    assert((s1 + s2) * k == s1 * k + s2 * k) by (nonlinear_arith);
    assert(s == s1 + s2) by {
        if s < s1 + s2 {
            assert(s * k <= (s1 + s2 - 1) * k) by (nonlinear_arith)
                requires
                    s <= s1 + s2 - 1,
                    k >= 1,
            ;
            assert((s1 + s2 - 1) * k == (s1 + s2) * k - k) by (nonlinear_arith);
        }
        if s > s1 + s2 {
            assert(s * k >= (s1 + s2 + 1) * k) by (nonlinear_arith)
                requires
                    s >= s1 + s2 + 1,
                    k >= 1,
            ;
            assert((s1 + s2 + 1) * k == (s1 + s2) * k + k) by (nonlinear_arith);
        }
    }
    match codec.pad {
        PadType::BlockPad(_) => {
            lemma_block_aligned(k, s1 as nat);
            let block = block_chars(k) as int;
            vstd::arithmetic::div_mod::lemma_mod_adds(s1, s2, block);
            vstd::arithmetic::div_mod::lemma_add_mod_noop(s1, s2, block);
            vstd::arithmetic::div_mod::lemma_mod_twice(s2, block);
            assert((s1 + s2) % block == s2 % block);
        },
        PadType::DropPad(_) => {},
    }
}

/// Where the padding of the first bytes is empty, encoding them and more
/// bytes together gives the one text after the other.
pub proof fn lemma_encode_aligned(codec: Codec, b1: Seq<u8>, b2: Seq<u8>)
    requires
        codec.wf(),
        codec.pad_len(b1.len()) == 0,
    ensures
        codec.encode(b1 + b2) == codec.encode(b1) + codec.encode(b2),
{
    lemma_bitcount(codec);
    lemma_aligned(codec, b1.len(), b2.len());
    let k = codec.bitcount();
    let s1 = b1.map_values(|b: u8| b as u32);
    let s2 = b2.map_values(|b: u8| b as u32);
    assert((b1 + b2).map_values(|b: u8| b as u32) =~= s1 + s2);
    lemma_repack_concat(s1, s2, 8, k);
    assert(codec.symbols(b1 + b2) == codec.symbols(b1) + codec.symbols(b2));
    assert(codec.encode(b1 + b2) =~= codec.encode(b1) + codec.encode(b2));
}

/// Concatenation: two encoded texts, one after the other, decode to the
/// bytes of the first followed by the bytes of the second.
pub proof fn concatenation(codec: Codec, b1: Seq<u8>, b2: Seq<u8>)
    requires
        codec.wf(),
    ensures
        codec.decode(codec.encode(b1) + codec.encode(b2)) == Ok::<Seq<u8>, (nat, char)>(b1 + b2),
{
    let pad = codec.pad.ch();
    let t1 = codec.encode(b1);
    let t2 = codec.encode(b2);
    lemma_encoded_shape(codec, b1);
    lemma_encoded_shape(codec, b2);
    lemma_counts(codec, b1.len());
    lemma_bitcount(codec);
    if codec.pad_len(b1.len()) == 0 {
        lemma_encode_aligned(codec, b1, b2);
        round_trip(codec, b1 + b2);
    } else if b2.len() == 0 {
        empty_input(codec);
        assert(b2 =~= Seq::<u8>::empty());
        assert(t1 + t2 =~= t1);
        assert(b1 + b2 =~= b1);
        round_trip(codec, b1);
    } else {
        let k = codec.bitcount();
        lemma_round_up((b2.len() * 8) as int, k as int);
        assert(codec.symbols(b2).len() > 0) by {
            if repack_len(b2.len(), 8, k) == 0 {
                assert(0int * (k as int) == 0) by (nonlinear_arith);
            }
        }
        assert(t1.last() == pad);
        assert(t2[0] == symbol_chars(codec, b2)[0]);
        lemma_chunks_of_two(t1, t2, pad);
        lemma_decode_single_of_encode(codec, b1);
        lemma_decode_single_of_encode(codec, b2);
        let parts = seq![t1, t2];
        assert(chunks(t1 + t2, pad) =~= parts);
        assert(parts.drop_last() =~= seq![t1]);
        assert(seq![t1].drop_last() =~= Seq::<Seq<char>>::empty());
        assert(codec.decode_chunks(seq![t1].drop_last()) == Ok::<Seq<u8>, (nat, char)>(
            Seq::empty(),
        ));
        assert(Seq::<u8>::empty() + b1 =~= b1);
        assert(codec.decode_chunks(seq![t1]) == Ok::<Seq<u8>, (nat, char)>(b1));
    }
}

/// With block padding, the byte that a chunk loses is the byte that was
/// filled up with zero bits: what is left are the whole bytes of its
/// symbols.
pub proof fn block_pad_keeps_whole_bytes(codec: Codec, indices: Seq<u32>, pads: nat)
    requires
        codec.wf(),
        codec.pad is BlockPad,
    ensures
        codec.bytes_of(
            indices,
            spec_drop_count(codec.pad, codec.bitcount(), indices.len(), pads),
        ) == repack_whole(indices, codec.bitcount(), 8).map_values(|v: u32| v as u8),
{
    lemma_bitcount(codec);
    let k = codec.bitcount();
    let n = indices.len();
    let bits = (n * k) as int;
    assert(bits >= 0) by (nonlinear_arith)
        requires
            bits == n * k,
    ;
    lemma_block_aligned(k, n);
    let drop = spec_drop_count(codec.pad, k, n, pads);
    let all = repack(indices, k, 8);
    let whole = repack_whole(indices, k, 8);
    assert(all.len() == (bits + 7) / 8);
    assert(whole.len() == bits / 8);
    assert(all.len() - drop == whole.len());
    assert(all.take(whole.len() as int) =~= whole);
}

/// Of each encoding of the registry: it decodes what it encoded; two
/// encoded texts, one after the other, decode to the bytes of the one and
/// then the bytes of the other; and the empty text stands for no bytes.
pub proof fn registered_encodings(i: int, b1: Seq<u8>, b2: Seq<u8>)
    requires
        0 <= i < registry().len(),
    ensures
        ({
            let e = registry()[i].codec;
            &&& e.wf()
            &&& e.decode(e.encode(b1)) == Ok::<Seq<u8>, (nat, char)>(b1)
            &&& e.decode(e.encode(b1) + e.encode(b2)) == Ok::<Seq<u8>, (nat, char)>(b1 + b2)
            &&& e.encode(Seq::<u8>::empty()) == Seq::<char>::empty()
            &&& e.decode(Seq::<char>::empty()) == Ok::<Seq<u8>, (nat, char)>(Seq::<u8>::empty())
        }),
{
    lemma_registry();
    let e = registry()[i].codec;
    round_trip(e, b1);
    concatenation(e, b1, b2);
    empty_input(e);
}

} // verus!
