//! What an encoding is, as mathematics: an alphabet, a way of padding, and
//! the two functions between byte sequences and texts that they define.

use crate::bits::repack;
use crate::padding::{spec_drop_count, spec_pad_len, PadType};
use vstd::arithmetic::power2::{lemma_pow2_pos, lemma_pow2_unfold, pow2};
use vstd::prelude::*;

verus! {

/// The integer part of the binary logarithm of `n`; 0 for `n < 2`.
pub open spec fn log2_floor(n: nat) -> nat
    decreases n,
{
    if n < 2 {
        0
    } else {
        1 + log2_floor(n / 2)
    }
}

/// `log2_floor(n)` is the largest `k` with `2^k <= n`.
pub proof fn lemma_log2_floor(n: nat)
    requires
        n >= 1,
    ensures
        pow2(log2_floor(n)) <= n < pow2(log2_floor(n) + 1),
    decreases n,
{
    vstd::arithmetic::power2::lemma2_to64();
    if n >= 2 {
        lemma_log2_floor(n / 2);
        lemma_pow2_unfold(log2_floor(n / 2) + 1);
        lemma_pow2_unfold(log2_floor(n / 2) + 2);
    }
}

/// The only `k` with `2^k <= n < 2^(k+1)` is `log2_floor(n)`.
pub proof fn lemma_log2_floor_unique(n: nat, k: nat)
    requires
        pow2(k) <= n < pow2(k + 1),
    ensures
        log2_floor(n) == k,
    decreases k,
{
    vstd::arithmetic::power2::lemma2_to64();
    lemma_pow2_pos(k);
    if k == 0 {
    } else {
        lemma_pow2_unfold(k);
        lemma_pow2_unfold(k + 1);
        lemma_log2_floor_unique(n / 2, (k - 1) as nat);
    }
}

/// The length of `s` without the padding characters at its end.
pub open spec fn unpadded_len(s: Seq<char>, pad: char) -> nat
    decreases s.len(),
{
    if s.len() > 0 && s.last() == pad {
        unpadded_len(s.drop_last(), pad)
    } else {
        s.len()
    }
}

/// The index of the first character of `s` that `alphabet` does not hold.
pub open spec fn first_invalid(alphabet: Seq<char>, s: Seq<char>) -> Option<nat>
    decreases s.len(),
{
    if s.len() == 0 {
        None
    } else {
        match first_invalid(alphabet, s.drop_last()) {
            Some(i) => Some(i),
            None => if alphabet.contains(s.last()) {
                None
            } else {
                Some((s.len() - 1) as nat)
            },
        }
    }
}

/// The chunks of a text. A chunk ends where a run of padding characters is
/// followed by another character: that character begins the next chunk.
/// Laid end to end the chunks are the text; a text without such a place,
/// the empty one too, is one chunk.
pub open spec fn chunks(text: Seq<char>, pad: char) -> Seq<Seq<char>>
    decreases text.len(),
{
    if text.len() < 2 {
        seq![text]
    } else {
        let before = chunks(text.drop_last(), pad);
        if text[text.len() - 2] == pad && text.last() != pad {
            before.push(seq![text.last()])
        } else {
            before.drop_last().push(before.last().push(text.last()))
        }
    }
}

/// An encoding, as far as its results go: the alphabet in its order, and the
/// padding.
pub struct Codec {
    pub alphabet: Seq<char>,
    pub pad: PadType,
}

impl Codec {
    /// How many bits a symbol holds: the largest `k` with `2^k` no more
    /// than the size of the alphabet.
    pub open spec fn bitcount(self) -> nat {
        log2_floor(self.alphabet.len())
    }

    /// The alphabet names each of its characters once and holds two of them
    /// at least; the padding character is none of them; indices fit the
    /// symbol type; and block padding is used only where a symbol is no
    /// wider than a byte.
    pub open spec fn wf(self) -> bool {
        &&& self.alphabet.no_duplicates()
        &&& 2 <= self.alphabet.len() <= u32::MAX
        &&& !self.alphabet.contains(self.pad.ch())
        &&& (self.pad is BlockPad ==> self.bitcount() <= 8)
    }

    /// The symbols that stand for `bytes`: their bits, cut anew every
    /// `bitcount` bits, with zero bits filling up the last symbol.
    pub open spec fn symbols(self, bytes: Seq<u8>) -> Seq<u32> {
        repack(bytes.map_values(|b: u8| b as u32), 8, self.bitcount())
    }

    /// How many padding characters end the encoding of `nbytes` bytes.
    pub open spec fn pad_len(self, nbytes: nat) -> nat {
        spec_pad_len(self.pad, self.bitcount(), nbytes)
    }

    /// The text that stands for `bytes`: the character of each symbol, then
    /// the padding.
    pub open spec fn encode(self, bytes: Seq<u8>) -> Seq<char> {
        self.symbols(bytes).map_values(|v: u32| self.alphabet[v as int]) + Seq::new(
            self.pad_len(bytes.len()),
            |i: int| self.pad.ch(),
        )
    }

    /// The index of each character of `s` in the alphabet.
    pub open spec fn indices(self, s: Seq<char>) -> Seq<u32> {
        s.map_values(|c: char| self.alphabet.index_of_first(c).unwrap() as u32)
    }

    /// What the bits of the symbols `indices` give as bytes, the last byte
    /// filled up with zero bits, less the `drop` bytes at the end (less all
    /// of them where there are no more).
    pub open spec fn bytes_of(self, indices: Seq<u32>, drop: nat) -> Seq<u8> {
        let bytes = repack(indices, self.bitcount(), 8);
        let keep = if drop <= bytes.len() {
            bytes.len() - drop
        } else {
            0
        };
        bytes.take(keep).map_values(|v: u32| v as u8)
    }

    /// What one chunk decodes to: the bytes that its characters before the
    /// padding stand for, or the place and the character where the first of
    /// them is not in the alphabet.
    pub open spec fn decode_single(self, chunk: Seq<char>) -> Result<Seq<u8>, (nat, char)> {
        let n = unpadded_len(chunk, self.pad.ch());
        let unpadded = chunk.take(n as int);
        match first_invalid(self.alphabet, unpadded) {
            Some(i) => Err((i, unpadded[i as int])),
            None => Ok(
                self.bytes_of(
                    self.indices(unpadded),
                    spec_drop_count(self.pad, self.bitcount(), n, (chunk.len() - n) as nat),
                ),
            ),
        }
    }

    /// What chunks decode to, one after the other. The first chunk that
    /// fails decides the error.
    pub open spec fn decode_chunks(self, parts: Seq<Seq<char>>) -> Result<Seq<u8>, (nat, char)>
        decreases parts.len(),
    {
        if parts.len() == 0 {
            Ok(Seq::empty())
        } else {
            match self.decode_chunks(parts.drop_last()) {
                Err(e) => Err(e),
                Ok(head) => match self.decode_single(parts.last()) {
                    Err(e) => Err(e),
                    Ok(tail) => Ok(head + tail),
                },
            }
        }
    }

    /// What a text decodes to.
    pub open spec fn decode(self, text: Seq<char>) -> Result<Seq<u8>, (nat, char)> {
        self.decode_chunks(chunks(text, self.pad.ch()))
    }
}

/// Where the characters after the first `n` are all padding and the one
/// before them is not, `n` is the length without the padding.
pub proof fn lemma_unpadded_len(s: Seq<char>, pad: char, n: int)
    requires
        0 <= n <= s.len(),
        forall|j: int| n <= j < s.len() ==> s[j] == pad,
        n > 0 ==> s[n - 1] != pad,
    ensures
        unpadded_len(s, pad) == n,
    decreases s.len() - n,
{
    if n < s.len() {
        lemma_unpadded_len(s.drop_last(), pad, n);
    }
}

/// Where the character at `i` is not in the alphabet and all before it
/// are, `i` is the first invalid place.
pub proof fn lemma_first_invalid_at(alphabet: Seq<char>, s: Seq<char>, i: int)
    requires
        0 <= i < s.len(),
        !alphabet.contains(s[i]),
        forall|j: int| 0 <= j < i ==> alphabet.contains(#[trigger] s[j]),
    ensures
        first_invalid(alphabet, s) == Some(i as nat),
    decreases s.len(),
{
    if i < s.len() - 1 {
        lemma_first_invalid_at(alphabet, s.drop_last(), i);
    } else {
        lemma_all_valid(alphabet, s.drop_last());
    }
}

/// A text of characters of the alphabet has no invalid place.
pub proof fn lemma_all_valid(alphabet: Seq<char>, s: Seq<char>)
    requires
        forall|j: int| 0 <= j < s.len() ==> alphabet.contains(#[trigger] s[j]),
    ensures
        first_invalid(alphabet, s) is None,
    decreases s.len(),
{
    if s.len() > 0 {
        lemma_all_valid(alphabet, s.drop_last());
    }
}

impl Codec {
    /// Once a chunk has failed, the chunks after it change nothing.
    pub proof fn lemma_decode_chunks_err(self, parts: Seq<Seq<char>>, j: int)
        requires
            0 <= j <= parts.len(),
            self.decode_chunks(parts.take(j)) is Err,
        ensures
            self.decode_chunks(parts) == self.decode_chunks(parts.take(j)),
        decreases parts.len() - j,
    {
        if j == parts.len() {
            assert(parts.take(j) =~= parts);
        } else {
            assert(parts.take(j + 1).drop_last() =~= parts.take(j));
            self.lemma_decode_chunks_err(parts, j + 1);
        }
    }
}

/// At `p` a chunk ends and the next begins: a padding character stands
/// before `p`, and another character at `p`.
pub open spec fn is_cut(text: Seq<char>, pad: char, p: int) -> bool {
    0 < p < text.len() && text[p - 1] == pad && text[p] != pad
}

/// Where the chunk begins that holds place `i` of the text: at the last
/// place up to `i` where a chunk ends and the next begins, or at the start
/// of the text.
pub open spec fn chunk_start(text: Seq<char>, pad: char, i: int) -> int
    decreases i,
{
    if i <= 0 {
        0
    } else if is_cut(text, pad, i) {
        i
    } else {
        chunk_start(text, pad, i - 1)
    }
}

/// From the start of its chunk up to a character that is not padding
/// there is no padding.
pub proof fn lemma_chunk_start(text: Seq<char>, pad: char, i: int)
    requires
        0 <= i < text.len(),
        text[i] != pad,
    ensures
        0 <= chunk_start(text, pad, i) <= i,
        chunk_start(text, pad, i) == 0 || is_cut(text, pad, chunk_start(text, pad, i)),
        forall|j: int| chunk_start(text, pad, i) <= j <= i ==> text[j] != pad,
    decreases i,
{
    if i > 0 && !is_cut(text, pad, i) {
        lemma_chunk_start(text, pad, i - 1);
    }
}

/// The shape of the chunks: no chunk ends inside a chunk, so that padding
/// stands only at the end of each; every character of a chunk is one of the
/// text; and the last chunk ends as the text ends.
pub proof fn lemma_chunks_shape(text: Seq<char>, pad: char)
    ensures
        chunks(text, pad).len() >= 1,
        text.len() > 0 ==> chunks(text, pad).last().len() > 0 && chunks(text, pad).last().last()
            == text.last(),
        forall|c: int, p: int|
            #![trigger is_cut(chunks(text, pad)[c], pad, p)]
            0 <= c < chunks(text, pad).len() ==> !is_cut(chunks(text, pad)[c], pad, p),
        forall|c: int, k: int|
            #![trigger chunks(text, pad)[c][k]]
            0 <= c < chunks(text, pad).len() && 0 <= k < chunks(text, pad)[c].len()
                ==> text.contains(chunks(text, pad)[c][k]),
    decreases text.len(),
{
    let parts = chunks(text, pad);
    if text.len() < 2 {
        assert(parts =~= seq![text]);
        assert forall|c: int, k: int|
            #![trigger parts[c][k]]
            0 <= c < parts.len() && 0 <= k < parts[c].len() implies text.contains(parts[c][k]) by {
            assert(text[k] == parts[c][k]);
        }
    } else {
        let shorter = text.drop_last();
        let before = chunks(shorter, pad);
        let last = text.last();
        lemma_chunks_shape(shorter, pad);
        assert(shorter.last() == text[text.len() - 2]);
        if text[text.len() - 2] == pad && last != pad {
            assert(parts == before.push(seq![last]));
            assert forall|c: int, p: int|
                #![trigger is_cut(parts[c], pad, p)]
                0 <= c < parts.len() implies !is_cut(parts[c], pad, p) by {
                if c < before.len() {
                    assert(parts[c] == before[c]);
                    assert(!is_cut(before[c], pad, p));
                }
            }
            assert forall|c: int, k: int|
                #![trigger parts[c][k]]
                0 <= c < parts.len() && 0 <= k < parts[c].len() implies text.contains(
                parts[c][k],
            ) by {
                if c < before.len() {
                    assert(parts[c] == before[c]);
                    assert(shorter.contains(before[c][k]));
                    let at = choose|at: int| 0 <= at < shorter.len() && shorter[at] == before[c][k];
                    assert(text[at] == parts[c][k]);
                } else {
                    assert(text[text.len() - 1] == parts[c][k]);
                }
            }
        } else {
            let grown = before.last().push(last);
            assert(parts == before.drop_last().push(grown));
            assert forall|c: int, p: int|
                #![trigger is_cut(parts[c], pad, p)]
                0 <= c < parts.len() implies !is_cut(parts[c], pad, p) by {
                if c < before.len() - 1 {
                    assert(parts[c] == before[c]);
                    assert(!is_cut(before[c], pad, p));
                } else {
                    assert(parts[c] == grown);
                    assert(!is_cut(before[before.len() - 1], pad, p));
                    if 0 < p < grown.len() - 1 {
                        assert(grown[p - 1] == before.last()[p - 1]);
                        assert(grown[p] == before.last()[p]);
                    }
                }
            }
            assert forall|c: int, k: int|
                #![trigger parts[c][k]]
                0 <= c < parts.len() && 0 <= k < parts[c].len() implies text.contains(
                parts[c][k],
            ) by {
                if c < before.len() - 1 || k < before.last().len() {
                    assert(parts[c][k] == before[c][k]);
                    assert(shorter.contains(before[c][k]));
                    let at = choose|at: int| 0 <= at < shorter.len() && shorter[at] == before[c][k];
                    assert(text[at] == parts[c][k]);
                } else {
                    assert(text[text.len() - 1] == parts[c][k]);
                }
            }
        }
    }
}

/// Before the padding at its end, a text in which no chunk ends holds no
/// padding.
pub proof fn lemma_unpadded_shape(s: Seq<char>, pad: char, j: int)
    requires
        forall|p: int| !#[trigger] is_cut(s, pad, p),
        0 <= j < unpadded_len(s, pad),
    ensures
        unpadded_len(s, pad) <= s.len(),
        s[j] != pad,
    decreases s.len(), s.len() - j,
{
    if s.len() > 0 && s.last() == pad {
        let shorter = s.drop_last();
        assert forall|p: int| !#[trigger] is_cut(shorter, pad, p) by {
            assert(!is_cut(s, pad, p));
        }
        lemma_unpadded_shape(shorter, pad, j);
    } else if j < s.len() - 1 {
        lemma_unpadded_shape(s, pad, j + 1);
        assert(!is_cut(s, pad, j + 1));
    }
}

/// One text after the other.
pub open spec fn concat(parts: Seq<Seq<char>>) -> Seq<char>
    decreases parts.len(),
{
    if parts.len() == 0 {
        Seq::empty()
    } else {
        concat(parts.drop_last()) + parts.last()
    }
}

/// Every text has a chunk, and its chunks, laid end to end, are the text.
pub proof fn lemma_chunks_concat_to_text(text: Seq<char>, pad: char)
    ensures
        chunks(text, pad).len() >= 1,
        concat(chunks(text, pad)) == text,
    decreases text.len(),
{
    if text.len() < 2 {
        lemma_concat_one(text);
    } else {
        let before = chunks(text.drop_last(), pad);
        lemma_chunks_concat_to_text(text.drop_last(), pad);
        let last = text.last();
        if text[text.len() - 2] == pad && last != pad {
            assert(before.push(seq![last]).drop_last() =~= before);
            assert(concat(before) + seq![last] =~= text);
        } else {
            let grown = before.drop_last().push(before.last().push(last));
            assert(grown.drop_last() =~= before.drop_last());
            assert(concat(before) == concat(before.drop_last()) + before.last());
            assert(concat(grown) =~= concat(before).push(last));
            assert(concat(before).push(last) =~= text);
        }
    }
}

/// A text in which no chunk ends is one chunk.
pub proof fn lemma_chunks_single(text: Seq<char>, pad: char)
    requires
        forall|p: int| !#[trigger] is_cut(text, pad, p),
    ensures
        chunks(text, pad) == seq![text],
    decreases text.len(),
{
    if text.len() >= 2 {
        let shorter = text.drop_last();
        assert forall|p: int| !#[trigger] is_cut(shorter, pad, p) by {
            assert(!is_cut(text, pad, p));
        }
        lemma_chunks_single(shorter, pad);
        assert(!is_cut(text, pad, text.len() - 1));
        assert(shorter.push(text.last()) =~= text);
        assert(seq![shorter].drop_last().push(text) =~= seq![text]);
    }
}

/// Where the first of two texts ends in padding and the second begins
/// with another character, the chunks of the two together are the chunks
/// of the first and then those of the second.
pub proof fn lemma_chunks_of_two(a: Seq<char>, b: Seq<char>, pad: char)
    requires
        a.len() > 0,
        a.last() == pad,
        b.len() > 0,
        b[0] != pad,
    ensures
        chunks(a + b, pad) == chunks(a, pad) + chunks(b, pad),
    decreases b.len(),
{
    let ab = a + b;
    let last = b.last();
    lemma_chunks_concat_to_text(a, pad);
    if b.len() == 1 {
        assert(ab.drop_last() =~= a);
        assert(seq![last] =~= b);
        assert(chunks(a, pad).push(b) =~= chunks(a, pad) + seq![b]);
    } else {
        let shorter = b.drop_last();
        assert(ab.drop_last() =~= a + shorter);
        lemma_chunks_of_two(a, shorter, pad);
        lemma_chunks_concat_to_text(shorter, pad);
        let before = chunks(a, pad) + chunks(shorter, pad);
        assert(ab[ab.len() - 2] == b[b.len() - 2]);
        if b[b.len() - 2] == pad && last != pad {
            assert(chunks(ab, pad) =~= chunks(a, pad) + chunks(b, pad));
        } else {
            assert(before.drop_last() =~= chunks(a, pad) + chunks(shorter, pad).drop_last());
            assert(chunks(ab, pad) =~= chunks(a, pad) + chunks(b, pad));
        }
    }
}

/// The first of some texts is the head of all of them laid end to end.
pub proof fn lemma_concat_first(parts: Seq<Seq<char>>)
    requires
        parts.len() >= 1,
    ensures
        parts[0].is_prefix_of(concat(parts)),
    decreases parts.len(),
{
    if parts.len() == 1 {
        assert(parts =~= seq![parts[0]]);
        lemma_concat_one(parts[0]);
    } else {
        lemma_concat_first(parts.drop_last());
    }
}

/// One text, laid end to end, is that text.
pub proof fn lemma_concat_one(text: Seq<char>)
    ensures
        concat(seq![text]) == text,
{
    assert(seq![text].drop_last() =~= Seq::<Seq<char>>::empty());
    assert(concat(seq![text].drop_last()) =~= Seq::<char>::empty());
    assert(concat(seq![text]) =~= text);
}

/// The first chunk is the head of the text, and it reaches beyond every
/// place before which no padding stands.
pub proof fn lemma_first_chunk(text: Seq<char>, pad: char, i: int)
    requires
        0 <= i < text.len(),
        forall|j: int| 0 <= j < i ==> text[j] != pad,
    ensures
        chunks(text, pad).len() >= 1,
        chunks(text, pad)[0].len() > i,
        chunks(text, pad)[0].is_prefix_of(text),
    decreases text.len(),
{
    lemma_chunks_concat_to_text(text, pad);
    lemma_concat_first(chunks(text, pad));
    if text.len() == i + 1 {
        assert forall|p: int| !#[trigger] is_cut(text, pad, p) by {}
        lemma_chunks_single(text, pad);
    } else {
        let shorter = text.drop_last();
        lemma_first_chunk(shorter, pad, i);
    }
}

/// A character that is not padding is not among the padding that is
/// stripped from the end.
pub proof fn lemma_unpadded_len_covers(s: Seq<char>, pad: char, i: int)
    requires
        0 <= i < s.len(),
        s[i] != pad,
    ensures
        i < unpadded_len(s, pad) <= s.len(),
    decreases s.len(),
{
    if s.last() == pad {
        lemma_unpadded_len_covers(s.drop_last(), pad, i);
    }
}

} // verus!
