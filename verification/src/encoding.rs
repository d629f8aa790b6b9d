//! Encodings: an alphabet and a way of padding, by name, and the two
//! directions between bytes and text.

use crate::bits::{lemma_repack_index, repack};
use crate::charspace::CharSpace;
use crate::codec::{chunks, lemma_log2_floor, lemma_log2_floor_unique, unpadded_len, Codec};
use crate::encoding::config::{encodings, registry, Entry};
use crate::error::{DecodeError, Error};
use crate::padding::{
    div_ceil, lcm, lemma_block_pad_len, lemma_drop_pad_len, lemma_multiple_with_8,
    spec_drop_count, PadType,
};
use crate::repack::{uVar, RepackIterator};
use vstd::arithmetic::power2::pow2;
use vstd::prelude::*;

pub mod config;

verus! {

/// `String::push` appends the character to the end of the string.
pub assume_specification[ String::push ](s: &mut String, c: char)
    ensures
        final(s)@ == old(s)@.push(c),
;

/// What `str::trim` gives for a text: the text without the white space at
/// its two ends.
pub uninterp spec fn trimmed(s: Seq<char>) -> Seq<char>;

/// What `str::to_lowercase` gives for a text: the text in lower case.
pub uninterp spec fn lowercased(s: Seq<char>) -> Seq<char>;

/// `str::trim` gives the part of the text that is left without the white
/// space at its two ends; the result depends on the text alone.
pub assume_specification[ str::trim ](s: &str) -> (r: &str)
    ensures
        r@ == trimmed(s@),
;

/// `str::to_lowercase` gives the text in lower case, as a new string; the
/// result depends on the text alone.
pub assume_specification[ str::to_lowercase ](s: &str) -> (r: String)
    ensures
        r@ == lowercased(s@),
;

/// An alphabet with its way of padding, under a short and a full name.
pub struct Encoding {
    pub name: &'static str,
    pub long_name: &'static str,
    char_space: CharSpace,
    pad_char: PadType,
}

impl View for Encoding {
    type V = Codec;

    /// The alphabet and the padding of the encoding.
    closed spec fn view(&self) -> Codec {
        Codec { alphabet: self.char_space@, pad: self.pad_char }
    }
}

impl Encoding {
    /// The encoding is one that can be used: its alphabet can be walked
    /// through, and alphabet and padding go together.
    pub closed spec fn wf(&self) -> bool {
        self.char_space.wf() && self@.wf()
    }

    /// An encoding that can be used has a well-formed alphabet and padding:
    /// what is proved of such a pair holds of it.
    pub proof fn lemma_wf(&self)
        requires
            self.wf(),
        ensures
            self@.wf(),
    {
    }

    /// The name by which the encoding is found.
    pub closed spec fn spec_name(&self) -> Seq<char> {
        self.name@
    }

    /// The name of the encoding in full.
    pub closed spec fn spec_long_name(&self) -> Seq<char> {
        self.long_name@
    }

    /// The name by which the encoding is found.
    pub fn short_name(&self) -> (n: &'static str)
        ensures
            n@ == self.spec_name(),
    {
        self.name
    }

    /// The name of the encoding in full.
    pub fn description(&self) -> (n: &'static str)
        ensures
            n@ == self.spec_long_name(),
    {
        self.long_name
    }

    /// How many bits one character of the alphabet stands for: the largest
    /// `k` with `2^k` characters in the alphabet.
    pub fn bitcount(&self) -> (k: u8)
        requires
            self.wf(),
        ensures
            k == self@.bitcount(),
            1 <= k <= 31,
    {
        let l = self.char_space.num_chars();
        let mut i: u8 = 0;
        proof {
            vstd::arithmetic::power2::lemma2_to64();
        }
        loop
            invariant
                2 <= l <= u32::MAX,
                i <= 31,
                pow2(i as nat) <= l,
                l == self@.alphabet.len(),
            decreases 32 - i,
        {
            proof {
                crate::bits::lemma_one_shl((i + 1) as u64);
                vstd::arithmetic::power2::lemma2_to64();
            }
            if (1u64 << ((i + 1) as u64)) > l as u64 {
                proof {
                    lemma_log2_floor_unique(l as nat, i as nat);
                    if i == 0 {
                        assert(pow2(1) == 2);
                    }
                }
                return i;
            }
            i += 1;
        }
    }

    /// How many padding chars should be added to the encoding?
    pub fn get_pad_len(&self, arr: &[u8]) -> (n: usize)
        requires
            self.wf(),
        ensures
            n == self@.pad_len(arr@.len()),
    {
        let ebc = self.bitcount() as u128;
        let nbytes = arr.len() as u128;
        if nbytes == 0 {
            proof {
                if self.pad_char is BlockPad {
                    lemma_block_pad_len(self.pad_char, ebc as nat, 0);
                } else {
                    lemma_drop_pad_len(self.pad_char, ebc as nat, 0);
                }
            }
            return 0;
        }
        match self.pad_char {
            PadType::BlockPad(_) => {
                proof {
                    lemma_multiple_with_8(ebc as nat);
                }
                let block_len = lcm(ebc as usize, 8) as u128;
                proof {
                    lemma_block_pad_len(self.pad_char, ebc as nat, nbytes as nat);
                }
                let last_bits = (nbytes * 8) % block_len;
                if last_bits == 0 {
                    return 0;
                }
                ((block_len - last_bits) / ebc) as usize
            },
            PadType::DropPad(_) => {
                proof {
                    lemma_drop_pad_len(self.pad_char, ebc as nat, nbytes as nat);
                }
                let inp_bitlen = nbytes * 8;
                let out_bitlen = div_ceil(inp_bitlen, ebc) * ebc;
                let extra = out_bitlen - inp_bitlen;
                div_ceil(extra, 8) as usize
            },
        }
    }

    /// The text that stands for the bytes: their bits, most significant
    /// first, cut into symbols of `bitcount` bits, each written as its
    /// character, and the padding behind them.
    pub fn encode(&self, bytes: &[u8]) -> (s: String)
        requires
            self.wf(),
        ensures
            s@ == self@.encode(bytes@),
    {
        let k = self.bitcount();
        let mut src: Vec<uVar> = Vec::new();
        let mut i: usize = 0;
        while i < bytes.len()
            invariant
                i <= bytes.len(),
                src@ == bytes@.take(i as int).map_values(|b: u8| b as u32),
            decreases bytes.len() - i,
        {
            src.push(bytes[i] as uVar);
            i += 1;
            proof {
                assert(src@ =~= bytes@.take(i as int).map_values(|b: u8| b as u32));
            }
        }
        proof {
            assert(bytes@.take(i as int) =~= bytes@);
            lemma_log2_floor(self@.alphabet.len());
        }
        let ghost syms = self@.symbols(bytes@);
        let ghost done: Seq<u32> = Seq::empty();
        let mut it = RepackIterator::new(src, 8, k);
        let mut s = String::new();
        loop
            invariant
                self.wf(),
                it.wf(),
                syms == repack(it.source(), 8, k as nat),
                it.in_width() == 8,
                it.out_width() == k,
                1 <= k <= 31,
                pow2(k as nat) <= self@.alphabet.len(),
                syms == done + it@,
                s@ == done.map_values(|v: u32| self@.alphabet[v as int]),
            ensures
                s@ == syms.map_values(|v: u32| self@.alphabet[v as int]),
            decreases it@.len(),
        {
            match it.next() {
                Some(x) => {
                    proof {
                        assert(syms[done.len() as int] == x);
                        lemma_repack_index(it.source(), 8, k as nat, done.len() as int);
                    }
                    let c = self.char_space.idx_to_char(x);
                    s.push(c);
                    proof {
                        done = done.push(x);
                        assert(syms =~= done + it@);
                        assert(s@ =~= done.map_values(|v: u32| self@.alphabet[v as int]));
                    }
                },
                None => {
                    proof {
                        assert(syms =~= done);
                    }
                    break ;
                },
            }
        }
        // Append padding chars
        let pad_len = self.get_pad_len(bytes);
        let pad: char = *self.pad_char;
        let ghost text = s@;
        let mut j: usize = 0;
        while j < pad_len
            invariant
                j <= pad_len,
                pad == self@.pad.ch(),
                s@ == text + Seq::new(j as nat, |i: int| self@.pad.ch()),
            decreases pad_len - j,
        {
            s.push(pad);
            j += 1;
            proof {
                assert(s@ =~= text + Seq::new(j as nat, |i: int| self@.pad.ch()));
            }
        }
        s
    }

    /// The bytes that the text stands for. The text may be several encoded
    /// texts, one behind the other. A character that is neither of the
    /// alphabet nor the padding is reported with its place in its chunk.
    pub fn decode(&self, text: &str) -> (r: Result<Vec<u8>, DecodeError>)
        requires
            self.wf(),
        ensures
            match r {
                Ok(bytes) => self@.decode(text@) == Ok::<Seq<u8>, (nat, char)>(bytes@),
                Err(e) => self@.decode(text@) == Err::<Seq<u8>, (nat, char)>(e@),
            },
    {
        let parts = self.deconcat(text);
        let ghost all = views(parts@);
        let mut acc: Vec<u8> = Vec::new();
        let mut i: usize = 0;
        while i < parts.len()
            invariant
                self.wf(),
                i <= parts.len(),
                all == views(parts@),
                all == chunks(text@, self@.pad.ch()),
                self@.decode_chunks(all.take(i as int)) == Ok::<Seq<u8>, (nat, char)>(acc@),
            decreases parts.len() - i,
        {
            proof {
                assert(all.take(i + 1).drop_last() =~= all.take(i as int));
                assert(all.take(i + 1).last() == parts@[i as int]@);
            }
            match self.decode_single(&parts[i]) {
                Ok(mut bytes) => {
                    acc.append(&mut bytes);
                },
                Err(e) => {
                    proof {
                        self@.lemma_decode_chunks_err(all, i + 1);
                    }
                    return Err(e);
                },
            }
            i += 1;
        }
        proof {
            assert(all.take(i as int) =~= all);
        }
        Ok(acc)
    }

    /// Separate a concatenated encoding into its individual parts
    pub fn deconcat(&self, text: &str) -> (parts: Vec<Vec<char>>)
        ensures
            views(parts@) == chunks(text@, self@.pad.ch()),
    {
        let pad: char = *self.pad_char;
        let mut acc: Vec<Vec<char>> = Vec::new();
        let mut cur: Vec<char> = Vec::new();
        let mut met = false;
        proof {
            assert(text@.take(0) =~= Seq::<char>::empty());
            assert(views(acc@).push(cur@) =~= seq![Seq::<char>::empty()]);
        }
        for c in it: text.chars()
            invariant
                it.seq() == text@,
                pad == self@.pad.ch(),
                met == (it.index() > 0 && text@[it.index() - 1] == pad),
                views(acc@).push(cur@) == chunks(text@.take(it.index() as int), pad),
        {
            let ghost i = it.index() as int;
            let ghost before = chunks(text@.take(i), pad);
            let ghost old_cur = cur@;
            proof {
                assert(text@.take(i + 1).drop_last() =~= text@.take(i));
                assert(before.drop_last() =~= views(acc@));
            }
            if met && c != pad {
                acc.push(cur);
                cur = Vec::new();
                cur.push(c);
                proof {
                    assert(views(acc@) =~= before);
                    assert(cur@ =~= seq![c]);
                }
            } else {
                cur.push(c);
                proof {
                    if i == 0 {
                        assert(text@.take(0) =~= Seq::<char>::empty());
                        assert(before =~= seq![Seq::<char>::empty()]);
                        assert(before.last() == old_cur);
                        assert(c == text@[0]);
                        assert(cur@ =~= text@.take(1));
                        assert(views(acc@) =~= Seq::<Seq<char>>::empty());
                        assert(views(acc@).push(cur@) =~= seq![text@.take(1)]);
                    }
                }
            }
            met = c == pad;
        }
        proof {
            assert(text@.take(text@.len() as int) =~= text@);
        }
        acc.push(cur);
        proof {
            assert(views(acc@) =~= chunks(text@, pad));
        }
        acc
    }

    /// Decode a non-concatenated string
    pub fn decode_single(&self, text: &Vec<char>) -> (r: Result<Vec<u8>, DecodeError>)
        requires
            self.wf(),
        ensures
            match r {
                Ok(bytes) => self@.decode_single(text@) == Ok::<Seq<u8>, (nat, char)>(bytes@),
                Err(e) => self@.decode_single(text@) == Err::<Seq<u8>, (nat, char)>(e@),
            },
    {
        let pad: char = *self.pad_char;
        let k = self.bitcount();
        let mut n: usize = text.len();
        while n > 0 && text[n - 1] == pad
            invariant
                n <= text.len(),
                forall|j: int| n <= j < text.len() ==> text@[j] == pad,
            decreases n,
        {
            n -= 1;
        }
        proof {
            crate::codec::lemma_unpadded_len(text@, pad, n as int);
        }
        let ghost unpadded = text@.take(n as int);

        // decode to array of bytes
        let mut idx: Vec<uVar> = Vec::new();
        let mut i: usize = 0;
        while i < n
            invariant
                self.wf(),
                i <= n <= text.len(),
                pad == self@.pad.ch(),
                n == unpadded_len(text@, pad),
                unpadded == text@.take(n as int),
                forall|j: int| 0 <= j < i ==> self@.alphabet.contains(#[trigger] unpadded[j]),
                idx@ == self@.indices(unpadded.take(i as int)),
            decreases n - i,
        {
            let c = text[i];
            proof {
                self@.alphabet.index_of_first_ensures(c);
            }
            match self.char_space.char_to_idx(c) {
                Ok(o) => {
                    idx.push(o);
                    proof {
                        assert(idx@ =~= self@.indices(unpadded.take(i + 1)));
                    }
                },
                Err(_) => {
                    proof {
                        crate::codec::lemma_first_invalid_at(self@.alphabet, unpadded, i as int);
                    }
                    return Err(DecodeError { position: i, character: c });
                },
            }
            i += 1;
        }
        proof {
            assert(unpadded.take(i as int) =~= unpadded);
            crate::codec::lemma_all_valid(self@.alphabet, unpadded);
        }
        let ghost cand = repack(idx@, k as nat, 8);
        let symbols = RepackIterator::new(idx, k, 8).collect();
        let mut arr: Vec<u8> = Vec::new();
        let mut j: usize = 0;
        while j < symbols.len()
            invariant
                j <= symbols.len(),
                symbols@ == cand,
                cand == repack(self@.indices(unpadded), k as nat, 8),
                arr@ == cand.take(j as int).map_values(|v: u32| v as u8),
            decreases symbols.len() - j,
        {
            proof {
                lemma_repack_index(self@.indices(unpadded), k as nat, 8, j as int);
                vstd::arithmetic::power2::lemma2_to64();
            }
            arr.push(symbols[j] as u8);
            j += 1;
            proof {
                assert(arr@ =~= cand.take(j as int).map_values(|v: u32| v as u8));
            }
        }

        // drop extra bytes resulted from the decoding, if any
        let drop_count = match self.pad_char {
            PadType::BlockPad(_) => {
                proof {
                    lemma_multiple_with_8(k as nat);
                }
                let block_char_size = lcm(k as usize, 8) / k as usize;
                proof {
                    crate::padding::lemma_lcm_with_8(k as nat);
                }
                if n % block_char_size != 0 {
                    1
                } else {
                    0
                }
            },
            PadType::DropPad(_) => text.len() - n,
        };
        let keep = if drop_count <= arr.len() {
            arr.len() - drop_count
        } else {
            0
        };
        arr.truncate(keep);
        proof {
            assert(cand.take(j as int) =~= cand);
            assert(arr@ =~= self@.bytes_of(
                self@.indices(unpadded),
                spec_drop_count(self@.pad, k as nat, n as nat, (text.len() - n) as nat),
            ));
        }
        Ok(arr)
    }
}

/// The texts that the vectors hold.
pub open spec fn views(parts: Seq<Vec<char>>) -> Seq<Seq<char>> {
    parts.map_values(|v: Vec<char>| v@)
}

/// The place in the registry of the encoding with the given name.
pub open spec fn position_of(name: Seq<char>) -> Option<int> {
    registry().map_values(|e: Entry| e.name).index_of_first(name)
}

/// The name under which a key is looked up: trimmed, and in lower case.
pub open spec fn normalized(key: Seq<char>) -> Seq<char> {
    lowercased(trimmed(key))
}

/// The encoding `e` is entry `i` of the registry.
pub open spec fn is_entry(e: Encoding, i: int) -> bool {
    &&& 0 <= i < registry().len()
    &&& e.wf()
    &&& e.spec_name() == registry()[i].name
    &&& e.spec_long_name() == registry()[i].long_name
    &&& e@ == registry()[i].codec
}

/// Are the two texts the same?
fn same_text(a: &str, b: &str) -> (same: bool)
    ensures
        same == (a@ == b@),
{
    let a = a.to_owned();
    let b = b.to_owned();
    a == b
}

impl Encoding {
    /// The encoding that has exactly the given name.
    pub fn find(name: &str) -> (r: Option<Encoding>)
        ensures
            match r {
                Some(e) => position_of(name@) matches Some(i) && is_entry(e, i),
                None => position_of(name@) is None,
            },
    {
        let mut all = get_encodings();
        let ghost names = registry().map_values(|e: Entry| e.name);
        proof {
            names.index_of_first_ensures(name@);
        }
        let mut i: usize = 0;
        while i < all.len()
            invariant
                i <= all.len(),
                all@.len() == registry().len(),
                names == registry().map_values(|e: Entry| e.name),
                forall|j: int| 0 <= j < all@.len() ==> is_entry(#[trigger] all@[j], j),
                forall|j: int| 0 <= j < i ==> names[j] != name@,
            decreases all.len() - i,
        {
            if same_text(all[i].name, name) {
                proof {
                    assert(names[i as int] == name@);
                    crate::charspace::lemma_first_index(names, name@, i as int);
                }
                let e = all.swap_remove(i);
                return Some(e);
            }
            i += 1;
        }
        proof {
            crate::charspace::lemma_no_index(names, name@);
        }
        None
    }
}

impl std::str::FromStr for Encoding {
    type Err = Error;

    /// The encoding with the given name. The key is trimmed and put in
    /// lower case before it is looked up.
    fn from_str(key: &str) -> (r: Result<Self, Self::Err>)
        ensures
            match r {
                Ok(e) => position_of(normalized(key@)) matches Some(i) && is_entry(e, i),
                Err(Error::UnknownEncodingName { name }) => position_of(normalized(key@)) is None
                    && name@ == normalized(key@),
                Err(_) => false,
            },
    {
        let key = key.trim().to_lowercase();
        match Encoding::find(key.as_str()) {
            Some(e) => Ok(e),
            None => Err(Error::UnknownEncodingName { name: key }),
        }
    }
}

/// The encodings that the library knows, in the order of the registry.
pub fn get_encodings() -> (all: Vec<Encoding>)
    ensures
        all@.len() == registry().len(),
        forall|i: int| 0 <= i < all@.len() ==> is_entry(#[trigger] all@[i], i),
{
    encodings()
}

} // verus!
