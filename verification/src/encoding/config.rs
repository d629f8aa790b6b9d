//! The encodings that the library knows.

use crate::charspace::{
    intervals_chars, lemma_intervals_hold, lemma_intervals_no_duplicates, ranges_len, CharSpace,
};
use crate::codec::{lemma_log2_floor_unique, Codec};
use crate::encoding::Encoding;
use crate::padding::PadType;
use vstd::prelude::*;

verus! {

/// What is known of an encoding: its names, its alphabet and its padding.
pub struct Entry {
    pub name: Seq<char>,
    pub long_name: Seq<char>,
    pub codec: Codec,
}

/// The digits and the capital letters to F.
pub open spec fn hex_ranges() -> Seq<(char, char)> {
    seq![('0', '9'), ('A', 'F')]
}

/// The capital letters, the small letters, the digits, plus and slash.
pub open spec fn base64_ranges() -> Seq<(char, char)> {
    seq![('A', 'Z'), ('a', 'z'), ('0', '9'), ('+', '+'), ('/', '/')]
}

/// The Hangul syllables: 11 088 characters.
pub open spec fn hangul_ranges() -> Seq<(char, char)> {
    seq![('\u{AC00}', '\u{D74f}')]
}

/// CJK unified ideographs (20 992 characters), the beginning of their
/// extension A (2 486 characters) and their extension B (42 720
/// characters).
pub open spec fn kanji_ranges() -> Seq<(char, char)> {
    seq![('\u{04e00}', '\u{09fff}'), ('\u{03400}', '\u{03DB5}'), ('\u{20000}', '\u{2a6df}')]
}

/// The encodings, in the order in which `encodings` gives them.
pub open spec fn registry() -> Seq<Entry> {
    seq![
        Entry {
            name: "binary"@,
            long_name: "Binary"@,
            codec: Codec { alphabet: "01"@, pad: PadType::BlockPad('?') },
        },
        Entry {
            name: "hex"@,
            long_name: "Hexadecimal"@,
            codec: Codec { alphabet: intervals_chars(hex_ranges()), pad: PadType::BlockPad('?') },
        },
        Entry {
            name: "base64"@,
            long_name: "Base64"@,
            codec: Codec {
                alphabet: intervals_chars(base64_ranges()),
                pad: PadType::BlockPad('='),
            },
        },
        Entry {
            name: "hiragana"@,
            long_name: "Hiragana (ひらがな)"@,
            codec: Codec {
                alphabet: "あいうえおかきくけこさしすせそたちつてとなにぬねのはひふへほまみむめもやゆよらりるれろわをんがぎぐげござじずぜぞだぢづでどばびぶ"@,
                pad: PadType::BlockPad('ゐ'),
            },
        },
        Entry {
            name: "katakana"@,
            long_name: "Katakana (かたかな)"@,
            codec: Codec {
                alphabet: "アイウエオカキクケコサシスセソタチツテトナニヌネノハヒフヘホマミムメモヤユヨラリルレロワヲンガギグゲゴザジズゼゾダヂヅデドバビブ"@,
                pad: PadType::BlockPad('ヰ'),
            },
        },
        Entry {
            name: "hangul"@,
            long_name: "Hangul (한글) (13-bit)"@,
            codec: Codec {
                alphabet: intervals_chars(hangul_ranges()),
                pad: PadType::DropPad('흐'),
            },
        },
        Entry {
            name: "kanji"@,
            long_name: "Hanzi+Kanji+Hanja (漢字)"@,
            codec: Codec {
                alphabet: intervals_chars(kanji_ranges()),
                pad: PadType::DropPad('々'),
            },
        },
    ]
}

/// The ranges, one more at the end: so much longer.
proof fn lemma_ranges_len_push(arr: Seq<(char, char)>, range: (char, char))
    ensures
        ranges_len(arr.push(range)) == ranges_len(arr) + (range.1 as int - range.0 as int + 1),
{
    assert(arr.push(range).drop_last() =~= arr);
}

/// An alphabet that is written out is well-formed where it names no
/// character twice, nor the padding character, and has a size that gives
/// symbols of `k` bits.
proof fn lemma_written_wf(codec: Codec, k: nat)
    requires
        codec.alphabet.no_duplicates(),
        !codec.alphabet.contains(codec.pad.ch()),
        1 <= k <= 31,
        vstd::arithmetic::power2::pow2(k) <= codec.alphabet.len() < vstd::arithmetic::power2::pow2(
            k + 1,
        ),
        codec.pad is BlockPad ==> k <= 8,
    ensures
        codec.wf(),
        codec.bitcount() == k,
{
    lemma_log2_floor_unique(codec.alphabet.len(), k);
    vstd::arithmetic::power2::lemma2_to64();
    vstd::arithmetic::power2::lemma_pow2_strictly_increases(0, k);
    if k + 1 < 32 {
        vstd::arithmetic::power2::lemma_pow2_strictly_increases(k + 1, 32);
    }
    assert(vstd::arithmetic::power2::pow2(1) == 2);
    if k > 1 {
        vstd::arithmetic::power2::lemma_pow2_strictly_increases(1, k);
    }
}

/// An alphabet of ranges is well-formed where the ranges can be counted
/// through and share no character, the padding character lies in none of
/// them, and their size gives symbols of `k` bits.
proof fn lemma_ranges_wf(arr: Seq<(char, char)>, pad: PadType, k: nat)
    requires
        crate::charspace::ranges_ok(arr),
        crate::charspace::ranges_disjoint(arr),
        !crate::charspace::in_ranges(arr, pad.ch()),
        1 <= k <= 31,
        vstd::arithmetic::power2::pow2(k) <= ranges_len(arr) < vstd::arithmetic::power2::pow2(
            k + 1,
        ),
        pad is BlockPad ==> k <= 8,
    ensures
        (Codec { alphabet: intervals_chars(arr), pad }).wf(),
        (Codec { alphabet: intervals_chars(arr), pad }).bitcount() == k,
        intervals_chars(arr).len() == ranges_len(arr),
{
    lemma_intervals_hold(arr);
    lemma_intervals_no_duplicates(arr);
    lemma_written_wf(Codec { alphabet: intervals_chars(arr), pad }, k);
}

/// The encodings of the registry are well-formed, and their symbols have
/// 1, 4, 6, 6, 6, 13 and 16 bits.
pub proof fn lemma_registry()
    ensures
        registry().len() == 7,
        forall|i: int| 0 <= i < 7 ==> (#[trigger] registry()[i]).codec.wf(),
        registry()[0].codec.bitcount() == 1,
        registry()[1].codec.bitcount() == 4,
        registry()[2].codec.bitcount() == 6,
        registry()[3].codec.bitcount() == 6,
        registry()[4].codec.bitcount() == 6,
        registry()[5].codec.bitcount() == 13,
        registry()[6].codec.bitcount() == 16,
        registry()[1].codec.alphabet.len() == 16,
        registry()[2].codec.alphabet.len() == 64,
        registry()[5].codec.alphabet.len() == 11088,
        registry()[6].codec.alphabet.len() == 66198,
{
    vstd::arithmetic::power2::lemma2_to64();
    reveal_strlit("01");
    reveal_strlit("あいうえおかきくけこさしすせそたちつてとなにぬねのはひふへほまみむめもやゆよらりるれろわをんがぎぐげござじずぜぞだぢづでどばびぶ");
    reveal_strlit("アイウエオカキクケコサシスセソタチツテトナニヌネノハヒフヘホマミムメモヤユヨラリルレロワヲンガギグゲゴザジズゼゾダヂヅデドバビブ");
    lemma_written_wf(registry()[0].codec, 1);
    lemma_written_wf(registry()[3].codec, 6);
    lemma_written_wf(registry()[4].codec, 6);
    let none = Seq::<(char, char)>::empty();
    assert(ranges_len(none) == 0);
    let hex = hex_ranges();
    lemma_ranges_len_push(none, hex[0]);
    lemma_ranges_len_push(none.push(hex[0]), hex[1]);
    assert(hex =~= none.push(hex[0]).push(hex[1]));
    lemma_ranges_wf(hex, PadType::BlockPad('?'), 4);
    let b64 = base64_ranges();
    lemma_ranges_len_push(none, b64[0]);
    lemma_ranges_len_push(none.push(b64[0]), b64[1]);
    lemma_ranges_len_push(none.push(b64[0]).push(b64[1]), b64[2]);
    lemma_ranges_len_push(none.push(b64[0]).push(b64[1]).push(b64[2]), b64[3]);
    lemma_ranges_len_push(none.push(b64[0]).push(b64[1]).push(b64[2]).push(b64[3]), b64[4]);
    assert(b64 =~= none.push(b64[0]).push(b64[1]).push(b64[2]).push(b64[3]).push(b64[4]));
    lemma_ranges_wf(b64, PadType::BlockPad('='), 6);
    let hangul = hangul_ranges();
    lemma_ranges_len_push(none, hangul[0]);
    assert(hangul =~= none.push(hangul[0]));
    lemma_ranges_wf(hangul, PadType::DropPad('흐'), 13);
    let kanji = kanji_ranges();
    lemma_ranges_len_push(none, kanji[0]);
    lemma_ranges_len_push(none.push(kanji[0]), kanji[1]);
    lemma_ranges_len_push(none.push(kanji[0]).push(kanji[1]), kanji[2]);
    assert(kanji =~= none.push(kanji[0]).push(kanji[1]).push(kanji[2]));
    lemma_ranges_wf(kanji, PadType::DropPad('々'), 16);
}

/// The encodings that the library knows, each built anew.
pub fn encodings() -> (all: Vec<Encoding>)
    ensures
        all@.len() == registry().len(),
        forall|i: int|
            0 <= i < all@.len() ==> {
                &&& (#[trigger] all@[i]).wf()
                &&& all@[i].spec_name() == registry()[i].name
                &&& all@[i].spec_long_name() == registry()[i].long_name
                &&& all@[i]@ == registry()[i].codec
            },
{
    proof {
        lemma_registry();
        lemma_intervals_hold(hex_ranges());
        lemma_intervals_hold(base64_ranges());
        lemma_intervals_hold(hangul_ranges());
        lemma_intervals_hold(kanji_ranges());
        reveal_strlit("01");
        reveal_strlit("あいうえおかきくけこさしすせそたちつてとなにぬねのはひふへほまみむめもやゆよらりるれろわをんがぎぐげござじずぜぞだぢづでどばびぶ");
        reveal_strlit("アイウエオカキクケコサシスセソタチツテトナニヌネノハヒフヘホマミムメモヤユヨラリルレロワヲンガギグゲゴザジズゼゾダヂヅデドバビブ");
    }
    let mut all: Vec<Encoding> = Vec::new();
    all.push(
        Encoding {
            name: "binary",
            long_name: "Binary",
            char_space: CharSpace::Concrete("01"),
            pad_char: PadType::BlockPad('?'),  // it's not going to be used...
        },
    );
    all.push(
        Encoding {
            name: "hex",
            long_name: "Hexadecimal",
            char_space: CharSpace::Intervals(vec![('0', '9'), ('A', 'F')]),
            pad_char: PadType::BlockPad('?'),  // it's not going to be used...
        },
    );
    all.push(
        Encoding {
            name: "base64",
            long_name: "Base64",
            char_space: CharSpace::Intervals(
                vec![('A', 'Z'), ('a', 'z'), ('0', '9'), ('+', '+'), ('/', '/')],
            ),
            pad_char: PadType::BlockPad('='),
        },
    );
    all.push(
        Encoding {
            name: "hiragana",
            long_name: "Hiragana (ひらがな)",
            char_space: CharSpace::Concrete("あいうえおかきくけこさしすせそたちつてとなにぬねのはひふへほまみむめもやゆよらりるれろわをんがぎぐげござじずぜぞだぢづでどばびぶ"),
            pad_char: PadType::BlockPad('ゐ'),
        },
    );
    all.push(
        Encoding {
            name: "katakana",
            long_name: "Katakana (かたかな)",
            char_space: CharSpace::Concrete("アイウエオカキクケコサシスセソタチツテトナニヌネノハヒフヘホマミムメモヤユヨラリルレロワヲンガギグゲゴザジズゼゾダヂヅデドバビブ"),
            pad_char: PadType::BlockPad('ヰ'),
        },
    );
    all.push(
        Encoding {
            name: "hangul",
            long_name: "Hangul (한글) (13-bit)",
            char_space: CharSpace::Intervals(vec![('\u{AC00}', '\u{D74f}')]),
            pad_char: PadType::DropPad('흐'),
        },
    );
    all.push(
        Encoding {
            name: "kanji",
            long_name: "Hanzi+Kanji+Hanja (漢字)",
            char_space: CharSpace::Intervals(
                vec![
                    ('\u{04e00}', '\u{09fff}'),
                    ('\u{03400}', '\u{03DB5}'),
                    ('\u{20000}', '\u{2a6df}'),
                ],
            ),
            pad_char: PadType::DropPad('々'),
        },
    );
    proof {
        assert(all@[1].char_space@ =~= intervals_chars(hex_ranges())) by {
            assert(all@[1].char_space->Intervals_0@ =~= hex_ranges());
        }
        assert(all@[2].char_space@ =~= intervals_chars(base64_ranges())) by {
            assert(all@[2].char_space->Intervals_0@ =~= base64_ranges());
        }
        assert(all@[5].char_space@ =~= intervals_chars(hangul_ranges())) by {
            assert(all@[5].char_space->Intervals_0@ =~= hangul_ranges());
        }
        assert(all@[6].char_space@ =~= intervals_chars(kanji_ranges())) by {
            assert(all@[6].char_space->Intervals_0@ =~= kanji_ranges());
        }
    }
    all
}

} // verus!
