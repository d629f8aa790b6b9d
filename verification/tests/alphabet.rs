use basehanja::charspace::{cp_len, CharSpace};
use basehanja::error::InvalidChar;

#[test]
fn written_alphabet() {
    let a = CharSpace::Concrete("xyzあ");
    assert_eq!(4, a.num_chars());
    assert_eq!('x', a.idx_to_char(0));
    assert_eq!('あ', a.idx_to_char(3));
    assert_eq!(Ok(2), a.char_to_idx('z'));
    assert_eq!(Ok(3), a.char_to_idx('あ'));
    assert_eq!(Err(InvalidChar { character: 'a' }), a.char_to_idx('a'));
}

#[test]
fn alphabet_of_ranges() {
    let a = CharSpace::Intervals(vec![('a', 'c'), ('0', '1'), ('\u{20000}', '\u{20001}')]);
    assert_eq!(7, a.num_chars());
    let all: Vec<char> = (0..7).map(|i| a.idx_to_char(i)).collect();
    assert_eq!(vec!['a', 'b', 'c', '0', '1', '\u{20000}', '\u{20001}'], all);
    assert_eq!(Ok(0), a.char_to_idx('a'));
    assert_eq!(Ok(3), a.char_to_idx('0'));
    assert_eq!(Ok(6), a.char_to_idx('\u{20001}'));
    assert_eq!(Err(InvalidChar { character: 'd' }), a.char_to_idx('d'));
    assert_eq!(Err(InvalidChar { character: '2' }), a.char_to_idx('2'));
}

#[test]
fn alphabet_bijection_in_both_forms() {
    let forms = [
        CharSpace::Concrete("0123456789ABCDEF"),
        CharSpace::Intervals(vec![('0', '9'), ('A', 'F')]),
    ];
    for a in forms {
        assert_eq!(16, a.num_chars());
        for i in 0..16 {
            assert_eq!(Ok(i), a.char_to_idx(a.idx_to_char(i)));
        }
    }
    let written = CharSpace::Concrete("0123456789ABCDEF");
    let ranges = CharSpace::Intervals(vec![('0', '9'), ('A', 'F')]);
    for i in 0..16 {
        assert_eq!(written.idx_to_char(i), ranges.idx_to_char(i));
    }
}

#[test]
fn alphabet_bijection_of_every_encoding() {
    for e in basehanja::encoding::get_encodings() {
        let k = e.bitcount();
        let text = e.encode(&[0u8, 0x10, 0x83, 0x10, 0x51, 0x87, 0x20, 0x92, 0x8b, 0xff, 0xfe]);
        assert!(k >= 1);
        assert_eq!(
            vec![0u8, 0x10, 0x83, 0x10, 0x51, 0x87, 0x20, 0x92, 0x8b, 0xff, 0xfe],
            e.decode(&text).unwrap()
        );
    }
}

#[test]
fn first_of_equal_characters_counts() {
    let a = CharSpace::Concrete("abca");
    assert_eq!(Ok(0), a.char_to_idx('a'));
    let a = CharSpace::Intervals(vec![('a', 'c'), ('b', 'd')]);
    assert_eq!(Ok(1), a.char_to_idx('b'));
    assert_eq!(Ok(5), a.char_to_idx('d'));
}

#[test]
fn code_points_in_a_range() {
    assert_eq!(1, cp_len('a', 'a'));
    assert_eq!(26, cp_len('a', 'z'));
    assert_eq!(11088, cp_len('\u{AC00}', '\u{D74f}'));
    assert_eq!(2486, cp_len('\u{03400}', '\u{03DB5}'));
}
