use basehanja::padding::{div_ceil, lcm, PadType};
use basehanja::repack::{take_bits, RepackIterator, Tail};

#[test]
fn repack_eight_to_six() {
    // `11111100 00001111` -> `111111 000000 111100`
    let it = RepackIterator::new(vec![0b11111100, 0b00001111], 8, 6);
    assert_eq!(vec![0b111111, 0b000000, 0b111100], it.collect());
}

#[test]
fn repack_six_to_eight_fills_up_with_zero_bits() {
    let it = RepackIterator::new(vec![0b111111, 0b000000, 0b111100], 6, 8);
    assert_eq!(vec![0b11111100, 0b00001111, 0], it.collect());
}

#[test]
fn repack_step_by_step() {
    let mut it = RepackIterator::new(vec![0x61], 8, 16);
    assert_eq!(Some(0x6100), it.next());
    assert_eq!(None, it.next());
    assert_eq!(None, it.next());
    let mut it = RepackIterator::new(vec![], 8, 6);
    assert_eq!(None, it.next());
    let mut it = RepackIterator::new(vec![0xABCD], 16, 4);
    assert_eq!(Some(0xA), it.next());
    assert_eq!(Some(0xB), it.next());
    assert_eq!(vec![0xC, 0xD], it.collect());
}

#[test]
fn repack_reads_only_the_low_bits_of_a_symbol() {
    let it = RepackIterator::new(vec![0xFFFF_FF01, 0x1_02], 8, 8);
    assert_eq!(vec![1, 2], it.collect());
}

#[test]
fn repack_of_full_words() {
    let it = RepackIterator::new(vec![0xDEADBEEF, 0x01234567], 32, 32);
    assert_eq!(vec![0xDEADBEEF, 0x01234567], it.collect());
    let it = RepackIterator::new(vec![0xDEADBEEF], 32, 8);
    assert_eq!(vec![0xDE, 0xAD, 0xBE, 0xEF], it.collect());
    let it = RepackIterator::new(vec![0xDE, 0xAD, 0xBE, 0xEF, 0x01], 8, 32);
    assert_eq!(vec![0xDEADBEEF, 0x0100_0000], it.collect());
    let it = RepackIterator::new(vec![1, 0, 1, 1], 1, 3);
    assert_eq!(vec![0b101, 0b100], it.collect());
}

#[test]
fn take_bits_from_the_top() {
    // 01234567
    // __XXXXX_ -> ___XXXXX
    assert_eq!(0b10110, take_bits(0b11_10110_1, 8, 5, 2));
    assert_eq!(0b11, take_bits(0b11_10110_1, 8, 2, 0));
    assert_eq!(1, take_bits(0b11_10110_1, 8, 1, 7));
    assert_eq!(0, take_bits(0xFF, 8, 0, 3));
    assert_eq!(0xDEADBEEF, take_bits(0xDEADBEEF, 32, 32, 0));
    assert_eq!(0xAD, take_bits(0xDEADBEEF, 32, 8, 8));
    // bits above the width are not read
    assert_eq!(0b01, take_bits(0xF1, 4, 4, 0));
}

#[test]
fn least_common_multiples() {
    assert_eq!(24, lcm(6, 8));
    assert_eq!(24, lcm(8, 6));
    assert_eq!(8, lcm(1, 8));
    assert_eq!(8, lcm(8, 8));
    assert_eq!(56, lcm(7, 8));
    assert_eq!(104, lcm(13, 8));
    assert_eq!(1, lcm(1, 1));
    assert_eq!(16, lcm(16, 8));
    assert_eq!(16, lcm(8, 16));
    // the product need not fit the machine word, only the result
    assert_eq!(usize::MAX - 1, lcm(usize::MAX - 1, usize::MAX - 1));
    assert_eq!(usize::MAX, lcm(usize::MAX, 1));
    assert_eq!(usize::MAX, lcm(1, usize::MAX));
}

#[test]
fn division_rounded_up() {
    assert_eq!(0, div_ceil(0, 8));
    assert_eq!(1, div_ceil(1, 8));
    assert_eq!(1, div_ceil(8, 8));
    assert_eq!(2, div_ceil(9, 8));
    assert_eq!(7, div_ceil(7, 1));
    assert_eq!(2, div_ceil(8, 6));
}

#[test]
fn padding_character_by_deref() {
    assert_eq!('=', *PadType::BlockPad('='));
    assert_eq!('々', *PadType::DropPad('々'));
}

#[test]
fn repack_discarding_the_incomplete_symbol() {
    let it = RepackIterator::with_tail(vec![0b111111, 0b000000, 0b111100], 6, 8, Tail::Discard);
    assert_eq!(vec![0b11111100, 0b00001111], it.collect());
    let it = RepackIterator::with_tail(vec![0b111111, 0b000000, 0b111100], 6, 8, Tail::Emit);
    assert_eq!(vec![0b11111100, 0b00001111, 0], it.collect());
    let mut it = RepackIterator::with_tail(vec![0x61], 8, 16, Tail::Discard);
    assert_eq!(None, it.next());
    assert_eq!(None, it.next());
    let it = RepackIterator::with_tail(vec![0xAB, 0xCD], 8, 4, Tail::Discard);
    assert_eq!(vec![0xA, 0xB, 0xC, 0xD], it.collect());
    let it = RepackIterator::with_tail(vec![], 8, 4, Tail::Discard);
    assert_eq!(Vec::<u32>::new(), it.collect());
}

#[test]
fn block_padding_keeps_the_whole_bytes() {
    // "YWE" are the symbols 24, 22, 4 of base64
    let whole = RepackIterator::with_tail(vec![24, 22, 4], 6, 8, Tail::Discard).collect();
    assert_eq!(vec![0x61, 0x61], whole);
    let base64 = basehanja::encoding::Encoding::find("base64").unwrap();
    assert_eq!(vec![0x61, 0x61], base64.decode("YWE=").unwrap());
    assert_eq!(vec![0x61, 0x61], base64.decode("YWE").unwrap());
}
