use basehanja::encoding::get_encodings as _get_enc;
use basehanja::error::Error;
use basehanja::{decode, decode_utf8, encode, encode_utf8, get_encoding_descriptions, get_encodings};

#[test]
fn test_empty_inputs() {
    for c in _get_enc() {
        assert_eq!(
            "",
            String::from_utf8(c.decode("").unwrap()).unwrap(),
            "Failed with encoding {}",
            c.name
        );
        assert_eq!("", c.encode("".as_bytes()), "Failed with encoding {}", c.name);
    }
}

#[test]
fn test_reflexivity_bytespace() {
    let ref_dec = (0..255).chain(255..=0).collect::<Vec<u8>>();
    for c in _get_enc() {
        let enc = c.encode(&ref_dec);
        let dec = c.decode(&enc).unwrap();
        assert_eq!(ref_dec, dec, "Failed with encoding `{}`", c.name);
    }
}

#[test]
fn test_reflexivity_concatenated() {
    for i in 0..30 {
        let ref_dec = "a".repeat(i);
        for c in _get_enc() {
            let enc = c.encode(ref_dec.as_bytes());
            let enc = enc.repeat(3);
            let dec = String::from_utf8(c.decode(&enc).unwrap()).unwrap();
            assert_eq!(ref_dec.repeat(3), dec, "Failed with encoding `{}`", c.name);
        }
    }
}

#[test]
fn round_trip_of_every_byte_twice() {
    let mut bytes: Vec<u8> = (0..=255).collect();
    bytes.extend(0..=255u8);
    for c in _get_enc() {
        let enc = c.encode(&bytes);
        assert_eq!(bytes, c.decode(&enc).unwrap(), "Failed with encoding `{}`", c.name);
    }
}

#[test]
fn round_trip_of_awkward_texts() {
    let texts = [
        "",
        " ",
        "undefined",
        "',.;:!?\"\\/<>()[]{}",
        "\u{0}\u{1}\u{7f}",
        "Ω≈ç√∫˜µ≤≥÷",
        "田中さんにあげて下さい",
        "𠜎𠜱𠝹𠱓𠱸𠲖𠳏",
        "🐵 🙈 🙉 🙊",
        "==??々ゐヰ흐",
    ];
    for c in _get_enc() {
        for t in texts {
            let e = c.encode(t.as_bytes());
            assert_eq!(
                t,
                String::from_utf8(c.decode(&e).unwrap()).unwrap(),
                "Failed with encoding `{}`",
                c.name
            );
        }
    }
}

#[test]
fn concatenation_of_two_different_texts() {
    let pairs: [(&[u8], &[u8]); 5] = [
        (b"a", b"bc"),
        (b"abc", b"d"),
        (b"", b"xyz"),
        (b"xyz", b""),
        (b"hello, ", b"world"),
    ];
    for c in _get_enc() {
        for (b1, b2) in pairs {
            let both = c.encode(b1) + &c.encode(b2);
            let mut want = b1.to_vec();
            want.extend_from_slice(b2);
            assert_eq!(want, c.decode(&both).unwrap(), "Failed with encoding `{}`", c.name);
        }
    }
}

#[test]
fn wide_alphabet_drop_padding() {
    let enc = encode(&[0x61], "kanji").unwrap();
    let chars: Vec<char> = enc.chars().collect();
    assert_eq!(2, chars.len());
    assert_eq!('々', chars[1]);
    assert_eq!(vec![0x61], decode(&enc, "kanji").unwrap());
}

#[test]
fn padding_determinism() {
    assert_eq!("YQ==", encode(&[0x61], "base64").unwrap());
    assert_eq!("YWE=", encode(&[0x61, 0x61], "base64").unwrap());
    assert_eq!("YWFh", encode(&[0x61, 0x61, 0x61], "base64").unwrap());
}

#[test]
fn by_name_in_both_directions() {
    assert_eq!("aGVsbG8=", encode_utf8("hello", " BASE64 ").unwrap());
    assert_eq!("hello", decode_utf8("aGVsbG8=", "base64").unwrap());
    assert_eq!(b"hello".to_vec(), decode("68656C6C6F", "Hex").unwrap());
    assert_eq!("뤌솱숷밀흐흐", encode(b"hello", "hangul").unwrap());
    assert_eq!("hello", decode_utf8("뤌솱숷밀흐흐", "hangul").unwrap());
}

#[test]
fn errors_by_kind() {
    assert_eq!(
        Err(Error::UnknownEncodingName { name: "base32".to_string() }),
        encode(b"a", "Base32")
    );
    assert_eq!(
        Err(Error::UnknownEncodingName { name: "".to_string() }),
        decode("YQ==", "  ")
    );
    assert_eq!(
        Err(Error::UnknownEncodingName { name: "none".to_string() }),
        encode_utf8("a", "none")
    );
    assert_eq!(
        Err(Error::InvalidCharacter { position: 2, character: ' ' }),
        decode("YQ =", "base64")
    );
    assert_eq!(
        Err(Error::InvalidCharacter { position: 0, character: 'G' }),
        decode_utf8("G0", "hex")
    );
    // 0xFF alone is no text
    assert_eq!(Err(Error::InvalidText), decode_utf8("FF", "hex"));
    assert_eq!(vec![0xFF], decode("FF", "hex").unwrap());
}

#[test]
fn names_of_the_encodings() {
    assert_eq!(
        vec!["binary", "hex", "base64", "hiragana", "katakana", "hangul", "kanji"],
        get_encodings()
    );
}

#[test]
fn descriptions_of_the_encodings() {
    let list = get_encoding_descriptions();
    let bits: Vec<u8> = list.iter().map(|d| d.bitcount).collect();
    assert_eq!(vec![1, 4, 6, 6, 6, 13, 16], bits);
    assert_eq!("hex", list[1].name);
    assert_eq!("Hexadecimal", list[1].description);
    assert_eq!("Katakana (かたかな)", list[4].description);
}
