use basehanja::encoding::Encoding;

#[test]
fn test_bitcounts() {
    let counts = &[
        ("base64", 6),
        ("hiragana", 6),
        ("kanji", 16),
        ("binary", 1),
        ("hex", 4),
    ];

    for (k, v) in counts {
        let enc = k.parse::<Encoding>().unwrap();
        assert_eq!(*v, enc.bitcount());
    }
}

#[test]
fn test_block_pad() {
    let pairs = &[
        ("a" /*        */, "YQ=="),
        ("aa" /*       */, "YWE="),
        ("aaa" /*      */, "YWFh"),
        ("aaaa" /*     */, "YWFhYQ=="),
        ("aaaaa" /*    */, "YWFhYWE="),
        ("aaaaaa" /*   */, "YWFhYWFh"),
        ("aaaaaaa" /*  */, "YWFhYWFhYQ=="),
        ("aaaaaaaa" /* */, "YWFhYWFhYWE="),
        ("aaaaaaaaa" /**/, "YWFhYWFhYWFh"),
    ];
    let codec = "base64".parse::<Encoding>().unwrap();
    for (dec, enc) in pairs {
        assert_eq!(*enc, codec.encode(dec.as_bytes()), "Encoding mismatch");
        let res = codec.decode(enc).unwrap();
        assert_eq!(dec.as_bytes(), res, "Decoding mismatch");
    }
}

#[test]
fn test_drop_pad() {
    let pairs = &[
        ("a" /*     */, "𠕊々"),
        ("aa" /*    */, "𠖫"),
        ("aaa" /*   */, "𠖫𠕊々"),
        ("aaaa" /*  */, "𠖫𠖫"),
        ("aaaaa" /* */, "𠖫𠖫𠕊々"),
        ("aaaaaa" /**/, "𠖫𠖫𠖫"),
    ];
    let codec = "kanji".parse::<Encoding>().unwrap();
    for (dec, enc) in pairs {
        assert_eq!(*enc, codec.encode(dec.as_bytes()), "Encoding mismatch");
        let res = codec.decode(enc).unwrap();
        assert_eq!(dec.as_bytes(), res, "Decoding mismatch");
    }
}

#[test]
fn bitcounts_of_the_other_encodings() {
    assert_eq!(6, "katakana".parse::<Encoding>().unwrap().bitcount());
    assert_eq!(13, "hangul".parse::<Encoding>().unwrap().bitcount());
}

#[test]
fn names_are_trimmed_and_put_in_lower_case() {
    let enc = "  Base64\n".parse::<Encoding>().unwrap();
    assert_eq!("base64", enc.name);
    assert_eq!("Base64", enc.long_name);
    assert_eq!("YQ==", enc.encode(b"a"));
    let enc = "KANJI ".parse::<Encoding>().unwrap();
    assert_eq!("kanji", enc.short_name());
    assert_eq!("Hanzi+Kanji+Hanja (漢字)", enc.description());
}

#[test]
fn find_takes_the_name_as_it_is() {
    assert!(Encoding::find("hex").is_some());
    assert!(Encoding::find("Hex").is_none());
    assert!(Encoding::find(" hex").is_none());
    assert!(Encoding::find("").is_none());
}

#[test]
fn unknown_name_is_an_error() {
    match "  Base65 ".parse::<Encoding>() {
        Err(basehanja::error::Error::UnknownEncodingName { name }) => assert_eq!("base65", name),
        _ => panic!("a name that no encoding has was found"),
    }
}

#[test]
fn registry_order_and_names() {
    let all = basehanja::encoding::get_encodings();
    let names: Vec<&str> = all.iter().map(|e| e.name).collect();
    assert_eq!(
        vec!["binary", "hex", "base64", "hiragana", "katakana", "hangul", "kanji"],
        names
    );
    let built = basehanja::encoding::config::encodings();
    assert_eq!(7, built.len());
    assert_eq!("Hangul (한글) (13-bit)", built[5].long_name);
}

#[test]
fn exact_encodings_of_each_formula() {
    let cases: &[(&str, &[u8], &str)] = &[
        ("binary", b"a", "01100001"),
        ("hex", b"hello", "68656C6C6F"),
        ("base64", b"hello", "aGVsbG8="),
        ("hiragana", b"a", "のちゐゐ"),
        ("hiragana", b"ab", "のぬけゐ"),
        ("hangul", b"a", "렠흐"),
        ("hangul", b"ab", "렬됀흐흐"),
        ("hangul", b"hello", "뤌솱숷밀흐흐"),
        ("kanji", b"ab", "𠖬"),
        ("kanji", b"hello", "𠲯𡂶𡍊々"),
    ];
    for (name, bytes, text) in cases {
        let enc = Encoding::find(name).unwrap();
        assert_eq!(*text, enc.encode(bytes), "encoding with {}", name);
        assert_eq!(bytes.to_vec(), enc.decode(text).unwrap(), "decoding with {}", name);
    }
}

#[test]
fn pad_lengths() {
    let base64 = Encoding::find("base64").unwrap();
    assert_eq!(0, base64.get_pad_len(b""));
    assert_eq!(2, base64.get_pad_len(b"a"));
    assert_eq!(1, base64.get_pad_len(b"aa"));
    assert_eq!(0, base64.get_pad_len(b"aaa"));
    let hex = Encoding::find("hex").unwrap();
    assert_eq!(0, hex.get_pad_len(b"a"));
    let kanji = Encoding::find("kanji").unwrap();
    assert_eq!(1, kanji.get_pad_len(b"a"));
    assert_eq!(0, kanji.get_pad_len(b"aa"));
    let hangul = Encoding::find("hangul").unwrap();
    assert_eq!(1, hangul.get_pad_len(b"a"));
    assert_eq!(2, hangul.get_pad_len(b"ab"));
    assert_eq!(0, hangul.get_pad_len(&[0u8; 13]));
}

#[test]
fn deconcat_cuts_after_each_run_of_padding() {
    let base64 = Encoding::find("base64").unwrap();
    let parts: Vec<String> = base64
        .deconcat("YQ==YWE=YWFh")
        .into_iter()
        .map(|p| p.into_iter().collect())
        .collect();
    assert_eq!(vec!["YQ==", "YWE=", "YWFh"], parts);
    let parts = base64.deconcat("");
    assert_eq!(1, parts.len());
    assert!(parts[0].is_empty());
    let parts: Vec<String> = base64
        .deconcat("==YQ")
        .into_iter()
        .map(|p| p.into_iter().collect())
        .collect();
    assert_eq!(vec!["==", "YQ"], parts);
}

#[test]
fn decode_single_takes_one_chunk() {
    let base64 = Encoding::find("base64").unwrap();
    let chunk: Vec<char> = "YWE=".chars().collect();
    assert_eq!(b"aa".to_vec(), base64.decode_single(&chunk).unwrap());
    let chunk: Vec<char> = "YW!E=".chars().collect();
    let e = base64.decode_single(&chunk).unwrap_err();
    assert_eq!(2, e.position);
    assert_eq!('!', e.character);
}

#[test]
fn invalid_character_is_reported_with_its_place() {
    let base64 = Encoding::find("base64").unwrap();
    let e = base64.decode("YWF*").unwrap_err();
    assert_eq!(3, e.position);
    assert_eq!('*', e.character);
    // the place is counted from the start of the chunk
    let e = base64.decode("YQ==Y?E=").unwrap_err();
    assert_eq!(1, e.position);
    assert_eq!('?', e.character);
    // the first invalid character decides
    let e = base64.decode("Y-Q_").unwrap_err();
    assert_eq!((1, '-'), (e.position, e.character));
    // only the declared case is in the alphabet
    let hex = Encoding::find("hex").unwrap();
    let e = hex.decode("6a").unwrap_err();
    assert_eq!((1, 'a'), (e.position, e.character));
}

#[test]
fn indices_beyond_the_symbols_count_by_their_low_bits() {
    // Hangul holds 11 088 characters and its symbols have 13 bits: the
    // character of index 8192 reads as symbol 0.
    let hangul = Encoding::find("hangul").unwrap();
    let high: String = vec![char::from_u32(0xAC00 + 8192).unwrap()].into_iter().collect();
    let zero: String = vec!['\u{AC00}'].into_iter().collect();
    assert_eq!(hangul.decode(&zero).unwrap(), hangul.decode(&high).unwrap());
    assert_eq!(vec![0u8, 0u8], hangul.decode(&high).unwrap());
}

#[test]
fn padding_alone_decodes_to_nothing() {
    let kanji = Encoding::find("kanji").unwrap();
    assert_eq!(Vec::<u8>::new(), kanji.decode("々々々").unwrap());
    assert_eq!(b"a".to_vec(), kanji.decode("々々𠕊々").unwrap());
    let base64 = Encoding::find("base64").unwrap();
    assert_eq!(Vec::<u8>::new(), base64.decode("==").unwrap());
}
