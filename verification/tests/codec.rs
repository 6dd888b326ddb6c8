use tpc::compress::compress;
use tpc::compress::get_punct;
use tpc::decompress::decompress;
use tpc::decompress::first_uppercase;
use tpc::decompress::verify;
use tpc::decompress::TpcError;
use tpc::table::gen_conversions;
use tpc::table::Cat;
use tpc::table::Word;
use tpc::table::Words;
use tpc::table::WordOrSpecial;

const HEADER: [u8; 6] = [0x54, 0x50, 0x43, 0, 1, 0];

fn table_of(words: &[&str]) -> Words {
    let mut v: Vec<Word> = Vec::new();
    for w in words {
        v.push(Word { word: w.as_bytes().to_vec(), cat: Cat::Core });
    }
    gen_conversions(v)
}

fn stream(codes: &[u8]) -> Vec<u8> {
    let mut v = HEADER.to_vec();
    v.extend_from_slice(codes);
    v
}

#[test]
fn round_trip_vocabulary_word() {
    let conv = table_of(&["toki", "pona"]);
    // sorted ascending: "pona" -> 0, "toki" -> 1
    let out = compress(&conv, &b"toki".to_vec());
    assert_eq!(out, stream(&[1]));
    assert_eq!(decompress(&conv, &out), Ok(b"toki".to_vec()));
    let out2 = compress(&conv, &b"pona".to_vec());
    assert_eq!(out2, stream(&[0]));
    assert_eq!(decompress(&conv, &out2), Ok(b"pona".to_vec()));
}

#[test]
fn code_table_bijective() {
    let conv = table_of(&["mi", "li", "toki", "pona"]);
    for c in 0..=255u8 {
        if let Some(WordOrSpecial::Word(w)) = conv.from_tpc(c) {
            assert_eq!(conv.to_tpc(&w), Some(c));
        }
    }
}

#[test]
fn build_deterministic() {
    let a = table_of(&["toki", "pona", "mi", "li"]);
    let b = table_of(&["li", "mi", "pona", "toki"]);
    assert_eq!(a.vocab, b.vocab);
    for c in 0..=255u8 {
        match (a.from_tpc(c), b.from_tpc(c)) {
            (Some(WordOrSpecial::Word(x)), Some(WordOrSpecial::Word(y))) => assert_eq!(x, y),
            (Some(WordOrSpecial::Special(x)), Some(WordOrSpecial::Special(y))) => {
                assert_eq!(x, y)
            }
            (None, None) => {}
            _ => panic!("tables disagree at code {}", c),
        }
    }
}

#[test]
fn capitalization_marker() {
    let conv = table_of(&["toki", "pona"]);
    let out = compress(&conv, &b"Toki".to_vec());
    assert_eq!(out, stream(&[0xf8, 1]));
    assert_eq!(decompress(&conv, &out), Ok(b"Toki".to_vec()));
}

#[test]
fn unknown_word_escaped() {
    let conv = table_of(&["toki"]);
    // a lowercase unknown word round-trips through the escape region
    let out = compress(&conv, &b"foo123".to_vec());
    assert_eq!(
        out,
        stream(&[0xff, b'f', b'o', b'o', b'1', b'2', b'3', 0xfe])
    );
    assert_eq!(decompress(&conv, &out), Ok(b"foo123".to_vec()));
}

#[test]
fn unknown_capitalized_word_escaped() {
    let conv = table_of(&["toki"]);
    // the marker is emitted before the escape region opens
    let out = compress(&conv, &b"Foo123".to_vec());
    assert_eq!(
        out,
        stream(&[0xf8, 0xff, b'F', b'o', b'o', b'1', b'2', b'3', 0xfe])
    );
    // a marker followed by an escape region is a structural error
    assert_eq!(
        decompress(&conv, &out),
        Err(TpcError::UppercaseWithoutWord)
    );
    // the region itself reproduces the word verbatim
    let region = stream(&[0xff, b'F', b'o', b'o', b'1', b'2', b'3', 0xfe]);
    assert_eq!(decompress(&conv, &region), Ok(b"Foo123".to_vec()));
}

#[test]
fn header_rejected() {
    let conv = table_of(&["toki"]);
    assert_eq!(
        decompress(&conv, &b"XYZ\0\0\0\0".to_vec()),
        Err(TpcError::Format)
    );
    assert_eq!(decompress(&conv, &Vec::new()), Err(TpcError::Format));
    assert_eq!(decompress(&conv, &b"TP".to_vec()), Err(TpcError::Format));
}

#[test]
fn spacing_between_words() {
    let conv = table_of(&["mi", "li"]);
    // sorted ascending: "li" -> 0, "mi" -> 1
    assert_eq!(decompress(&conv, &stream(&[1, 0])), Ok(b"mi li".to_vec()));
    let out = compress(&conv, &b"mi li".to_vec());
    assert_eq!(out, stream(&[1, 0]));
}

#[test]
fn multi_glyph_punctuation_reversed() {
    let conv = table_of(&["hi"]);
    let out = compress(&conv, &b"hi!?".to_vec());
    // trailing glyphs are emitted in the order stripped: '?' first
    assert_eq!(out, stream(&[0, 0xf9, 0xfa]));
    // so the run comes back reversed
    assert_eq!(decompress(&conv, &out), Ok(b"hi?!".to_vec()));
}

#[test]
fn punctuation_attaches_without_space() {
    let conv = table_of(&["mi", "li"]);
    let out = compress(&conv, &b"mi li.".to_vec());
    assert_eq!(out, stream(&[1, 0, 0xfd]));
    assert_eq!(decompress(&conv, &out), Ok(b"mi li.".to_vec()));
}

#[test]
fn empty_text_round_trip() {
    let conv = table_of(&["toki"]);
    let out = compress(&conv, &Vec::new());
    assert_eq!(out, stream(&[0xff, 0xfe]));
    assert_eq!(decompress(&conv, &out), Ok(Vec::new()));
}

#[test]
fn double_space_round_trip() {
    let conv = table_of(&["a", "b"]);
    let out = compress(&conv, &b"a  b".to_vec());
    assert_eq!(out, stream(&[0, 0xff, 0xfe, 1]));
    assert_eq!(decompress(&conv, &out), Ok(b"a  b".to_vec()));
}

#[test]
fn unmapped_bytes_skipped() {
    let conv = table_of(&["mi"]);
    // 0x50 has no entry in a one-word table and is skipped silently
    assert_eq!(decompress(&conv, &stream(&[0x50, 0])), Ok(b" mi".to_vec()));
    assert_eq!(decompress(&conv, &stream(&[0x50])), Ok(Vec::new()));
}

#[test]
fn escape_errors() {
    let conv = table_of(&["mi"]);
    assert_eq!(
        decompress(&conv, &stream(&[0xff, 0x41])),
        Err(TpcError::UnterminatedEscape)
    );
    assert_eq!(
        decompress(&conv, &stream(&[0xff])),
        Err(TpcError::UnterminatedEscape)
    );
    assert_eq!(
        decompress(&conv, &stream(&[0xff, 0x90, 0xfe])),
        Err(TpcError::InvalidEscapeByte)
    );
    assert_eq!(
        decompress(&conv, &stream(&[0xfe])),
        Err(TpcError::EndBeforeBegin)
    );
}

#[test]
fn uppercase_marker_errors() {
    let conv = table_of(&["mi"]);
    assert_eq!(
        decompress(&conv, &stream(&[0xf8])),
        Err(TpcError::UppercaseWithoutWord)
    );
    assert_eq!(
        decompress(&conv, &stream(&[0xf8, 0xfe])),
        Err(TpcError::UppercaseWithoutWord)
    );
    // an unmapped byte after the marker is an error, not a skip
    assert_eq!(
        decompress(&conv, &stream(&[0xf8, 0x50])),
        Err(TpcError::UppercaseWithoutWord)
    );
}

#[test]
fn verify_header_position() {
    let mut i: usize = 0;
    let data = stream(&[1, 2, 3]);
    assert_eq!(verify(&mut i, &data), Ok(()));
    assert_eq!(i, 6);
    let mut j: usize = 0;
    assert_eq!(verify(&mut j, &b"ABCDEF".to_vec()), Err(TpcError::Format));
    assert_eq!(j, 0);
}

#[test]
fn get_punct_strips_trailing_run() {
    let conv = table_of(&["hi"]);
    let r = get_punct(&b"hi!?".to_vec(), &conv);
    let (codes, bare) = r.unwrap();
    assert_eq!(codes, vec![0xf9, 0xfa]);
    assert_eq!(bare, b"hi".to_vec());
    assert_eq!(get_punct(&b"hi".to_vec(), &conv), None);
    let (codes2, bare2) = get_punct(&b"...".to_vec(), &conv).unwrap();
    assert_eq!(codes2, vec![0xfd, 0xfd, 0xfd]);
    assert_eq!(bare2, Vec::new());
}

#[test]
fn first_uppercase_ascii() {
    assert_eq!(first_uppercase(&b"toki".to_vec()), b"Toki".to_vec());
    assert_eq!(first_uppercase(&Vec::new()), Vec::new());
    assert_eq!(first_uppercase(&b"123".to_vec()), b"123".to_vec());
    assert_eq!(first_uppercase(&b"Toki".to_vec()), b"Toki".to_vec());
}

#[test]
fn glyphs_have_reserved_codes() {
    let conv = table_of(&["toki"]);
    let glyphs: [(u8, u8); 7] = [
        (b'.', 0xfd),
        (b',', 0xfc),
        (b':', 0xfb),
        (b'!', 0xfa),
        (b'?', 0xf9),
        (b'\n', 0xf7),
        (b'\t', 0xf6),
    ];
    for (g, code) in glyphs {
        assert_eq!(conv.to_tpc(&vec![g]), Some(code));
        match conv.from_tpc(code) {
            Some(WordOrSpecial::Word(w)) => assert_eq!(w, vec![g]),
            _ => panic!("glyph code {} did not resolve to its glyph", code),
        }
    }
}

#[test]
fn usage_tier_does_not_matter() {
    let mut a: Vec<Word> = Vec::new();
    let mut b: Vec<Word> = Vec::new();
    for w in ["toki", "pona"] {
        a.push(Word { word: w.as_bytes().to_vec(), cat: Cat::Common });
        b.push(Word { word: w.as_bytes().to_vec(), cat: Cat::Obscure });
    }
    assert_eq!(gen_conversions(a).vocab, gen_conversions(b).vocab);
}

#[test]
fn reserved_codes_win_over_large_vocabulary() {
    let mut v: Vec<Word> = Vec::new();
    for i in 0..300 {
        let name = format!("w{:03}", i);
        v.push(Word { word: name.into_bytes(), cat: Cat::Core });
    }
    let conv = gen_conversions(v);
    assert_eq!(conv.vocab.len(), 300);
    // codes in the reserved range resolve to glyphs and markers, never words
    match conv.from_tpc(0xf6) {
        Some(WordOrSpecial::Word(w)) => assert_eq!(w, vec![b'\t']),
        _ => panic!("0xf6 must be the tab glyph"),
    }
    match conv.from_tpc(0xf8) {
        Some(WordOrSpecial::Special(_)) => {}
        _ => panic!("0xf8 must be the StartUppercase marker"),
    }
    // codes below the reserved range still resolve to ranked words
    match conv.from_tpc(0) {
        Some(WordOrSpecial::Word(w)) => assert_eq!(w, b"w000".to_vec()),
        _ => panic!("code 0 must be the first word"),
    }
}

#[test]
fn unknown_word_duplicates_punctuation() {
    let conv = table_of(&["toki"]);
    // the escape region holds the unstripped token, so its trailing
    // glyph comes back twice: once verbatim, once as a code
    let out = compress(&conv, &b"foo!".to_vec());
    assert_eq!(out, stream(&[0xff, b'f', b'o', b'o', b'!', 0xfe, 0xfa]));
    assert_eq!(decompress(&conv, &out), Ok(b"foo!!".to_vec()));
}

#[test]
fn whole_word_lowercased_but_only_first_restored() {
    let conv = table_of(&["toki"]);
    let out = compress(&conv, &b"TOKI".to_vec());
    assert_eq!(out, stream(&[0xf8, 0]));
    assert_eq!(decompress(&conv, &out), Ok(b"Toki".to_vec()));
}

#[test]
fn version_bytes_not_checked() {
    let conv = table_of(&["toki"]);
    let data = vec![0x54, 0x50, 0x43, 9, 9, 9, 0];
    assert_eq!(decompress(&conv, &data), Ok(b"toki".to_vec()));
}

#[test]
fn multi_token_round_trip() {
    let conv = table_of(&["mi", "li", "toki", "pona"]);
    let text = b"Toki pona li toki mi, mi toki!".to_vec();
    let out = compress(&conv, &text);
    assert_eq!(decompress(&conv, &out), Ok(text));
}
