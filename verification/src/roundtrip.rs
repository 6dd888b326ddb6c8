//! Laws that relate the two directions of the codec.

use vstd::prelude::*;

use crate::compress::first_space;
use crate::compress::lemma_first_space_none;
use crate::compress::spec_compress;
use crate::compress::spec_compress_body;
use crate::compress::spec_encode_token;
use crate::compress::spec_is_upper;
use crate::compress::spec_lower;
use crate::compress::spec_strip_bare;
use crate::compress::spec_strip_codes;
use crate::compress::SPACE;
use crate::decompress::spec_decode;
use crate::decompress::spec_decompress;
use crate::decompress::spec_header_ok;
use crate::decompress::spec_spacing;
use crate::decompress::TpcError;
use crate::spec_header;
use crate::table::lemma_to_code_sound;
use crate::table::spec_from_code;
use crate::table::spec_is_punct;
use crate::table::spec_to_code;
use crate::table::Token;
use crate::table::CODE_BEGIN_ASCII;
use crate::table::CODE_END_ASCII;
use crate::table::CODE_START_UPPERCASE;

verus! {

/// Round trip for words the table knows: compressing a single word that
/// holds no space, ends in no punctuation glyph and starts with no
/// uppercase letter, then decompressing the stream, gives the word back
/// unchanged.
pub proof fn lemma_word_round_trip(vocab: Seq<Seq<u8>>, w: Seq<u8>)
    requires
        spec_to_code(vocab, w) is Some,
        forall|k: int| 0 <= k < w.len() ==> w[k] != SPACE,
        w.len() > 0 ==> !spec_is_punct(w.last()),
        w.len() > 0 ==> !spec_is_upper(w[0]),
    ensures
        spec_decompress(vocab, spec_compress(vocab, w)) == Ok::<Seq<u8>, TpcError>(w),
{
    let c = spec_to_code(vocab, w)->Some_0;
    // the compressed stream is the header followed by the word's code
    lemma_first_space_none(w, 0);
    assert(first_space(w, 0) == w.len());
    assert(w.subrange(0, w.len() as int) =~= w);
    assert(spec_strip_bare(w) == w);
    assert(spec_strip_codes(vocab, w) == Seq::<u8>::empty());
    assert(spec_encode_token(vocab, w) =~= seq![c]);
    assert(spec_compress_body(vocab, w, 0) =~= seq![c]);
    let data = spec_compress(vocab, w);
    assert(data =~= spec_header() + seq![c]);
    assert(data.len() == 7);
    // the decoder resolves that code straight back to the word
    assert(spec_header_ok(data));
    lemma_to_code_sound(vocab, w);
    assert(spec_from_code(vocab, data[6]) == Some(Token::Word(w)));
    assert(spec_decode(vocab, data, 7, false) == Ok::<Seq<u8>, TpcError>(Seq::empty()));
    assert(spec_spacing(w, 6) == Seq::<u8>::empty());
    assert(spec_spacing(w, 6) + w + Seq::<u8>::empty() =~= w);
}

/// Capitalization: compressing a known word whose first letter has been
/// uppercased emits the `StartUppercase` marker immediately followed by
/// the lowercase word's code, and decompressing that stream restores
/// the capitalized form.
pub proof fn lemma_capitalization(vocab: Seq<Seq<u8>>, w: Seq<u8>)
    requires
        w.len() > 0,
        0x61 <= w[0] <= 0x7a,
        spec_to_code(vocab, w) is Some,
        forall|k: int| 0 <= k < w.len() ==> w[k] != SPACE && !spec_is_upper(w[k]),
        !spec_is_punct(w.last()),
    ensures
        ({
            let t = seq![(w[0] - 0x20) as u8] + w.drop_first();
            let c = spec_to_code(vocab, w)->Some_0;
            &&& spec_compress(vocab, t) == spec_header() + seq![CODE_START_UPPERCASE, c]
            &&& spec_decompress(vocab, spec_compress(vocab, t)) == Ok::<Seq<u8>, TpcError>(t)
        }),
{
    let t = seq![(w[0] - 0x20) as u8] + w.drop_first();
    let c = spec_to_code(vocab, w)->Some_0;
    assert(t.len() == w.len());
    assert(forall|k: int| 1 <= k < t.len() ==> t[k] == w[k]);
    // the capitalized form still holds no space and ends in no glyph
    assert(forall|k: int| 0 <= k < t.len() ==> t[k] != SPACE);
    assert(!spec_is_punct(t.last()));
    lemma_first_space_none(t, 0);
    assert(t.subrange(0, t.len() as int) =~= t);
    assert(spec_strip_bare(t) == t);
    assert(spec_strip_codes(vocab, t) == Seq::<u8>::empty());
    // the lookup key is the lowercase word
    assert(spec_lower(t) =~= w);
    assert(spec_encode_token(vocab, t) =~= seq![CODE_START_UPPERCASE, c]);
    assert(spec_compress_body(vocab, t, 0) =~= seq![CODE_START_UPPERCASE, c]);
    let data = spec_compress(vocab, t);
    assert(data =~= spec_header() + seq![CODE_START_UPPERCASE, c]);
    assert(data.len() == 8);
    assert(spec_header_ok(data));
    // the decoder sees the marker, then the word's code
    lemma_to_code_sound(vocab, w);
    assert(spec_from_code(vocab, data[6]) == Some(Token::Special(
        crate::table::Special::StartUppercase,
    )));
    assert(spec_from_code(vocab, data[7]) == Some(Token::Word(w)));
    assert(spec_decode(vocab, data, 8, false) == Ok::<Seq<u8>, TpcError>(Seq::empty()));
    assert(spec_spacing(w, 6) == Seq::<u8>::empty());
    assert(crate::decompress::spec_first_upper(w) =~= t);
    assert(spec_spacing(w, 6) + crate::decompress::spec_first_upper(w) + Seq::<u8>::empty() =~= t);
}

proof fn lemma_decode_escape_run(vocab: Seq<Seq<u8>>, data: Seq<u8>, i: int, e: int)
    requires
        0 <= i <= e < data.len(),
        data[e] == CODE_END_ASCII,
        forall|k: int| i <= k < e ==> data[k] < 0x80,
    ensures
        spec_decode(vocab, data, i, true) == match spec_decode(vocab, data, e + 1, false) {
            Ok(rest) => Ok::<Seq<u8>, TpcError>(data.subrange(i, e) + rest),
            Err(err) => Err::<Seq<u8>, TpcError>(err),
        },
    decreases e - i,
{
    if i == e {
        match spec_decode(vocab, data, e + 1, false) {
            Ok(rest) => {
                assert(data.subrange(i, e) + rest =~= rest);
            },
            Err(_) => {},
        }
    } else {
        lemma_decode_escape_run(vocab, data, i + 1, e);
        match spec_decode(vocab, data, e + 1, false) {
            Ok(rest) => {
                assert(seq![data[i]] + (data.subrange(i + 1, e) + rest) =~= data.subrange(i, e)
                    + rest);
            },
            Err(_) => {},
        }
    }
}

/// Unknown-word escaping: a single token the table does not know, made
/// of ASCII bytes with no space, no trailing glyph and no uppercase
/// first letter, is compressed into one escape region holding its bytes
/// verbatim, and decompressing that stream gives the token back.
pub proof fn lemma_unknown_word_escape(vocab: Seq<Seq<u8>>, w: Seq<u8>)
    requires
        spec_to_code(vocab, w) is None,
        forall|k: int| 0 <= k < w.len() ==> w[k] != SPACE && w[k] < 0x80,
        w.len() > 0 ==> !spec_is_punct(w.last()),
        w.len() > 0 ==> !spec_is_upper(w[0]),
    ensures
        spec_compress(vocab, w) == spec_header() + seq![CODE_BEGIN_ASCII] + w + seq![
            CODE_END_ASCII,
        ],
        spec_decompress(vocab, spec_compress(vocab, w)) == Ok::<Seq<u8>, TpcError>(w),
{
    lemma_first_space_none(w, 0);
    assert(w.subrange(0, w.len() as int) =~= w);
    assert(spec_strip_bare(w) == w);
    assert(spec_strip_codes(vocab, w) == Seq::<u8>::empty());
    assert(spec_encode_token(vocab, w) =~= seq![CODE_BEGIN_ASCII] + w + seq![CODE_END_ASCII]);
    assert(spec_compress_body(vocab, w, 0) =~= seq![CODE_BEGIN_ASCII] + w + seq![CODE_END_ASCII]);
    let data = spec_compress(vocab, w);
    assert(data =~= spec_header() + seq![CODE_BEGIN_ASCII] + w + seq![CODE_END_ASCII]);
    assert(data.len() == w.len() + 8);
    assert(spec_header_ok(data));
    // the body opens an escape region right at the first position
    assert(data[6] == CODE_BEGIN_ASCII);
    assert(spec_from_code(vocab, data[6]) == Some(Token::Special(
        crate::table::Special::BeginAscii,
    )));
    let e = w.len() as int + 7;
    assert(data[e] == CODE_END_ASCII);
    assert(forall|k: int| 7 <= k < e ==> data[k] == w[k - 7] && data[k] < 0x80);
    lemma_decode_escape_run(vocab, data, 7, e);
    assert(spec_decode(vocab, data, e + 1, false) == Ok::<Seq<u8>, TpcError>(Seq::empty()));
    assert(data.subrange(7, e) =~= w);
    assert(w + Seq::<u8>::empty() =~= w);
    assert(Seq::<u8>::empty() + w =~= w);
}

/// Spacing: two consecutive word codes, neither word opening with a
/// punctuation glyph, decompress to the two words with one separating
/// space and nothing before or after.
pub proof fn lemma_spacing(vocab: Seq<Seq<u8>>, c1: u8, c2: u8, w1: Seq<u8>, w2: Seq<u8>)
    requires
        spec_from_code(vocab, c1) == Some(Token::Word(w1)),
        spec_from_code(vocab, c2) == Some(Token::Word(w2)),
        !(w1.len() > 0 && spec_is_punct(w1[0])),
        !(w2.len() > 0 && spec_is_punct(w2[0])),
    ensures
        spec_decompress(vocab, spec_header() + seq![c1, c2]) == Ok::<Seq<u8>, TpcError>(
            w1 + seq![SPACE] + w2,
        ),
{
    let data = spec_header() + seq![c1, c2];
    assert(data.len() == 8);
    assert(spec_header_ok(data));
    assert(data[6] == c1 && data[7] == c2);
    assert(spec_decode(vocab, data, 8, false) == Ok::<Seq<u8>, TpcError>(Seq::empty()));
    assert(spec_spacing(w1, 6) == Seq::<u8>::empty());
    assert(spec_spacing(w2, 7) =~= seq![SPACE]);
    assert(spec_decode(vocab, data, 7, false) == Ok::<Seq<u8>, TpcError>(
        spec_spacing(w2, 7) + w2 + Seq::<u8>::empty(),
    ));
    assert(spec_spacing(w1, 6) + w1 + (spec_spacing(w2, 7) + w2 + Seq::<u8>::empty()) =~= w1
        + seq![SPACE] + w2);
}

} // verus!
