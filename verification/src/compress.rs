//! The compressor: splits text on spaces, strips trailing punctuation,
//! marks capitalization, and escapes unknown words.

use vstd::prelude::*;

use crate::spec_header;
use crate::TAG_0;
use crate::TAG_1;
use crate::TAG_2;
use crate::VERSION_MAJOR;
use crate::VERSION_MINOR;
use crate::VERSION_PATCH;
use crate::table::is_punct;
use crate::table::copy_bytes;
use crate::table::lemma_glyph_has_code;
use crate::table::spec_is_punct;
use crate::table::spec_to_code;
use crate::table::Words;
use crate::table::CODE_BEGIN_ASCII;
use crate::table::CODE_END_ASCII;
use crate::table::CODE_START_UPPERCASE;

verus! {

/// The byte that separates tokens: a literal space, and nothing else.
pub const SPACE: u8 = 0x20;

/// True of ASCII uppercase letters.
pub open spec fn spec_is_upper(b: u8) -> bool {
    0x41 <= b <= 0x5a
}

/// ASCII lowercasing of a whole byte sequence.
pub open spec fn spec_lower(s: Seq<u8>) -> Seq<u8> {
    s.map_values(|b: u8| if spec_is_upper(b) { (b + 0x20) as u8 } else { b })
}

/// Index of the first space at or past `from`, or the length if none.
pub open spec fn first_space(t: Seq<u8>, from: int) -> int
    decreases t.len() - from,
{
    if from >= t.len() {
        t.len() as int
    } else if t[from] == SPACE {
        from
    } else {
        first_space(t, from + 1)
    }
}

/// In a stretch without spaces, the search runs to the end.
pub proof fn lemma_first_space_none(t: Seq<u8>, from: int)
    requires
        0 <= from <= t.len(),
        forall|k: int| from <= k < t.len() ==> t[k] != SPACE,
    ensures
        first_space(t, from) == t.len(),
    decreases t.len() - from,
{
    if from < t.len() {
        lemma_first_space_none(t, from + 1);
    }
}

pub proof fn lemma_first_space_bounds(t: Seq<u8>, from: int)
    requires
        0 <= from <= t.len(),
    ensures
        from <= first_space(t, from) <= t.len(),
    decreases t.len() - from,
{
    if from < t.len() && t[from] != SPACE {
        lemma_first_space_bounds(t, from + 1);
    }
}

/// The bare remainder of a token: the token with its maximal trailing
/// run of punctuation glyphs stripped.
pub open spec fn spec_strip_bare(w: Seq<u8>) -> Seq<u8>
    decreases w.len(),
{
    if w.len() > 0 && spec_is_punct(w.last()) {
        spec_strip_bare(w.drop_last())
    } else {
        w
    }
}

/// The codes of a token's stripped trailing glyphs, in the order they
/// are stripped: the token's last character first. This encounter order
/// goes into the stream as is, which re-emits a multi-glyph run in
/// reversed relative order on decompression.
pub open spec fn spec_strip_codes(vocab: Seq<Seq<u8>>, w: Seq<u8>) -> Seq<u8>
    decreases w.len(),
{
    if w.len() > 0 && spec_is_punct(w.last()) {
        seq![spec_to_code(vocab, seq![w.last()])->Some_0] + spec_strip_codes(vocab, w.drop_last())
    } else {
        Seq::empty()
    }
}

/// The encoding of one token: an optional `StartUppercase` marker, then
/// either the bare word's code or an escape region holding the original
/// token's bytes verbatim, then the stripped glyph codes.
pub open spec fn spec_encode_token(vocab: Seq<Seq<u8>>, w: Seq<u8>) -> Seq<u8> {
    let bare = spec_strip_bare(w);
    let codes = spec_strip_codes(vocab, w);
    let up = bare.len() > 0 && spec_is_upper(bare[0]);
    let key = if up {
        spec_lower(bare)
    } else {
        bare
    };
    let head: Seq<u8> = if up {
        seq![CODE_START_UPPERCASE]
    } else {
        Seq::empty()
    };
    let mid: Seq<u8> = match spec_to_code(vocab, key) {
        Some(c) => seq![c],
        None => seq![CODE_BEGIN_ASCII] + w + seq![CODE_END_ASCII],
    };
    head + mid + codes
}

#[via_fn]
proof fn spec_compress_body_decreases(vocab: Seq<Seq<u8>>, t: Seq<u8>, from: int) {
    lemma_first_space_bounds(t, from);
}

/// The encoded body from token start `from` on: each token's encoding
/// in order, with no separators between tokens.
pub open spec fn spec_compress_body(vocab: Seq<Seq<u8>>, t: Seq<u8>, from: int) -> Seq<u8>
    decreases t.len() - from,
    when 0 <= from <= t.len()
    via spec_compress_body_decreases
{
    let e = first_space(t, from);
    let tok = t.subrange(from, e);
    spec_encode_token(vocab, tok) + if e < t.len() {
        spec_compress_body(vocab, t, e + 1)
    } else {
        Seq::empty()
    }
}

/// The whole compressed stream for `t`: the 6-byte header, then the body.
pub open spec fn spec_compress(vocab: Seq<Seq<u8>>, t: Seq<u8>) -> Seq<u8> {
    spec_header() + spec_compress_body(vocab, t, 0)
}

/// Strips the maximal trailing run of punctuation glyphs off a token.
/// Returns the glyph codes in the order stripped (last character first)
/// and the bare remainder, or nothing when no glyph trails.
pub fn get_punct(s: &Vec<u8>, conv: &Words) -> (r: Option<(Vec<u8>, Vec<u8>)>)
    ensures
        match r {
            Some(p) => {
                &&& p.0@ == spec_strip_codes(conv@, s@)
                &&& p.1@ == spec_strip_bare(s@)
                &&& p.0@.len() > 0
            },
            None => {
                &&& spec_strip_codes(conv@, s@) == Seq::<u8>::empty()
                &&& spec_strip_bare(s@) == s@
            },
        },
{
    let mut v: Vec<u8> = Vec::new();
    let mut end: usize = s.len();
    proof {
        assert(s@.take(s@.len() as int) =~= s@);
    }
    while end > 0 && is_punct(s[end - 1])
        invariant
            end <= s.len(),
            spec_strip_codes(conv@, s@) == v@ + spec_strip_codes(conv@, s@.take(end as int)),
            spec_strip_bare(s@) == spec_strip_bare(s@.take(end as int)),
            v@.len() == s@.len() - end,
        decreases end,
    {
        let g = s[end - 1];
        proof {
            lemma_glyph_has_code(conv@, g);
            assert(s@.take(end as int).last() == g);
            assert(s@.take(end as int).drop_last() =~= s@.take(end as int - 1));
        }
        let mut gv: Vec<u8> = Vec::new();
        gv.push(g);
        proof {
            assert(gv@ =~= seq![g]);
        }
        let ghost v_before = v@;
        let code = conv.to_tpc(&gv).unwrap();
        v.push(code);
        proof {
            assert(spec_strip_codes(conv@, s@.take(end as int)) == seq![code]
                + spec_strip_codes(conv@, s@.take(end as int - 1)));
            assert(v_before + (seq![code] + spec_strip_codes(conv@, s@.take(end as int - 1)))
                =~= v_before.push(code) + spec_strip_codes(conv@, s@.take(end as int - 1)));
        }
        end = end - 1;
    }
    if v.len() > 0 {
        let mut bare: Vec<u8> = Vec::new();
        let mut k: usize = 0;
        while k < end
            invariant
                k <= end <= s.len(),
                bare@ == s@.take(k as int),
            decreases end - k,
        {
            bare.push(s[k]);
            proof {
                assert(s@.take(k as int + 1) =~= s@.take(k as int).push(s@[k as int]));
            }
            k += 1;
        }
        proof {
            assert(spec_strip_codes(conv@, s@.take(end as int)) == Seq::<u8>::empty());
            assert(spec_strip_bare(s@.take(end as int)) == s@.take(end as int));
            assert(v@ + Seq::<u8>::empty() =~= v@);
        }
        Some((v, bare))
    } else {
        proof {
            assert(v@ + spec_strip_codes(conv@, s@.take(end as int)) =~= spec_strip_codes(
                conv@,
                s@.take(end as int),
            ));
        }
        None
    }
}

/// ASCII-lowercases every byte of a word.
pub fn to_lower(v: &Vec<u8>) -> (r: Vec<u8>)
    ensures
        r@ == spec_lower(v@),
{
    let mut r: Vec<u8> = Vec::new();
    let mut i: usize = 0;
    while i < v.len()
        invariant
            i <= v.len(),
            r@ == spec_lower(v@.take(i as int)),
        decreases v.len() - i,
    {
        let b = v[i];
        if 0x41 <= b && b <= 0x5a {
            r.push(b + 0x20);
        } else {
            r.push(b);
        }
        proof {
            assert(spec_lower(v@.take(i as int + 1)) =~= spec_lower(v@.take(i as int)).push(
                if spec_is_upper(v@[i as int]) {
                    (v@[i as int] + 0x20) as u8
                } else {
                    v@[i as int]
                },
            ));
        }
        i += 1;
    }
    proof {
        assert(v@.take(v@.len() as int) =~= v@);
    }
    r
}

/// Appends the encoding of one token to the stream: the optional
/// `StartUppercase` marker, then the bare word's code or an escape
/// region with the original token's bytes, then the stripped glyph codes.
fn emit_token(conv: &Words, tok: &Vec<u8>, out: &mut Vec<u8>)
    ensures
        final(out)@ == old(out)@ + spec_encode_token(conv@, tok@),
{
    let ghost out_before = out@;
    let (end_codes, bare) = match get_punct(tok, conv) {
        Some(p) => p,
        None => {
            let b = copy_bytes(tok);
            (Vec::new(), b)
        },
    };
    let is_up = if bare.len() > 0 {
        0x41 <= bare[0] && bare[0] <= 0x5a
    } else {
        false
    };
    let ghost head: Seq<u8> = if is_up {
        seq![CODE_START_UPPERCASE]
    } else {
        Seq::empty()
    };
    if is_up {
        out.push(CODE_START_UPPERCASE);
    }
    let key = if is_up {
        to_lower(&bare)
    } else {
        bare
    };
    match conv.to_tpc(&key) {
        Some(code) => {
            out.push(code);
            proof {
                assert(out@ =~= out_before + head + seq![code]);
            }
        },
        None => {
            out.push(CODE_BEGIN_ASCII);
            let ghost out_mid = out@;
            let mut k2: usize = 0;
            proof {
                assert(out_mid + tok@.take(0) =~= out_mid);
            }
            while k2 < tok.len()
                invariant
                    k2 <= tok.len(),
                    out@ == out_mid + tok@.take(k2 as int),
                decreases tok.len() - k2,
            {
                out.push(tok[k2]);
                proof {
                    assert(tok@.take(k2 as int + 1) =~= tok@.take(k2 as int).push(
                        tok@[k2 as int],
                    ));
                    assert((out_mid + tok@.take(k2 as int)).push(tok@[k2 as int]) =~= out_mid
                        + tok@.take(k2 as int + 1));
                }
                k2 += 1;
            }
            out.push(CODE_END_ASCII);
            proof {
                assert(tok@.take(tok@.len() as int) =~= tok@);
                assert(out@ =~= out_before + head + (seq![CODE_BEGIN_ASCII] + tok@
                    + seq![CODE_END_ASCII]));
            }
        },
    }
    let ghost out_mid2 = out@;
    let mut k3: usize = 0;
    proof {
        assert(out_mid2 + end_codes@.take(0) =~= out_mid2);
    }
    while k3 < end_codes.len()
        invariant
            k3 <= end_codes.len(),
            out@ == out_mid2 + end_codes@.take(k3 as int),
        decreases end_codes.len() - k3,
    {
        out.push(end_codes[k3]);
        proof {
            assert(end_codes@.take(k3 as int + 1) =~= end_codes@.take(k3 as int).push(
                end_codes@[k3 as int],
            ));
            assert((out_mid2 + end_codes@.take(k3 as int)).push(end_codes@[k3 as int]) =~= out_mid2
                + end_codes@.take(k3 as int + 1));
        }
        k3 += 1;
    }
    proof {
        assert(end_codes@.take(end_codes@.len() as int) =~= end_codes@);
        assert(out@ =~= out_before + spec_encode_token(conv@, tok@));
    }
}

/// Compresses text into the binary stream: the 6-byte header, then each
/// space-separated token encoded in order, with no separator bytes.
pub fn compress(conv: &Words, text: &Vec<u8>) -> (out: Vec<u8>)
    requires
        text@.len() < usize::MAX,
    ensures
        out@ == spec_compress(conv@, text@),
{
    let mut out: Vec<u8> = Vec::new();
    out.push(TAG_0);
    out.push(TAG_1);
    out.push(TAG_2);
    out.push(VERSION_MAJOR);
    out.push(VERSION_MINOR);
    out.push(VERSION_PATCH);
    proof {
        assert(out@ =~= spec_header());
        assert(out@.skip(6) =~= Seq::<u8>::empty());
        assert(out@.take(6) =~= out@);
        assert(Seq::<u8>::empty() + spec_compress_body(conv@, text@, 0) =~= spec_compress_body(
            conv@,
            text@,
            0,
        ));
    }
    let mut i: usize = 0;
    while i <= text.len()
        invariant
            text@.len() < usize::MAX,
            i <= text@.len() + 1,
            out@.len() >= 6,
            out@.take(6) == spec_header(),
            i as int <= text@.len() ==> spec_compress_body(conv@, text@, 0) == out@.skip(6)
                + spec_compress_body(conv@, text@, i as int),
            i as int == text@.len() + 1 ==> spec_compress_body(conv@, text@, 0) == out@.skip(6),
        decreases text@.len() + 1 - i,
    {
        let mut e: usize = i;
        while e < text.len() && text[e] != SPACE
            invariant
                i <= e <= text.len(),
                first_space(text@, i as int) == first_space(text@, e as int),
            decreases text.len() - e,
        {
            e += 1;
        }
        proof {
            assert(first_space(text@, i as int) == e as int);
        }
        let mut tok: Vec<u8> = Vec::new();
        let mut k: usize = i;
        while k < e
            invariant
                i <= k <= e <= text.len(),
                tok@ == text@.subrange(i as int, k as int),
            decreases e - k,
        {
            tok.push(text[k]);
            proof {
                assert(text@.subrange(i as int, k as int + 1) =~= text@.subrange(
                    i as int,
                    k as int,
                ).push(text@[k as int]));
            }
            k += 1;
        }
        let ghost out_before = out@;
        emit_token(conv, &tok, &mut out);
        proof {
            assert(out@.take(6) =~= out_before.take(6));
            assert(out@.skip(6) =~= out_before.skip(6) + spec_encode_token(conv@, tok@));
            if (e as int) < text@.len() {
                assert(spec_compress_body(conv@, text@, i as int) == spec_encode_token(
                    conv@,
                    tok@,
                ) + spec_compress_body(conv@, text@, e as int + 1));
                assert(out@.skip(6) + spec_compress_body(conv@, text@, e as int + 1)
                    =~= out_before.skip(6) + spec_compress_body(conv@, text@, i as int));
            } else {
                assert(spec_compress_body(conv@, text@, i as int) == spec_encode_token(
                    conv@,
                    tok@,
                ) + Seq::<u8>::empty());
                assert(out@.skip(6) =~= out_before.skip(6) + spec_compress_body(
                    conv@,
                    text@,
                    i as int,
                ));
            }
        }
        i = e + 1;
    }
    proof {
        assert(out@ =~= out@.take(6) + out@.skip(6));
    }
    out
}

} // verus!
