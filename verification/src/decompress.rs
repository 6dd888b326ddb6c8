//! The decompressor: verifies the header, resolves codes, reconstructs
//! spacing and capitalization, and decodes escape regions.

use vstd::prelude::*;

use crate::compress::SPACE;
use crate::table::is_punct;
use crate::table::copy_bytes;
use crate::table::spec_from_code;
use crate::table::spec_is_punct;
use crate::table::Special;
use crate::table::Token;
use crate::table::WordOrSpecial;
use crate::table::Words;
use crate::table::CODE_END_ASCII;
use crate::TAG_0;
use crate::TAG_1;
use crate::TAG_2;

verus! {

/// Why decompression failed. Every failure aborts the whole operation;
/// there is no partial output.
#[derive(Clone, Copy, PartialEq, Eq, Structural, Debug)]
pub enum TpcError {
    /// The stream is shorter than the header, or does not start with the tag.
    Format,
    /// A `StartUppercase` marker is not followed by a word code.
    UppercaseWithoutWord,
    /// The stream ends inside an open escape region.
    UnterminatedEscape,
    /// A byte inside an escape region is not ASCII.
    InvalidEscapeByte,
    /// An `EndAscii` marker with no open escape region before it.
    EndBeforeBegin,
}

/// The separator the spacing rule inserts before a word decoded at
/// stream position `i`: none before the very first token (position 6,
/// right after the header) and none when the word itself starts with a
/// punctuation glyph, so that punctuation attaches to the word before it.
pub open spec fn spec_spacing(w: Seq<u8>, i: int) -> Seq<u8> {
    if i != 6 && !(w.len() > 0 && spec_is_punct(w[0])) {
        seq![SPACE]
    } else {
        Seq::empty()
    }
}

/// A word with only its first character uppercased (ASCII).
pub open spec fn spec_first_upper(w: Seq<u8>) -> Seq<u8> {
    if w.len() > 0 && 0x61 <= w[0] <= 0x7a {
        seq![(w[0] - 0x20) as u8] + w.drop_first()
    } else {
        w
    }
}

/// The decoded text from stream position `i` on. `esc` says whether an
/// escape region is open there. A byte with no table entry is silently
/// skipped; structural violations end the whole decode with an error.
pub open spec fn spec_decode(vocab: Seq<Seq<u8>>, data: Seq<u8>, i: int, esc: bool) -> Result<
    Seq<u8>,
    TpcError,
>
    decreases data.len() - i,
{
    if i >= data.len() {
        if esc {
            Err(TpcError::UnterminatedEscape)
        } else {
            Ok(Seq::empty())
        }
    } else if esc {
        let b = data[i];
        if b == CODE_END_ASCII {
            spec_decode(vocab, data, i + 1, false)
        } else if b >= 0x80 {
            Err(TpcError::InvalidEscapeByte)
        } else {
            match spec_decode(vocab, data, i + 1, true) {
                Ok(rest) => Ok(seq![b] + rest),
                Err(e) => Err(e),
            }
        }
    } else {
        match spec_from_code(vocab, data[i]) {
            None => spec_decode(vocab, data, i + 1, false),
            Some(Token::Word(w)) => match spec_decode(vocab, data, i + 1, false) {
                Ok(rest) => Ok(spec_spacing(w, i) + w + rest),
                Err(e) => Err(e),
            },
            Some(Token::Special(Special::StartUppercase)) => {
                if i + 1 >= data.len() {
                    Err(TpcError::UppercaseWithoutWord)
                } else {
                    match spec_from_code(vocab, data[i + 1]) {
                        Some(Token::Word(w)) => match spec_decode(vocab, data, i + 2, false) {
                            Ok(rest) => Ok(spec_spacing(w, i) + spec_first_upper(w) + rest),
                            Err(e) => Err(e),
                        },
                        _ => Err(TpcError::UppercaseWithoutWord),
                    }
                }
            },
            Some(Token::Special(Special::BeginAscii)) => {
                let sp: Seq<u8> = if i != 6 {
                    seq![SPACE]
                } else {
                    Seq::empty()
                };
                match spec_decode(vocab, data, i + 1, true) {
                    Ok(rest) => Ok(sp + rest),
                    Err(e) => Err(e),
                }
            },
            Some(Token::Special(Special::EndAscii)) => Err(TpcError::EndBeforeBegin),
        }
    }
}

/// True when the stream is at least a header long and starts with the tag.
pub open spec fn spec_header_ok(data: Seq<u8>) -> bool {
    data.len() >= 6 && data[0] == TAG_0 && data[1] == TAG_1 && data[2] == TAG_2
}

/// The decoded text for a whole stream, or the error that aborts it.
pub open spec fn spec_decompress(vocab: Seq<Seq<u8>>, data: Seq<u8>) -> Result<Seq<u8>, TpcError> {
    if !spec_header_ok(data) {
        Err(TpcError::Format)
    } else {
        spec_decode(vocab, data, 6, false)
    }
}

/// Verifies the 6-byte header: the tag must match; the version triple is
/// consumed but not checked. On success the position advances past it.
pub fn verify(i: &mut usize, data: &Vec<u8>) -> (r: Result<(), TpcError>)
    requires
        *old(i) <= usize::MAX - 6,
    ensures
        match r {
            Ok(()) => spec_header_ok(data@) && *final(i) == *old(i) + 6,
            Err(e) => e == TpcError::Format && !spec_header_ok(data@) && *final(i) == *old(i),
        },
{
    if data.len() < 6 {
        return Err(TpcError::Format);
    }
    if data[0] != TAG_0 || data[1] != TAG_1 || data[2] != TAG_2 {
        return Err(TpcError::Format);
    }
    *i = *i + 6;
    Ok(())
}

/// A word with only its first character uppercased (ASCII); the rest of
/// the word is unchanged.
pub fn first_uppercase(s: &Vec<u8>) -> (r: Vec<u8>)
    ensures
        r@ == spec_first_upper(s@),
{
    let mut r = copy_bytes(s);
    if r.len() > 0 && 0x61 <= r[0] && r[0] <= 0x7a {
        let b = r[0] - 0x20;
        r.set(0, b);
        proof {
            assert(r@ =~= spec_first_upper(s@));
        }
    }
    r
}

/// Appends all of `w` to `out`.
fn push_all(out: &mut Vec<u8>, w: &Vec<u8>)
    ensures
        final(out)@ == old(out)@ + w@,
{
    let ghost out_before = out@;
    let mut k: usize = 0;
    proof {
        assert(out_before + w@.take(0) =~= out_before);
    }
    while k < w.len()
        invariant
            k <= w.len(),
            out@ == out_before + w@.take(k as int),
        decreases w.len() - k,
    {
        out.push(w[k]);
        proof {
            assert(w@.take(k as int + 1) =~= w@.take(k as int).push(w@[k as int]));
            assert((out_before + w@.take(k as int)).push(w@[k as int]) =~= out_before + w@.take(
                k as int + 1,
            ));
        }
        k += 1;
    }
    proof {
        assert(w@.take(w@.len() as int) =~= w@);
    }
}

/// Decompresses a stream: verifies the header, then resolves each code
/// of the body into words, spacing, capitalization and escape regions.
/// The version bytes are consumed but not checked, and a byte with no
/// table entry is silently skipped; structural violations abort the
/// whole operation with an error and no partial output.
pub fn decompress(conv: &Words, data: &Vec<u8>) -> (r: Result<Vec<u8>, TpcError>)
    ensures
        match r {
            Ok(v) => spec_decompress(conv@, data@) == Ok::<Seq<u8>, TpcError>(v@),
            Err(e) => spec_decompress(conv@, data@) == Err::<Seq<u8>, TpcError>(e),
        },
{
    let mut i: usize = 0;
    match verify(&mut i, data) {
        Ok(()) => {},
        Err(e) => {
            return Err(e);
        },
    }
    let mut out: Vec<u8> = Vec::new();
    proof {
        match spec_decode(conv@, data@, 6, false) {
            Ok(rest) => {
                assert(Seq::<u8>::empty() + rest =~= rest);
            },
            Err(_) => {},
        }
    }
    while i < data.len()
        invariant
            6 <= i <= data@.len(),
            spec_header_ok(data@),
            match spec_decode(conv@, data@, i as int, false) {
                Ok(rest) => spec_decode(conv@, data@, 6, false) == Ok::<Seq<u8>, TpcError>(
                    out@ + rest,
                ),
                Err(e) => spec_decode(conv@, data@, 6, false) == Err::<Seq<u8>, TpcError>(e),
            },
        decreases data@.len() - i,
    {
        let byte = data[i];
        match conv.from_tpc(byte) {
            None => {
                i += 1;
            },
            Some(WordOrSpecial::Word(w)) => {
                let ghost out0 = out@;
                let ghost sp = spec_spacing(w@, i as int);
                if i != 6 && !(w.len() > 0 && is_punct(w[0])) {
                    out.push(SPACE);
                }
                proof {
                    assert(out@ =~= out0 + sp);
                }
                push_all(&mut out, &w);
                proof {
                    assert(out@ =~= out0 + (sp + w@));
                    match spec_decode(conv@, data@, i as int + 1, false) {
                        Ok(rest) => {
                            assert(out0 + (sp + w@ + rest) =~= out@ + rest);
                        },
                        Err(_) => {},
                    }
                }
                i += 1;
            },
            Some(WordOrSpecial::Special(Special::StartUppercase)) => {
                if i + 1 >= data.len() {
                    return Err(TpcError::UppercaseWithoutWord);
                }
                let next = data[i + 1];
                match conv.from_tpc(next) {
                    Some(WordOrSpecial::Word(w)) => {
                        let ghost out0 = out@;
                        let ghost sp = spec_spacing(w@, i as int);
                        if i != 6 && !(w.len() > 0 && is_punct(w[0])) {
                            out.push(SPACE);
                        }
                        proof {
                            assert(out@ =~= out0 + sp);
                        }
                        let cap = first_uppercase(&w);
                        push_all(&mut out, &cap);
                        proof {
                            assert(out@ =~= out0 + (sp + spec_first_upper(w@)));
                            match spec_decode(conv@, data@, i as int + 2, false) {
                                Ok(rest) => {
                                    assert(out0 + (sp + spec_first_upper(w@) + rest) =~= out@
                                        + rest);
                                },
                                Err(_) => {},
                            }
                        }
                        i += 2;
                    },
                    _ => {
                        return Err(TpcError::UppercaseWithoutWord);
                    },
                }
            },
            Some(WordOrSpecial::Special(Special::BeginAscii)) => {
                let ghost i0 = i as int;
                let ghost out0 = out@;
                let ghost sp: Seq<u8> = if i as int != 6 {
                    seq![SPACE]
                } else {
                    Seq::empty()
                };
                if i != 6 {
                    out.push(SPACE);
                }
                proof {
                    assert(out@ =~= out0 + sp);
                    match spec_decode(conv@, data@, i as int + 1, true) {
                        Ok(rest) => {
                            assert(out0 + (sp + rest) =~= out@ + rest);
                        },
                        Err(_) => {},
                    }
                }
                i += 1;
                while i < data.len() && data[i] != CODE_END_ASCII && data[i] < 0x80
                    invariant
                        6 <= i0 < i <= data@.len(),
                        match spec_decode(conv@, data@, i as int, true) {
                            Ok(rest) => spec_decode(conv@, data@, 6, false) == Ok::<
                                Seq<u8>,
                                TpcError,
                            >(out@ + rest),
                            Err(e) => spec_decode(conv@, data@, 6, false) == Err::<
                                Seq<u8>,
                                TpcError,
                            >(e),
                        },
                    decreases data@.len() - i,
                {
                    let ghost out1 = out@;
                    out.push(data[i]);
                    proof {
                        match spec_decode(conv@, data@, i as int + 1, true) {
                            Ok(rest) => {
                                assert(out1 + (seq![data@[i as int]] + rest) =~= out@ + rest);
                            },
                            Err(_) => {},
                        }
                    }
                    i += 1;
                }
                if i >= data.len() {
                    return Err(TpcError::UnterminatedEscape);
                }
                if data[i] == CODE_END_ASCII {
                    i += 1;
                } else {
                    return Err(TpcError::InvalidEscapeByte);
                }
            },
            Some(WordOrSpecial::Special(Special::EndAscii)) => {
                return Err(TpcError::EndBeforeBegin);
            },
        }
    }
    proof {
        assert(out@ + Seq::<u8>::empty() =~= out@);
    }
    Ok(out)
}

/// Header rejection: a stream shorter than the header, or whose first
/// three bytes are not the literal tag, fails with a format error and
/// produces no output at all.
pub proof fn lemma_header_rejection(vocab: Seq<Seq<u8>>, data: Seq<u8>)
    requires
        !spec_header_ok(data),
    ensures
        spec_decompress(vocab, data) == Err::<Seq<u8>, TpcError>(TpcError::Format),
{
}

} // verus!
