//! The bidirectional code table: vocabulary words and reserved control
//! codes mapped to and from single bytes.

use vstd::prelude::*;

verus! {

/// Code reserved for the `BeginAscii` marker.
pub const CODE_BEGIN_ASCII: u8 = 0xff;

/// Code reserved for the `EndAscii` marker.
pub const CODE_END_ASCII: u8 = 0xfe;

/// Code reserved for the `StartUppercase` marker.
pub const CODE_START_UPPERCASE: u8 = 0xf8;

/// Smallest reserved code; everything below is available for vocabulary words.
pub const FIRST_RESERVED_CODE: u8 = 0xf6;

/// Usage-frequency tier of a vocabulary entry. Carried through from the
/// vocabulary source; it does not influence code assignment.
#[derive(Clone, Copy, PartialEq, Eq, Structural, Debug)]
pub enum Cat {
    Common,
    Core,
    Uncommon,
    Obscure,
}

/// One vocabulary entry: the word's UTF-8 bytes and its usage tier.
#[derive(Clone, Debug)]
pub struct Word {
    pub word: Vec<u8>,
    pub cat: Cat,
}

/// A control marker with no literal text of its own.
#[derive(Clone, Copy, PartialEq, Eq, Structural, Debug)]
pub enum Special {
    StartUppercase,
    BeginAscii,
    EndAscii,
}

/// What a single code stands for: either the text of a word (or
/// punctuation glyph), or a control marker.
#[derive(Clone, Debug)]
pub enum WordOrSpecial {
    Word(Vec<u8>),
    Special(Special),
}

/// Mathematical counterpart of [`WordOrSpecial`]: word text as a byte
/// sequence, markers as themselves.
pub enum Token {
    Word(Seq<u8>),
    Special(Special),
}

impl View for WordOrSpecial {
    type V = Token;

    open spec fn view(&self) -> Token {
        match self {
            WordOrSpecial::Word(w) => Token::Word(w@),
            WordOrSpecial::Special(s) => Token::Special(*s),
        }
    }
}

/// True of the seven punctuation/whitespace glyph bytes that carry
/// reserved codes: `. , : ! ? \n \t`.
pub open spec fn spec_is_punct(b: u8) -> bool {
    b == 0x2e || b == 0x2c || b == 0x3a || b == 0x21 || b == 0x3f || b == 0x0a || b == 0x09
}

/// Exec mirror of [`spec_is_punct`].
pub fn is_punct(b: u8) -> (r: bool)
    ensures
        r == spec_is_punct(b),
{
    b == 0x2e || b == 0x2c || b == 0x3a || b == 0x21 || b == 0x3f || b == 0x0a || b == 0x09
}

/// The glyph byte a reserved punctuation code stands for, if it is one.
pub open spec fn spec_glyph_of_code(c: u8) -> Option<u8> {
    if c == 0xfd {
        Some(0x2eu8)  // '.'
    } else if c == 0xfc {
        Some(0x2cu8)  // ','
    } else if c == 0xfb {
        Some(0x3au8)  // ':'
    } else if c == 0xfa {
        Some(0x21u8)  // '!'
    } else if c == 0xf9 {
        Some(0x3fu8)  // '?'
    } else if c == 0xf7 {
        Some(0x0au8)  // '\n'
    } else if c == 0xf6 {
        Some(0x09u8)  // '\t'
    } else {
        None
    }
}

/// Copies a byte vector element by element.
pub fn copy_bytes(v: &Vec<u8>) -> (r: Vec<u8>)
    ensures
        r@ == v@,
{
    let mut r: Vec<u8> = Vec::new();
    let mut i: usize = 0;
    while i < v.len()
        invariant
            i <= v.len(),
            r@ == v@.take(i as int),
        decreases v.len() - i,
    {
        r.push(v[i]);
        proof {
            assert(v@.take(i as int + 1) =~= v@.take(i as int).push(v@[i as int]));
        }
        i += 1;
    }
    proof {
        assert(v@.take(v@.len() as int) =~= v@);
    }
    r
}

/// Compares two byte vectors for equality of contents.
pub fn bytes_eq(a: &Vec<u8>, b: &Vec<u8>) -> (r: bool)
    ensures
        r <==> a@ == b@,
{
    if a.len() != b.len() {
        return false;
    }
    let mut i: usize = 0;
    while i < a.len()
        invariant
            i <= a.len(),
            a.len() == b.len(),
            forall|j: int| 0 <= j < i ==> a@[j] == b@[j],
        decreases a.len() - i,
    {
        if a[i] != b[i] {
            return false;
        }
        i += 1;
    }
    proof {
        assert(a@ =~= b@);
    }
    true
}

/// Byte-wise lexicographic order on byte sequences; a strict prefix
/// comes before any extension of it. This is the order `sort` on Rust
/// strings or byte slices uses.
pub open spec fn lex_leq(a: Seq<u8>, b: Seq<u8>) -> bool
    decreases a.len(),
{
    if a.len() == 0 {
        true
    } else if b.len() == 0 {
        false
    } else if a[0] < b[0] {
        true
    } else if a[0] > b[0] {
        false
    } else {
        lex_leq(a.drop_first(), b.drop_first())
    }
}

/// [`lex_leq`] as a first-class relation, for the sorting vocabulary of vstd.
pub open spec fn lex_leq_fn() -> spec_fn(Seq<u8>, Seq<u8>) -> bool {
    |a: Seq<u8>, b: Seq<u8>| lex_leq(a, b)
}

pub proof fn lemma_lex_refl(a: Seq<u8>)
    ensures
        lex_leq(a, a),
    decreases a.len(),
{
    if a.len() > 0 {
        lemma_lex_refl(a.drop_first());
    }
}

pub proof fn lemma_lex_total(a: Seq<u8>, b: Seq<u8>)
    ensures
        lex_leq(a, b) || lex_leq(b, a),
    decreases a.len(),
{
    if a.len() > 0 && b.len() > 0 && a[0] == b[0] {
        lemma_lex_total(a.drop_first(), b.drop_first());
    }
}

pub proof fn lemma_lex_antisym(a: Seq<u8>, b: Seq<u8>)
    requires
        lex_leq(a, b),
        lex_leq(b, a),
    ensures
        a == b,
    decreases a.len(),
{
    if a.len() == 0 {
        assert(b.len() == 0);
        assert(a =~= b);
    } else {
        assert(a[0] == b[0]);
        lemma_lex_antisym(a.drop_first(), b.drop_first());
        assert(a.drop_first() == b.drop_first());
        assert(a.drop_first().len() == a.len() - 1);
        assert(b.drop_first().len() == b.len() - 1);
        assert(a =~= b) by {
            assert(forall|i: int|
                1 <= i < a.len() ==> a[i] == a.drop_first()[i - 1] && b[i] == b.drop_first()[i
                    - 1]);
        }
    }
}

pub proof fn lemma_lex_trans(a: Seq<u8>, b: Seq<u8>, c: Seq<u8>)
    requires
        lex_leq(a, b),
        lex_leq(b, c),
    ensures
        lex_leq(a, c),
    decreases a.len(),
{
    if a.len() > 0 && b.len() > 0 && c.len() > 0 && a[0] == b[0] && b[0] == c[0] {
        lemma_lex_trans(a.drop_first(), b.drop_first(), c.drop_first());
    }
}

/// Byte-wise lexicographic order is a total order.
pub proof fn lemma_lex_total_ordering()
    ensures
        vstd::relations::total_ordering(lex_leq_fn()),
{
    let leq = lex_leq_fn();
    assert forall|x: Seq<u8>| #[trigger] leq(x, x) by {
        lemma_lex_refl(x);
    }
    assert forall|x: Seq<u8>, y: Seq<u8>| #[trigger] leq(x, y) && #[trigger] leq(y, x) implies x
        == y by {
        lemma_lex_antisym(x, y);
    }
    assert forall|x: Seq<u8>, y: Seq<u8>, z: Seq<u8>|
        #[trigger] leq(x, y) && #[trigger] leq(y, z) implies leq(x, z) by {
        lemma_lex_trans(x, y, z);
    }
    assert forall|x: Seq<u8>, y: Seq<u8>| #[trigger] leq(x, y) || #[trigger] leq(y, x) by {
        lemma_lex_total(x, y);
    }
}

/// Exec mirror of [`lex_leq`].
pub fn lex_le(a: &Vec<u8>, b: &Vec<u8>) -> (r: bool)
    ensures
        r == lex_leq(a@, b@),
{
    let mut i: usize = 0;
    proof {
        assert(a@.skip(0) =~= a@);
        assert(b@.skip(0) =~= b@);
    }
    while i < a.len() && i < b.len()
        invariant
            i <= a.len(),
            i <= b.len(),
            lex_leq(a@, b@) == lex_leq(a@.skip(i as int), b@.skip(i as int)),
        decreases a.len() - i,
    {
        if a[i] < b[i] {
            return true;
        }
        if a[i] > b[i] {
            return false;
        }
        proof {
            assert(a@.skip(i as int).drop_first() =~= a@.skip(i as int + 1));
            assert(b@.skip(i as int).drop_first() =~= b@.skip(i as int + 1));
        }
        i += 1;
    }
    i >= a.len()
}

/// The code table. The vocabulary words stand in ascending lexicographic
/// order; a word's index is its code. Reserved codes (`0xf6..=0xff`)
/// always win over a vocabulary rank, so a vocabulary larger than `0xf6`
/// entries silently loses the words ranked past that point.
pub struct Words {
    pub vocab: Vec<Vec<u8>>,
}

/// The contents of a list of byte vectors, as a sequence of sequences.
pub open spec fn views_of(s: Seq<Vec<u8>>) -> Seq<Seq<u8>> {
    Seq::new(s.len(), |i: int| s[i]@)
}

impl View for Words {
    type V = Seq<Seq<u8>>;

    open spec fn view(&self) -> Seq<Seq<u8>> {
        views_of(self.vocab@)
    }
}

/// What a code resolves to: the `from_code` direction of the table.
pub open spec fn spec_from_code(vocab: Seq<Seq<u8>>, c: u8) -> Option<Token> {
    if c == CODE_BEGIN_ASCII {
        Some(Token::Special(Special::BeginAscii))
    } else if c == CODE_END_ASCII {
        Some(Token::Special(Special::EndAscii))
    } else if c == CODE_START_UPPERCASE {
        Some(Token::Special(Special::StartUppercase))
    } else if spec_glyph_of_code(c) is Some {
        Some(Token::Word(seq![spec_glyph_of_code(c)->Some_0]))
    } else if (c as int) < vocab.len() {
        Some(Token::Word(vocab[c as int]))
    } else {
        None
    }
}

/// The smallest code at or past `c` whose entry is the word `w`.
pub open spec fn spec_to_code_from(vocab: Seq<Seq<u8>>, w: Seq<u8>, c: int) -> Option<u8>
    decreases 256 - c,
    when 0 <= c <= 256
{
    if c >= 256 {
        None
    } else if spec_from_code(vocab, c as u8) == Some(Token::Word(w)) {
        Some(c as u8)
    } else {
        spec_to_code_from(vocab, w, c + 1)
    }
}

/// The `to_code` direction of the table for word text `w`: the smallest
/// code whose entry is `w`.
pub open spec fn spec_to_code(vocab: Seq<Seq<u8>>, w: Seq<u8>) -> Option<u8> {
    spec_to_code_from(vocab, w, 0)
}

impl Words {
    /// Resolves a code, the `from_code` lookup of the table.
    pub fn from_tpc(&self, c: u8) -> (r: Option<WordOrSpecial>)
        ensures
            match r {
                Some(t) => spec_from_code(self@, c) == Some(t@),
                None => spec_from_code(self@, c) is None,
            },
    {
        if c == CODE_BEGIN_ASCII {
            Some(WordOrSpecial::Special(Special::BeginAscii))
        } else if c == CODE_END_ASCII {
            Some(WordOrSpecial::Special(Special::EndAscii))
        } else if c == CODE_START_UPPERCASE {
            Some(WordOrSpecial::Special(Special::StartUppercase))
        } else if c >= FIRST_RESERVED_CODE {
            let g: u8 = if c == 0xfd {
                0x2e
            } else if c == 0xfc {
                0x2c
            } else if c == 0xfb {
                0x3a
            } else if c == 0xfa {
                0x21
            } else if c == 0xf9 {
                0x3f
            } else if c == 0xf7 {
                0x0a
            } else {
                0x09
            };
            let mut v: Vec<u8> = Vec::new();
            v.push(g);
            proof {
                assert(v@ =~= seq![g]);
                assert(spec_glyph_of_code(c) == Some(g));
            }
            Some(WordOrSpecial::Word(v))
        } else if (c as usize) < self.vocab.len() {
            let w = copy_bytes(&self.vocab[c as usize]);
            proof {
                assert(self@[c as int] == views_of(self.vocab@)[c as int]);
            }
            Some(WordOrSpecial::Word(w))
        } else {
            None
        }
    }

    /// Finds the code of a word text, the `to_code` direction of the table:
    /// the smallest code whose entry is that text.
    pub fn to_tpc(&self, w: &Vec<u8>) -> (r: Option<u8>)
        ensures
            r == spec_to_code(self@, w@),
    {
        let mut c: usize = 0;
        while c < 256
            invariant
                0 <= c <= 256,
                spec_to_code(self@, w@) == spec_to_code_from(self@, w@, c as int),
            decreases 256 - c,
        {
            match self.from_tpc(c as u8) {
                Some(WordOrSpecial::Word(t)) => {
                    if bytes_eq(&t, w) {
                        return Some(c as u8);
                    }
                },
                _ => {},
            }
            c += 1;
        }
        None
    }
}

/// The word texts of a vocabulary list, in the order given.
pub open spec fn texts_of(ws: Seq<Word>) -> Seq<Seq<u8>> {
    ws.map_values(|w: Word| w.word@)
}

proof fn lemma_insert_to_multiset(s: Seq<Seq<u8>>, i: int, x: Seq<u8>)
    requires
        0 <= i <= s.len(),
    ensures
        s.insert(i, x).to_multiset() == s.to_multiset().insert(x),
{
    broadcast use vstd::multiset::group_multiset_axioms;

    let a = s.subrange(0, i);
    let b = s.subrange(i, s.len() as int);
    assert(s =~= a + b);
    vstd::seq_lib::lemma_multiset_commutative(a, b);
    a.to_multiset_ensures();
    assert(a.push(x).to_multiset() == a.to_multiset().insert(x));
    vstd::seq_lib::lemma_multiset_commutative(a.push(x), b);
    assert(s.insert(i, x).to_multiset() =~= s.to_multiset().insert(x));
}

/// Builds the code table from a vocabulary: collects the word texts,
/// sorts them in ascending lexicographic order, and assigns each its
/// rank as its code. The reserved codes are fixed and need no storage.
/// Any two vocabularies holding the same words, in whatever order,
/// yield the same table.
pub fn gen_conversions(words: Vec<Word>) -> (r: Words)
    ensures
        r@ == texts_of(words@).sort_by(lex_leq_fn()),
{
    let mut sorted: Vec<Vec<u8>> = Vec::new();
    let mut i: usize = 0;
    proof {
        assert(views_of(sorted@) =~= texts_of(words@.take(0)));
    }
    while i < words.len()
        invariant
            i <= words.len(),
            vstd::relations::sorted_by(views_of(sorted@), lex_leq_fn()),
            views_of(sorted@).to_multiset() == texts_of(words@.take(i as int)).to_multiset(),
        decreases words.len() - i,
    {
        let w = copy_bytes(&words[i].word);
        let mut j: usize = 0;
        while j < sorted.len() && lex_le(&sorted[j], &w)
            invariant
                j <= sorted.len(),
                forall|k: int| 0 <= k < j ==> lex_leq(views_of(sorted@)[k], w@),
            decreases sorted.len() - j,
        {
            j += 1;
        }
        let ghost prev_s: Seq<Vec<u8>> = sorted@;
        let ghost prev_dv: Seq<Seq<u8>> = views_of(prev_s);
        proof {
            assert forall|k: int| j <= k < prev_dv.len() implies lex_leq(w@, prev_dv[k]) by {
                lemma_lex_total(prev_dv[j as int], w@);
                if k > j {
                    assert(lex_leq_fn()(prev_dv[j as int], prev_dv[k]));
                    lemma_lex_trans(w@, prev_dv[j as int], prev_dv[k]);
                }
            }
        }
        sorted.insert(j, w);
        proof {
            let new_dv = prev_dv.insert(j as int, w@);
            prev_s.insert_ensures(j as int, w);
            prev_dv.insert_ensures(j as int, w@);
            assert(views_of(sorted@) =~= new_dv);
            assert forall|p: int, q: int| 0 <= p < q < new_dv.len() implies lex_leq_fn()(
                new_dv[p],
                new_dv[q],
            ) by {
                let jj = j as int;
                if q < jj {
                    assert(lex_leq_fn()(prev_dv[p], prev_dv[q]));
                } else if q == jj {
                    assert(lex_leq(prev_dv[p], w@));
                } else if p < jj {
                    if p == q - 1 {
                    } else {
                        assert(lex_leq_fn()(prev_dv[p], prev_dv[q - 1]));
                    }
                } else if p == jj {
                    assert(lex_leq(w@, prev_dv[q - 1]));
                } else {
                    assert(lex_leq_fn()(prev_dv[p - 1], prev_dv[q - 1]));
                }
            }
            lemma_insert_to_multiset(prev_dv, j as int, w@);
            assert(texts_of(words@.take(i as int + 1)) =~= texts_of(words@.take(i as int)).push(
                words@[i as int].word@,
            ));
            texts_of(words@.take(i as int)).to_multiset_ensures();
        }
        i += 1;
    }
    proof {
        assert(words@.take(words@.len() as int) =~= words@);
        let texts = texts_of(words@);
        lemma_lex_total_ordering();
        texts.lemma_sort_by_ensures(lex_leq_fn());
        vstd::seq_lib::lemma_sorted_unique(
            views_of(sorted@),
            texts.sort_by(lex_leq_fn()),
            lex_leq_fn(),
        );
    }
    Words { vocab: sorted }
}

/// Building the table is deterministic: two vocabularies holding the
/// same words, in whatever order, yield the same table, and with it the
/// same `from_code` and `to_code` mappings.
pub proof fn lemma_gen_deterministic(a: Seq<Word>, b: Seq<Word>)
    requires
        texts_of(a).to_multiset() == texts_of(b).to_multiset(),
    ensures
        texts_of(a).sort_by(lex_leq_fn()) == texts_of(b).sort_by(lex_leq_fn()),
        forall|c: u8|
            spec_from_code(texts_of(a).sort_by(lex_leq_fn()), c) == spec_from_code(
                texts_of(b).sort_by(lex_leq_fn()),
                c,
            ),
        forall|w: Seq<u8>|
            spec_to_code(texts_of(a).sort_by(lex_leq_fn()), w) == spec_to_code(
                texts_of(b).sort_by(lex_leq_fn()),
                w,
            ),
{
    lemma_lex_total_ordering();
    texts_of(a).lemma_sort_by_ensures(lex_leq_fn());
    texts_of(b).lemma_sort_by_ensures(lex_leq_fn());
    vstd::seq_lib::lemma_sorted_unique(
        texts_of(a).sort_by(lex_leq_fn()),
        texts_of(b).sort_by(lex_leq_fn()),
        lex_leq_fn(),
    );
}

proof fn lemma_to_code_from_sound(vocab: Seq<Seq<u8>>, w: Seq<u8>, k: int)
    requires
        0 <= k <= 256,
    ensures
        match spec_to_code_from(vocab, w, k) {
            Some(c) => spec_from_code(vocab, c) == Some(Token::Word(w)) && k <= c as int,
            None => true,
        },
    decreases 256 - k,
{
    if k < 256 && spec_from_code(vocab, k as u8) != Some(Token::Word(w)) {
        lemma_to_code_from_sound(vocab, w, k + 1);
    }
}

/// The `to_code` mapping is sound: a word's code resolves back to that
/// word under `from_code`.
pub proof fn lemma_to_code_sound(vocab: Seq<Seq<u8>>, w: Seq<u8>)
    ensures
        match spec_to_code(vocab, w) {
            Some(c) => spec_from_code(vocab, c) == Some(Token::Word(w)),
            None => true,
        },
{
    lemma_to_code_from_sound(vocab, w, 0);
}

proof fn lemma_to_code_from_exists(vocab: Seq<Seq<u8>>, w: Seq<u8>, k: int, c: u8)
    requires
        0 <= k <= c as int,
        spec_from_code(vocab, c) == Some(Token::Word(w)),
    ensures
        spec_to_code_from(vocab, w, k) is Some,
    decreases 256 - k,
{
    if spec_from_code(vocab, k as u8) != Some(Token::Word(w)) {
        lemma_to_code_from_exists(vocab, w, k + 1, c);
    }
}

/// Every punctuation glyph always has a code: at worst its reserved one.
pub proof fn lemma_glyph_has_code(vocab: Seq<Seq<u8>>, g: u8)
    requires
        spec_is_punct(g),
    ensures
        spec_to_code(vocab, seq![g]) is Some,
{
    let c: u8 = if g == 0x2e {
        0xfd
    } else if g == 0x2c {
        0xfc
    } else if g == 0x3a {
        0xfb
    } else if g == 0x21 {
        0xfa
    } else if g == 0x3f {
        0xf9
    } else if g == 0x0a {
        0xf7
    } else {
        0xf6
    };
    assert(spec_from_code(vocab, c) == Some(Token::Word(seq![g])));
    lemma_to_code_from_exists(vocab, seq![g], 0, c);
}

proof fn lemma_to_code_from_finds(vocab: Seq<Seq<u8>>, w: Seq<u8>, k: int, c: u8)
    requires
        0 <= k <= c as int,
        spec_from_code(vocab, c) == Some(Token::Word(w)),
        forall|d: u8|
            k <= d as int && d != c ==> spec_from_code(vocab, d) != Some(Token::Word(w)),
    ensures
        spec_to_code_from(vocab, w, k) == Some(c),
    decreases 256 - k,
{
    if k < c as int {
        assert(spec_from_code(vocab, k as u8) != Some(Token::Word(w)));
        lemma_to_code_from_finds(vocab, w, k + 1, c);
    }
}

/// Code-table bijectivity: when the vocabulary's words are pairwise
/// distinct and none spells a single reserved punctuation glyph, every
/// word code present in `from_code` is mapped back to itself by
/// `to_code`. (The three markers carry fixed codes of their own.)
pub proof fn lemma_code_table_bijective(vocab: Seq<Seq<u8>>, c: u8)
    requires
        forall|p: int, q: int| 0 <= p < q < vocab.len() ==> vocab[p] != vocab[q],
        forall|p: int|
            0 <= p < vocab.len() ==> !(#[trigger] vocab[p].len() == 1 && spec_is_punct(
                vocab[p][0],
            )),
    ensures
        match spec_from_code(vocab, c) {
            Some(Token::Word(w)) => spec_to_code(vocab, w) == Some(c),
            _ => true,
        },
{
    match spec_from_code(vocab, c) {
        Some(Token::Word(w)) => {
            assert forall|d: u8| d != c implies spec_from_code(vocab, d) != Some(
                Token::Word(w),
            ) by {
                if spec_from_code(vocab, d) == Some(Token::Word(w)) {
                    if spec_glyph_of_code(c) is Some && spec_glyph_of_code(d) is Some {
                        assert(w[0] == spec_glyph_of_code(c)->Some_0);
                        assert(w[0] == spec_glyph_of_code(d)->Some_0);
                    } else if spec_glyph_of_code(c) is Some {
                        assert(vocab[d as int] == w && w =~= seq![spec_glyph_of_code(c)->Some_0]);
                        assert(vocab[d as int].len() == 1 && spec_is_punct(vocab[d as int][0]));
                    } else if spec_glyph_of_code(d) is Some {
                        assert(vocab[c as int] == w && w =~= seq![spec_glyph_of_code(d)->Some_0]);
                        assert(vocab[c as int].len() == 1 && spec_is_punct(vocab[c as int][0]));
                    } else {
                        if (c as int) < (d as int) {
                            assert(vocab[c as int] != vocab[d as int]);
                        } else {
                            assert(vocab[d as int] != vocab[c as int]);
                        }
                    }
                }
            }
            lemma_to_code_from_finds(vocab, w, 0, c);
        },
        _ => {},
    }
}

} // verus!
