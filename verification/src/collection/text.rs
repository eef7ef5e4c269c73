//! Text analysis for full-text search: tokenizer and stemmer.
//!
//! * Lower-cases with full Unicode case mapping.
//! * Splits on anything that is not alphanumeric, so it works for every
//!   space-separated script (Latin, Cyrillic, Greek, Arabic, Devanagari, ...).
//! * Han, Hiragana, Katakana and Hangul are written without spaces, so runs of
//!   those characters are indexed as overlapping **bigrams** (and a lone
//!   character as a unigram) — the standard dictionary-free approach, which
//!   makes CJK text searchable at all.
//! * Drops a small set of English stopwords and applies a conservative plural
//!   stemmer (the Harman "S" stemmer), so `databases` matches `database`
//!   without the aggressive conflations of Porter-style stemming.
//!
//! The same analysis runs at index and query time.

use crate::bytes::{copy_bytes, same};
use crate::collection::filter::is_text;
use crate::ordered::{
    ascending, byte_lists, lemma_ascending_distinct, lemma_insert_ascends, lemma_push_to_set,
    lemma_rank_is_place, seek,
};
use vstd::prelude::*;
use vstd::utf8::*;

verus! {

/// Longest token indexed, in characters. Longer runs are usually hashes,
/// base64 or URLs, which only bloat the index.
pub const MAX_TOKEN_CHARS: usize = 40;

/// What kind of text a character belongs to.
#[derive(Debug, Clone, Copy, PartialEq, Eq, Structural)]
pub enum Class {
    /// A script written without spaces between words.
    Cjk,
    /// Any other letter or digit.
    Word,
    /// Everything else.
    Gap,
}

/// What `char::is_alphanumeric` says of a character.
pub uninterp spec fn alphanumeric(c: char) -> bool;

/// What `char::is_whitespace` says of a character.
pub uninterp spec fn white_space(c: char) -> bool;

/// The characters that `char::to_lowercase` gives for a character.
pub uninterp spec fn lowercase(c: char) -> Seq<char>;

/// Whether no character is NUL.
pub open spec fn nul_free(s: Seq<char>) -> bool {
    forall|i: int| 0 <= i < s.len() ==> #[trigger] s[i] as u32 != 0
}

/// Calls `char::is_alphanumeric`: letters and numbers as Unicode has them, of
/// which NUL, a control character, is none.
#[verifier::external_body]
fn is_alphanumeric(c: char) -> (r: bool)
    ensures
        r == alphanumeric(c),
        r ==> c as u32 != 0,
{
    c.is_alphanumeric()
}

/// Calls `char::is_whitespace`: white space as Unicode has it.
#[verifier::external_body]
fn is_whitespace(c: char) -> (r: bool)
    ensures
        r == white_space(c),
{
    c.is_whitespace()
}

/// Calls `char::to_lowercase`, which gives one or more characters: the lower-case
/// letters of Unicode's case mappings, or the character itself where these have
/// none. No mapping leads to NUL.
#[verifier::external_body]
fn to_lowercase(c: char) -> (v: Vec<char>)
    ensures
        v@ == lowercase(c),
        v@.len() > 0,
        c as u32 != 0 ==> nul_free(v@),
{
    c.to_lowercase().collect()
}

/// `String::push` appends the character to the end of the string.
pub assume_specification[ String::push ](s: &mut String, ch: char)
    ensures
        final(s)@ == old(s)@.push(ch),
;

/// Characters as a `String`, in order.
pub(crate) fn string_of(chars: &Vec<char>) -> (s: String)
    ensures
        s@ == chars@,
{
    let mut s: String = String::new();
    let mut i: usize = 0;
    assert(s@ =~= chars@.take(0));
    while i < chars.len()
        invariant
            i <= chars@.len(),
            s@ == chars@.take(i as int),
        decreases chars@.len() - i,
    {
        s.push(chars[i]);
        assert(s@ =~= chars@.take(i + 1));
        i += 1;
    }
    assert(chars@.take(i as int) =~= chars@);
    s
}

/// The characters of a string.
pub(crate) fn chars_of(text: &str) -> (v: Vec<char>)
    ensures
        v@ == text@,
{
    let mut out: Vec<char> = Vec::new();
    for c in it: text.chars()
        invariant
            it.seq() == text@,
            out@ == text@.take(it.index()),
    {
        out.push(c);
        assert(out@ =~= text@.take(it.index() + 1));
    }
    assert(out@ =~= text@);
    out
}

/// Whether a text holds nothing but white space.
pub open spec fn blank(text: Seq<char>) -> bool {
    forall|i: int| 0 <= i < text.len() ==> white_space(#[trigger] text[i])
}

/// Whether a text holds nothing but white space.
pub fn is_blank(text: &str) -> (r: bool)
    ensures
        r == blank(text@),
{
    let chars: Vec<char> = chars_of(text);
    let mut i: usize = 0;
    while i < chars.len()
        invariant
            i <= chars@.len(),
            chars@ == text@,
            forall|j: int| 0 <= j < i ==> white_space(#[trigger] text@[j]),
        decreases chars@.len() - i,
    {
        if !is_whitespace(chars[i]) {
            return false;
        }
        i += 1;
    }
    true
}

/// Whether a character belongs to a script written without spaces between
/// words.
pub open spec fn cjk(c: char) -> bool {
    let u = c as u32;
    ||| 0x3040 <= u <= 0x30FF  // Hiragana, Katakana
    ||| 0x3400 <= u <= 0x4DBF  // CJK Extension A
    ||| 0x4E00 <= u <= 0x9FFF  // CJK Unified Ideographs
    ||| 0xF900 <= u <= 0xFAFF  // CJK Compatibility Ideographs
    ||| 0xAC00 <= u <= 0xD7AF  // Hangul syllables
    ||| 0x20000 <= u <= 0x2FFFF  // CJK Extensions B..F

}

/// True for scripts written without spaces between words.
pub fn is_cjk(c: char) -> (r: bool)
    ensures
        r == cjk(c),
{
    let u: u32 = c as u32;
    (0x3040 <= u && u <= 0x30FF) || (0x3400 <= u && u <= 0x4DBF) || (0x4E00 <= u && u <= 0x9FFF)
        || (0xF900 <= u && u <= 0xFAFF) || (0xAC00 <= u && u <= 0xD7AF) || (0x20000 <= u && u
        <= 0x2FFFF)
}

/// The class of a character.
pub open spec fn class_of(c: char) -> Class {
    if cjk(c) {
        Class::Cjk
    } else if alphanumeric(c) {
        Class::Word
    } else {
        Class::Gap
    }
}

/// The text cut into its longest runs of one class.
pub open spec fn runs(text: Seq<char>) -> Seq<(Class, Seq<char>)>
    decreases text.len(),
{
    if text.len() == 0 {
        Seq::empty()
    } else {
        let before = runs(text.drop_last());
        let c = text.last();
        if before.len() > 0 && before.last().0 == class_of(c) {
            before.drop_last().push((class_of(c), before.last().1.push(c)))
        } else {
            before.push((class_of(c), seq![c]))
        }
    }
}

/// Every character in lower case.
pub open spec fn lowered(s: Seq<char>) -> Seq<char>
    decreases s.len(),
{
    if s.len() == 0 {
        Seq::empty()
    } else {
        lowered(s.drop_last()) + lowercase(s.last())
    }
}

/// Whether `s` ends with `end`.
pub open spec fn ends(s: Seq<char>, end: Seq<char>) -> bool {
    s.len() >= end.len() && s.subrange(s.len() - end.len(), s.len() as int) == end
}

/// A word without its English plural ending (Harman 1991); lengths are in
/// bytes.
pub open spec fn stemmed(w: Seq<char>) -> Seq<char> {
    let n = encode_utf8(w).len();
    if n > 4 && ends(w, seq!['i', 'e', 's']) && !ends(w, seq!['e', 'i', 'e', 's']) && !ends(
        w,
        seq!['a', 'i', 'e', 's'],
    ) {
        w.subrange(0, w.len() - 3).push('y')
    } else if n > 3 && ends(w, seq!['e', 's']) && !ends(w, seq!['a', 'e', 's']) && !ends(
        w,
        seq!['e', 'e', 's'],
    ) && !ends(w, seq!['o', 'e', 's']) {
        w.drop_last()
    } else if n > 3 && ends(w, seq!['s']) && !ends(w, seq!['u', 's']) && !ends(w, seq!['s', 's']) {
        w.drop_last()
    } else {
        w
    }
}

/// Whether a word is too common to index.
pub open spec fn stopword(w: Seq<u8>) -> bool {
    ||| w == encode_utf8("a"@)
    ||| w == encode_utf8("an"@)
    ||| w == encode_utf8("and"@)
    ||| w == encode_utf8("are"@)
    ||| w == encode_utf8("as"@)
    ||| w == encode_utf8("at"@)
    ||| w == encode_utf8("be"@)
    ||| w == encode_utf8("been"@)
    ||| w == encode_utf8("but"@)
    ||| w == encode_utf8("by"@)
    ||| w == encode_utf8("for"@)
    ||| w == encode_utf8("from"@)
    ||| w == encode_utf8("had"@)
    ||| w == encode_utf8("has"@)
    ||| w == encode_utf8("have"@)
    ||| w == encode_utf8("he"@)
    ||| w == encode_utf8("her"@)
    ||| w == encode_utf8("his"@)
    ||| w == encode_utf8("i"@)
    ||| w == encode_utf8("if"@)
    ||| w == encode_utf8("in"@)
    ||| w == encode_utf8("into"@)
    ||| w == encode_utf8("is"@)
    ||| w == encode_utf8("it"@)
    ||| w == encode_utf8("its"@)
    ||| w == encode_utf8("of"@)
    ||| w == encode_utf8("on"@)
    ||| w == encode_utf8("or"@)
    ||| w == encode_utf8("our"@)
    ||| w == encode_utf8("she"@)
    ||| w == encode_utf8("so"@)
    ||| w == encode_utf8("that"@)
    ||| w == encode_utf8("the"@)
    ||| w == encode_utf8("their"@)
    ||| w == encode_utf8("them"@)
    ||| w == encode_utf8("then"@)
    ||| w == encode_utf8("there"@)
    ||| w == encode_utf8("these"@)
    ||| w == encode_utf8("they"@)
    ||| w == encode_utf8("this"@)
    ||| w == encode_utf8("those"@)
    ||| w == encode_utf8("to"@)
    ||| w == encode_utf8("was"@)
    ||| w == encode_utf8("we"@)
    ||| w == encode_utf8("were"@)
    ||| w == encode_utf8("which"@)
    ||| w == encode_utf8("while"@)
    ||| w == encode_utf8("will"@)
    ||| w == encode_utf8("with"@)
    ||| w == encode_utf8("you"@)
    ||| w == encode_utf8("your"@)
}

/// The index terms of one run.
pub open spec fn run_tokens(run: (Class, Seq<char>)) -> Seq<Seq<char>> {
    match run.0 {
        Class::Gap => Seq::empty(),
        Class::Word => {
            let w = lowered(run.1);
            if w.len() <= MAX_TOKEN_CHARS && !stopword(encode_utf8(w)) {
                seq![stemmed(w)]
            } else {
                Seq::empty()
            }
        },
        Class::Cjk => if run.1.len() == 1 {
            seq![run.1]
        } else {
            Seq::new((run.1.len() - 1) as nat, |i: int| seq![run.1[i], run.1[i + 1]])
        },
    }
}

/// The index terms of a list of runs, in order.
pub open spec fn runs_tokens(rs: Seq<(Class, Seq<char>)>) -> Seq<Seq<char>>
    decreases rs.len(),
{
    if rs.len() == 0 {
        Seq::empty()
    } else {
        runs_tokens(rs.drop_last()) + run_tokens(rs.last())
    }
}

/// The index terms of a text, in order.
pub open spec fn tokens(text: Seq<char>) -> Seq<Seq<char>> {
    runs_tokens(runs(text))
}

/// The contents of a list of strings.
pub open spec fn texts(v: Seq<String>) -> Seq<Seq<char>> {
    Seq::new(v.len(), |i: int| v[i]@)
}

fn ends_with(w: &Vec<char>, end: &[char]) -> (r: bool)
    ensures
        r == ends(w@, end@),
{
    if w.len() < end.len() {
        return false;
    }
    let skip: usize = w.len() - end.len();
    let mut i: usize = 0;
    while i < end.len()
        invariant
            i <= end@.len(),
            skip + end.len() == w.len(),
            forall|j: int| 0 <= j < i ==> w@[skip + j] == end@[j],
        decreases end@.len() - i,
    {
        if w[skip + i] != end[i] {
            assert(w@.subrange(skip as int, w@.len() as int)[i as int] != end@[i as int]);
            return false;
        }
        i += 1;
    }
    assert(w@.subrange(skip as int, w@.len() as int) =~= end@);
    true
}

/// Conservative English plural stemmer (Harman 1991).
fn stem(word: Vec<char>) -> (r: Vec<char>)
    ensures
        r@ == stemmed(word@),
{
    let n: usize = string_of(&word).as_str().as_bytes().len();
    let ghost w = word@;
    let mut word = word;
    let ies: [char; 3] = ['i', 'e', 's'];
    let eies: [char; 4] = ['e', 'i', 'e', 's'];
    let aies: [char; 4] = ['a', 'i', 'e', 's'];
    let es: [char; 2] = ['e', 's'];
    let aes: [char; 3] = ['a', 'e', 's'];
    let ees: [char; 3] = ['e', 'e', 's'];
    let oes: [char; 3] = ['o', 'e', 's'];
    let s: [char; 1] = ['s'];
    let us: [char; 2] = ['u', 's'];
    let ss: [char; 2] = ['s', 's'];
    assert(ies@ =~= seq!['i', 'e', 's']);
    assert(eies@ =~= seq!['e', 'i', 'e', 's']);
    assert(aies@ =~= seq!['a', 'i', 'e', 's']);
    assert(es@ =~= seq!['e', 's']);
    assert(aes@ =~= seq!['a', 'e', 's']);
    assert(ees@ =~= seq!['e', 'e', 's']);
    assert(oes@ =~= seq!['o', 'e', 's']);
    assert(s@ =~= seq!['s']);
    assert(us@ =~= seq!['u', 's']);
    assert(ss@ =~= seq!['s', 's']);
    if n > 4 && ends_with(&word, &ies) && !ends_with(&word, &eies) && !ends_with(&word, &aies) {
        word.truncate(word.len() - 3);
        word.push('y');
        assert(word@ =~= w.subrange(0, w.len() - 3).push('y'));
        return word;
    }
    if n > 3 && ends_with(&word, &es) && !(ends_with(&word, &aes) || ends_with(&word, &ees)
        || ends_with(&word, &oes)) {
        word.truncate(word.len() - 1);
        assert(word@ =~= w.drop_last());
        return word;
    }
    if n > 3 && ends_with(&word, &s) && !(ends_with(&word, &us) || ends_with(&word, &ss)) {
        word.truncate(word.len() - 1);
        assert(word@ =~= w.drop_last());
        return word;
    }
    word
}

#[verifier::rlimit(30)]
fn is_stopword(w: &str) -> (r: bool)
    ensures
        r == stopword(encode_utf8(w@)),
{
    is_text(w, "a") || is_text(w, "an") || is_text(w, "and") || is_text(w, "are")
        || is_text(w, "as") || is_text(w, "at") || is_text(w, "be") || is_text(w, "been")
        || is_text(w, "but") || is_text(w, "by") || is_text(w, "for") || is_text(w, "from")
        || is_text(w, "had") || is_text(w, "has") || is_text(w, "have") || is_text(w, "he")
        || is_text(w, "her") || is_text(w, "his") || is_text(w, "i") || is_text(w, "if")
        || is_text(w, "in") || is_text(w, "into") || is_text(w, "is") || is_text(w, "it")
        || is_text(w, "its") || is_text(w, "of") || is_text(w, "on") || is_text(w, "or")
        || is_text(w, "our") || is_text(w, "she") || is_text(w, "so") || is_text(w, "that")
        || is_text(w, "the") || is_text(w, "their") || is_text(w, "them") || is_text(w, "then")
        || is_text(w, "there") || is_text(w, "these") || is_text(w, "they") || is_text(w, "this")
        || is_text(w, "those") || is_text(w, "to") || is_text(w, "was") || is_text(w, "we")
        || is_text(w, "were") || is_text(w, "which") || is_text(w, "while") || is_text(w, "will")
        || is_text(w, "with") || is_text(w, "you") || is_text(w, "your")
}

fn classify(c: char) -> (k: Class)
    ensures
        k == class_of(c),
        k != Class::Gap ==> c as u32 != 0,
{
    if is_cjk(c) {
        Class::Cjk
    } else if is_alphanumeric(c) {
        Class::Word
    } else {
        Class::Gap
    }
}

/// The contents of a list of runs.
spec fn run_lists(v: Seq<(Class, Vec<char>)>) -> Seq<(Class, Seq<char>)> {
    Seq::new(v.len(), |i: int| (v[i].0, v[i].1@))
}

/// Whether NUL stands between terms only.
spec fn gaps_only(text: Seq<char>) -> bool {
    forall|i: int|
        0 <= i < text.len() && class_of(#[trigger] text[i]) != Class::Gap ==> text[i] as u32 != 0
}

/// Cuts a text into its longest runs of one class.
fn cut_runs(chars: &Vec<char>) -> (out: Vec<(Class, Vec<char>)>)
    ensures
        run_lists(out@) == runs(chars@),
        gaps_only(chars@),
{
    let mut out: Vec<(Class, Vec<char>)> = Vec::new();
    let mut run: Vec<char> = Vec::new();
    let mut class: Class = Class::Gap;
    let mut i: usize = 0;
    assert(chars@.subrange(0, 0) =~= Seq::empty());
    assert(run_lists(out@) =~= Seq::empty());
    while i < chars.len()
        invariant
            i <= chars@.len(),
            i == 0 ==> run@.len() == 0 && out@.len() == 0,
            i > 0 ==> runs(chars@.subrange(0, i as int)) == run_lists(out@).push((class, run@)),
            forall|j: int|
                0 <= j < i && class_of(#[trigger] chars@[j]) != Class::Gap ==> chars@[j] as u32
                    != 0,
        decreases chars@.len() - i,
    {
        let c: char = chars[i];
        let k: Class = classify(c);
        let ghost more = chars@.subrange(0, i + 1);
        let ghost done = run_lists(out@);
        let ghost (was, held) = (class, run@);
        assert(more.drop_last() =~= chars@.subrange(0, i as int));
        if i > 0 && k == class {
            run.push(c);
            assert(done.push((was, held)).drop_last() =~= done);
            assert(runs(more) =~= done.push((class, run@)));
        } else {
            if i > 0 {
                out.push((class, run));
                assert(run_lists(out@) =~= done.push((was, held)));
            } else {
                assert(more.drop_last().len() == 0);
                assert(run_lists(out@) =~= runs(more.drop_last()));
            }
            assert(run_lists(out@) =~= runs(more.drop_last()));
            run = Vec::new();
            run.push(c);
            class = k;
            assert(run@ =~= seq![c]);
            assert(runs(more) =~= run_lists(out@).push((class, run@)));
        }
        i += 1;
    }
    assert(chars@.subrange(0, i as int) =~= chars@);
    if i > 0 {
        let ghost done = run_lists(out@);
        let ghost (was, held) = (class, run@);
        out.push((class, run));
        assert(run_lists(out@) =~= done.push((was, held)));
    } else {
        assert(run_lists(out@) =~= Seq::empty());
    }
    out
}

fn lower_word(run: &Vec<char>) -> (w: Vec<char>)
    ensures
        w@ == lowered(run@),
        nul_free(run@) ==> nul_free(w@),
{
    let mut w: Vec<char> = Vec::new();
    let mut i: usize = 0;
    assert(run@.subrange(0, 0) =~= Seq::empty());
    while i < run.len()
        invariant
            i <= run@.len(),
            w@ == lowered(run@.subrange(0, i as int)),
            nul_free(run@) ==> nul_free(w@),
        decreases run@.len() - i,
    {
        let mut low: Vec<char> = to_lowercase(run[i]);
        w.append(&mut low);
        let ghost more = run@.subrange(0, i + 1);
        assert(more.drop_last() =~= run@.subrange(0, i as int));
        i += 1;
    }
    assert(run@.subrange(0, i as int) =~= run@);
    w
}

/// Whether NUL is in none of the texts.
pub open spec fn all_nul_free(ts: Seq<Seq<char>>) -> bool {
    forall|i: int| 0 <= i < ts.len() ==> nul_free(#[trigger] ts[i])
}

/// A word keeps free of NUL without its ending.
proof fn lemma_stem_nul_free(w: Seq<char>)
    requires
        nul_free(w),
    ensures
        nul_free(stemmed(w)),
{
    let s = stemmed(w);
    assert forall|i: int| 0 <= i < s.len() implies #[trigger] s[i] as u32 != 0 by {
        if s[i] != 'y' {
            assert(s[i] == w[i]);
        } else {
            assert('y' as u32 != 0);
        }
    }
}

/// Adds the index terms of one run.
fn add_tokens(class: Class, run: &Vec<char>, out: &mut Vec<String>)
    requires
        run@.len() > 0,
    ensures
        texts(final(out)@) == texts(old(out)@) + run_tokens((class, run@)),
        (class == Class::Gap || nul_free(run@)) && all_nul_free(texts(old(out)@)) ==> all_nul_free(
            texts(final(out)@),
        ),
{
    let ghost start = texts(out@);
    match class {
        Class::Gap => {
            assert(texts(out@) =~= start + run_tokens((class, run@)));
        },
        Class::Word => {
            let w: Vec<char> = lower_word(run);
            proof {
                if nul_free(w@) {
                    lemma_stem_nul_free(w@);
                }
            }
            if w.len() <= MAX_TOKEN_CHARS && !is_stopword(string_of(&w).as_str()) {
                out.push(string_of(&stem(w)));
            }
            assert(texts(out@) =~= start + run_tokens((class, run@)));
        },
        Class::Cjk => {
            if run.len() == 1 {
                out.push(string_of(run));
                assert(texts(out@) =~= start + run_tokens((class, run@)));
                return ;
            }
            let mut i: usize = 0;
            while i < run.len() - 1
                invariant
                    i < run@.len(),
                    run@.len() == run.len(),
                    run@.len() >= 2,
                    texts(out@) == start + Seq::new(
                        i as nat,
                        |j: int| seq![run@[j], run@[j + 1]],
                    ),
                    nul_free(run@) && all_nul_free(start) ==> all_nul_free(texts(out@)),
                decreases run@.len() - i,
            {
                let mut pair: Vec<char> = Vec::new();
                pair.push(run[i]);
                pair.push(run[i + 1]);
                let ghost was = texts(out@);
                let s: String = string_of(&pair);
                assert(s@ =~= seq![run@[i as int], run@[i + 1]]);
                out.push(s);
                assert(texts(out@) =~= was.push(s@));
                assert(texts(out@) =~= start + Seq::new(
                    (i + 1) as nat,
                    |j: int| seq![run@[j], run@[j + 1]],
                ));
                i += 1;
            }
        },
    }
}

proof fn lemma_runs_not_empty(text: Seq<char>)
    ensures
        forall|i: int| 0 <= i < runs(text).len() ==> (#[trigger] runs(text)[i]).1.len() > 0,
    decreases text.len(),
{
    if text.len() > 0 {
        lemma_runs_not_empty(text.drop_last());
        let before = runs(text.drop_last());
        let now = runs(text);
        assert forall|i: int| 0 <= i < now.len() implies (#[trigger] now[i]).1.len() > 0 by {
            if i < now.len() - 1 {
                assert(now[i] == before[i]);
            }
        }
    }
}

/// Where NUL stands between terms only, no other run holds it.
proof fn lemma_runs_nul_free(text: Seq<char>)
    requires
        gaps_only(text),
    ensures
        forall|i: int|
            0 <= i < runs(text).len() && (#[trigger] runs(text)[i]).0 != Class::Gap ==> nul_free(
                runs(text)[i].1,
            ),
    decreases text.len(),
{
    if text.len() > 0 {
        let front = text.drop_last();
        assert forall|i: int|
            0 <= i < front.len() && class_of(#[trigger] front[i]) != Class::Gap implies front[i]
            as u32 != 0 by {
            assert(front[i] == text[i]);
        }
        lemma_runs_nul_free(front);
        let before = runs(front);
        let now = runs(text);
        let c = text.last();
        assert(class_of(c) != Class::Gap ==> c as u32 != 0) by {
            assert(c == text[text.len() - 1]);
        }
        assert forall|i: int|
            0 <= i < now.len() && (#[trigger] now[i]).0 != Class::Gap implies nul_free(now[i].1) by {
            if i < now.len() - 1 {
                assert(now[i] == before[i]);
            }
        }
    }
}

/// Splits `text` into index terms.
#[must_use]
pub fn tokenize(text: &str) -> (out: Vec<String>)
    ensures
        texts(out@) == tokens(text@),
        all_nul_free(tokens(text@)),
{
    let chars: Vec<char> = chars_of(text);
    let parts: Vec<(Class, Vec<char>)> = cut_runs(&chars);
    let ghost all = runs(text@);
    let mut out: Vec<String> = Vec::new();
    let mut i: usize = 0;
    proof {
        lemma_runs_not_empty(text@);
        lemma_runs_nul_free(text@);
    }
    assert(all.subrange(0, 0) =~= Seq::empty());
    assert(texts(out@) =~= Seq::empty());
    while i < parts.len()
        invariant
            i <= parts@.len(),
            run_lists(parts@) == all,
            forall|j: int| 0 <= j < all.len() ==> (#[trigger] all[j]).1.len() > 0,
            texts(out@) == runs_tokens(all.subrange(0, i as int)),
            all_nul_free(texts(out@)),
            forall|j: int|
                0 <= j < all.len() && (#[trigger] all[j]).0 != Class::Gap ==> nul_free(all[j].1),
        decreases parts@.len() - i,
    {
        assert(all[i as int] == (parts@[i as int].0, parts@[i as int].1@));
        add_tokens(parts[i].0, &parts[i].1, &mut out);
        let ghost more = all.subrange(0, i + 1);
        assert(more.drop_last() =~= all.subrange(0, i as int));
        i += 1;
    }
    assert(all.subrange(0, i as int) =~= all);
    out
}

// ---- term frequencies -------------------------------------------------------

/// The terms as UTF-8 bytes.
pub open spec fn terms_of(text: Seq<char>) -> Seq<Seq<u8>> {
    let ts = tokens(text);
    Seq::new(ts.len(), |i: int| encode_utf8(ts[i]))
}

/// Whether no term holds a NUL.
pub open spec fn clean(ts: Seq<Seq<u8>>) -> bool {
    forall|t: Seq<u8>| #[trigger] ts.contains(t) ==> !t.contains(0)
}

/// How often `t` occurs.
pub open spec fn occurrences(ts: Seq<Seq<u8>>, t: Seq<u8>) -> nat
    decreases ts.len(),
{
    if ts.len() == 0 {
        0
    } else {
        occurrences(ts.drop_last(), t) + if ts.last() == t {
            1nat
        } else {
            0nat
        }
    }
}

/// What a 32-bit counter shows.
pub open spec fn wrapped(n: nat) -> u32 {
    (n % 0x1_0000_0000) as u32
}

/// How often each term of a text occurs.
#[derive(Debug, PartialEq, Eq)]
pub struct TermFrequencies {
    /// The distinct terms, as UTF-8 bytes, ascending.
    pub terms: Vec<Vec<u8>>,
    /// How often each occurs.
    pub counts: Vec<u32>,
    /// The length of the text in terms.
    pub len: u32,
}

/// `f` counts the terms of `ts`.
pub open spec fn counts_terms(f: TermFrequencies, ts: Seq<Seq<u8>>) -> bool {
    &&& ascending(byte_lists(f.terms@))
    &&& f.counts@.len() == f.terms@.len()
    &&& byte_lists(f.terms@).to_set() == ts.to_set()
    &&& forall|i: int|
        0 <= i < f.terms@.len() ==> #[trigger] f.counts@[i] == wrapped(
            occurrences(ts, f.terms@[i]@),
        )
    &&& f.len == wrapped(ts.len())
}

proof fn lemma_occurrences(ts: Seq<Seq<u8>>, t: Seq<u8>)
    ensures
        occurrences(ts, t) <= ts.len(),
        occurrences(ts, t) == 0 <==> !ts.contains(t),
    decreases ts.len(),
{
    if ts.len() > 0 {
        lemma_occurrences(ts.drop_last(), t);
        let front = ts.drop_last();
        if front.contains(t) {
            let i = choose|i: int| 0 <= i < front.len() && front[i] == t;
            assert(ts[i] == t);
        }
        if ts.contains(t) {
            let i = choose|i: int| 0 <= i < ts.len() && ts[i] == t;
            if i < front.len() {
                assert(front[i] == t);
            }
        }
    }
}

/// Term frequencies of `text`, plus its length in terms.
#[must_use]
pub fn term_frequencies(text: &str) -> (f: TermFrequencies)
    ensures
        counts_terms(f, terms_of(text@)),
        clean(terms_of(text@)),
{
    let list: Vec<String> = tokenize(text);
    let ghost all = terms_of(text@);
    let mut terms: Vec<Vec<u8>> = Vec::new();
    let mut counts: Vec<u32> = Vec::new();
    let mut i: usize = 0;
    assert(byte_lists(terms@).to_set() =~= all.subrange(0, 0).to_set());
    while i < list.len()
        invariant
            i <= list@.len(),
            all.len() == list@.len(),
            forall|j: int| 0 <= j < all.len() ==> #[trigger] all[j] == encode_utf8(list@[j]@),
            ascending(byte_lists(terms@)),
            counts@.len() == terms@.len(),
            byte_lists(terms@).to_set() == all.subrange(0, i as int).to_set(),
            forall|j: int|
                0 <= j < terms@.len() ==> #[trigger] counts@[j] == wrapped(
                    occurrences(all.subrange(0, i as int), terms@[j]@),
                ),
        decreases list@.len() - i,
    {
        let term: &[u8] = list[i].as_str().as_bytes();
        let ghost front = all.subrange(0, i as int);
        let ghost more = all.subrange(0, i + 1);
        let ghost keys = byte_lists(terms@);
        let ghost old_counts = counts@;
        let n: usize = seek(&terms, term);
        assert(more.drop_last() =~= front);
        assert(more =~= front.push(term@));
        proof {
            assert(all[i as int] == term@);
            lemma_rank_is_place(keys, term@, n as int);
            lemma_occurrences(front, term@);
            lemma_push_to_set(front, term@);
            assert(keys.to_set().contains(term@) == front.to_set().contains(term@));
        }
        if n < terms.len() && same(terms[n].as_slice(), term) {
            let c: u32 = counts[n];
            counts.set(n, c.wrapping_add(1));
            proof {
                assert(keys.to_set() =~= more.to_set());
                assert forall|j: int| 0 <= j < terms@.len() implies #[trigger] counts@[j]
                    == wrapped(occurrences(more, terms@[j]@)) by {
                    assert(old_counts[j] == wrapped(occurrences(front, terms@[j]@)));
                    if j != n {
                        assert(keys[j] == terms@[j]@ && keys[n as int] == term@);
                        lemma_ascending_distinct(keys);
                    }
                }
            }
        } else {
            proof {
                lemma_insert_ascends(keys, term@, n as int);
            }
            let ghost old_terms = terms@;
            terms.insert(n, copy_bytes(term));
            counts.insert(n, 1);
            proof {
                assert(byte_lists(terms@) =~= keys.insert(n as int, term@));
                assert forall|j: int| 0 <= j < terms@.len() implies #[trigger] counts@[j]
                    == wrapped(occurrences(more, terms@[j]@)) by {
                    if j < n {
                        assert(terms@[j] == old_terms[j]);
                        assert(counts@[j] == old_counts[j]);
                        assert(old_counts[j] == wrapped(occurrences(front, old_terms[j]@)));
                        assert(keys[j] == old_terms[j]@);
                        assert(keys.contains(keys[j]));
                    } else if j > n {
                        assert(terms@[j] == old_terms[j - 1]);
                        assert(counts@[j] == old_counts[j - 1]);
                        assert(old_counts[j - 1] == wrapped(occurrences(front, old_terms[j - 1]@)));
                        assert(keys[j - 1] == old_terms[j - 1]@);
                        assert(keys.contains(keys[j - 1]));
                    }
                }
            }
        }
        i += 1;
    }
    assert(all.subrange(0, i as int) =~= all);
    assert(clean(all)) by {
        assert forall|t: Seq<u8>| #[trigger] all.contains(t) implies !t.contains(0) by {
            let j = choose|j: int| 0 <= j < all.len() && all[j] == t;
            lemma_encoding_nul_free(tokens(text@)[j]);
        }
    }
    let len: u32 = (list.len() as u64 % 0x1_0000_0000) as u32;
    TermFrequencies { terms, counts, len }
}

// ---- bytes of terms ---------------------------------------------------------

/// The encoding of a character takes one to four bytes, and none of them is NUL
/// but where the character is.
proof fn lemma_encode_scalar(u: u32)
    ensures
        1 <= encode_scalar(u).len() <= 4,
        u != 0 ==> !encode_scalar(u).contains(0),
{
    let bytes = encode_scalar(u);
    assert(u <= 0x7F ==> (u & 0x7F) as u8 == u) by (bit_vector);
    assert(0xC0 | ((u >> 6) & 0x1F) as u8 != 0u8) by (bit_vector);
    assert(0xE0 | ((u >> 12) & 0x0F) as u8 != 0u8) by (bit_vector);
    assert(0xF0 | ((u >> 18) & 0x7) as u8 != 0u8) by (bit_vector);
    assert(0x80 | (u & 0x3F) as u8 != 0u8) by (bit_vector);
    assert(0x80 | ((u >> 6) & 0x3F) as u8 != 0u8) by (bit_vector);
    assert(0x80 | ((u >> 12) & 0x3F) as u8 != 0u8) by (bit_vector);
    if u != 0 && bytes.contains(0) {
        let i = choose|i: int| 0 <= i < bytes.len() && bytes[i] == 0;
        assert(i == 0 || i == 1 || i == 2 || i == 3);
    }
}

/// A text without NUL has none in its bytes.
proof fn lemma_encoding_nul_free(s: Seq<char>)
    requires
        nul_free(s),
    ensures
        !encode_utf8(s).contains(0),
    decreases s.len(),
{
    if s.len() > 0 {
        let rest = s.drop_first();
        assert forall|i: int| 0 <= i < rest.len() implies #[trigger] rest[i] as u32 != 0 by {
            assert(rest[i] == s[i + 1]);
        }
        lemma_encoding_nul_free(rest);
        lemma_encode_scalar(s[0] as u32);
        let head = encode_scalar(s[0] as u32);
        let all = encode_utf8(s);
        if all.contains(0) {
            let i = choose|i: int| 0 <= i < all.len() && all[i] == 0;
            if i < head.len() {
                assert(head[i] == 0);
            } else {
                assert(encode_utf8(rest)[i - head.len()] == 0);
            }
        }
    }
}

/// A text takes at most four bytes per character.
proof fn lemma_encoding_len(s: Seq<char>)
    ensures
        encode_utf8(s).len() <= 4 * s.len(),
    decreases s.len(),
{
    if s.len() > 0 {
        lemma_encoding_len(s.drop_first());
        lemma_encode_scalar(s[0] as u32);
    }
}

/// The terms of runs are short.
proof fn lemma_runs_tokens_len(rs: Seq<(Class, Seq<char>)>)
    ensures
        forall|i: int|
            0 <= i < runs_tokens(rs).len() ==> (#[trigger] runs_tokens(rs)[i]).len()
                <= MAX_TOKEN_CHARS,
    decreases rs.len(),
{
    if rs.len() > 0 {
        lemma_runs_tokens_len(rs.drop_last());
        let before = runs_tokens(rs.drop_last());
        let now = runs_tokens(rs);
        assert forall|i: int| 0 <= i < now.len() implies (#[trigger] now[i]).len()
            <= MAX_TOKEN_CHARS by {
            if i < before.len() {
                assert(now[i] == before[i]);
            } else {
                assert(now[i] == run_tokens(rs.last())[i - before.len()]);
            }
        }
    }
}

/// A term takes no more bytes than the longest token's characters can.
pub proof fn lemma_term_len(text: Seq<char>, t: Seq<u8>)
    requires
        terms_of(text).contains(t),
    ensures
        t.len() <= 4 * MAX_TOKEN_CHARS,
{
    let ts = terms_of(text);
    let i = choose|i: int| 0 <= i < ts.len() && ts[i] == t;
    lemma_runs_tokens_len(runs(text));
    lemma_encoding_len(tokens(text)[i]);
}

// ---- laws -------------------------------------------------------------------

/// What the runs of a text are after another text and a separator.
proof fn lemma_runs_behind(a: Seq<char>, sep: char, b: Seq<char>)
    requires
        class_of(sep) == Class::Gap,
    ensures
        ({
            let all = runs(a.push(sep) + b);
            let own = runs(b);
            &&& all.len() > 0
            &&& b.len() == 0 ==> all.last().0 == Class::Gap && runs_tokens(all) == tokens(a)
            &&& b.len() > 0 ==> {
                &&& own.len() > 0
                &&& all.last().0 == own.last().0
                &&& own.last().0 != Class::Gap ==> all.last() == own.last()
                &&& runs_tokens(all.drop_last()) == tokens(a) + runs_tokens(own.drop_last())
            }
        }),
    decreases b.len(),
{
    let text = a.push(sep) + b;
    let all = runs(text);
    if b.len() == 0 {
        assert(text =~= a.push(sep));
        assert(text.drop_last() =~= a);
        let before = runs(a);
        if before.len() > 0 && before.last().0 == Class::Gap {
            assert(all.drop_last() =~= before.drop_last());
        } else {
            assert(all.drop_last() =~= before);
        }
        assert(runs_tokens(all) =~= runs_tokens(all.drop_last()));
        assert(runs_tokens(all) =~= tokens(a));
    } else {
        let less = b.drop_last();
        lemma_runs_behind(a, sep, less);
        assert(text.drop_last() =~= a.push(sep) + less);
        assert(text.last() == b.last());
        let before = runs(a.push(sep) + less);
        let mine = runs(less);
        let own = runs(b);
        let c = b.last();
        if less.len() == 0 {
            assert(mine.len() == 0);
            assert(own.drop_last() =~= Seq::empty());
            if class_of(c) == Class::Gap {
                assert(all.drop_last() =~= before.drop_last());
                assert(runs_tokens(before) =~= runs_tokens(before.drop_last()));
            } else {
                assert(all.drop_last() =~= before);
            }
            assert(runs_tokens(all.drop_last()) =~= tokens(a) + runs_tokens(own.drop_last()));
        } else if class_of(c) == mine.last().0 {
            assert(all.drop_last() =~= before.drop_last());
            assert(own.drop_last() =~= mine.drop_last());
        } else {
            assert(all.drop_last() =~= before);
            assert(own.drop_last() =~= mine);
            assert(run_tokens(before.last()) =~= run_tokens(mine.last()));
            assert(runs_tokens(before) =~= tokens(a) + runs_tokens(mine));
        }
    }
}

/// Texts on both sides of a separator are analysed on their own: the terms of
/// the whole are those of the one, then those of the other.
pub proof fn law_separators_part_texts(a: Seq<char>, sep: char, b: Seq<char>)
    requires
        !cjk(sep),
        !alphanumeric(sep),
    ensures
        tokens(a.push(sep) + b) == tokens(a) + tokens(b),
        terms_of(a.push(sep) + b) == terms_of(a) + terms_of(b),
{
    lemma_runs_behind(a, sep, b);
    let all = runs(a.push(sep) + b);
    let own = runs(b);
    if b.len() == 0 {
        assert(tokens(b) =~= Seq::empty());
    } else {
        assert(run_tokens(all.last()) =~= run_tokens(own.last()));
    }
    assert(tokens(a.push(sep) + b) =~= tokens(a) + tokens(b));
    assert(terms_of(a.push(sep) + b) =~= terms_of(a) + terms_of(b));
}

} // verus!
