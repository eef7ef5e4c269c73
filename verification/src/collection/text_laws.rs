//! What the terms of a text are, told by its characters.

use crate::collection::text::{
    alphanumeric, class_of, ends, lowercase, lowered, occurrences, run_tokens, runs, runs_tokens,
    stemmed, stopword, tokens, Class,
};
use vstd::prelude::*;
use vstd::utf8::*;

verus! {

// ---- scripts --------------------------------------------------------------------------------

/// Han, Hiragana, Katakana and Hangul, which are written without spaces.
pub open spec fn unspaced(c: char) -> bool {
    let u = c as u32;
    ||| 0x3040 <= u < 0x3100
    ||| 0x3400 <= u < 0x4DC0
    ||| 0x4E00 <= u < 0xA000
    ||| 0xAC00 <= u < 0xD7B0
    ||| 0xF900 <= u < 0xFB00
    ||| 0x20000 <= u < 0x30000
}

/// A letter or digit of a script with spaces.
pub open spec fn lettered(c: char) -> bool {
    alphanumeric(c) && !unspaced(c)
}

/// All characters of a text are such letters or digits.
pub open spec fn is_word(w: Seq<char>) -> bool {
    forall|i: int| 0 <= i < w.len() ==> lettered(#[trigger] w[i])
}

/// All characters of a text are their own lower case.
pub open spec fn is_lower(w: Seq<char>) -> bool {
    forall|i: int| 0 <= i < w.len() ==> lowercase(#[trigger] w[i]) == seq![w[i]]
}

/// Every character belongs to one of three kinds of text.
proof fn lemma_class(c: char)
    ensures
        class_of(c) == Class::Cjk <==> unspaced(c),
        class_of(c) == Class::Word <==> lettered(c),
        class_of(c) == Class::Gap <==> !alphanumeric(c) && !unspaced(c),
{
}

/// The runs of a text that is cut where the kind of text changes.
proof fn lemma_runs_join(a: Seq<char>, b: Seq<char>)
    requires
        a.len() > 0,
        b.len() > 0,
        class_of(a.last()) != class_of(b[0]),
    ensures
        runs(a + b) == runs(a) + runs(b),
        runs(a).len() > 0,
        runs(a).last().0 == class_of(a.last()),
        runs(b).len() > 0,
        runs(b).last().0 == class_of(b.last()),
    decreases b.len(),
{
    lemma_last_run(a);
    lemma_last_run(b);
    let all = a + b;
    let less = b.drop_last();
    assert(all.drop_last() =~= a + less);
    assert(all.last() == b.last());
    let c = b.last();
    if less.len() == 0 {
        assert(a + less =~= a);
        assert(b[0] == c);
        assert(runs(less) =~= Seq::empty());
        assert(runs(b) =~= seq![(class_of(c), seq![c])]);
        assert(runs(all) =~= runs(a) + runs(b));
    } else {
        lemma_runs_join(a, less);
        let before = runs(a + less);
        let own = runs(less);
        assert(before.last() == own.last());
        if own.last().0 == class_of(c) {
            assert(before.drop_last() =~= runs(a) + own.drop_last());
        }
        assert(runs(all) =~= runs(a) + runs(b));
    }
}

proof fn lemma_last_run(a: Seq<char>)
    requires
        a.len() > 0,
    ensures
        runs(a).len() > 0,
        runs(a).last().0 == class_of(a.last()),
{
}

proof fn lemma_runs_tokens_join(
    a: Seq<(Class, Seq<char>)>,
    b: Seq<(Class, Seq<char>)>,
)
    ensures
        runs_tokens(a + b) == runs_tokens(a) + runs_tokens(b),
    decreases b.len(),
{
    if b.len() == 0 {
        assert(a + b =~= a);
        assert(runs_tokens(a) + runs_tokens(b) =~= runs_tokens(a));
    } else {
        lemma_runs_tokens_join(a, b.drop_last());
        assert((a + b).drop_last() =~= a + b.drop_last());
        assert((a + b).last() == b.last());
        assert(runs_tokens(a + b) =~= runs_tokens(a) + runs_tokens(b));
    }
}

/// A text is cut where its script changes or a word ends: between letters, the
/// scripts without spaces and everything else, each side is analysed on its own.
pub proof fn law_scripts_part_texts(a: Seq<char>, b: Seq<char>)
    requires
        a.len() > 0,
        b.len() > 0,
        unspaced(a.last()) != unspaced(b[0]) || lettered(a.last()) != lettered(b[0]),
    ensures
        tokens(a + b) == tokens(a) + tokens(b),
{
    lemma_class(a.last());
    lemma_class(b[0]);
    lemma_runs_join(a, b);
    lemma_runs_tokens_join(runs(a), runs(b));
}

/// A text of one kind is one run.
proof fn lemma_one_run(t: Seq<char>, k: Class)
    requires
        t.len() > 0,
        forall|i: int| 0 <= i < t.len() ==> class_of(#[trigger] t[i]) == k,
    ensures
        runs(t) == seq![(k, t)],
    decreases t.len(),
{
    let less = t.drop_last();
    assert(class_of(t[t.len() - 1]) == k);
    if less.len() == 0 {
        assert(runs(less) =~= Seq::empty());
        assert(runs(t) =~= seq![(k, t)]) by {
            assert(seq![t.last()] =~= t);
        }
    } else {
        assert forall|i: int| 0 <= i < less.len() implies class_of(#[trigger] less[i]) == k by {
            assert(less[i] == t[i]);
        }
        lemma_one_run(less, k);
        assert(less.push(t.last()) =~= t);
        assert(runs(t) =~= seq![(k, t)]);
    }
}

proof fn lemma_one_run_tokens(t: Seq<char>, k: Class)
    requires
        t.len() > 0,
        forall|i: int| 0 <= i < t.len() ==> class_of(#[trigger] t[i]) == k,
    ensures
        tokens(t) == run_tokens((k, t)),
{
    lemma_one_run(t, k);
    let rs = seq![(k, t)];
    assert(rs.drop_last() =~= Seq::empty());
    assert(runs_tokens(rs.drop_last()) =~= Seq::empty());
    assert(runs_tokens(rs) =~= run_tokens((k, t)));
}

/// What is neither a letter nor a digit is no term, and parts terms only.
pub proof fn law_gaps_have_no_terms(t: Seq<char>)
    requires
        forall|i: int| 0 <= i < t.len() ==> !alphanumeric(#[trigger] t[i]) && !unspaced(t[i]),
    ensures
        tokens(t) == Seq::<Seq<char>>::empty(),
{
    if t.len() > 0 {
        lemma_one_run_tokens(t, Class::Gap);
    } else {
        assert(runs(t) =~= Seq::empty());
        assert(tokens(t) =~= Seq::empty());
    }
}

/// A text without spaces is indexed by its pairs of neighbours, and a character
/// alone by itself.
pub proof fn law_unspaced_texts_give_pairs(t: Seq<char>)
    requires
        t.len() > 0,
        forall|i: int| 0 <= i < t.len() ==> unspaced(#[trigger] t[i]),
    ensures
        t.len() == 1 ==> tokens(t) == seq![t],
        t.len() > 1 ==> tokens(t).len() == t.len() - 1,
        forall|i: int|
            0 <= i < t.len() - 1 ==> #[trigger] tokens(t)[i] == seq![t[i], t[i + 1]],
{
    lemma_one_run_tokens(t, Class::Cjk);
}

// ---- words ----------------------------------------------------------------------------------

/// The words that are too common to tell documents apart.
#[verifier::opaque]
pub open spec fn common(w: Seq<char>) -> bool {
    ||| w == "a"@
    ||| w == "an"@
    ||| w == "and"@
    ||| w == "are"@
    ||| w == "as"@
    ||| w == "at"@
    ||| w == "be"@
    ||| w == "been"@
    ||| w == "but"@
    ||| w == "by"@
    ||| w == "for"@
    ||| w == "from"@
    ||| w == "had"@
    ||| w == "has"@
    ||| w == "have"@
    ||| w == "he"@
    ||| w == "her"@
    ||| w == "his"@
    ||| w == "i"@
    ||| w == "if"@
    ||| w == "in"@
    ||| w == "into"@
    ||| w == "is"@
    ||| w == "it"@
    ||| w == "its"@
    ||| w == "of"@
    ||| w == "on"@
    ||| w == "or"@
    ||| w == "our"@
    ||| w == "she"@
    ||| w == "so"@
    ||| w == "that"@
    ||| w == "the"@
    ||| w == "their"@
    ||| w == "them"@
    ||| w == "then"@
    ||| w == "there"@
    ||| w == "these"@
    ||| w == "they"@
    ||| w == "this"@
    ||| w == "those"@
    ||| w == "to"@
    ||| w == "was"@
    ||| w == "we"@
    ||| w == "were"@
    ||| w == "which"@
    ||| w == "while"@
    ||| w == "will"@
    ||| w == "with"@
    ||| w == "you"@
    ||| w == "your"@
}

proof fn lemma_listed(w: Seq<char>, x: Seq<char>)
    ensures
        encode_utf8(w) == encode_utf8(x) <==> w == x,
{
    encode_utf8_decode_utf8(w);
    encode_utf8_decode_utf8(x);
}

#[verifier::spinoff_prover]
#[verifier::rlimit(40)]
proof fn lemma_common(w: Seq<char>)
    ensures
        stopword(encode_utf8(w)) <==> common(w),
        common(w) ==> w.len() <= 5,
{
    reveal(common);
    lemma_listed(w, "a"@);
    lemma_listed(w, "an"@);
    lemma_listed(w, "and"@);
    lemma_listed(w, "are"@);
    lemma_listed(w, "as"@);
    lemma_listed(w, "at"@);
    lemma_listed(w, "be"@);
    lemma_listed(w, "been"@);
    lemma_listed(w, "but"@);
    lemma_listed(w, "by"@);
    lemma_listed(w, "for"@);
    lemma_listed(w, "from"@);
    lemma_listed(w, "had"@);
    lemma_listed(w, "has"@);
    lemma_listed(w, "have"@);
    lemma_listed(w, "he"@);
    lemma_listed(w, "her"@);
    lemma_listed(w, "his"@);
    lemma_listed(w, "i"@);
    lemma_listed(w, "if"@);
    lemma_listed(w, "in"@);
    lemma_listed(w, "into"@);
    lemma_listed(w, "is"@);
    lemma_listed(w, "it"@);
    lemma_listed(w, "its"@);
    lemma_listed(w, "of"@);
    lemma_listed(w, "on"@);
    lemma_listed(w, "or"@);
    lemma_listed(w, "our"@);
    lemma_listed(w, "she"@);
    lemma_listed(w, "so"@);
    lemma_listed(w, "that"@);
    lemma_listed(w, "the"@);
    lemma_listed(w, "their"@);
    lemma_listed(w, "them"@);
    lemma_listed(w, "then"@);
    lemma_listed(w, "there"@);
    lemma_listed(w, "these"@);
    lemma_listed(w, "they"@);
    lemma_listed(w, "this"@);
    lemma_listed(w, "those"@);
    lemma_listed(w, "to"@);
    lemma_listed(w, "was"@);
    lemma_listed(w, "we"@);
    lemma_listed(w, "were"@);
    lemma_listed(w, "which"@);
    lemma_listed(w, "while"@);
    lemma_listed(w, "will"@);
    lemma_listed(w, "with"@);
    lemma_listed(w, "you"@);
    lemma_listed(w, "your"@);
    reveal_strlit("a");
    reveal_strlit("an");
    reveal_strlit("and");
    reveal_strlit("are");
    reveal_strlit("as");
    reveal_strlit("at");
    reveal_strlit("be");
    reveal_strlit("been");
    reveal_strlit("but");
    reveal_strlit("by");
    reveal_strlit("for");
    reveal_strlit("from");
    reveal_strlit("had");
    reveal_strlit("has");
    reveal_strlit("have");
    reveal_strlit("he");
    reveal_strlit("her");
    reveal_strlit("his");
    reveal_strlit("i");
    reveal_strlit("if");
    reveal_strlit("in");
    reveal_strlit("into");
    reveal_strlit("is");
    reveal_strlit("it");
    reveal_strlit("its");
    reveal_strlit("of");
    reveal_strlit("on");
    reveal_strlit("or");
    reveal_strlit("our");
    reveal_strlit("she");
    reveal_strlit("so");
    reveal_strlit("that");
    reveal_strlit("the");
    reveal_strlit("their");
    reveal_strlit("them");
    reveal_strlit("then");
    reveal_strlit("there");
    reveal_strlit("these");
    reveal_strlit("they");
    reveal_strlit("this");
    reveal_strlit("those");
    reveal_strlit("to");
    reveal_strlit("was");
    reveal_strlit("we");
    reveal_strlit("were");
    reveal_strlit("which");
    reveal_strlit("while");
    reveal_strlit("will");
    reveal_strlit("with");
    reveal_strlit("you");
    reveal_strlit("your");
}

proof fn lemma_lowered(w: Seq<char>, v: Seq<char>)
    requires
        v.len() == w.len(),
        forall|i: int| 0 <= i < w.len() ==> lowercase(#[trigger] w[i]) == seq![v[i]],
    ensures
        lowered(w) == v,
    decreases w.len(),
{
    if w.len() == 0 {
        assert(v =~= Seq::empty());
    } else {
        let (x, y) = (w.drop_last(), v.drop_last());
        assert forall|i: int| 0 <= i < x.len() implies lowercase(#[trigger] x[i]) == seq![y[i]] by {
            assert(x[i] == w[i]);
        }
        lemma_lowered(x, y);
        assert(w.last() == w[w.len() - 1]);
        assert(y + seq![v.last()] =~= v);
    }
}

proof fn lemma_word_tokens(w: Seq<char>)
    requires
        w.len() > 0,
        is_word(w),
    ensures
        tokens(w) == if lowered(w).len() <= 40 && !common(lowered(w)) {
            seq![stemmed(lowered(w))]
        } else {
            Seq::<Seq<char>>::empty()
        },
{
    assert forall|i: int| 0 <= i < w.len() implies class_of(#[trigger] w[i]) == Class::Word by {
        lemma_class(w[i]);
    }
    lemma_one_run_tokens(w, Class::Word);
    lemma_common(lowered(w));
}

/// A word of at most forty characters that is not among the commonest is a term,
/// as it stands if it is in lower case and does not end in `s`. The commonest
/// words and longer ones are no terms.
pub proof fn law_words_are_terms(w: Seq<char>)
    requires
        w.len() > 0,
        is_word(w),
        is_lower(w),
    ensures
        w.len() <= 40 && !common(w) && w.last() != 's' ==> tokens(w) == seq![w],
        w.len() <= 40 && !common(w) ==> tokens(w).len() == 1,
        5 < w.len() ==> !common(w),
        w.len() > 40 || common(w) ==> tokens(w) == Seq::<Seq<char>>::empty(),
{
    lemma_lowered(w, w);
    lemma_word_tokens(w);
    lemma_common(w);
    if w.last() != 's' {
        lemma_no_ending(w);
    }
}

/// Case does not matter: a word has the terms of its lower case.
pub proof fn law_case_does_not_matter(w: Seq<char>, v: Seq<char>)
    requires
        w.len() > 0,
        v.len() == w.len(),
        is_word(w),
        is_word(v),
        is_lower(v),
        forall|i: int| 0 <= i < w.len() ==> lowercase(#[trigger] w[i]) == seq![v[i]],
    ensures
        tokens(w) == tokens(v),
{
    lemma_lowered(w, v);
    lemma_lowered(v, v);
    lemma_word_tokens(w);
    lemma_word_tokens(v);
}

/// A word that does not end in `s` has no plural ending.
proof fn lemma_no_ending(w: Seq<char>)
    requires
        w.len() > 0,
        w.last() != 's',
    ensures
        stemmed(w) == w,
{
    lemma_ends(w, seq!['i', 'e', 's']);
    lemma_ends(w, seq!['e', 's']);
    lemma_ends(w, seq!['s']);
}

proof fn lemma_ends(w: Seq<char>, e: Seq<char>)
    requires
        e.len() > 0,
    ensures
        ends(w, e) ==> w.len() > 0 && w.last() == e.last(),
        e.len() >= 2 && ends(w, e) ==> w.len() >= 2 && w[w.len() - 2] == e[e.len() - 2],
        e.len() >= 3 && ends(w, e) ==> w.len() >= 3 && w[w.len() - 3] == e[e.len() - 3],
{
    if ends(w, e) {
        let t = w.subrange(w.len() - e.len(), w.len() as int);
        assert(t[e.len() - 1] == w.last());
        if e.len() >= 2 {
            assert(t[e.len() - 2] == w[w.len() - 2]);
        }
        if e.len() >= 3 {
            assert(t[e.len() - 3] == w[w.len() - 3]);
        }
    }
}

/// A text takes at least a byte per character.
proof fn lemma_bytes_at_least(s: Seq<char>)
    ensures
        encode_utf8(s).len() >= s.len(),
    decreases s.len(),
{
    if s.len() > 0 {
        lemma_bytes_at_least(s.drop_first());
    }
}

/// A plural finds its singular: an `s` behind a word of three or more characters
/// is dropped, unless the word ends in `s`, `u` or `ie`; behind `s` and `u` it
/// belongs to the word.
pub proof fn law_plurals_drop_their_s(x: Seq<char>)
    requires
        3 <= x.len() <= 39,
        is_word(x.push('s')),
        is_lower(x.push('s')),
        !common(x),
        !common(x.push('s')),
    ensures
        x.last() != 's' && x.last() != 'u' && !(x.last() == 'e' && x[x.len() - 2] == 'i') ==> tokens(
            x.push('s'),
        ) == tokens(x) && tokens(x) == seq![x],
        x.last() == 's' || x.last() == 'u' ==> tokens(x.push('s')) == seq![x.push('s')],
{
    let w = x.push('s');
    assert forall|i: int| 0 <= i < x.len() implies lettered(#[trigger] x[i]) && lowercase(x[i])
        == seq![x[i]] by {
        assert(w[i] == x[i]);
    }
    lemma_lowered(w, w);
    lemma_word_tokens(w);
    law_words_are_terms(x);
    lemma_stem_s(x);
}

#[verifier::spinoff_prover]
proof fn lemma_stem_s(x: Seq<char>)
    requires
        x.len() >= 3,
    ensures
        x.last() != 's' && x.last() != 'u' && !(x.last() == 'e' && x[x.len() - 2] == 'i')
            ==> stemmed(x.push('s')) == x,
        x.last() == 's' || x.last() == 'u' ==> stemmed(x.push('s')) == x.push('s'),
{
    let w = x.push('s');
    lemma_bytes_at_least(w);
    let n = encode_utf8(w).len();
    assert(n > 3);
    assert(w.drop_last() =~= x);
    assert(w.last() == 's' && w[w.len() - 2] == x.last() && w[w.len() - 3] == x[x.len() - 2]);
    lemma_ends(w, seq!['i', 'e', 's']);
    lemma_ends(w, seq!['e', 's']);
    lemma_ends(w, seq!['u', 's']);
    lemma_ends(w, seq!['s', 's']);
    assert(w.subrange(w.len() - 1, w.len() as int) =~= seq!['s']);
    if x.last() == 's' {
        assert(w.subrange(w.len() - 2, w.len() as int) =~= seq!['s', 's']);
        assert(ends(w, seq!['s', 's']));
    } else if x.last() == 'u' {
        assert(w.subrange(w.len() - 2, w.len() as int) =~= seq!['u', 's']);
        assert(ends(w, seq!['u', 's']));
    } else if !(x.last() == 'e' && x[x.len() - 2] == 'i') {
        assert(!ends(w, seq!['i', 'e', 's']));
        assert(!ends(w, seq!['u', 's']) && !ends(w, seq!['s', 's']));
        assert(ends(w, seq!['s']));
    }
}

/// A plural in `ies` finds its singular in `y`, unless an `e` or `a` stands
/// before the ending.
pub proof fn law_plurals_in_ies_mean_y(x: Seq<char>)
    requires
        2 <= x.len() <= 37,
        is_word(x + seq!['i', 'e', 's']),
        is_lower(x + seq!['i', 'e', 's']),
        is_word(x.push('y')),
        is_lower(x.push('y')),
        !common(x + seq!['i', 'e', 's']),
        !common(x.push('y')),
        x.last() != 'e',
        x.last() != 'a',
    ensures
        tokens(x + seq!['i', 'e', 's']) == tokens(x.push('y')),
        tokens(x.push('y')) == seq![x.push('y')],
{
    let w = x + seq!['i', 'e', 's'];
    lemma_lowered(w, w);
    lemma_word_tokens(w);
    law_words_are_terms(x.push('y'));
    lemma_stem_ies(x);
}

#[verifier::spinoff_prover]
/// Words of up to three bytes stay as they are. Where `ies` ends a word of four
/// bytes, or comes behind an `e` or an `a`, only the `s` goes.
pub proof fn law_other_plurals(w: Seq<char>)
    requires
        0 < w.len() <= 40,
        is_word(w),
        is_lower(w),
        !common(w),
    ensures
        encode_utf8(w).len() <= 3 ==> tokens(w) == seq![w],
        encode_utf8(w).len() == 4 && w.len() >= 3 && w.subrange(w.len() - 3, w.len() as int)
            == seq!['i', 'e', 's'] ==> tokens(w) == seq![w.drop_last()],
        w.len() >= 4 && (w.subrange(w.len() - 4, w.len() as int) == seq!['e', 'i', 'e', 's']
            || w.subrange(w.len() - 4, w.len() as int) == seq!['a', 'i', 'e', 's']) ==> tokens(w)
            == seq![w.drop_last()],
{
    lemma_lowered(w, w);
    lemma_word_tokens(w);
    lemma_bytes_at_least(w);
    let n = w.len() as int;
    if w.len() >= 3 && w.subrange(n - 3, n) == seq!['i', 'e', 's'] {
        lemma_stem_es(w);
    }
    if w.len() >= 4 && (w.subrange(n - 4, n) == seq!['e', 'i', 'e', 's'] || w.subrange(n - 4, n)
        == seq!['a', 'i', 'e', 's']) {
        assert(w.subrange(n - 3, n) =~= w.subrange(n - 4, n).subrange(1, 4));
        assert(w.subrange(n - 3, n) =~= seq!['i', 'e', 's']);
        lemma_stem_es(w);
    }
}

proof fn lemma_stem_es(w: Seq<char>)
    requires
        w.len() >= 3,
        w.subrange(w.len() - 3, w.len() as int) == seq!['i', 'e', 's'],
    ensures
        encode_utf8(w).len() == 4 ==> stemmed(w) == w.drop_last(),
        w.len() >= 4 && (w.subrange(w.len() - 4, w.len() as int) == seq!['e', 'i', 'e', 's']
            || w.subrange(w.len() - 4, w.len() as int) == seq!['a', 'i', 'e', 's']) ==> stemmed(w)
            == w.drop_last(),
{
    let n = w.len() as int;
    lemma_bytes_at_least(w);
    let last = w.subrange(n - 3, n);
    assert(last[0] == w[n - 3] && last[1] == w[n - 2] && last[2] == w[n - 1]);
    assert(w.subrange(n - 2, n) =~= seq!['e', 's']);
    assert(ends(w, seq!['e', 's']));
    lemma_ends(w, seq!['a', 'e', 's']);
    lemma_ends(w, seq!['e', 'e', 's']);
    lemma_ends(w, seq!['o', 'e', 's']);
}

proof fn lemma_stem_ies(x: Seq<char>)
    requires
        x.len() >= 2,
        x.last() != 'e',
        x.last() != 'a',
    ensures
        stemmed(x + seq!['i', 'e', 's']) == x.push('y'),
{
    let w = x + seq!['i', 'e', 's'];
    lemma_bytes_at_least(w);
    assert(encode_utf8(w).len() > 4);
    assert(w.subrange(w.len() - 3, w.len() as int) =~= seq!['i', 'e', 's']);
    assert(ends(w, seq!['i', 'e', 's']));
    assert(w[w.len() - 4] == x.last());
    assert(!ends(w, seq!['e', 'i', 'e', 's'])) by {
        if ends(w, seq!['e', 'i', 'e', 's']) {
            assert(w.subrange(w.len() - 4, w.len() as int)[0] == w[w.len() - 4]);
        }
    }
    assert(!ends(w, seq!['a', 'i', 'e', 's'])) by {
        if ends(w, seq!['a', 'i', 'e', 's']) {
            assert(w.subrange(w.len() - 4, w.len() as int)[0] == w[w.len() - 4]);
        }
    }
    assert(w.subrange(0, w.len() - 3) =~= x);
}

// ---- counts ---------------------------------------------------------------------------------

/// Every place counts once: a term alone occurs once, another not at all, and
/// occurrences in two lists add up.
pub proof fn law_occurrences_add_up(a: Seq<Seq<u8>>, b: Seq<Seq<u8>>, x: Seq<u8>, t: Seq<u8>)
    ensures
        occurrences(seq![x], t) == if x == t {
            1nat
        } else {
            0nat
        },
        occurrences(a + b, t) == occurrences(a, t) + occurrences(b, t),
    decreases b.len(),
{
    let one = seq![x];
    assert(one.drop_last() =~= Seq::empty());
    assert(occurrences(one.drop_last(), t) == 0);
    if b.len() == 0 {
        assert(a + b =~= a);
    } else {
        law_occurrences_add_up(a, b.drop_last(), x, t);
        assert((a + b).drop_last() =~= a + b.drop_last());
        assert((a + b).last() == b.last());
    }
}

} // verus!
