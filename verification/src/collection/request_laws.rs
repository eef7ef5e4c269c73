//! What the JSON that callers send means, member by member.

use crate::collection::filter::parsed;
use crate::collection::filter_laws::names_differ;
use crate::collection::options::{
    compatible, fresh_layout, known, metric_code, metric_of_tree, options_of, options_stated,
    shareable, with_option, CollectionOptions, Metric,
};
use crate::collection::search::{
    fetch_size, fusion_of, includes, rounds_into_unit, wish_of, wish_stated, with_member, Fusion,
};
use crate::collection::wire::{known_member, member, stated};
use crate::json::{lemma_position, lemma_position_unique, Tree};
use vstd::prelude::*;
use vstd::utf8::*;

verus! {

// ---- collection options ---------------------------------------------------------------------

/// The names of the options differ.
#[verifier::spinoff_prover]
proof fn lemma_option_names()
    ensures
        encode_utf8("dim"@) != encode_utf8("metric"@),
        encode_utf8("dim"@) != encode_utf8("text_index"@),
        encode_utf8("dim"@) != encode_utf8("sync"@),
        encode_utf8("dim"@) != encode_utf8("m"@),
        encode_utf8("dim"@) != encode_utf8("ef_construction"@),
        encode_utf8("dim"@) != encode_utf8("ef_search"@),
        encode_utf8("metric"@) != encode_utf8("text_index"@),
        encode_utf8("metric"@) != encode_utf8("sync"@),
        encode_utf8("metric"@) != encode_utf8("m"@),
        encode_utf8("metric"@) != encode_utf8("ef_construction"@),
        encode_utf8("metric"@) != encode_utf8("ef_search"@),
        encode_utf8("text_index"@) != encode_utf8("sync"@),
        encode_utf8("text_index"@) != encode_utf8("m"@),
        encode_utf8("text_index"@) != encode_utf8("ef_construction"@),
        encode_utf8("text_index"@) != encode_utf8("ef_search"@),
        encode_utf8("sync"@) != encode_utf8("m"@),
        encode_utf8("sync"@) != encode_utf8("ef_construction"@),
        encode_utf8("sync"@) != encode_utf8("ef_search"@),
        encode_utf8("m"@) != encode_utf8("ef_construction"@),
        encode_utf8("m"@) != encode_utf8("ef_search"@),
        encode_utf8("ef_construction"@) != encode_utf8("ef_search"@),
{
    reveal_strlit("dim");
    reveal_strlit("metric");
    reveal_strlit("text_index");
    reveal_strlit("sync");
    reveal_strlit("m");
    reveal_strlit("ef_construction");
    reveal_strlit("ef_search");
    assert("dim"@[0] == 'd' && "dim"@[1] == 'i' && "dim"@[2] == 'm');
    assert("metric"@[0] == 'm' && "metric"@[1] == 'e' && "metric"@[2] == 't' && "metric"@[3] == 'r');
    assert("text_index"@[0] == 't' && "text_index"@[1] == 'e' && "text_index"@[2] == 'x' && "text_index"@[3] == 't');
    assert("sync"@[0] == 's' && "sync"@[1] == 'y' && "sync"@[2] == 'n' && "sync"@[3] == 'c');
    assert("m"@[0] == 'm');
    assert("ef_construction"@[0] == 'e' && "ef_construction"@[1] == 'f' && "ef_construction"@[2] == '_' && "ef_construction"@[3] == 'c');
    assert("ef_search"@[0] == 'e' && "ef_search"@[1] == 'f' && "ef_search"@[2] == '_' && "ef_search"@[3] == 's');
    encode_utf8_decode_utf8("dim"@);
    encode_utf8_decode_utf8("metric"@);
    encode_utf8_decode_utf8("text_index"@);
    encode_utf8_decode_utf8("sync"@);
    encode_utf8_decode_utf8("m"@);
    encode_utf8_decode_utf8("ef_construction"@);
    encode_utf8_decode_utf8("ef_search"@);
}

/// The names of the metrics differ.
#[verifier::spinoff_prover]
proof fn lemma_metric_names()
    ensures
        encode_utf8("cosine"@) != encode_utf8("euclidean"@),
        encode_utf8("cosine"@) != encode_utf8("l2"@),
        encode_utf8("cosine"@) != encode_utf8("dot"@),
        encode_utf8("cosine"@) != encode_utf8("dot_product"@),
        encode_utf8("euclidean"@) != encode_utf8("l2"@),
        encode_utf8("euclidean"@) != encode_utf8("dot"@),
        encode_utf8("euclidean"@) != encode_utf8("dot_product"@),
        encode_utf8("l2"@) != encode_utf8("dot"@),
        encode_utf8("l2"@) != encode_utf8("dot_product"@),
        encode_utf8("dot"@) != encode_utf8("dot_product"@),
{
    reveal_strlit("cosine");
    reveal_strlit("euclidean");
    reveal_strlit("l2");
    reveal_strlit("dot");
    reveal_strlit("dot_product");
    assert("cosine"@[0] == 'c' && "cosine"@[1] == 'o' && "cosine"@[2] == 's' && "cosine"@[3] == 'i');
    assert("euclidean"@[0] == 'e' && "euclidean"@[1] == 'u' && "euclidean"@[2] == 'c' && "euclidean"@[3] == 'l');
    assert("l2"@[0] == 'l' && "l2"@[1] == '2');
    assert("dot"@[0] == 'd' && "dot"@[1] == 'o' && "dot"@[2] == 't');
    assert("dot_product"@[0] == 'd' && "dot_product"@[1] == 'o' && "dot_product"@[2] == 't' && "dot_product"@[3] == '_');
    encode_utf8_decode_utf8("cosine"@);
    encode_utf8_decode_utf8("euclidean"@);
    encode_utf8_decode_utf8("l2"@);
    encode_utf8_decode_utf8("dot"@);
    encode_utf8_decode_utf8("dot_product"@);
}

/// The value is a whole number, `n`.
pub open spec fn is_whole(t: Tree, n: int) -> bool {
    t is Number && t->Number_0.unsigned is Some && t->Number_0.unsigned->0 == n
}

/// The value is a whole number that fits a size.
pub open spec fn is_size(t: Tree) -> bool {
    t is Number && t->Number_0.unsigned is Some && t->Number_0.unsigned->0 <= usize::MAX
}

/// The value names a metric, by name or by code.
pub open spec fn means(t: Tree, m: Metric) -> bool {
    match m {
        Metric::Cosine => t == Tree::Text(encode_utf8("cosine"@)) || is_whole(t, 0),
        Metric::Euclidean => t == Tree::Text(encode_utf8("euclidean"@)) || t == Tree::Text(
            encode_utf8("l2"@),
        ) || is_whole(t, 1),
        Metric::DotProduct => t == Tree::Text(encode_utf8("dot"@)) || t == Tree::Text(
            encode_utf8("dot_product"@),
        ) || is_whole(t, 2),
    }
}

/// A metric has its names, and no two share one: a value stands for the metric
/// that it names, and for none where it names none. The code that is stored is
/// the code by which it can be named.
pub proof fn law_metrics_have_their_names(t: Tree, m: Metric)
    ensures
        metric_of_tree(t) == Some(m) <==> means(t, m),
        is_whole(t, metric_code(m) as int) ==> means(t, m),
        metric_of_tree(t) is Some <==> means(t, Metric::Cosine) || means(t, Metric::Euclidean)
            || means(t, Metric::DotProduct),
        means(t, m) && metric_of_tree(t) is Some ==> metric_of_tree(t)->0 == m,
{
    lemma_metric_names();
}

/// The value fits the option of that name.
pub open spec fn option_fits(name: Seq<u8>, t: Tree) -> bool {
    ||| name == encode_utf8("dim"@) && is_size(t)
    ||| name == encode_utf8("metric"@) && exists|m: Metric| means(t, m)
    ||| name == encode_utf8("text_index"@) && t is Bool
    ||| name == encode_utf8("sync"@) && t is Bool
    ||| name == encode_utf8("m"@) && is_size(t)
    ||| name == encode_utf8("ef_construction"@) && is_size(t)
    ||| name == encode_utf8("ef_search"@) && is_size(t)
}

/// The options say what the member says.
pub open spec fn option_said(o: CollectionOptions, name: Seq<u8>, t: Tree) -> bool {
    &&& name == encode_utf8("dim"@) ==> is_whole(t, o.dim as int)
    &&& name == encode_utf8("metric"@) ==> means(t, o.metric)
    &&& name == encode_utf8("text_index"@) ==> t == Tree::Bool(o.text_index)
    &&& name == encode_utf8("sync"@) ==> t == Tree::Bool(o.sync_on_write)
    &&& name == encode_utf8("m"@) ==> o.m is Some && is_whole(t, o.m->0 as int)
    &&& name == encode_utf8("ef_construction"@) ==> o.ef_construction is Some && is_whole(
        t,
        o.ef_construction->0 as int,
    )
    &&& name == encode_utf8("ef_search"@) ==> o.ef_search is Some && is_whole(
        t,
        o.ef_search->0 as int,
    )
}

/// The two agree on every option but the one of that name.
spec fn other_options_same(a: CollectionOptions, b: CollectionOptions, name: Seq<u8>) -> bool {
    &&& name != encode_utf8("dim"@) ==> a.dim == b.dim
    &&& name != encode_utf8("metric"@) ==> a.metric == b.metric
    &&& name != encode_utf8("text_index"@) ==> a.text_index == b.text_index
    &&& name != encode_utf8("sync"@) ==> a.sync_on_write == b.sync_on_write
    &&& name != encode_utf8("m"@) ==> a.m == b.m
    &&& name != encode_utf8("ef_construction"@) ==> a.ef_construction == b.ef_construction
    &&& name != encode_utf8("ef_search"@) ==> a.ef_search == b.ef_search
}

proof fn lemma_with_option(o: CollectionOptions, name: Seq<u8>, t: Tree)
    ensures
        with_option(o, (name, t)) is Some <==> option_fits(name, t),
        with_option(o, (name, t)) is Some ==> option_said(with_option(o, (name, t))->0, name, t)
            && other_options_same(o, with_option(o, (name, t))->0, name),
{
    lemma_option_names();
    law_metrics_have_their_names(t, Metric::Cosine);
    law_metrics_have_their_names(t, Metric::Euclidean);
    law_metrics_have_their_names(t, Metric::DotProduct);
    if exists|m: Metric| means(t, m) {
        let m = choose|m: Metric| means(t, m);
        law_metrics_have_their_names(t, m);
    }
}

proof fn lemma_options_fit(ms: Seq<(Seq<u8>, Tree)>, n: int)
    requires
        0 <= n <= ms.len(),
    ensures
        options_stated(ms, n) is Some <==> forall|i: int|
            0 <= i < n ==> option_fits((#[trigger] ms[i]).0, ms[i].1),
    decreases n,
{
    if n > 0 {
        lemma_options_fit(ms, n - 1);
        let (name, t) = ms[n - 1];
        assert(ms[n - 1] == (name, t));
        if options_stated(ms, n - 1) is Some {
            lemma_with_option(options_stated(ms, n - 1)->0, name, t);
        }
    }
}

/// Options are accepted if each member is an option and its value fits.
pub proof fn law_options_are_checked(ms: Seq<(Seq<u8>, Tree)>)
    ensures
        options_of(Some(Tree::Object(ms))) is Some <==> forall|i: int|
            0 <= i < ms.len() ==> option_fits((#[trigger] ms[i]).0, ms[i].1),
{
    lemma_options_fit(ms, ms.len() as int);
}

proof fn lemma_option_kept(ms: Seq<(Seq<u8>, Tree)>, n: int, i: int)
    requires
        0 <= i < n <= ms.len(),
        names_differ(ms),
        options_stated(ms, n) is Some,
    ensures
        option_said(options_stated(ms, n)->0, ms[i].0, ms[i].1),
    decreases n,
{
    let (name, t) = ms[n - 1];
    assert(ms[n - 1] == (name, t));
    let before = options_stated(ms, n - 1)->0;
    lemma_with_option(before, name, t);
    if i < n - 1 {
        lemma_option_kept(ms, n - 1, i);
        assert(ms[i].0 != ms[n - 1].0);
    }
}

/// Each option is what the member of its name says.
pub proof fn law_options_say_what_their_members_say(ms: Seq<(Seq<u8>, Tree)>, i: int)
    requires
        0 <= i < ms.len(),
        names_differ(ms),
        options_of(Some(Tree::Object(ms))) is Some,
    ensures
        option_said(options_of(Some(Tree::Object(ms)))->0, ms[i].0, ms[i].1),
{
    lemma_option_kept(ms, ms.len() as int, i);
}

/// No member has that name.
pub open spec fn unsaid(ms: Seq<(Seq<u8>, Tree)>, name: Seq<u8>) -> bool {
    forall|i: int| 0 <= i < ms.len() ==> (#[trigger] ms[i]).0 != name
}

proof fn lemma_options_unsaid(ms: Seq<(Seq<u8>, Tree)>, n: int)
    requires
        0 <= n <= ms.len(),
        options_stated(ms, n) is Some,
    ensures
        ({
            let o = options_stated(ms, n)->0;
            &&& unsaid(ms, encode_utf8("dim"@)) ==> o.dim == 0
            &&& unsaid(ms, encode_utf8("metric"@)) ==> o.metric == Metric::Cosine
            &&& unsaid(ms, encode_utf8("text_index"@)) ==> o.text_index
            &&& unsaid(ms, encode_utf8("sync"@)) ==> o.sync_on_write
            &&& unsaid(ms, encode_utf8("m"@)) ==> o.m is None
            &&& unsaid(ms, encode_utf8("ef_construction"@)) ==> o.ef_construction is None
            &&& unsaid(ms, encode_utf8("ef_search"@)) ==> o.ef_search is None
        }),
    decreases n,
{
    if n > 0 {
        lemma_options_unsaid(ms, n - 1);
        let (name, t) = ms[n - 1];
        assert(ms[n - 1] == (name, t));
        lemma_with_option(options_stated(ms, n - 1)->0, name, t);
    }
}

/// An option that no member names is what it is without any: no vectors, cosine,
/// a text index, every write synced, and the graph's own measures.
pub proof fn law_unsaid_options_are_plain(ms: Seq<(Seq<u8>, Tree)>)
    requires
        options_of(Some(Tree::Object(ms))) is Some,
    ensures
        ({
            let o = options_of(Some(Tree::Object(ms)))->0;
            &&& unsaid(ms, encode_utf8("dim"@)) ==> o.dim == 0
            &&& unsaid(ms, encode_utf8("metric"@)) ==> o.metric == Metric::Cosine
            &&& unsaid(ms, encode_utf8("text_index"@)) ==> o.text_index
            &&& unsaid(ms, encode_utf8("sync"@)) ==> o.sync_on_write
            &&& unsaid(ms, encode_utf8("m"@)) ==> o.m is None
            &&& unsaid(ms, encode_utf8("ef_construction"@)) ==> o.ef_construction is None
            &&& unsaid(ms, encode_utf8("ef_search"@)) ==> o.ef_search is None
        }),
        options_of(None) == options_of(Some(Tree::Object(Seq::empty()))),
{
    lemma_options_unsaid(ms, ms.len() as int);
}

/// A collection can be opened again, and shared, with the options that it was
/// made with, and by a caller that asks for no dimension. Another dimension is
/// refused, and another metric where there are vectors. What it was made with is
/// what it keeps.
pub proof fn law_layouts_are_kept(made: CollectionOptions, o: CollectionOptions)
    ensures
        ({
            let c = fresh_layout(made);
            &&& known(c)
            &&& c.dim == made.dim && c.text_index == made.text_index
            &&& compatible(c, made) && shareable(c, made)
            &&& o.dim == 0 ==> compatible(c, o) && shareable(c, o)
            &&& o.dim != 0 && o.dim != made.dim ==> !compatible(c, o) && !shareable(c, o)
            &&& o.dim != 0 && o.dim == made.dim ==> compatible(c, o) == (o.metric == made.metric)
                && shareable(c, o) == (o.metric == made.metric)
        }),
{
}

// ---- search requests ------------------------------------------------------------------------

/// The names of what a search may ask differ.
#[verifier::spinoff_prover]
proof fn lemma_wish_names()
    ensures
        encode_utf8("k"@) != encode_utf8("ef"@),
        encode_utf8("k"@) != encode_utf8("candidates"@),
        encode_utf8("k"@) != encode_utf8("text"@),
        encode_utf8("k"@) != encode_utf8("filter"@),
        encode_utf8("k"@) != encode_utf8("mmr"@),
        encode_utf8("k"@) != encode_utf8("min_score"@),
        encode_utf8("k"@) != encode_utf8("fusion"@),
        encode_utf8("k"@) != encode_utf8("include"@),
        encode_utf8("ef"@) != encode_utf8("candidates"@),
        encode_utf8("ef"@) != encode_utf8("text"@),
        encode_utf8("ef"@) != encode_utf8("filter"@),
        encode_utf8("ef"@) != encode_utf8("mmr"@),
        encode_utf8("ef"@) != encode_utf8("min_score"@),
        encode_utf8("ef"@) != encode_utf8("fusion"@),
        encode_utf8("ef"@) != encode_utf8("include"@),
        encode_utf8("candidates"@) != encode_utf8("text"@),
        encode_utf8("candidates"@) != encode_utf8("filter"@),
        encode_utf8("candidates"@) != encode_utf8("mmr"@),
        encode_utf8("candidates"@) != encode_utf8("min_score"@),
        encode_utf8("candidates"@) != encode_utf8("fusion"@),
        encode_utf8("candidates"@) != encode_utf8("include"@),
        encode_utf8("text"@) != encode_utf8("filter"@),
        encode_utf8("text"@) != encode_utf8("mmr"@),
        encode_utf8("text"@) != encode_utf8("min_score"@),
        encode_utf8("text"@) != encode_utf8("fusion"@),
        encode_utf8("text"@) != encode_utf8("include"@),
        encode_utf8("filter"@) != encode_utf8("mmr"@),
        encode_utf8("filter"@) != encode_utf8("min_score"@),
        encode_utf8("filter"@) != encode_utf8("fusion"@),
        encode_utf8("filter"@) != encode_utf8("include"@),
        encode_utf8("mmr"@) != encode_utf8("min_score"@),
        encode_utf8("mmr"@) != encode_utf8("fusion"@),
        encode_utf8("mmr"@) != encode_utf8("include"@),
        encode_utf8("min_score"@) != encode_utf8("fusion"@),
        encode_utf8("min_score"@) != encode_utf8("include"@),
        encode_utf8("fusion"@) != encode_utf8("include"@),
{
    reveal_strlit("k");
    reveal_strlit("ef");
    reveal_strlit("candidates");
    reveal_strlit("text");
    reveal_strlit("filter");
    reveal_strlit("mmr");
    reveal_strlit("min_score");
    reveal_strlit("fusion");
    reveal_strlit("include");
    assert("k"@[0] == 'k');
    assert("ef"@[0] == 'e' && "ef"@[1] == 'f');
    assert("candidates"@[0] == 'c' && "candidates"@[1] == 'a' && "candidates"@[2] == 'n' && "candidates"@[3] == 'd');
    assert("text"@[0] == 't' && "text"@[1] == 'e' && "text"@[2] == 'x' && "text"@[3] == 't');
    assert("filter"@[0] == 'f' && "filter"@[1] == 'i' && "filter"@[2] == 'l' && "filter"@[3] == 't');
    assert("mmr"@[0] == 'm' && "mmr"@[1] == 'm' && "mmr"@[2] == 'r');
    assert("min_score"@[0] == 'm' && "min_score"@[1] == 'i' && "min_score"@[2] == 'n' && "min_score"@[3] == '_');
    assert("fusion"@[0] == 'f' && "fusion"@[1] == 'u' && "fusion"@[2] == 's' && "fusion"@[3] == 'i');
    assert("include"@[0] == 'i' && "include"@[1] == 'n' && "include"@[2] == 'c' && "include"@[3] == 'l');
    encode_utf8_decode_utf8("k"@);
    encode_utf8_decode_utf8("ef"@);
    encode_utf8_decode_utf8("candidates"@);
    encode_utf8_decode_utf8("text"@);
    encode_utf8_decode_utf8("filter"@);
    encode_utf8_decode_utf8("mmr"@);
    encode_utf8_decode_utf8("min_score"@);
    encode_utf8_decode_utf8("fusion"@);
    encode_utf8_decode_utf8("include"@);
}

/// The names of the parts of a hit differ.
#[verifier::spinoff_prover]
proof fn lemma_part_names()
    ensures
        encode_utf8("text"@) != encode_utf8("metadata"@),
        encode_utf8("text"@) != encode_utf8("vector"@),
        encode_utf8("metadata"@) != encode_utf8("vector"@),
{
    reveal_strlit("text");
    reveal_strlit("metadata");
    reveal_strlit("vector");
    assert("text"@[0] == 't' && "text"@[1] == 'e' && "text"@[2] == 'x' && "text"@[3] == 't');
    assert("metadata"@[0] == 'm' && "metadata"@[1] == 'e' && "metadata"@[2] == 't' && "metadata"@[3] == 'a');
    assert("vector"@[0] == 'v' && "vector"@[1] == 'e' && "vector"@[2] == 'c' && "vector"@[3] == 't');
    encode_utf8_decode_utf8("text"@);
    encode_utf8_decode_utf8("metadata"@);
    encode_utf8_decode_utf8("vector"@);
}

/// The value is a finite number with these bits.
pub open spec fn is_number(t: Tree, bits: u64) -> bool {
    t is Number && t->Number_0.bits == bits && bits % 0x8000_0000_0000_0000
        < 0x7FF0_0000_0000_0000
}

/// The value is a finite number.
pub open spec fn any_number(t: Tree) -> bool {
    t is Number && t->Number_0.bits % 0x8000_0000_0000_0000 < 0x7FF0_0000_0000_0000
}

/// The value asks for that fusion: by rank, with sixty or a constant of its own,
/// or weighted.
pub open spec fn fuses(t: Tree, f: Fusion) -> bool {
    match f {
        Fusion::Rrf { k } => {
            ||| t == Tree::Text(encode_utf8("rrf"@)) && k == 0x404E_0000_0000_0000
            ||| exists|i: int|
                t is Object && 0 <= i < t->Object_0.len() && (#[trigger] t->Object_0[i]).0
                    == encode_utf8("rrf"@) && is_number(t->Object_0[i].1, k)
        },
        Fusion::Weighted { alpha } => t is Object && unsaid(t->Object_0, encode_utf8("rrf"@))
            && exists|i: int|
            0 <= i < t->Object_0.len() && (#[trigger] t->Object_0[i]).0 == encode_utf8("alpha"@)
                && is_number(t->Object_0[i].1, alpha),
    }
}

/// Rankings are fused as the value asks.
pub proof fn law_fusions_have_their_names(t: Tree, f: Fusion)
    requires
        t is Object ==> names_differ(t->Object_0),
    ensures
        fusion_of(t) == Some(f) <==> fuses(t, f),
{
    if t is Object {
        let o = t->Object_0;
        let (rrf, alpha) = (encode_utf8("rrf"@), encode_utf8("alpha"@));
        lemma_position(o, rrf);
        lemma_position(o, alpha);
        assert forall|i: int| 0 <= i < o.len() && (#[trigger] o[i]).0 == rrf implies crate::json::position(
            o,
            rrf,
        ) == i by {
            lemma_position_unique(o, i);
        }
        assert forall|i: int| 0 <= i < o.len() && (#[trigger] o[i]).0 == alpha implies crate::json::position(
            o,
            alpha,
        ) == i by {
            lemma_position_unique(o, i);
        }
        let r = crate::json::position(o, rrf);
        let a = crate::json::position(o, alpha);
        if r < o.len() {
            assert(o[r].0 == rrf);
        }
        if a < o.len() {
            assert(o[a].0 == alpha);
        }
    }
}

proof fn lemma_includes(items: Seq<Tree>, n: int, start: (bool, bool, bool))
    requires
        0 <= n <= items.len(),
    ensures
        includes(items, n, start) is Some <==> forall|i: int|
            0 <= i < n ==> names_part(#[trigger] items[i]),
        includes(items, n, start) is Some ==> {
            let (text, metadata, vector) = includes(items, n, start)->0;
            &&& text == (start.0 || exists|i: int|
                0 <= i < n && #[trigger] items[i] == Tree::Text(encode_utf8("text"@)))
            &&& metadata == (start.1 || exists|i: int|
                0 <= i < n && #[trigger] items[i] == Tree::Text(encode_utf8("metadata"@)))
            &&& vector == (start.2 || exists|i: int|
                0 <= i < n && #[trigger] items[i] == Tree::Text(encode_utf8("vector"@)))
        },
    decreases n,
{
    lemma_part_names();
    if n > 0 {
        lemma_includes(items, n - 1, start);
        let x = items[n - 1];
        assert(names_part(x) || !names_part(x));
    }
}

/// The value names a part of a hit.
pub open spec fn names_part(t: Tree) -> bool {
    ||| t == Tree::Text(encode_utf8("text"@))
    ||| t == Tree::Text(encode_utf8("metadata"@))
    ||| t == Tree::Text(encode_utf8("vector"@))
}

/// The value fits what a search asks under that name.
pub open spec fn wish_fits(name: Seq<u8>, t: Tree) -> bool {
    ||| name == encode_utf8("k"@) && is_size(t)
    ||| name == encode_utf8("ef"@) && is_size(t)
    ||| name == encode_utf8("candidates"@) && is_size(t)
    ||| name == encode_utf8("text"@) && (t is Null || t is Text)
    ||| name == encode_utf8("filter"@) && (t is Null || parsed(t, 0) is Some)
    ||| name == encode_utf8("mmr"@) && any_number(t)
    ||| name == encode_utf8("min_score"@) && any_number(t)
    ||| name == encode_utf8("fusion"@) && fusion_of(t) is Some
    ||| name == encode_utf8("include"@) && t is List && forall|i: int|
        0 <= i < t->List_0.len() ==> names_part(#[trigger] t->List_0[i])
}

/// The request asks what the member asks.
pub open spec fn wish_said(w: crate::collection::search::Wish, name: Seq<u8>, t: Tree) -> bool {
    &&& name == encode_utf8("k"@) ==> is_whole(t, w.k as int)
    &&& name == encode_utf8("ef"@) ==> w.ef is Some && is_whole(t, w.ef->0 as int)
    &&& name == encode_utf8("candidates"@) ==> w.candidates is Some && is_whole(
        t,
        w.candidates->0 as int,
    )
    &&& name == encode_utf8("text"@) ==> match t {
        Tree::Text(s) => w.text == Some(s),
        _ => w.text is None,
    }
    &&& name == encode_utf8("filter"@) ==> if t is Null {
        w.filter is None
    } else {
        w.filter is Some && w.filter == parsed(t, 0)
    }
    &&& name == encode_utf8("mmr"@) ==> w.mmr is Some && is_number(t, w.mmr->0)
    &&& name == encode_utf8("min_score"@) ==> w.min_score is Some && is_number(t, w.min_score->0)
    &&& name == encode_utf8("fusion"@) ==> fusion_of(t) == Some(w.fusion)
    &&& name == encode_utf8("include"@) ==> {
        &&& w.include_text == exists|i: int|
            0 <= i < t->List_0.len() && #[trigger] t->List_0[i] == Tree::Text(encode_utf8("text"@))
        &&& w.include_metadata == exists|i: int|
            0 <= i < t->List_0.len() && #[trigger] t->List_0[i] == Tree::Text(
                encode_utf8("metadata"@),
            )
        &&& w.include_vector == exists|i: int|
            0 <= i < t->List_0.len() && #[trigger] t->List_0[i] == Tree::Text(
                encode_utf8("vector"@),
            )
    }
}

/// The two agree on everything but what is asked under that name.
spec fn other_wishes_same(
    a: crate::collection::search::Wish,
    b: crate::collection::search::Wish,
    name: Seq<u8>,
) -> bool {
    &&& name != encode_utf8("k"@) ==> a.k == b.k
    &&& name != encode_utf8("ef"@) ==> a.ef == b.ef
    &&& name != encode_utf8("candidates"@) ==> a.candidates == b.candidates
    &&& name != encode_utf8("text"@) ==> a.text == b.text
    &&& name != encode_utf8("filter"@) ==> a.filter == b.filter
    &&& name != encode_utf8("mmr"@) ==> a.mmr == b.mmr
    &&& name != encode_utf8("min_score"@) ==> a.min_score == b.min_score
    &&& name != encode_utf8("fusion"@) ==> a.fusion == b.fusion
    &&& name != encode_utf8("include"@) ==> a.include_text == b.include_text && a.include_metadata
        == b.include_metadata && a.include_vector == b.include_vector
}

proof fn lemma_with_member(w: crate::collection::search::Wish, name: Seq<u8>, t: Tree)
    ensures
        with_member(w, (name, t)) is Some <==> wish_fits(name, t),
        with_member(w, (name, t)) is Some && !w.include_vector ==> wish_said(
            with_member(w, (name, t))->0,
            name,
            t,
        ),
        with_member(w, (name, t)) is Some ==> other_wishes_same(
            w,
            with_member(w, (name, t))->0,
            name,
        ),
{
    lemma_wish_names();
    if t is List {
        lemma_includes(t->List_0, t->List_0.len() as int, (false, false, w.include_vector));
    }
}

proof fn lemma_wishes_fit(ms: Seq<(Seq<u8>, Tree)>, n: int)
    requires
        0 <= n <= ms.len(),
    ensures
        wish_stated(ms, n) is Some <==> forall|i: int|
            0 <= i < n ==> wish_fits((#[trigger] ms[i]).0, ms[i].1),
    decreases n,
{
    if n > 0 {
        lemma_wishes_fit(ms, n - 1);
        let (name, t) = ms[n - 1];
        assert(ms[n - 1] == (name, t));
        if wish_stated(ms, n - 1) is Some {
            lemma_with_member(wish_stated(ms, n - 1)->0, name, t);
        }
    }
}

/// A search request is accepted if each member is something to ask and its value
/// fits.
pub proof fn law_requests_are_checked(ms: Seq<(Seq<u8>, Tree)>)
    ensures
        wish_of(Tree::Object(ms)) is Some <==> forall|i: int|
            0 <= i < ms.len() ==> wish_fits((#[trigger] ms[i]).0, ms[i].1),
{
    lemma_wishes_fit(ms, ms.len() as int);
}

proof fn lemma_wishes_unsaid(ms: Seq<(Seq<u8>, Tree)>, n: int)
    requires
        0 <= n <= ms.len(),
        wish_stated(ms, n) is Some,
    ensures
        ({
            let w = wish_stated(ms, n)->0;
            let some = ms.take(n);
            &&& unsaid(some, encode_utf8("k"@)) ==> w.k == 10
            &&& unsaid(some, encode_utf8("ef"@)) ==> w.ef is None
            &&& unsaid(some, encode_utf8("candidates"@)) ==> w.candidates is None
            &&& unsaid(some, encode_utf8("text"@)) ==> w.text is None
            &&& unsaid(some, encode_utf8("filter"@)) ==> w.filter is None
            &&& unsaid(some, encode_utf8("mmr"@)) ==> w.mmr is None
            &&& unsaid(some, encode_utf8("min_score"@)) ==> w.min_score is None
            &&& unsaid(some, encode_utf8("fusion"@)) ==> w.fusion == (Fusion::Rrf {
                k: 0x404E_0000_0000_0000,
            })
            &&& unsaid(some, encode_utf8("include"@)) ==> w.include_text && w.include_metadata
                && !w.include_vector
        }),
    decreases n,
{
    if n > 0 {
        lemma_wishes_unsaid(ms, n - 1);
        let (name, t) = ms[n - 1];
        let some = ms.take(n);
        let less = ms.take(n - 1);
        assert(some[n - 1] == (name, t));
        assert forall|x: Seq<u8>| #[trigger] unsaid(some, x) implies unsaid(less, x) && name != x by {
            assert forall|i: int| 0 <= i < less.len() implies (#[trigger] less[i]).0 != x by {
                assert(some[i] == less[i]);
            }
            assert(some[n - 1].0 != x);
        }
        lemma_with_member(wish_stated(ms, n - 1)->0, name, t);
    }
}

proof fn lemma_wish_kept(ms: Seq<(Seq<u8>, Tree)>, n: int, i: int)
    requires
        0 <= i < n <= ms.len(),
        names_differ(ms),
        wish_stated(ms, n) is Some,
    ensures
        wish_said(wish_stated(ms, n)->0, ms[i].0, ms[i].1),
    decreases n,
{
    let (name, t) = ms[n - 1];
    assert(ms[n - 1] == (name, t));
    let before = wish_stated(ms, n - 1)->0;
    lemma_with_member(before, name, t);
    if i < n - 1 {
        lemma_wish_kept(ms, n - 1, i);
        assert(ms[i].0 != ms[n - 1].0);
    } else if name == encode_utf8("include"@) {
        lemma_wishes_unsaid(ms, n - 1);
        assert(unsaid(ms.take(n - 1), name));
    } else {
        lemma_with_member(
            crate::collection::search::Wish { include_vector: false, ..before },
            name,
            t,
        );
        lemma_wish_names();
    }
}

/// A search asks what the member of each name says.
pub proof fn law_requests_ask_what_their_members_say(ms: Seq<(Seq<u8>, Tree)>, i: int)
    requires
        0 <= i < ms.len(),
        names_differ(ms),
        wish_of(Tree::Object(ms)) is Some,
    ensures
        wish_said(wish_of(Tree::Object(ms))->0, ms[i].0, ms[i].1),
{
    lemma_wish_kept(ms, ms.len() as int, i);
}

/// What no member asks is what a plain search does: ten results, with text and
/// metadata, fused by rank, and nothing else.
pub proof fn law_unsaid_wishes_are_plain(ms: Seq<(Seq<u8>, Tree)>)
    requires
        wish_of(Tree::Object(ms)) is Some,
    ensures
        ({
            let w = wish_of(Tree::Object(ms))->0;
            &&& unsaid(ms, encode_utf8("k"@)) ==> w.k == 10
            &&& unsaid(ms, encode_utf8("ef"@)) ==> w.ef is None
            &&& unsaid(ms, encode_utf8("candidates"@)) ==> w.candidates is None
            &&& unsaid(ms, encode_utf8("text"@)) ==> w.text is None
            &&& unsaid(ms, encode_utf8("filter"@)) ==> w.filter is None
            &&& unsaid(ms, encode_utf8("mmr"@)) ==> w.mmr is None
            &&& unsaid(ms, encode_utf8("min_score"@)) ==> w.min_score is None
            &&& unsaid(ms, encode_utf8("fusion"@)) ==> w.fusion == (Fusion::Rrf {
                k: 0x404E_0000_0000_0000,
            })
            &&& unsaid(ms, encode_utf8("include"@)) ==> w.include_text && w.include_metadata
                && !w.include_vector
        }),
{
    assert(ms.take(ms.len() as int) =~= ms);
    lemma_wishes_unsaid(ms, ms.len() as int);
}

/// Enough candidates are fetched for the results that are asked for, at least
/// twenty and at most fifty thousand, and between these as many as are asked
/// for, or else four for each result.
pub proof fn law_enough_candidates_are_fetched(k: int, candidates: Option<usize>)
    requires
        0 <= k <= 10_000,
    ensures
        ({
            let n = fetch_size(k, candidates);
            &&& n >= k
            &&& 20 <= n <= 50_000
            &&& candidates is None && 5 <= k ==> n == 4 * k
            &&& candidates is None && k < 5 ==> n == 20
            &&& candidates is Some && candidates->0 >= 50_000 ==> n == 50_000
            &&& candidates is Some && k <= candidates->0 && 20 <= candidates->0 <= 50_000 ==> n
                == candidates->0
            &&& candidates is Some && candidates->0 < k && 20 <= k ==> n == k
            &&& candidates is Some && candidates->0 <= 20 && k <= 20 ==> n == 20
        }),
{
}

/// A diversification between nothing and one is accepted, and no number further
/// off than rounding to single precision explains.
pub proof fn law_diversification_lies_in_the_unit(bits: u64)
    ensures
        bits <= 0x3FF0_0000_0000_0000 ==> rounds_into_unit(bits),
        0x3FF0_0000_2000_0000 <= bits < 0x8000_0000_0000_0000 ==> !rounds_into_unit(bits),
        bits == 0x8000_0000_0000_0000 ==> rounds_into_unit(bits),
        bits >= 0xB6A0_0000_0000_0000 ==> !rounds_into_unit(bits),
{
}

// ---- documents ------------------------------------------------------------------------------

/// The names of the parts of a document differ.
#[verifier::spinoff_prover]
proof fn lemma_document_names()
    ensures
        encode_utf8("id"@) != encode_utf8("text"@),
        encode_utf8("id"@) != encode_utf8("metadata"@),
        encode_utf8("id"@) != encode_utf8("has_vector"@),
        encode_utf8("text"@) != encode_utf8("metadata"@),
        encode_utf8("text"@) != encode_utf8("has_vector"@),
        encode_utf8("metadata"@) != encode_utf8("has_vector"@),
{
    reveal_strlit("id");
    reveal_strlit("text");
    reveal_strlit("metadata");
    reveal_strlit("has_vector");
    assert("id"@[0] == 'i' && "id"@[1] == 'd');
    assert("text"@[0] == 't' && "text"@[1] == 'e' && "text"@[2] == 'x' && "text"@[3] == 't');
    assert("metadata"@[0] == 'm' && "metadata"@[1] == 'e' && "metadata"@[2] == 't' && "metadata"@[3] == 'a');
    assert("has_vector"@[0] == 'h' && "has_vector"@[1] == 'a' && "has_vector"@[2] == 's' && "has_vector"@[3] == '_');
    encode_utf8_decode_utf8("id"@);
    encode_utf8_decode_utf8("text"@);
    encode_utf8_decode_utf8("metadata"@);
    encode_utf8_decode_utf8("has_vector"@);
}

/// A member may stand in a document, with such a value.
pub open spec fn part_fits(name: Seq<u8>, t: Tree) -> bool {
    ||| name == encode_utf8("id"@) && t is Text
    ||| name == encode_utf8("text"@) && (t is Null || t is Text)
    ||| name == encode_utf8("metadata"@)
    ||| name == encode_utf8("has_vector"@) && t is Bool
}

proof fn lemma_member(ms: Seq<(Seq<u8>, Tree)>, name: Seq<u8>)
    ensures
        member(ms, name) is None <==> unsaid(ms, name),
        names_differ(ms) ==> forall|i: int|
            0 <= i < ms.len() && (#[trigger] ms[i]).0 == name ==> member(ms, name) == Some(ms[i].1),
{
    lemma_position(ms, name);
    if names_differ(ms) {
        assert forall|i: int| 0 <= i < ms.len() && (#[trigger] ms[i]).0 == name implies member(
            ms,
            name,
        ) == Some(ms[i].1) by {
            lemma_position_unique(ms, i);
        }
    }
}

/// A document is an object with an id, whose other members are its text, its
/// metadata and whether an embedding comes with it. Each part is what the member
/// of its name says; without one there is no text, no metadata and no embedding.
pub proof fn law_documents_say_what_their_members_say(ms: Seq<(Seq<u8>, Tree)>, i: int)
    requires
        names_differ(ms),
        0 <= i < ms.len(),
    ensures
        ({
            let d = stated(Tree::Object(ms));
            let (name, t) = ms[i];
            &&& d is Some <==> !unsaid(ms, encode_utf8("id"@)) && forall|j: int|
                0 <= j < ms.len() ==> part_fits((#[trigger] ms[j]).0, ms[j].1)
            &&& d is Some && name == encode_utf8("id"@) ==> t == Tree::Text(d->0.id)
            &&& d is Some && name == encode_utf8("text"@) ==> match t {
                Tree::Text(s) => d->0.text == Some(s),
                _ => d->0.text is None,
            }
            &&& d is Some && name == encode_utf8("metadata"@) ==> d->0.metadata == t
            &&& d is Some && name == encode_utf8("has_vector"@) ==> t == Tree::Bool(
                d->0.has_vector,
            )
            &&& d is Some && unsaid(ms, encode_utf8("text"@)) ==> d->0.text is None
            &&& d is Some && unsaid(ms, encode_utf8("metadata"@)) ==> d->0.metadata is Null
            &&& d is Some && unsaid(ms, encode_utf8("has_vector"@)) ==> !d->0.has_vector
        }),
{
    lemma_document_names();
    let d = stated(Tree::Object(ms));
    lemma_member(ms, encode_utf8("id"@));
    lemma_member(ms, encode_utf8("text"@));
    lemma_member(ms, encode_utf8("metadata"@));
    lemma_member(ms, encode_utf8("has_vector"@));
    if d is Some {
        assert forall|j: int| 0 <= j < ms.len() implies part_fits((#[trigger] ms[j]).0, ms[j].1) by {
            assert(known_member(ms[j].0));
        }
    } else if !unsaid(ms, encode_utf8("id"@)) && forall|j: int|
        0 <= j < ms.len() ==> part_fits((#[trigger] ms[j]).0, ms[j].1) {
        assert forall|j: int| 0 <= j < ms.len() implies known_member((#[trigger] ms[j]).0) by {
            assert(part_fits(ms[j].0, ms[j].1));
        }
        lemma_position(ms, encode_utf8("id"@));
        lemma_position(ms, encode_utf8("text"@));
        lemma_position(ms, encode_utf8("has_vector"@));
        let a = crate::json::position(ms, encode_utf8("id"@));
        let b = crate::json::position(ms, encode_utf8("text"@));
        let c = crate::json::position(ms, encode_utf8("has_vector"@));
        assert(a < ms.len() ==> part_fits(ms[a].0, ms[a].1));
        assert(b < ms.len() ==> part_fits(ms[b].0, ms[b].1));
        assert(c < ms.len() ==> part_fits(ms[c].0, ms[c].1));
    }
}

} // verus!
