//! Documents and ids as callers of the C interface send them.

use crate::collection::documents::{faithful, Document};
use crate::collection::filter::is_text;
use crate::error::Error;
use crate::json::{
    distinct_keys, find_member, genuine, json_tree, lemma_shallow, position, shallow, tree, utf8,
    whole, Json, Tree, MAX_NESTING,
};
use vstd::prelude::*;
use vstd::utf8::*;

verus! {

/// What one document of a batch states.
pub struct Stated {
    /// Its id.
    pub id: Seq<u8>,
    /// Its text.
    pub text: Option<Seq<u8>>,
    /// Its metadata.
    pub metadata: Tree,
    /// Whether an embedding comes with it.
    pub has_vector: bool,
}

/// The member of that name, if there is one.
pub open spec fn member(members: Seq<(Seq<u8>, Tree)>, name: Seq<u8>) -> Option<Tree> {
    let i = position(members, name);
    if 0 <= i < members.len() {
        Some(members[i].1)
    } else {
        None
    }
}

/// Whether a document may have a member of that name.
pub open spec fn known_member(name: Seq<u8>) -> bool {
    ||| name == encode_utf8("id"@)
    ||| name == encode_utf8("text"@)
    ||| name == encode_utf8("metadata"@)
    ||| name == encode_utf8("has_vector"@)
}

/// What a value states of a document, if it is one: an object with a string
/// `id` and, where it likes, `text`, `metadata` and `has_vector`.
pub open spec fn stated(t: Tree) -> Option<Stated> {
    match t {
        Tree::Object(ms) => {
            let id = member(ms, encode_utf8("id"@));
            let text = member(ms, encode_utf8("text"@));
            let metadata = member(ms, encode_utf8("metadata"@));
            let vector = member(ms, encode_utf8("has_vector"@));
            if (id is Some && id->0 is Text) && (text is None || text->0 is Null || text->0 is Text)
                && (vector is None || vector->0 is Bool) && (forall|i: int|
                0 <= i < ms.len() ==> known_member((#[trigger] ms[i]).0)) {
                Some(
                    Stated {
                        id: id->0->Text_0,
                        text: if text is Some && text->0 is Text {
                            Some(text->0->Text_0)
                        } else {
                            None
                        },
                        metadata: if metadata is Some {
                            metadata->0
                        } else {
                            Tree::Null
                        },
                        has_vector: vector is Some && vector->0 == Tree::Bool(true),
                    },
                )
            } else {
                None
            }
        },
        _ => None,
    }
}

/// How many numbers of the vector buffer the first `n` documents use.
pub open spec fn used(items: Seq<Tree>, dim: int, n: int) -> int
    decreases n,
{
    if n <= 0 {
        0
    } else {
        used(items, dim, n - 1) + if stated(items[n - 1]) is Some && stated(
            items[n - 1],
        )->0.has_vector {
            dim
        } else {
            0
        }
    }
}

/// Whether the first `n` items are documents, with embeddings only where the
/// collection has any.
pub open spec fn all_stated(items: Seq<Tree>, dim: int, n: int) -> bool {
    forall|i: int|
        0 <= i < n ==> stated(#[trigger] items[i]) is Some && (stated(items[i])->0.has_vector ==> dim
            > 0)
}

/// Whether a batch and its vector buffer fit together.
pub open spec fn batch_stated(t: Tree, floats: int, dim: int) -> bool {
    &&& t is List
    &&& all_stated(t->List_0, dim, t->List_0.len() as int)
    &&& used(t->List_0, dim, t->List_0.len() as int) == floats
}

/// `d` is the document that `s` states, its embedding taken from the buffer at
/// `at`.
pub open spec fn realises(d: Document, s: Stated, floats: Seq<u32>, at: int, dim: int) -> bool {
    &&& utf8(d.id) == s.id
    &&& d.text is Some == s.text is Some
    &&& d.text is Some ==> utf8(d.text->0) == s.text->0
    &&& d.metadata@ == s.metadata
    &&& d.vector is Some == s.has_vector
    &&& s.has_vector ==> d.vector->0@ == floats.subrange(at, at + dim)
}

proof fn lemma_used_grows(items: Seq<Tree>, dim: int, i: int, n: int)
    requires
        0 <= i <= n,
        dim >= 0,
    ensures
        used(items, dim, i) <= used(items, dim, n),
        0 <= used(items, dim, i),
    decreases n,
{
    if i < n {
        lemma_used_grows(items, dim, i, n - 1);
    } else if n > 0 {
        lemma_used_grows(items, dim, n - 1, n - 1);
    }
}

fn copy_json(j: &Json) -> (r: Json)
    ensures
        r@ == j@,
    decreases *j,
{
    match j {
        Json::Null => Json::Null,
        Json::Bool(b) => Json::Bool(*b),
        Json::Number(n) => Json::Number(*n),
        Json::Text(s) => Json::Text(s.clone()),
        Json::List(items) => {
            let ghost all = j@->List_0;
            let mut out: Vec<Json> = Vec::new();
            let mut i: usize = 0;
            while i < items.len()
                invariant
                    i <= items@.len(),
                    *j == Json::List(*items),
                    j@ == Tree::List(all),
                    all.len() == items@.len(),
                    forall|k: int| 0 <= k < all.len() ==> #[trigger] all[k] == tree(items@[k]),
                    out@.len() == i,
                    forall|k: int| 0 <= k < i ==> tree(#[trigger] out@[k]) == all[k],
                decreases items@.len() - i,
            {
                assert(all[i as int] == items@[i as int]@);
                out.push(copy_json(&items[i]));
                i += 1;
            }
            let r: Json = Json::List(out);
            assert(r@->List_0 =~= all);
            r
        },
        Json::Object(members) => {
            let ghost all = j@->Object_0;
            let mut out: Vec<(String, Json)> = Vec::new();
            let mut i: usize = 0;
            while i < members.len()
                invariant
                    i <= members@.len(),
                    *j == Json::Object(*members),
                    j@ == Tree::Object(all),
                    all.len() == members@.len(),
                    forall|k: int|
                        0 <= k < all.len() ==> #[trigger] all[k] == (
                            utf8(members@[k].0),
                            tree(members@[k].1),
                        ),
                    out@.len() == i,
                    forall|k: int|
                        0 <= k < i ==> (utf8((#[trigger] out@[k]).0), tree(out@[k].1)) == all[k],
                decreases members@.len() - i,
            {
                assert(all[i as int] == (utf8(members@[i as int].0), members@[i as int].1@));
                out.push((members[i].0.clone(), copy_json(&members[i].1)));
                i += 1;
            }
            let r: Json = Json::Object(out);
            assert(r@->Object_0 =~= all);
            r
        },
    }
}

/// Whether every member's name is known.
fn only_known(v: &Json, members: &Vec<(String, Json)>) -> (r: bool)
    requires
        *v == Json::Object(*members),
    ensures
        r == (forall|i: int|
            0 <= i < v@->Object_0.len() ==> known_member((#[trigger] v@->Object_0[i]).0)),
{
    let ghost all = v@->Object_0;
    let mut i: usize = 0;
    while i < members.len()
        invariant
            i <= members@.len(),
            v@ == Tree::Object(all),
            all.len() == members@.len(),
            forall|k: int|
                0 <= k < all.len() ==> #[trigger] all[k] == (
                    utf8(members@[k].0),
                    tree(members@[k].1),
                ),
            forall|k: int| 0 <= k < i ==> known_member((#[trigger] all[k]).0),
        decreases members@.len() - i,
    {
        let name: &str = members[i].0.as_str();
        assert(all[i as int].0 == utf8(members@[i as int].0));
        if !(is_text(name, "id") || is_text(name, "text") || is_text(name, "metadata") || is_text(
            name,
            "has_vector",
        )) {
            assert(!known_member(all[i as int].0));
            assert(v@->Object_0[i as int] == all[i as int]);
            return false;
        }
        i += 1;
    }
    true
}

/// The fields of one document: id, text, metadata, and whether an embedding
/// comes with it.
fn document_fields(v: &Json) -> (r: Result<(String, Option<String>, Json, bool), Error>)
    ensures
        match r {
            Ok((id, text, metadata, has_vector)) => stated(v@) is Some && {
                let s = stated(v@)->0;
                &&& utf8(id) == s.id
                &&& text is Some == s.text is Some
                &&& text is Some ==> utf8(text->0) == s.text->0
                &&& metadata@ == s.metadata
                &&& has_vector == s.has_vector
            },
            Err(e) => e is InvalidArgument && stated(v@) is None,
        },
{
    match v {
        Json::Object(members) => {
            let ghost all = v@->Object_0;
            let at: usize = find_member(members, "id".as_bytes());
            if at == members.len() {
                return Err(Error::invalid("each document needs a string `id`"));
            }
            assert(all[at as int].1 == members@[at as int].1@);
            let id: String = match &members[at].1 {
                Json::Text(s) => s.clone(),
                _ => {
                    return Err(Error::invalid("each document needs a string `id`"));
                },
            };
            let at: usize = find_member(members, "text".as_bytes());
            let mut text: Option<String> = None;
            if at < members.len() {
                assert(all[at as int].1 == members@[at as int].1@);
                match &members[at].1 {
                    Json::Null => {},
                    Json::Text(s) => {
                        text = Some(s.clone());
                    },
                    _ => {
                        return Err(Error::invalid("`text` must be a string"));
                    },
                }
            }
            let at: usize = find_member(members, "metadata".as_bytes());
            let metadata: Json = if at < members.len() {
                assert(all[at as int].1 == members@[at as int].1@);
                copy_json(&members[at].1)
            } else {
                Json::Null
            };
            let at: usize = find_member(members, "has_vector".as_bytes());
            let mut has_vector: bool = false;
            if at < members.len() {
                assert(all[at as int].1 == members@[at as int].1@);
                match &members[at].1 {
                    Json::Bool(b) => {
                        has_vector = *b;
                    },
                    _ => {
                        return Err(Error::invalid("`has_vector` must be a boolean"));
                    },
                }
            }
            if !only_known(v, members) {
                return Err(Error::invalid("unknown field in a document"));
            }
            Ok((id, text, metadata, has_vector))
        },
        _ => Err(Error::invalid("each document must be a JSON object")),
    }
}

fn copy_numbers(v: &Vec<u32>, start: usize, end: usize) -> (r: Vec<u32>)
    requires
        start <= end <= v@.len(),
    ensures
        r@ == v@.subrange(start as int, end as int),
{
    let mut r: Vec<u32> = Vec::new();
    let mut i: usize = start;
    while i < end
        invariant
            start <= i <= end <= v@.len(),
            r@ == v@.subrange(start as int, i as int),
        decreases end - i,
    {
        r.push(v[i]);
        i += 1;
        assert(r@ =~= v@.subrange(start as int, i as int));
    }
    r
}

/// Reads a batch of documents. `docs` is an array of objects with `id` and,
/// where they like, `text`, `metadata` and `has_vector`; the embeddings come in
/// one buffer, one behind the other, for the documents that say they have one.
#[verifier::rlimit(40)]
pub fn parse_documents(
    docs: &Json,
    floats: &Vec<u32>,
    dim: usize,
) -> (r: Result<Vec<Document>, Error>)
    ensures
        match r {
            Ok(out) => batch_stated(docs@, floats@.len() as int, dim as int) && out@.len()
                == docs@->List_0.len() && forall|i: int|
                0 <= i < out@.len() ==> realises(
                    #[trigger] out@[i],
                    stated(docs@->List_0[i])->0,
                    floats@,
                    used(docs@->List_0, dim as int, i),
                    dim as int,
                ),
            Err(e) => e is InvalidArgument && !batch_stated(
                docs@,
                floats@.len() as int,
                dim as int,
            ),
        },
{
    match docs {
        Json::List(items) => {
            let ghost all = docs@->List_0;
            let ghost d = dim as int;
            let mut out: Vec<Document> = Vec::new();
            let mut offset: usize = 0;
            let mut i: usize = 0;
            while i < items.len()
                invariant
                    i <= items@.len(),
                    d == dim,
                    docs@ == Tree::List(all),
                    all.len() == items@.len(),
                    forall|k: int| 0 <= k < all.len() ==> #[trigger] all[k] == tree(items@[k]),
                    all_stated(all, d, i as int),
                    offset == used(all, d, i as int),
                    offset <= floats@.len(),
                    out@.len() == i,
                    forall|k: int|
                        0 <= k < i ==> realises(
                            #[trigger] out@[k],
                            stated(all[k])->0,
                            floats@,
                            used(all, d, k),
                            d,
                        ),
                decreases items@.len() - i,
            {
                let ghost was = out@;
                assert(all[i as int] == items@[i as int]@);
                let (id, text, metadata, has_vector): (String, Option<String>, Json, bool) =
                    match document_fields(&items[i]) {
                    Ok(f) => f,
                    Err(e) => {
                        assert(stated(all[i as int]) is None);
                        return Err(e);
                    },
                };
                let ghost s = stated(all[i as int])->0;
                let mut vector: Option<Vec<u32>> = None;
                if has_vector {
                    if dim == 0 {
                        assert(!(stated(all[i as int]) is Some && (stated(
                            all[i as int],
                        )->0.has_vector ==> d > 0)));
                        return Err(Error::invalid("this collection has no vectors"));
                    }
                    if dim > floats.len() - offset {
                        proof {
                            lemma_used_grows(all, d, i + 1, all.len() as int);
                        }
                        return Err(Error::invalid("the vector buffer is too short"));
                    }
                    vector = Some(copy_numbers(floats, offset, offset + dim));
                    offset = offset + dim;
                }
                out.push(Document { id, text, metadata, vector });
                assert(all_stated(all, d, i + 1)) by {
                    assert forall|k: int| 0 <= k < i + 1 implies stated(#[trigger] all[k]) is Some
                        && (stated(all[k])->0.has_vector ==> d > 0) by {}
                }
                assert forall|k: int| 0 <= k < i + 1 implies realises(
                    #[trigger] out@[k],
                    stated(all[k])->0,
                    floats@,
                    used(all, d, k),
                    d,
                ) by {
                    if k < i {
                        assert(out@[k] == was[k]);
                    }
                }
                i += 1;
            }
            if offset != floats.len() {
                return Err(Error::invalid("the vector buffer is too long"));
            }
            Ok(out)
        },
        _ => Err(Error::invalid("docs_json must be a JSON array of documents")),
    }
}

/// The metadata of a document is part of the value that states it.
proof fn lemma_stated_metadata(t: Tree, n: nat)
    requires
        stated(t) is Some,
        genuine(t),
        distinct_keys(t),
        shallow(t, n),
    ensures
        genuine(stated(t)->0.metadata),
        distinct_keys(stated(t)->0.metadata),
        shallow(stated(t)->0.metadata, n),
{
    let ms = t->Object_0;
    let i = position(ms, encode_utf8("metadata"@));
    if 0 <= i < ms.len() {
        assert(genuine(ms[i].1) && distinct_keys(ms[i].1) && shallow(ms[i].1, (n - 1) as nat));
        lemma_shallow(ms[i].1, (n - 1) as nat, n);
    }
}

/// Metadata that can be stored and, where its numbers are integers, is read back
/// from what is stored as what it was.
pub open spec fn storable(d: Document) -> bool {
    &&& distinct_keys(d.metadata@)
    &&& whole(d.metadata@) ==> faithful(d)
}

/// Reads a batch of documents from its JSON text; see [`parse_documents`]. What
/// comes out can be stored.
pub fn documents_from_text(text: &str, floats: &Vec<u32>, dim: usize) -> (r: Result<
    Vec<Document>,
    Error,
>)
    ensures
        ({
            let docs = json_tree(encode_utf8(text@));
            let fits = docs is Some && batch_stated(docs->0, floats@.len() as int, dim as int);
            match r {
                Ok(out) => fits && out@.len() == docs->0->List_0.len() && forall|i: int|
                    0 <= i < out@.len() ==> realises(
                        #[trigger] out@[i],
                        stated(docs->0->List_0[i])->0,
                        floats@,
                        used(docs->0->List_0, dim as int, i),
                        dim as int,
                    ) && storable(out@[i]),
                Err(e) => e is InvalidArgument && !fits,
            }
        }),
{
    let docs: Json = match Json::from_text(text) {
        Some(j) => j,
        None => {
            return Err(Error::invalid("docs_json is not valid JSON"));
        },
    };
    let out: Vec<Document> = match parse_documents(&docs, floats, dim) {
        Ok(v) => v,
        Err(e) => {
            return Err(e);
        },
    };
    proof {
        let all = docs@->List_0;
        assert forall|i: int| 0 <= i < out@.len() implies storable(#[trigger] out@[i]) by {
            assert(stated(all[i]) is Some);
            assert(genuine(all[i]) && distinct_keys(all[i]));
            assert(shallow(all[i], (MAX_NESTING - 1) as nat));
            lemma_stated_metadata(all[i], (MAX_NESTING - 1) as nat);
            assert(realises(
                out@[i],
                stated(all[i])->0,
                floats@,
                used(all, dim as int, i),
                dim as int,
            ));
            lemma_shallow(out@[i].metadata@, (MAX_NESTING - 1) as nat, MAX_NESTING as nat);
        }
    }
    Ok(out)
}

/// Whether a value is an array of strings.
pub open spec fn ids_stated(t: Tree) -> bool {
    t is List && forall|i: int|
        0 <= i < t->List_0.len() ==> (#[trigger] t->List_0[i]) is Text
}

/// Reads an array of ids.
pub fn parse_ids(ids: &Json) -> (r: Result<Vec<String>, Error>)
    ensures
        match r {
            Ok(out) => ids_stated(ids@) && out@.len() == ids@->List_0.len() && forall|i: int|
                0 <= i < out@.len() ==> ids@->List_0[i] == Tree::Text(utf8(#[trigger] out@[i])),
            Err(e) => e is InvalidArgument && !ids_stated(ids@),
        },
{
    match ids {
        Json::List(items) => {
            let ghost all = ids@->List_0;
            let mut out: Vec<String> = Vec::new();
            let mut i: usize = 0;
            while i < items.len()
                invariant
                    i <= items@.len(),
                    ids@ == Tree::List(all),
                    all.len() == items@.len(),
                    forall|k: int| 0 <= k < all.len() ==> #[trigger] all[k] == tree(items@[k]),
                    out@.len() == i,
                    forall|k: int| 0 <= k < i ==> all[k] == Tree::Text(utf8(#[trigger] out@[k])),
                decreases items@.len() - i,
            {
                assert(all[i as int] == items@[i as int]@);
                match &items[i] {
                    Json::Text(s) => {
                        out.push(s.clone());
                    },
                    _ => {
                        assert(!(ids@->List_0[i as int] is Text));
                        return Err(Error::invalid("ids must be strings"));
                    },
                }
                i += 1;
            }
            assert forall|k: int| 0 <= k < all.len() implies (
            #[trigger] ids@->List_0[k]) is Text by {
                assert(all[k] == Tree::Text(utf8(out@[k])));
            }
            Ok(out)
        },
        _ => Err(Error::invalid("ids_json must be a JSON array of strings")),
    }
}

} // verus!
