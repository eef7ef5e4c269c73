//! Searches: what is asked, which documents come into question, and what is
//! returned of a hit.

use crate::btree::scan::{listing, pairs, Bound};
use crate::bytes::{
    begins, copy_bytes, copy_range, get_u32, le32, lemma_lex_common_prefix, lemma_u32_roundtrip,
    lex_lt,
};
use crate::collection::api::{filter_ids, Collection};
use crate::collection::documents::{
    clean_terms, lemma_stored, meta_tree, parse_metadata, record_in, validate_vector, vector_ok,
};
use crate::collection::filter::{is_text, parsed, Filter, Query};
use crate::collection::index::{all_ids, query_ok, selected};
use crate::collection::keys::{
    doc_key, lemma_split_at_nul, term_base, term_key, term_prefix, TERM,
};
use crate::collection::mirror::{
    is_posting, lemma_key_tags, lemma_owner, lossy_bytes, mirrors, owns, posting, record_bytes, shown,
    Doc, Rec,
};
use crate::collection::options::{json_usize, size_of_tree};
use crate::collection::scalar::{is_finite, rank};
use crate::collection::text::{blank, is_blank, occurrences, term_frequencies, terms_of, wrapped};
use crate::error::Error;
use crate::json::{find_member, position, tree, utf8, Json, Tree};
use crate::ordered::{ascending, bounded, byte_lists, ByteSet};
use crate::prefix::{law_successor_ends_the_prefix, prefix_successor, starts};
use vstd::prelude::*;
use vstd::utf8::*;

verus! {

/// Most candidates a search fetches from each retriever.
pub const MAX_CANDIDATES: usize = 50_000;

/// Largest `k` a search accepts.
pub const MAX_K: usize = 10_000;

/// The bits of the number sixty.
pub const SIXTY: u64 = 0x404E_0000_0000_0000;

/// How vector and text rankings are combined. Numbers are the bits of
/// double-precision values.
#[derive(Debug, Clone, Copy, PartialEq, Eq, Structural)]
pub enum Fusion {
    /// Reciprocal Rank Fusion: the sum of `1 / (k + rank)`. Robust — it needs
    /// no score calibration between retrievers — and the usual default.
    Rrf {
        /// Rank damping constant.
        k: u64,
    },
    /// `alpha * vector + (1 - alpha) * text` over min-max-normalised scores.
    Weighted {
        /// Weight of the vector score.
        alpha: u64,
    },
}

impl Default for Fusion {
    fn default() -> (f: Self)
        ensures
            f == (Fusion::Rrf { k: SIXTY }),
    {
        Fusion::Rrf { k: SIXTY }
    }
}

/// A search. Numbers are the bits of floating-point values: single precision
/// in the vector, double precision elsewhere.
#[derive(Debug, PartialEq, Eq)]
pub struct SearchRequest {
    /// Query embedding for vector search.
    pub vector: Option<Vec<u32>>,
    /// Query text for full-text search.
    pub text: Option<String>,
    /// Metadata filter; only matching documents are returned.
    pub filter: Option<Filter>,
    /// Number of results.
    pub k: usize,
    /// Beam width override.
    pub ef: Option<usize>,
    /// How vector and text rankings combine when both are given.
    pub fusion: Fusion,
    /// Diversification trade-off in `[0, 1]`: 1 = pure relevance, lower values
    /// favour diversity. Needs embeddings.
    pub mmr: Option<u64>,
    /// Candidates fetched from each retriever before fusion
    /// (default `max(4k, 20)`).
    pub candidates: Option<usize>,
    /// Drop results scoring below this.
    pub min_score: Option<u64>,
    /// Return each hit's text.
    pub include_text: bool,
    /// Return each hit's metadata.
    pub include_metadata: bool,
    /// Return each hit's embedding.
    pub include_vector: bool,
}

/// What a [`SearchRequest`] asks for, besides its vector.
pub struct Wish {
    /// Query text.
    pub text: Option<Seq<u8>>,
    /// Metadata filter.
    pub filter: Option<Query>,
    /// Number of results.
    pub k: usize,
    /// Beam width.
    pub ef: Option<usize>,
    /// How rankings combine.
    pub fusion: Fusion,
    /// Diversification.
    pub mmr: Option<u64>,
    /// Candidates.
    pub candidates: Option<usize>,
    /// Least score.
    pub min_score: Option<u64>,
    /// Return the text.
    pub include_text: bool,
    /// Return the metadata.
    pub include_metadata: bool,
    /// Return the embedding.
    pub include_vector: bool,
}

impl View for SearchRequest {
    type V = Wish;

    open spec fn view(&self) -> Wish {
        Wish {
            text: match self.text {
                Some(t) => Some(utf8(t)),
                None => None,
            },
            filter: match self.filter {
                Some(f) => Some(f@),
                None => None,
            },
            k: self.k,
            ef: self.ef,
            fusion: self.fusion,
            mmr: self.mmr,
            candidates: self.candidates,
            min_score: self.min_score,
            include_text: self.include_text,
            include_metadata: self.include_metadata,
            include_vector: self.include_vector,
        }
    }
}

/// A request for `k` results with text and metadata returned.
pub open spec fn plain_wish(k: usize) -> Wish {
    Wish {
        text: None,
        filter: None,
        k,
        ef: None,
        fusion: Fusion::Rrf { k: SIXTY },
        mmr: None,
        candidates: None,
        min_score: None,
        include_text: true,
        include_metadata: true,
        include_vector: false,
    }
}

/// The finite number that a value states, if it states one.
pub open spec fn finite_of(t: Tree) -> Option<u64> {
    match t {
        Tree::Number(n) => if is_finite(n.bits) {
            Some(n.bits)
        } else {
            None
        },
        _ => None,
    }
}

/// The finite number that a value states.
fn json_number(v: &Json) -> (r: Result<u64, Error>)
    ensures
        match r {
            Ok(b) => finite_of(v@) == Some(b),
            Err(e) => e is InvalidArgument && finite_of(v@) is None,
        },
{
    match v {
        Json::Number(n) => if n.bits % 0x8000_0000_0000_0000 < 0x7FF0_0000_0000_0000 {
            Ok(n.bits)
        } else {
            Err(Error::invalid("expected a finite number"))
        },
        _ => Err(Error::invalid("expected a finite number")),
    }
}

/// The fusion that a value states, if it states one.
pub open spec fn fusion_of(t: Tree) -> Option<Fusion> {
    match t {
        Tree::Text(s) => if s == encode_utf8("rrf"@) {
            Some(Fusion::Rrf { k: SIXTY })
        } else {
            None
        },
        Tree::Object(o) => {
            let r = position(o, encode_utf8("rrf"@));
            let a = position(o, encode_utf8("alpha"@));
            if 0 <= r < o.len() {
                match finite_of(o[r].1) {
                    Some(k) => Some(Fusion::Rrf { k }),
                    None => None,
                }
            } else if 0 <= a < o.len() {
                match finite_of(o[a].1) {
                    Some(alpha) => Some(Fusion::Weighted { alpha }),
                    None => None,
                }
            } else {
                None
            }
        },
        _ => None,
    }
}

fn fusion_from(v: &Json) -> (r: Result<Fusion, Error>)
    ensures
        match r {
            Ok(f) => fusion_of(v@) == Some(f),
            Err(e) => e is InvalidArgument && fusion_of(v@) is None,
        },
{
    match v {
        Json::Text(s) => if is_text(s.as_str(), "rrf") {
            Ok(Fusion::default())
        } else {
            Err(Error::invalid("`fusion` must be \"rrf\", {\"rrf\": k} or {\"alpha\": a}"))
        },
        Json::Object(o) => {
            let ghost all = v@->Object_0;
            let r: usize = find_member(o, "rrf".as_bytes());
            if r < o.len() {
                assert(all[r as int].1 == o@[r as int].1@);
                return match json_number(&o[r].1) {
                    Ok(k) => Ok(Fusion::Rrf { k }),
                    Err(e) => Err(e),
                };
            }
            let a: usize = find_member(o, "alpha".as_bytes());
            if a < o.len() {
                assert(all[a as int].1 == o@[a as int].1@);
                return match json_number(&o[a].1) {
                    Ok(alpha) => Ok(Fusion::Weighted { alpha }),
                    Err(e) => Err(e),
                };
            }
            Err(Error::invalid("`fusion` must be \"rrf\", {\"rrf\": k} or {\"alpha\": a}"))
        },
        _ => Err(Error::invalid("`fusion` must be \"rrf\", {\"rrf\": k} or {\"alpha\": a}")),
    }
}

/// The parts of a hit that the first `n` names ask for: text, metadata, vector.
pub open spec fn includes(
    items: Seq<Tree>,
    n: int,
    start: (bool, bool, bool),
) -> Option<(bool, bool, bool)>
    decreases n,
{
    if n <= 0 {
        Some(start)
    } else {
        match (includes(items, n - 1, start), items[n - 1]) {
            (Some(f), Tree::Text(s)) => if s == encode_utf8("text"@) {
                Some((true, f.1, f.2))
            } else if s == encode_utf8("metadata"@) {
                Some((f.0, true, f.2))
            } else if s == encode_utf8("vector"@) {
                Some((f.0, f.1, true))
            } else {
                None
            },
            _ => None,
        }
    }
}

proof fn lemma_includes_fail(items: Seq<Tree>, i: int, n: int, start: (bool, bool, bool))
    requires
        0 <= i <= n,
        includes(items, i, start) is None,
    ensures
        includes(items, n, start) is None,
    decreases n,
{
    if i < n {
        lemma_includes_fail(items, i, n - 1, start);
    }
}

fn include_from(v: &Json, vector: bool) -> (r: Result<(bool, bool, bool), Error>)
    ensures
        match r {
            Ok(f) => v@ is List && includes(
                v@->List_0,
                v@->List_0.len() as int,
                (false, false, vector),
            ) == Some(f),
            Err(e) => e is InvalidArgument && (v@ is List ==> includes(
                v@->List_0,
                v@->List_0.len() as int,
                (false, false, vector),
            ) is None),
        },
{
    match v {
        Json::List(items) => {
            let ghost all = v@->List_0;
            let ghost start = (false, false, vector);
            let mut f: (bool, bool, bool) = (false, false, vector);
            let mut i: usize = 0;
            while i < items.len()
                invariant
                    i <= items@.len(),
                    items@.len() == all.len(),
                    v@ == Tree::List(all),
                    start == (false, false, vector),
                    forall|j: int| 0 <= j < all.len() ==> #[trigger] all[j] == tree(items@[j]),
                    includes(all, i as int, start) == Some(f),
                decreases items@.len() - i,
            {
                assert(all[i as int] == items@[i as int]@);
                let mut known: bool = false;
                match &items[i] {
                    Json::Text(s) => {
                        let s: &str = s.as_str();
                        if is_text(s, "text") {
                            f.0 = true;
                            known = true;
                        } else if is_text(s, "metadata") {
                            f.1 = true;
                            known = true;
                        } else if is_text(s, "vector") {
                            f.2 = true;
                            known = true;
                        }
                    },
                    _ => {},
                }
                if !known {
                    proof {
                        lemma_includes_fail(all, i + 1, all.len() as int, start);
                    }
                    return Err(
                        Error::invalid("`include` entries are \"text\", \"metadata\" or \"vector\""),
                    );
                }
                i += 1;
            }
            Ok(f)
        },
        _ => Err(Error::invalid("`include` must be an array")),
    }
}

/// A wish with one member taken into account; `None` where it is not an option
/// or its value does not fit.
pub open spec fn with_member(w: Wish, member: (Seq<u8>, Tree)) -> Option<Wish> {
    let (name, t) = member;
    let size = size_of_tree(t);
    let number = finite_of(t);
    if name == encode_utf8("k"@) {
        if size is Some {
            Some(Wish { k: size->0, ..w })
        } else {
            None
        }
    } else if name == encode_utf8("ef"@) {
        if size is Some {
            Some(Wish { ef: size, ..w })
        } else {
            None
        }
    } else if name == encode_utf8("candidates"@) {
        if size is Some {
            Some(Wish { candidates: size, ..w })
        } else {
            None
        }
    } else if name == encode_utf8("text"@) {
        match t {
            Tree::Null => Some(Wish { text: None, ..w }),
            Tree::Text(s) => Some(Wish { text: Some(s), ..w }),
            _ => None,
        }
    } else if name == encode_utf8("filter"@) {
        if t is Null {
            Some(Wish { filter: None, ..w })
        } else {
            match parsed(t, 0) {
                Some(q) => Some(Wish { filter: Some(q), ..w }),
                None => None,
            }
        }
    } else if name == encode_utf8("mmr"@) {
        if number is Some {
            Some(Wish { mmr: number, ..w })
        } else {
            None
        }
    } else if name == encode_utf8("min_score"@) {
        if number is Some {
            Some(Wish { min_score: number, ..w })
        } else {
            None
        }
    } else if name == encode_utf8("fusion"@) {
        match fusion_of(t) {
            Some(f) => Some(Wish { fusion: f, ..w }),
            None => None,
        }
    } else if name == encode_utf8("include"@) {
        match t {
            Tree::List(items) => match includes(
                items,
                items.len() as int,
                (false, false, w.include_vector),
            ) {
                Some(f) => Some(
                    Wish {
                        include_text: f.0,
                        include_metadata: f.1,
                        include_vector: f.2,
                        ..w
                    },
                ),
                None => None,
            },
            _ => None,
        }
    } else {
        None
    }
}

/// The wish that the first `n` members state.
pub open spec fn wish_stated(members: Seq<(Seq<u8>, Tree)>, n: int) -> Option<Wish>
    decreases n,
{
    if n <= 0 {
        Some(plain_wish(10))
    } else {
        match wish_stated(members, n - 1) {
            Some(w) => with_member(w, members[n - 1]),
            None => None,
        }
    }
}

/// The wish that a value states, if it states one.
pub open spec fn wish_of(t: Tree) -> Option<Wish> {
    match t {
        Tree::Object(members) => wish_stated(members, members.len() as int),
        _ => None,
    }
}

proof fn lemma_wish_fail(members: Seq<(Seq<u8>, Tree)>, i: int, n: int)
    requires
        0 <= i <= n,
        wish_stated(members, i) is None,
    ensures
        wish_stated(members, n) is None,
    decreases n,
{
    if i < n {
        lemma_wish_fail(members, i, n - 1);
    }
}

impl SearchRequest {
    /// A request for `k` results with text and metadata returned.
    #[must_use]
    pub fn new(k: usize) -> (r: Self)
        ensures
            r@ == plain_wish(k),
            r.vector is None,
    {
        SearchRequest {
            vector: None,
            text: None,
            filter: None,
            k,
            ef: None,
            fusion: Fusion::default(),
            mmr: None,
            candidates: None,
            min_score: None,
            include_text: true,
            include_metadata: true,
            include_vector: false,
        }
    }

    /// Takes one member of a request into account.
    fn apply(self, name: &str, v: &Json) -> (r: Result<SearchRequest, Error>)
        ensures
            match r {
                Ok(q) => with_member(self@, (encode_utf8(name@), v@)) == Some(q@) && q.vector
                    == self.vector,
                Err(e) => e is InvalidArgument && with_member(
                    self@,
                    (encode_utf8(name@), v@),
                ) is None,
            },
    {
        let mut req: SearchRequest = self;
        if is_text(name, "k") {
            match json_usize(v) {
                Ok(n) => {
                    req.k = n;
                },
                Err(e) => {
                    return Err(e);
                },
            }
        } else if is_text(name, "ef") {
            match json_usize(v) {
                Ok(n) => {
                    req.ef = Some(n);
                },
                Err(e) => {
                    return Err(e);
                },
            }
        } else if is_text(name, "candidates") {
            match json_usize(v) {
                Ok(n) => {
                    req.candidates = Some(n);
                },
                Err(e) => {
                    return Err(e);
                },
            }
        } else if is_text(name, "text") {
            match v {
                Json::Null => {
                    req.text = None;
                },
                Json::Text(s) => {
                    req.text = Some(s.clone());
                },
                _ => {
                    return Err(Error::invalid("`text` must be a string"));
                },
            }
        } else if is_text(name, "filter") {
            match v {
                Json::Null => {
                    req.filter = None;
                },
                _ => match Filter::parse(v) {
                    Ok(f) => {
                        req.filter = Some(f);
                    },
                    Err(e) => {
                        return Err(e);
                    },
                },
            }
        } else if is_text(name, "mmr") {
            match json_number(v) {
                Ok(b) => {
                    req.mmr = Some(b);
                },
                Err(e) => {
                    return Err(e);
                },
            }
        } else if is_text(name, "min_score") {
            match json_number(v) {
                Ok(b) => {
                    req.min_score = Some(b);
                },
                Err(e) => {
                    return Err(e);
                },
            }
        } else if is_text(name, "fusion") {
            match fusion_from(v) {
                Ok(f) => {
                    req.fusion = f;
                },
                Err(e) => {
                    return Err(e);
                },
            }
        } else if is_text(name, "include") {
            match include_from(v, req.include_vector) {
                Ok((text, metadata, vector)) => {
                    req.include_text = text;
                    req.include_metadata = metadata;
                    req.include_vector = vector;
                },
                Err(e) => {
                    return Err(e);
                },
            }
        } else {
            return Err(Error::invalid("unknown search option"));
        }
        Ok(req)
    }

    /// Parses the JSON form of a request (the vector travels separately, as
    /// binary):
    ///
    /// ```json
    /// {"k": 10, "text": "…", "filter": {…}, "ef": 64,
    ///  "fusion": "rrf" | {"rrf": 60} | {"alpha": 0.5},
    ///  "mmr": 0.5, "candidates": 40, "min_score": 0.1,
    ///  "include": ["text", "metadata", "vector"]}
    /// ```
    pub fn from_json(value: &Json) -> (r: Result<SearchRequest, Error>)
        ensures
            match r {
                Ok(q) => wish_of(value@) == Some(q@) && q.vector is None,
                Err(e) => e is InvalidArgument && wish_of(value@) is None,
            },
    {
        match value {
            Json::Object(members) => {
                let ghost all = value@->Object_0;
                let mut req: SearchRequest = SearchRequest::new(10);
                let mut i: usize = 0;
                while i < members.len()
                    invariant
                        i <= members@.len(),
                        members@.len() == all.len(),
                        value@ == Tree::Object(all),
                        forall|j: int|
                            0 <= j < all.len() ==> #[trigger] all[j] == (
                                utf8(members@[j].0),
                                tree(members@[j].1),
                            ),
                        wish_stated(all, i as int) == Some(req@),
                        req.vector is None,
                    decreases members@.len() - i,
                {
                    assert(all[i as int] == (utf8(members@[i as int].0), members@[i as int].1@));
                    match req.apply(members[i].0.as_str(), &members[i].1) {
                        Ok(q) => {
                            req = q;
                        },
                        Err(e) => {
                            proof {
                                lemma_wish_fail(all, i + 1, all.len() as int);
                            }
                            return Err(e);
                        },
                    }
                    i += 1;
                }
                Ok(req)
            },
            _ => Err(Error::invalid("a search request must be a JSON object")),
        }
    }
}


// ---- candidates -------------------------------------------------------------

/// Whether a double-precision number lies in `[0, 1]` once it is rounded to
/// single precision: it is at most `1 + 2^-24`, and no further below zero than
/// `2^-150`.
pub open spec fn rounds_into_unit(bits: u64) -> bool {
    is_finite(bits) && -0x3690_0000_0000_0000 <= rank(bits) <= 0x3FF0_0000_1000_0000
}

fn in_unit(bits: u64) -> (r: bool)
    ensures
        r == rounds_into_unit(bits),
{
    if bits < 0x8000_0000_0000_0000 {
        bits <= 0x3FF0_0000_1000_0000
    } else {
        bits - 0x8000_0000_0000_0000 <= 0x3690_0000_0000_0000
    }
}

/// How many candidates each retriever fetches.
pub open spec fn fetch_size(k: int, candidates: Option<usize>) -> int {
    let asked = match candidates {
        Some(n) => n as int,
        None => 4 * k,
    };
    let least = if asked < k {
        k
    } else {
        asked
    };
    if least < 20 {
        20
    } else if least > MAX_CANDIDATES {
        MAX_CANDIDATES as int
    } else {
        least
    }
}

/// Whether a collection of `dim` dimensions accepts a request.
pub open spec fn request_ok(req: SearchRequest, dim: int) -> bool {
    &&& req.k <= MAX_K
    &&& req.mmr is Some ==> rounds_into_unit(req.mmr->0)
    &&& req.vector is Some ==> dim > 0 && vector_ok(req.vector->0@, dim)
}

/// Whether a request has text to look for.
pub open spec fn has_text(req: SearchRequest) -> bool {
    req.text is Some && !blank(req.text->0@)
}

/// What a search sets out from.
#[derive(Debug, PartialEq, Eq)]
pub struct Plan {
    /// Candidates that each retriever fetches.
    pub fetch: usize,
    /// Whether the text is looked for.
    pub text: bool,
    /// The documents that come into question; `None` for all.
    pub allowed: Option<ByteSet>,
}

/// The query that a request restricts its answer to.
pub open spec fn request_query(req: SearchRequest) -> Query {
    match req.filter {
        Some(f) => f@,
        None => Query::All,
    }
}

impl Collection {
    /// Checks a request and works out which documents come into question;
    /// `None` where the answer is empty whatever they are.
    pub fn plan(&self, req: &SearchRequest) -> (r: Result<Option<Plan>, Error>)
        requires
            self.wf(),
        ensures
            req.k == 0 ==> r is Ok && r->Ok_0 is None,
            req.k != 0 && !request_ok(*req, self.config.dim as int) ==> r is Err
                && r->Err_0 is InvalidArgument,
            r is Err && request_ok(*req, self.config.dim as int) ==> r->Err_0 is Corruption,
            r is Ok && r->Ok_0 is Some ==> {
                let p = r->Ok_0->0;
                &&& p.fetch == fetch_size(req.k as int, req.candidates)
                &&& p.text == has_text(*req)
                &&& p.allowed is None == (request_query(*req) == Query::All)
                &&& p.allowed is Some ==> p.allowed->0.wf()
            },
            forall|docs: Map<Seq<u8>, Doc>, ti: bool| #[trigger]
                mirrors(self.store@, docs, ti) && query_ok(request_query(*req)) && req.k != 0
                    && request_ok(*req, self.config.dim as int) ==> {
                    let none = request_query(*req) != Query::All && selected(
                        docs,
                        request_query(*req),
                    ) == Set::<Seq<u8>>::empty();
                    &&& r is Ok
                    &&& r->Ok_0 is None == none
                    &&& r->Ok_0 is Some && r->Ok_0->0.allowed is Some ==> r->Ok_0->0.allowed->0@
                        == selected(docs, request_query(*req))
                },
    {
        if req.k == 0 {
            return Ok(None);
        }
        if req.k > MAX_K {
            return Err(Error::invalid("k must be at most 10000"));
        }
        match req.mmr {
            Some(l) => {
                if !in_unit(l) {
                    return Err(Error::invalid("mmr lambda must be in [0, 1]"));
                }
            },
            None => {},
        }
        match &req.vector {
            Some(v) => {
                if self.config.dim == 0 {
                    return Err(Error::invalid("this collection has no vectors"));
                }
                match validate_vector(v, self.config.dim) {
                    Ok(_) => {},
                    Err(e) => {
                        return Err(e);
                    },
                }
            },
            None => {},
        }
        let text: bool = match &req.text {
            Some(t) => !is_blank(t.as_str()),
            None => false,
        };
        let asked: usize = match req.candidates {
            Some(n) => n,
            None => req.k * 4,
        };
        let least: usize = if asked < req.k {
            req.k
        } else {
            asked
        };
        let fetch: usize = if least < 20 {
            20
        } else if least > MAX_CANDIDATES {
            MAX_CANDIDATES
        } else {
            least
        };
        let allowed: Option<ByteSet> = match filter_ids(&self.store, req.filter.as_ref()) {
            Ok(a) => a,
            Err(e) => {
                return Err(e);
            },
        };
        match &allowed {
            Some(ids) => {
                let n: usize = ids.len();
                if n == 0 {
                    assert(ids@ =~= Set::<Seq<u8>>::empty());
                    return Ok(None);
                }
                assert(ids@ != Set::<Seq<u8>>::empty());
            },
            None => {},
        }
        Ok(Some(Plan { fetch, text, allowed }))
    }

    /// The first `k` documents that come into question, in id order: the
    /// answer where neither a vector nor text is looked for.
    pub fn browse(&self, allowed: &Option<ByteSet>, k: usize) -> (out: Vec<Vec<u8>>)
        requires
            self.wf(),
            allowed is Some ==> allowed->0.wf(),
        ensures
            exists|ids: Seq<Seq<u8>>| {
                &&& #[trigger] ascending(ids)
                &&& allowed is Some ==> ids.to_set() == allowed->0@
                &&& forall|docs: Map<Seq<u8>, Doc>, ti: bool| #[trigger]
                    mirrors(self.store@, docs, ti) && allowed is None ==> ids.to_set()
                        == docs.dom()
                &&& byte_lists(out@) == if k < ids.len() {
                    ids.subrange(0, k as int)
                } else {
                    ids
                }
            },
    {
        let ids: ByteSet = match allowed {
            Some(a) => a.copy(),
            None => all_ids(&self.store),
        };
        let ghost all = byte_lists(ids.items@);
        let n: usize = if k < ids.items.len() {
            k
        } else {
            ids.items.len()
        };
        let mut out: Vec<Vec<u8>> = Vec::new();
        let mut i: usize = 0;
        assert(byte_lists(out@) =~= all.subrange(0, 0));
        while i < n
            invariant
                i <= n,
                n <= ids.items@.len(),
                all == byte_lists(ids.items@),
                byte_lists(out@) == all.subrange(0, i as int),
            decreases n - i,
        {
            let ghost was = byte_lists(out@);
            assert(all[i as int] == ids.items@[i as int]@);
            out.push(copy_bytes(ids.items[i].as_slice()));
            assert(byte_lists(out@) =~= was.push(all[i as int]));
            assert(all.subrange(0, i + 1) =~= all.subrange(0, i as int).push(all[i as int]));
            i += 1;
        }
        assert(all.subrange(0, all.len() as int) =~= all);
        out
    }

    /// The text and the metadata of a hit, as far as they are asked for.
    pub fn enrich(&self, id: &[u8], text: bool, metadata: bool) -> (r: Result<
        (Option<String>, Option<Json>),
        Error,
    >)
        requires
            self.wf(),
        ensures
            !text && !metadata ==> r is Ok && r->Ok_0.0 is None && r->Ok_0.1 is None,
            r is Err ==> r->Err_0 is Serialization && self.store@.contains_key(doc_key(id@))
                && forall|rec: Rec|
                !begins(self.store@[doc_key(id@)], #[trigger] record_bytes(rec)),
            forall|docs: Map<Seq<u8>, Doc>, ti: bool| #[trigger]
                mirrors(self.store@, docs, ti) ==> {
                    let rec = docs[id@].record;
                    &&& r is Ok
                    &&& r->Ok_0.0 is Some == (text && docs.contains_key(id@) && rec.text is Some)
                    &&& r->Ok_0.0 is Some ==> r->Ok_0.0->0@ == rec.text->0
                    &&& r->Ok_0.1 is Some == (metadata && docs.contains_key(id@))
                    &&& r->Ok_0.1 is Some ==> r->Ok_0.1->0@ == meta_tree(rec.metadata)
                },
    {
        if !text && !metadata {
            return Ok((None, None));
        }
        proof {
            assert forall|docs: Map<Seq<u8>, Doc>, ti: bool| #[trigger]
                mirrors(self.store@, docs, ti) implies {
                let k = doc_key(id@);
                &&& self.store@.contains_key(k) == docs.contains_key(id@)
                &&& docs.contains_key(id@) ==> begins(self.store@[k], record_bytes(docs[id@].record))
                &&& docs.contains_key(id@) ==> forall|rec: Rec|
                    begins(self.store@[k], #[trigger] record_bytes(rec)) ==> rec == docs[id@].record
            } by {
                lemma_stored(self.store@, docs, ti, id@);
            }
        }
        match record_in(&self.store, id) {
            Ok(Some(record)) => {
                let ghost rec = record@;
                assert(begins(self.store@[doc_key(id@)], record_bytes(rec)));
                let m: Option<Json> = if metadata {
                    Some(parse_metadata(record.metadata.as_str()))
                } else {
                    None
                };
                let t: Option<String> = if text {
                    record.text
                } else {
                    None
                };
                Ok((t, m))
            },
            Ok(None) => Ok((None, None)),
            Err(e) => Err(e),
        }
    }
}

// ---- full text --------------------------------------------------------------

/// The terms of a query, each once and in order.
pub fn query_terms(text: &str) -> (terms: Vec<Vec<u8>>)
    ensures
        ascending(byte_lists(terms@)),
        byte_lists(terms@).to_set() == terms_of(text@).to_set(),
{
    term_frequencies(text).terms
}

/// A document that holds a term.
#[derive(Debug, PartialEq, Eq)]
pub struct Posting {
    /// The document's id.
    pub id: Vec<u8>,
    /// How often the term occurs in it.
    pub count: u32,
    /// The document's length in terms.
    pub len: u32,
}

/// `p` is what the index says of a term in a document.
pub open spec fn posts(p: Posting, docs: Map<Seq<u8>, Doc>, term: Seq<u8>) -> bool {
    let id = p.id@;
    &&& docs.contains_key(id)
    &&& docs[id].record.text is Some
    &&& terms_of(docs[id].record.text->0).contains(term)
    &&& p.count == wrapped(occurrences(terms_of(docs[id].record.text->0), term))
    &&& p.len == docs[id].record.text_len
}

/// Who owns a posting under a term.
proof fn lemma_posting_owner(
    m: Map<Seq<u8>, Seq<u8>>,
    docs: Map<Seq<u8>, Doc>,
    term: Seq<u8>,
    k: Seq<u8>,
) -> (id: Seq<u8>)
    requires
        mirrors(m, docs, true),
        clean_terms(docs),
        !term.contains(0),
        m.contains_key(k),
        starts(k, term_base(term)),
    ensures
        docs.contains_key(id),
        id == shown(k.skip(term_base(term).len() as int)),
        k.skip(term_base(term).len() as int) == id,
        docs[id].record.text is Some,
        terms_of(docs[id].record.text->0).contains(term),
        m[k] == posting(
            occurrences(terms_of(docs[id].record.text->0), term),
            docs[id].record.text_len,
        ),
{
    let base = term_base(term);
    let rest = k.skip(base.len() as int);
    assert(k =~= k.subrange(0, base.len() as int) + rest);
    assert(k[0] == TERM);
    let id = lemma_owner(m, docs, true, k);
    lemma_key_tags(docs[id], id, k, m[k]);
    assert(is_posting(docs[id], id, k, m[k]));
    let ts = terms_of(docs[id].record.text->0);
    let t = choose|t: Seq<u8>| #[trigger]
        ts.contains(t) && k == term_key(t, id) && m[k] == posting(
            occurrences(ts, t),
            docs[id].record.text_len,
        );
    assert(k.skip(1) =~= term + seq![0u8] + rest);
    assert(k.skip(1) =~= t + seq![0u8] + id);
    lemma_split_at_nul(term, rest, t, id);
    id
}

impl Collection {
    /// The documents that hold a term, in id order.
    #[verifier::rlimit(60)]
    #[verifier::spinoff_prover]
    pub fn postings(&self, term: &[u8]) -> (out: Vec<Posting>)
        requires
            self.wf(),
        ensures
            forall|docs: Map<Seq<u8>, Doc>| #[trigger]
                mirrors(self.store@, docs, true) && clean_terms(docs) && !term@.contains(0) ==> {
                    &&& forall|i: int| 0 <= i < out@.len() ==> posts(#[trigger] out@[i], docs, term@)
                    &&& forall|i: int, j: int|
                        0 <= i < j < out@.len() ==> lex_lt(
                            (#[trigger] out@[i]).id@,
                            (#[trigger] out@[j]).id@,
                        )
                    &&& forall|id: Seq<u8>| #[trigger]
                        docs.contains_key(id) && docs[id].record.text is Some && terms_of(
                            docs[id].record.text->0,
                        ).contains(term@) ==> exists|i: int|
                            0 <= i < out@.len() && (#[trigger] out@[i]).id@ == id
                },
    {
        let prefix: Vec<u8> = term_prefix(term);
        let lo: Bound = Bound::Included(copy_bytes(prefix.as_slice()));
        let hi: Bound = match prefix_successor(prefix.as_slice()) {
            Some(end) => Bound::Excluded(end),
            None => Bound::Unbounded,
        };
        let found: Vec<(Vec<u8>, Vec<u8>)> = self.store.range(&lo, &hi);
        let ghost m = self.store@;
        let ghost part = bounded(m, lo, hi);
        let ghost e = pairs(found@);
        let ghost base = term_base(term@);
        let n: usize = prefix.len();
        assert forall|k: Seq<u8>| #[trigger] part.contains_key(k) == (m.contains_key(k) && starts(
            k,
            base,
        )) by {
            law_successor_ends_the_prefix(base, k);
        }
        let mut out: Vec<Posting> = Vec::new();
        let mut i: usize = 0;
        while i < found.len()
            invariant
                i <= found@.len(),
                n == base.len(),
                m == self.store@,
                base == term_base(term@),
                e == pairs(found@),
                part == bounded(m, lo, hi),
                listing(part, e),
                forall|k: Seq<u8>| #[trigger]
                    part.contains_key(k) == (m.contains_key(k) && starts(k, base)),
                forall|docs: Map<Seq<u8>, Doc>| #[trigger]
                    mirrors(m, docs, true) && clean_terms(docs) && !term@.contains(0) ==> out@.len()
                        == i && (forall|j: int|
                        0 <= j < i ==> posts(#[trigger] out@[j], docs, term@) && out@[j].id@
                            == e[j].0.skip(n as int)),
            decreases found@.len() - i,
        {
            let ghost k = e[i as int].0;
            let ghost was = out@;
            assert(e[i as int] == (found@[i as int].0@, found@[i as int].1@));
            assert(part.contains_key(k));
            let suffix: Vec<u8> = copy_range(found[i].0.as_slice(), n, found[i].0.len());
            assert(suffix@ =~= k.skip(n as int));
            if found[i].1.len() == 8 {
                let count: u32 = get_u32(found[i].1.as_slice(), 0);
                let len: u32 = get_u32(found[i].1.as_slice(), 4);
                let id: Vec<u8> = lossy_bytes(suffix.as_slice());
                let ghost name = id@;
                out.push(Posting { id, count, len });
                assert forall|docs: Map<Seq<u8>, Doc>| #[trigger]
                    mirrors(m, docs, true) && clean_terms(docs) && !term@.contains(0) implies posts(
                    out@[i as int],
                    docs,
                    term@,
                ) && out@[i as int].id@ == k.skip(n as int) by {
                    let o = lemma_posting_owner(m, docs, term@, k);
                    let ts = terms_of(docs[o].record.text->0);
                    let v = m[k];
                    assert(part[k] == v);
                    assert(v.subrange(0, 4) =~= le32(wrapped(occurrences(ts, term@))));
                    assert(v.subrange(4, 8) =~= le32(docs[o].record.text_len));
                    lemma_u32_roundtrip(v, 0, wrapped(occurrences(ts, term@)));
                    lemma_u32_roundtrip(v, 4, docs[o].record.text_len);
                }
            } else {
                assert forall|docs: Map<Seq<u8>, Doc>| #[trigger]
                    mirrors(m, docs, true) && clean_terms(docs) && !term@.contains(
                    0,
                ) implies false by {
                    let o = lemma_posting_owner(m, docs, term@, k);
                    assert(part[k] == m[k]);
                }
            }
            assert forall|docs: Map<Seq<u8>, Doc>| #[trigger]
                mirrors(m, docs, true) && clean_terms(docs) && !term@.contains(0) implies out@.len()
                == i + 1 && (forall|j: int|
                0 <= j < i + 1 ==> posts(#[trigger] out@[j], docs, term@) && out@[j].id@
                    == e[j].0.skip(n as int)) by {
                assert forall|j: int| 0 <= j < i + 1 implies posts(#[trigger] out@[j], docs, term@)
                    && out@[j].id@ == e[j].0.skip(n as int) by {
                    if j < i {
                        assert(out@[j] == was[j]);
                    }
                }
            }
            i += 1;
        }
        assert forall|docs: Map<Seq<u8>, Doc>| #[trigger]
            mirrors(m, docs, true) && clean_terms(docs) && !term@.contains(0) implies {
            &&& forall|i: int, j: int|
                0 <= i < j < out@.len() ==> lex_lt(
                    (#[trigger] out@[i]).id@,
                    (#[trigger] out@[j]).id@,
                )
            &&& forall|id: Seq<u8>| #[trigger]
                docs.contains_key(id) && docs[id].record.text is Some && terms_of(
                    docs[id].record.text->0,
                ).contains(term@) ==> exists|i: int|
                    0 <= i < out@.len() && (#[trigger] out@[i]).id@ == id
        } by {
            assert forall|i: int, j: int| 0 <= i < j < out@.len() implies lex_lt(
                (#[trigger] out@[i]).id@,
                (#[trigger] out@[j]).id@,
            ) by {
                let (a, b) = (e[i].0, e[j].0);
                assert(part.contains_key(a) && part.contains_key(b));
                let (x, y) = (a.skip(n as int), b.skip(n as int));
                assert(a =~= a.subrange(0, n as int) + x);
                assert(b =~= b.subrange(0, n as int) + y);
                lemma_lex_common_prefix(base, x, y);
                assert(lex_lt(a, b));
            }
            assert forall|id: Seq<u8>| #[trigger]
                docs.contains_key(id) && docs[id].record.text is Some && terms_of(
                docs[id].record.text->0,
            ).contains(term@) implies exists|i: int|
                0 <= i < out@.len() && (#[trigger] out@[i]).id@ == id by {
                let d = docs[id];
                let ts = terms_of(d.record.text->0);
                let k = term_key(term@, id);
                let v = posting(occurrences(ts, term@), d.record.text_len);
                assert(is_posting(d, id, k, v));
                assert(owns(d, id, true, k, v));
                assert(m.contains_key(k));
                assert(k.subrange(0, n as int) =~= base);
                assert(part.contains_key(k));
                let i = choose|i: int| 0 <= i < e.len() && (#[trigger] e[i]).0 == k;
                assert(k.skip(n as int) =~= id);
                assert(out@[i].id@ == id);
            }
        }
        out
    }
}

} // verus!
