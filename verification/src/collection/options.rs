//! How a collection is laid out.

use crate::collection::documents::Config;
use crate::collection::filter::is_text;
use crate::error::{decimal_string, Error};
use crate::json::{tree, utf8, Json, Tree};
use vstd::prelude::*;
use vstd::utf8::*;

verus! {

/// Largest embedding dimensionality.
pub const MAX_DIM: usize = 65_536;

/// Vector similarity metric.
#[derive(Debug, Clone, Copy, PartialEq, Eq, Structural)]
pub enum Metric {
    /// The angle between vectors.
    Cosine,
    /// The distance between vectors.
    Euclidean,
    /// The inner product of vectors.
    DotProduct,
}

/// The stored code of a metric.
pub open spec fn metric_code(m: Metric) -> u8 {
    match m {
        Metric::Cosine => 0,
        Metric::Euclidean => 1,
        Metric::DotProduct => 2,
    }
}

impl Metric {
    /// The stored code.
    #[must_use]
    pub fn as_u8(self) -> (c: u8)
        ensures
            c == metric_code(self),
    {
        match self {
            Metric::Cosine => 0,
            Metric::Euclidean => 1,
            Metric::DotProduct => 2,
        }
    }

    /// The metric of a stored code.
    pub fn from_u8(code: u8) -> (r: Result<Metric, Error>)
        ensures
            match r {
                Ok(m) => metric_code(m) == code,
                Err(e) => e is InvalidArgument && code > 2,
            },
    {
        match code {
            0 => Ok(Metric::Cosine),
            1 => Ok(Metric::Euclidean),
            2 => Ok(Metric::DotProduct),
            _ => Err(Error::invalid("unknown metric")),
        }
    }
}

/// How a collection is laid out. Fixed at creation.
#[derive(Debug, Clone, Copy, PartialEq, Eq, Structural)]
pub struct CollectionOptions {
    /// Embedding dimensionality; `0` for a collection without vectors (text
    /// and metadata search only). When opening an existing collection, `0`
    /// accepts whatever it was created with.
    pub dim: usize,
    /// Vector similarity metric.
    pub metric: Metric,
    /// Maintain the full-text index.
    pub text_index: bool,
    /// `fsync` every write (the default). Turning it off trades power-loss
    /// durability of the latest writes for much faster bulk ingest.
    pub sync_on_write: bool,
    /// Links per node of the vector graph, where given.
    pub m: Option<usize>,
    /// Beam width while the vector graph is built, where given.
    pub ef_construction: Option<usize>,
    /// Beam width of vector searches, where given.
    pub ef_search: Option<usize>,
}

/// The options of a collection about which nothing is said.
pub open spec fn default_options() -> CollectionOptions {
    CollectionOptions {
        dim: 0,
        metric: Metric::Cosine,
        text_index: true,
        sync_on_write: true,
        m: None,
        ef_construction: None,
        ef_search: None,
    }
}

impl Default for CollectionOptions {
    fn default() -> (o: Self)
        ensures
            o == default_options(),
    {
        CollectionOptions {
            dim: 0,
            metric: Metric::Cosine,
            text_index: true,
            sync_on_write: true,
            m: None,
            ef_construction: None,
            ef_search: None,
        }
    }
}

// ---- options as JSON --------------------------------------------------------

/// The size that a value states, if it states one.
pub open spec fn size_of_tree(t: Tree) -> Option<usize> {
    match t {
        Tree::Number(n) => match n.unsigned {
            Some(u) => if u <= usize::MAX {
                Some(u as usize)
            } else {
                None
            },
            None => None,
        },
        _ => None,
    }
}

/// The size that a value states.
pub fn json_usize(v: &Json) -> (r: Result<usize, Error>)
    ensures
        match r {
            Ok(n) => size_of_tree(v@) == Some(n),
            Err(e) => e is InvalidArgument && size_of_tree(v@) is None,
        },
{
    match v {
        Json::Number(n) => match n.unsigned {
            Some(u) => if u <= usize::MAX as u64 {
                Ok(u as usize)
            } else {
                Err(Error::invalid("expected a non-negative integer"))
            },
            None => Err(Error::invalid("expected a non-negative integer")),
        },
        _ => Err(Error::invalid("expected a non-negative integer")),
    }
}

/// The metric that a value names, if it names one.
pub open spec fn metric_of_tree(t: Tree) -> Option<Metric> {
    match t {
        Tree::Text(s) => if s == encode_utf8("cosine"@) {
            Some(Metric::Cosine)
        } else if s == encode_utf8("euclidean"@) || s == encode_utf8("l2"@) {
            Some(Metric::Euclidean)
        } else if s == encode_utf8("dot"@) || s == encode_utf8("dot_product"@) {
            Some(Metric::DotProduct)
        } else {
            None
        },
        _ => match size_of_tree(t) {
            Some(n) => if n == 0 {
                Some(Metric::Cosine)
            } else if n == 1 {
                Some(Metric::Euclidean)
            } else if n == 2 {
                Some(Metric::DotProduct)
            } else {
                None
            },
            None => None,
        },
    }
}

fn metric_from(v: &Json) -> (r: Result<Metric, Error>)
    ensures
        match r {
            Ok(m) => metric_of_tree(v@) == Some(m),
            Err(e) => e is InvalidArgument && metric_of_tree(v@) is None,
        },
{
    match v {
        Json::Text(s) => {
            let s: &str = s.as_str();
            if is_text(s, "cosine") {
                Ok(Metric::Cosine)
            } else if is_text(s, "euclidean") || is_text(s, "l2") {
                Ok(Metric::Euclidean)
            } else if is_text(s, "dot") || is_text(s, "dot_product") {
                Ok(Metric::DotProduct)
            } else {
                Err(Error::invalid("unknown metric"))
            }
        },
        _ => match json_usize(v) {
            Ok(n) => if n <= 2 {
                Metric::from_u8(n as u8)
            } else {
                Err(Error::invalid("unknown metric"))
            },
            Err(e) => Err(e),
        },
    }
}

/// The options with one member taken into account; `None` where it is not an
/// option or its value does not fit.
pub open spec fn with_option(
    o: CollectionOptions,
    member: (Seq<u8>, Tree),
) -> Option<CollectionOptions> {
    let (name, t) = member;
    let size = size_of_tree(t);
    if name == encode_utf8("dim"@) {
        if size is Some {
            Some(CollectionOptions { dim: size->0, ..o })
        } else {
            None
        }
    } else if name == encode_utf8("metric"@) {
        if metric_of_tree(t) is Some {
            Some(CollectionOptions { metric: metric_of_tree(t)->0, ..o })
        } else {
            None
        }
    } else if name == encode_utf8("text_index"@) {
        if t is Bool {
            Some(CollectionOptions { text_index: t->Bool_0, ..o })
        } else {
            None
        }
    } else if name == encode_utf8("sync"@) {
        if t is Bool {
            Some(CollectionOptions { sync_on_write: t->Bool_0, ..o })
        } else {
            None
        }
    } else if name == encode_utf8("m"@) {
        if size is Some {
            Some(CollectionOptions { m: size, ..o })
        } else {
            None
        }
    } else if name == encode_utf8("ef_construction"@) {
        if size is Some {
            Some(CollectionOptions { ef_construction: size, ..o })
        } else {
            None
        }
    } else if name == encode_utf8("ef_search"@) {
        if size is Some {
            Some(CollectionOptions { ef_search: size, ..o })
        } else {
            None
        }
    } else {
        None
    }
}

/// The options that the first `n` members state.
pub open spec fn options_stated(
    members: Seq<(Seq<u8>, Tree)>,
    n: int,
) -> Option<CollectionOptions>
    decreases n,
{
    if n <= 0 {
        Some(default_options())
    } else {
        match options_stated(members, n - 1) {
            Some(o) => with_option(o, members[n - 1]),
            None => None,
        }
    }
}

/// The options that a value states, if it states any.
pub open spec fn options_of(t: Option<Tree>) -> Option<CollectionOptions> {
    match t {
        None => Some(default_options()),
        Some(Tree::Object(members)) => options_stated(members, members.len() as int),
        Some(_) => None,
    }
}

proof fn lemma_options_fail(members: Seq<(Seq<u8>, Tree)>, i: int, n: int)
    requires
        0 <= i <= n,
        options_stated(members, i) is None,
    ensures
        options_stated(members, n) is None,
    decreases n,
{
    if i < n {
        lemma_options_fail(members, i, n - 1);
    }
}

fn apply_option(o: CollectionOptions, name: &str, v: &Json) -> (r: Result<
    CollectionOptions,
    Error,
>)
    ensures
        match r {
            Ok(p) => with_option(o, (encode_utf8(name@), v@)) == Some(p),
            Err(e) => e is InvalidArgument && with_option(o, (encode_utf8(name@), v@)) is None,
        },
{
    let mut o: CollectionOptions = o;
    if is_text(name, "dim") {
        match json_usize(v) {
            Ok(n) => {
                o.dim = n;
            },
            Err(e) => {
                return Err(e);
            },
        }
    } else if is_text(name, "metric") {
        match metric_from(v) {
            Ok(m) => {
                o.metric = m;
            },
            Err(e) => {
                return Err(e);
            },
        }
    } else if is_text(name, "text_index") {
        match v {
            Json::Bool(b) => {
                o.text_index = *b;
            },
            _ => {
                return Err(Error::invalid("`text_index` must be a boolean"));
            },
        }
    } else if is_text(name, "sync") {
        match v {
            Json::Bool(b) => {
                o.sync_on_write = *b;
            },
            _ => {
                return Err(Error::invalid("`sync` must be a boolean"));
            },
        }
    } else if is_text(name, "m") {
        match json_usize(v) {
            Ok(n) => {
                o.m = Some(n);
            },
            Err(e) => {
                return Err(e);
            },
        }
    } else if is_text(name, "ef_construction") {
        match json_usize(v) {
            Ok(n) => {
                o.ef_construction = Some(n);
            },
            Err(e) => {
                return Err(e);
            },
        }
    } else if is_text(name, "ef_search") {
        match json_usize(v) {
            Ok(n) => {
                o.ef_search = Some(n);
            },
            Err(e) => {
                return Err(e);
            },
        }
    } else {
        return Err(Error::invalid("unknown collection option"));
    }
    Ok(o)
}

/// The tree of an optional value.
pub open spec fn optional_tree(v: Option<&Json>) -> Option<Tree> {
    match v {
        Some(j) => Some(j@),
        None => None,
    }
}

/// Reads collection options from their JSON form.
pub fn options_from(value: Option<&Json>) -> (r: Result<CollectionOptions, Error>)
    ensures
        match r {
            Ok(o) => options_of(optional_tree(value)) == Some(o),
            Err(e) => e is InvalidArgument && options_of(optional_tree(value)) is None,
        },
{
    let mut o: CollectionOptions = CollectionOptions::default();
    match value {
        None => Ok(o),
        Some(v) => match v {
            Json::Object(members) => {
                let ghost all = v@->Object_0;
                let mut i: usize = 0;
                while i < members.len()
                    invariant
                        i <= members@.len(),
                        members@.len() == all.len(),
                        v@ == Tree::Object(all),
                        value == Some(v),
                        forall|j: int|
                            0 <= j < all.len() ==> #[trigger] all[j] == (
                                utf8(members@[j].0),
                                tree(members@[j].1),
                            ),
                        options_stated(all, i as int) == Some(o),
                    decreases members@.len() - i,
                {
                    assert(all[i as int] == (utf8(members@[i as int].0), members@[i as int].1@));
                    match apply_option(o, members[i].0.as_str(), &members[i].1) {
                        Ok(p) => {
                            o = p;
                        },
                        Err(e) => {
                            proof {
                                lemma_options_fail(all, i + 1, all.len() as int);
                            }
                            return Err(e);
                        },
                    }
                    i += 1;
                }
                Ok(o)
            },
            _ => Err(Error::invalid("collection options must be a JSON object")),
        },
    }
}

// ---- layout -----------------------------------------------------------------

/// Whether a stored layout can be opened with these options: `dim == 0` opens
/// whatever exists; a conflicting `dim` or metric does not.
pub open spec fn compatible(stored: Config, o: CollectionOptions) -> bool {
    o.dim == 0 || (o.dim == stored.dim && (stored.dim > 0 ==> stored.metric == metric_code(
        o.metric,
    )))
}

/// Whether a stored layout can be read at all.
pub open spec fn known(stored: Config) -> bool {
    stored.metric <= 2
}

/// The layout of a collection that is made with these options.
pub open spec fn fresh_layout(o: CollectionOptions) -> Config {
    Config {
        version: 1,
        dim: o.dim,
        metric: metric_code(o.metric),
        text_index: o.text_index,
    }
}

/// Decides the layout of a collection that is opened: an existing
/// collection's layout wins over `options` where they can be reconciled, and a
/// conflict is an error rather than a silent reinterpretation.
pub fn layout(stored: Option<Config>, options: CollectionOptions) -> (r: Result<Config, Error>)
    ensures
        match r {
            Ok(c) => match stored {
                Some(s) => c == s && known(s) && compatible(s, options),
                None => options.dim <= MAX_DIM && c == fresh_layout(options),
            },
            Err(e) => e is InvalidArgument && match stored {
                Some(s) => !known(s) || !compatible(s, options),
                None => options.dim > MAX_DIM,
            },
        },
{
    match stored {
        Some(s) => {
            if options.dim != 0 && options.dim != s.dim {
                return Err(
                    Error::InvalidArgument(
                        "the collection has ".to_owned().concat(
                            decimal_string(s.dim as u64).as_str(),
                        ).concat("-dimensional vectors, not ").concat(
                            decimal_string(options.dim as u64).as_str(),
                        ),
                    ),
                );
            }
            let metric: Metric = match Metric::from_u8(s.metric) {
                Ok(m) => m,
                Err(e) => {
                    return Err(e);
                },
            };
            if s.dim > 0 && options.dim != 0 && metric != options.metric {
                return Err(Error::invalid("the collection uses another metric"));
            }
            Ok(s)
        },
        None => {
            if options.dim > MAX_DIM {
                return Err(Error::invalid("the dimension must be 1..=65536"));
            }
            Ok(
                Config {
                    version: 1,
                    dim: options.dim,
                    metric: options.metric.as_u8(),
                    text_index: options.text_index,
                },
            )
        },
    }
}

/// Whether a handle on an open collection may be shared under these options.
pub open spec fn shareable(open: Config, o: CollectionOptions) -> bool {
    o.dim == 0 || (o.dim == open.dim && (open.dim == 0 || metric_code(o.metric) == open.metric))
}

/// Checks that an open collection may be shared under these options.
pub fn check_shared(open: Config, options: CollectionOptions) -> (r: Result<(), Error>)
    ensures
        match r {
            Ok(_) => shareable(open, options),
            Err(e) => e is InvalidArgument && !shareable(open, options),
        },
{
    if options.dim != 0 && options.dim != open.dim {
        return Err(Error::invalid("already open with vectors of another dimension"));
    }
    if options.dim != 0 && open.dim != 0 && options.metric.as_u8() != open.metric {
        return Err(Error::invalid("already open with another metric"));
    }
    Ok(())
}

} // verus!
