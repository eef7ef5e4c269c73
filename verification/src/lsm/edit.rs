//! Changes to the live table set, and how they are stored.

use crate::bytes::{
    begins, copy_bytes, get_u32, get_u64, le32, le64, lemma_sized, lemma_u32_bytes,
    lemma_u32_roundtrip, lemma_u64_bytes, lemma_u64_roundtrip, push_bytes, push_u32, push_u64,
    sized, u32_at,
};
use crate::lsm::sstable::{Summary, TableMeta};
use vstd::prelude::*;
use vstd::slice::slice_subrange;

verus! {

/// [`TableMeta`] in the form in which it is stored.
///
/// Converting here keeps the persistence format explicit and versionable.
#[derive(Debug, PartialEq, Eq)]
pub struct SerializableMeta {
    /// Table identifier.
    pub id: u64,
    /// LSM level.
    pub level: u32,
    /// Smallest user key.
    pub min_key: Vec<u8>,
    /// Largest user key.
    pub max_key: Vec<u8>,
    /// Lowest sequence number.
    pub min_seqno: u64,
    /// Highest sequence number.
    pub max_seqno: u64,
    /// Entry count.
    pub entry_count: u64,
    /// File size in bytes.
    pub file_bytes: u64,
}

impl View for SerializableMeta {
    type V = Summary;

    open spec fn view(&self) -> Summary {
        Summary {
            id: self.id,
            level: self.level,
            min_key: self.min_key@,
            max_key: self.max_key@,
            min_seqno: self.min_seqno,
            max_seqno: self.max_seqno,
            entry_count: self.entry_count,
            file_bytes: self.file_bytes,
        }
    }
}

impl SerializableMeta {
    /// The stored form of a summary.
    pub fn from_meta(m: &TableMeta) -> (s: SerializableMeta)
        ensures
            s@ == m@,
    {
        SerializableMeta {
            id: m.id,
            level: m.level,
            min_key: copy_bytes(m.min_key.as_slice()),
            max_key: copy_bytes(m.max_key.as_slice()),
            min_seqno: m.min_seqno,
            max_seqno: m.max_seqno,
            entry_count: m.entry_count,
            file_bytes: m.file_bytes,
        }
    }

    /// The summary that is stored.
    pub fn into_meta(self) -> (m: TableMeta)
        ensures
            m@ == self@,
    {
        TableMeta {
            id: self.id,
            level: self.level,
            min_key: self.min_key,
            max_key: self.max_key,
            min_seqno: self.min_seqno,
            max_seqno: self.max_seqno,
            entry_count: self.entry_count,
            file_bytes: self.file_bytes,
        }
    }
}

/// A single change to the live table set.
#[derive(Debug, PartialEq, Eq)]
pub enum ManifestEdit {
    /// A new table became live at `meta.level`.
    AddTable {
        /// The table's metadata.
        meta: SerializableMeta,
    },
    /// A table was retired and its file may be deleted.
    RemoveTable {
        /// Level the table belonged to.
        level: u32,
        /// Table identifier.
        id: u64,
    },
    /// The complete live set, written when the log is compacted.
    ///
    /// Replay treats this as a reset: everything before it is superseded.
    FullSnapshot {
        /// Every live table.
        tables: Vec<SerializableMeta>,
        /// Next unused table id.
        next_table_id: u64,
    },
    /// Records the highest sequence number durably reflected in the tables.
    ///
    /// Lets recovery know which WAL records are already folded into SSTables
    /// and need not be replayed.
    Checkpoint {
        /// Durable sequence number.
        seqno: u64,
    },
}

/// What an edit says.
pub ghost enum Edit {
    /// A table became live.
    Add(Summary),
    /// A table was retired.
    Remove(u32, u64),
    /// The live tables, and the next unused id.
    Snapshot(Seq<Summary>, u64),
    /// The highest durable sequence number.
    Durable(u64),
}

/// What a list of stored summaries says.
pub open spec fn stored_metas(v: Seq<SerializableMeta>) -> Seq<Summary> {
    Seq::new(v.len(), |i: int| v[i]@)
}

impl View for ManifestEdit {
    type V = Edit;

    open spec fn view(&self) -> Edit {
        match *self {
            ManifestEdit::AddTable { meta } => Edit::Add(meta@),
            ManifestEdit::RemoveTable { level, id } => Edit::Remove(level, id),
            ManifestEdit::FullSnapshot { tables, next_table_id } => Edit::Snapshot(
                stored_metas(tables@),
                next_table_id,
            ),
            ManifestEdit::Checkpoint { seqno } => Edit::Durable(seqno),
        }
    }
}

/// The mark of an edit that adds a table.
pub const ADD: u32 = 0;

/// The mark of an edit that removes a table.
pub const REMOVE: u32 = 1;

/// The mark of an edit that lists the live tables.
pub const SNAPSHOT: u32 = 2;

/// The mark of an edit that moves the checkpoint.
pub const CHECKPOINT: u32 = 3;

/// A summary as bytes.
pub open spec fn meta_bytes(m: Summary) -> Seq<u8> {
    le64(m.id) + (le32(m.level) + (sized(m.min_key) + (sized(m.max_key) + (le64(m.min_seqno) + (
    le64(m.max_seqno) + (le64(m.entry_count) + le64(m.file_bytes)))))))
}

/// A list of summaries as bytes.
pub open spec fn metas_bytes(v: Seq<Summary>) -> Seq<u8>
    decreases v.len(),
{
    if v.len() == 0 {
        Seq::empty()
    } else {
        meta_bytes(v[0]) + metas_bytes(v.subrange(1, v.len() as int))
    }
}

/// A list of summaries behind its length, then a number, as bytes.
pub open spec fn tables_bytes(v: Seq<Summary>, next: u64) -> Seq<u8> {
    le64(v.len() as u64) + (metas_bytes(v) + le64(next))
}

/// An edit as bytes: its mark, then its fields.
pub open spec fn edit_bytes(e: Edit) -> Seq<u8> {
    match e {
        Edit::Add(m) => le32(ADD) + meta_bytes(m),
        Edit::Remove(level, id) => le32(REMOVE) + (le32(level) + le64(id)),
        Edit::Snapshot(v, next) => le32(SNAPSHOT) + tables_bytes(v, next),
        Edit::Durable(seqno) => le32(CHECKPOINT) + le64(seqno),
    }
}

/// The keys of a summary have lengths that can be stored.
pub open spec fn meta_ok(m: Summary) -> bool {
    m.min_key.len() <= u64::MAX && m.max_key.len() <= u64::MAX
}

/// The lengths in a list of summaries can be stored.
pub open spec fn metas_ok(v: Seq<Summary>) -> bool {
    v.len() <= u64::MAX && forall|i: int| 0 <= i < v.len() ==> meta_ok(#[trigger] v[i])
}

/// The lengths in an edit can be stored.
pub open spec fn edit_ok(e: Edit) -> bool {
    match e {
        Edit::Add(m) => meta_ok(m),
        Edit::Snapshot(v, _) => metas_ok(v),
        _ => true,
    }
}

/// The fields of a summary, in stored order.
type Row = (u64, u32, Vec<u8>, Vec<u8>, (u64, u64, u64, u64));

/// Calls `bincode::serialize` on a summary's fields in order: fixed-width
/// little-endian integers, byte lists behind their length. Nothing in them can
/// fail to serialize.
#[verifier::external_body]
fn pack_meta(m: &SerializableMeta) -> (b: Option<Vec<u8>>)
    ensures
        b is Some,
        b->0@ == meta_bytes(m@),
{
    let tail = (m.min_seqno, m.max_seqno, m.entry_count, m.file_bytes);
    bincode::serialize(&(m.id, m.level, &m.min_key, &m.max_key, tail)).ok()
}

/// Calls `bincode::serialize` on a list of summaries and a number: the list
/// behind its length, each summary as its fields in order. Nothing in them can
/// fail to serialize.
#[verifier::external_body]
fn pack_tables(v: &Vec<SerializableMeta>, next: u64) -> (b: Option<Vec<u8>>)
    ensures
        b is Some,
        b->0@ == tables_bytes(stored_metas(v@), next),
{
    let list: Vec<_> = v.iter().map(|m| {
        let tail = (m.min_seqno, m.max_seqno, m.entry_count, m.file_bytes);
        (m.id, m.level, &m.min_key, &m.max_key, tail)
    }).collect();
    bincode::serialize(&(list, next)).ok()
}

/// Calls `bincode::deserialize` for a summary's fields in order, which reads
/// what `bincode::serialize` writes and leaves any bytes behind it alone.
#[verifier::external_body]
fn unpack_meta(b: &[u8]) -> (r: Option<SerializableMeta>)
    ensures
        match r {
            Some(m) => begins(b@, meta_bytes(m@)) && meta_ok(m@),
            None => forall|m: Summary| meta_ok(m) ==> !begins(b@, #[trigger] meta_bytes(m)),
        },
{
    let (id, level, min_key, max_key, tail): Row = bincode::deserialize(b).ok()?;
    let (min_seqno, max_seqno, entry_count, file_bytes) = tail;
    Some(SerializableMeta {
        id, level, min_key, max_key, min_seqno, max_seqno, entry_count, file_bytes,
    })
}

/// Calls `bincode::deserialize` for a list of summaries and a number, which
/// reads what `bincode::serialize` writes and leaves any bytes behind it alone.
#[verifier::external_body]
fn unpack_tables(b: &[u8]) -> (r: Option<(Vec<SerializableMeta>, u64)>)
    ensures
        match r {
            Some((v, next)) => begins(b@, tables_bytes(stored_metas(v@), next)) && metas_ok(
                stored_metas(v@),
            ),
            None => forall|v: Seq<Summary>, next: u64|
                metas_ok(v) ==> !begins(b@, #[trigger] tables_bytes(v, next)),
        },
{
    let (rows, next): (Vec<Row>, u64) = bincode::deserialize(b).ok()?;
    let v = rows.into_iter().map(|(id, level, min_key, max_key, tail)| {
        let (min_seqno, max_seqno, entry_count, file_bytes) = tail;
        SerializableMeta {
            id, level, min_key, max_key, min_seqno, max_seqno, entry_count, file_bytes,
        }
    }).collect();
    Some((v, next))
}

/// What follows the first bytes of a list determines what it begins with.
proof fn lemma_begins_after(b: Seq<u8>, head: Seq<u8>, p: Seq<u8>)
    requires
        head.len() <= b.len(),
        b.subrange(0, head.len() as int) == head,
    ensures
        begins(b, head + p) == begins(b.subrange(head.len() as int, b.len() as int), p),
{
    let n = head.len() as int;
    let tail = b.subrange(n, b.len() as int);
    if begins(b, head + p) {
        let rest = choose|rest: Seq<u8>| b == #[trigger] ((head + p) + rest);
        assert(tail =~= p + rest);
    }
    if begins(tail, p) {
        let rest = choose|rest: Seq<u8>| tail == #[trigger] (p + rest);
        assert(b =~= head + tail);
        assert(b =~= (head + p) + rest);
    }
}

/// Bytes that begin with an edit begin with its mark.
proof fn lemma_mark(b: Seq<u8>, mark: u32, p: Seq<u8>)
    requires
        begins(b, le32(mark) + p),
    ensures
        b.len() >= 4,
        u32_at(b, 0) == mark,
        b.subrange(0, 4) == le32(mark),
{
    let rest = choose|rest: Seq<u8>| b == #[trigger] ((le32(mark) + p) + rest);
    assert(b.subrange(0, 4) =~= le32(mark));
    lemma_u32_roundtrip(b, 0, mark);
}

/// The mark of an edit.
spec fn mark_of(e: Edit) -> u32 {
    match e {
        Edit::Add(_) => ADD,
        Edit::Remove(_, _) => REMOVE,
        Edit::Snapshot(_, _) => SNAPSHOT,
        Edit::Durable(_) => CHECKPOINT,
    }
}

/// The fields of an edit as bytes.
spec fn fields_of(e: Edit) -> Seq<u8> {
    match e {
        Edit::Add(m) => meta_bytes(m),
        Edit::Remove(level, id) => le32(level) + le64(id),
        Edit::Snapshot(v, next) => tables_bytes(v, next),
        Edit::Durable(seqno) => le64(seqno),
    }
}

impl ManifestEdit {
    /// The edit as bytes.
    pub fn encode(&self) -> (r: Option<Vec<u8>>)
        ensures
            r is Some,
            r->0@ == edit_bytes(self@),
    {
        let mut out: Vec<u8> = Vec::new();
        match self {
            ManifestEdit::AddTable { meta } => {
                push_u32(&mut out, ADD);
                match pack_meta(meta) {
                    Some(b) => {
                        push_bytes(&mut out, b.as_slice());
                    },
                    None => return None,
                }
            },
            ManifestEdit::RemoveTable { level, id } => {
                push_u32(&mut out, REMOVE);
                push_u32(&mut out, *level);
                push_u64(&mut out, *id);
            },
            ManifestEdit::FullSnapshot { tables, next_table_id } => {
                push_u32(&mut out, SNAPSHOT);
                match pack_tables(tables, *next_table_id) {
                    Some(b) => {
                        push_bytes(&mut out, b.as_slice());
                    },
                    None => return None,
                }
            },
            ManifestEdit::Checkpoint { seqno } => {
                push_u32(&mut out, CHECKPOINT);
                push_u64(&mut out, *seqno);
            },
        }
        assert(out@ =~= edit_bytes(self@));
        Some(out)
    }

    /// The edit that bytes begin with, if they begin with one.
    pub fn decode(b: &[u8]) -> (r: Option<ManifestEdit>)
        ensures
            match r {
                Some(e) => begins(b@, edit_bytes(e@)) && edit_ok(e@),
                None => forall|e: Edit| edit_ok(e) ==> !begins(b@, #[trigger] edit_bytes(e)),
            },
    {
        let ghost whole = b@;
        let n: usize = b.len();
        proof {
            assert forall|e: Edit| begins(whole, #[trigger] edit_bytes(e)) implies {
                &&& n >= 4
                &&& u32_at(whole, 0) == mark_of(e)
                &&& begins(whole.subrange(4, n as int), fields_of(e))
            } by {
                assert(edit_bytes(e) == le32(mark_of(e)) + fields_of(e));
                lemma_mark(whole, mark_of(e), fields_of(e));
                lemma_begins_after(whole, le32(mark_of(e)), fields_of(e));
            }
        }
        if n < 4 {
            return None;
        }
        let mark: u32 = get_u32(b, 0);
        let rest: &[u8] = slice_subrange(b, 4, n);
        let ghost tail = rest@;
        proof {
            lemma_u32_bytes(whole, 0);
            assert forall|e: Edit| mark_of(e) == mark && begins(tail, fields_of(e)) implies begins(
                whole,
                #[trigger] edit_bytes(e),
            ) by {
                assert(edit_bytes(e) == le32(mark_of(e)) + fields_of(e));
                lemma_begins_after(whole, le32(mark), fields_of(e));
            }
        }
        if mark == ADD {
            match unpack_meta(rest) {
                Some(meta) => {
                    let e: ManifestEdit = ManifestEdit::AddTable { meta };
                    assert(fields_of(e@) == meta_bytes(meta@));
                    Some(e)
                },
                None => {
                    assert forall|e: Edit| edit_ok(e) implies !begins(
                        whole,
                        #[trigger] edit_bytes(e),
                    ) by {
                        if begins(whole, edit_bytes(e)) {
                            assert(e is Add);
                            assert(fields_of(e) == meta_bytes(e->Add_0));
                        }
                    }
                    None
                },
            }
        } else if mark == REMOVE {
            if rest.len() < 12 {
                proof {
                    assert forall|e: Edit| edit_ok(e) implies !begins(
                        whole,
                        #[trigger] edit_bytes(e),
                    ) by {
                        if begins(whole, edit_bytes(e)) {
                            assert(e is Remove);
                            lemma_begins_len(tail, fields_of(e));
                        }
                    }
                }
                return None;
            }
            let e: ManifestEdit = ManifestEdit::RemoveTable {
                level: get_u32(rest, 0),
                id: get_u64(rest, 4),
            };
            proof {
                lemma_u32_bytes(tail, 0);
                lemma_u64_bytes(tail, 4);
                assert(tail =~= fields_of(e@) + tail.subrange(12, tail.len() as int));
            }
            Some(e)
        } else if mark == SNAPSHOT {
            match unpack_tables(rest) {
                Some((tables, next_table_id)) => {
                    let e: ManifestEdit = ManifestEdit::FullSnapshot { tables, next_table_id };
                    assert(fields_of(e@) == tables_bytes(stored_metas(tables@), next_table_id));
                    Some(e)
                },
                None => {
                    assert forall|e: Edit| edit_ok(e) implies !begins(
                        whole,
                        #[trigger] edit_bytes(e),
                    ) by {
                        if begins(whole, edit_bytes(e)) {
                            assert(e is Snapshot);
                            assert(fields_of(e) == tables_bytes(e->Snapshot_0, e->Snapshot_1));
                        }
                    }
                    None
                },
            }
        } else if mark == CHECKPOINT {
            if rest.len() < 8 {
                proof {
                    assert forall|e: Edit| edit_ok(e) implies !begins(
                        whole,
                        #[trigger] edit_bytes(e),
                    ) by {
                        if begins(whole, edit_bytes(e)) {
                            assert(e is Durable);
                            lemma_begins_len(tail, fields_of(e));
                        }
                    }
                }
                return None;
            }
            let e: ManifestEdit = ManifestEdit::Checkpoint { seqno: get_u64(rest, 0) };
            proof {
                lemma_u64_bytes(tail, 0);
                assert(tail =~= fields_of(e@) + tail.subrange(8, tail.len() as int));
            }
            Some(e)
        } else {
            None
        }
    }
}

proof fn lemma_begins_len(b: Seq<u8>, p: Seq<u8>)
    requires
        begins(b, p),
    ensures
        b.len() >= p.len(),
{
    let rest = choose|rest: Seq<u8>| b == #[trigger] (p + rest);
}

proof fn lemma_assoc(p: Seq<u8>, q: Seq<u8>, x: Seq<u8>)
    ensures
        (p + q) + x == p + (q + x),
{
    assert((p + q) + x =~= p + (q + x));
}

proof fn lemma_head32(a: u32, x: Seq<u8>, b: u32, y: Seq<u8>)
    requires
        le32(a) + x == le32(b) + y,
    ensures
        a == b,
        x == y,
{
    let (s, t) = (le32(a) + x, le32(b) + y);
    assert(s.subrange(0, 4) =~= le32(a));
    assert(t.subrange(0, 4) =~= le32(b));
    lemma_u32_roundtrip(s, 0, a);
    lemma_u32_roundtrip(t, 0, b);
    assert(x =~= s.subrange(4, s.len() as int));
    assert(y =~= t.subrange(4, t.len() as int));
}

proof fn lemma_head64(a: u64, x: Seq<u8>, b: u64, y: Seq<u8>)
    requires
        le64(a) + x == le64(b) + y,
    ensures
        a == b,
        x == y,
{
    let (s, t) = (le64(a) + x, le64(b) + y);
    assert(s.subrange(0, 8) =~= le64(a));
    assert(t.subrange(0, 8) =~= le64(b));
    lemma_u64_roundtrip(s, 0, a);
    lemma_u64_roundtrip(t, 0, b);
    assert(x =~= s.subrange(8, s.len() as int));
    assert(y =~= t.subrange(8, t.len() as int));
}

/// The last four fields of a summary as bytes.
spec fn tail_of(m: Summary) -> Seq<u8> {
    le64(m.min_seqno) + (le64(m.max_seqno) + (le64(m.entry_count) + le64(m.file_bytes)))
}

proof fn lemma_tail(a: Summary, x: Seq<u8>, b: Summary, y: Seq<u8>)
    requires
        tail_of(a) + x == tail_of(b) + y,
    ensures
        a.min_seqno == b.min_seqno,
        a.max_seqno == b.max_seqno,
        a.entry_count == b.entry_count,
        a.file_bytes == b.file_bytes,
        x == y,
{
    let (ca, da) = (le64(a.entry_count), le64(a.file_bytes));
    let (cb, db) = (le64(b.entry_count), le64(b.file_bytes));
    lemma_assoc(le64(a.min_seqno), le64(a.max_seqno) + (ca + da), x);
    lemma_assoc(le64(b.min_seqno), le64(b.max_seqno) + (cb + db), y);
    lemma_head64(
        a.min_seqno,
        (le64(a.max_seqno) + (ca + da)) + x,
        b.min_seqno,
        (le64(b.max_seqno) + (cb + db)) + y,
    );
    lemma_assoc(le64(a.max_seqno), ca + da, x);
    lemma_assoc(le64(b.max_seqno), cb + db, y);
    lemma_head64(a.max_seqno, (ca + da) + x, b.max_seqno, (cb + db) + y);
    lemma_assoc(ca, da, x);
    lemma_assoc(cb, db, y);
    lemma_head64(a.entry_count, da + x, b.entry_count, db + y);
    lemma_head64(a.file_bytes, x, b.file_bytes, y);
}

/// What follows a summary's bytes does not matter.
proof fn lemma_meta(a: Summary, x: Seq<u8>, b: Summary, y: Seq<u8>)
    requires
        meta_ok(a),
        meta_ok(b),
        meta_bytes(a) + x == meta_bytes(b) + y,
    ensures
        a == b,
        x == y,
{
    let (ia, la, pa, qa) = (le64(a.id), le32(a.level), sized(a.min_key), sized(a.max_key));
    let (ib, lb, pb, qb) = (le64(b.id), le32(b.level), sized(b.min_key), sized(b.max_key));
    let (ta, tb) = (tail_of(a), tail_of(b));
    lemma_assoc(ia, la + (pa + (qa + ta)), x);
    lemma_assoc(ib, lb + (pb + (qb + tb)), y);
    lemma_head64(a.id, (la + (pa + (qa + ta))) + x, b.id, (lb + (pb + (qb + tb))) + y);
    lemma_assoc(la, pa + (qa + ta), x);
    lemma_assoc(lb, pb + (qb + tb), y);
    lemma_head32(a.level, (pa + (qa + ta)) + x, b.level, (pb + (qb + tb)) + y);
    lemma_assoc(pa, qa + ta, x);
    lemma_assoc(pb, qb + tb, y);
    lemma_sized(a.min_key, (qa + ta) + x, b.min_key, (qb + tb) + y);
    lemma_assoc(qa, ta, x);
    lemma_assoc(qb, tb, y);
    lemma_sized(a.max_key, ta + x, b.max_key, tb + y);
    lemma_tail(a, x, b, y);
}

proof fn lemma_metas(a: Seq<Summary>, x: Seq<u8>, b: Seq<Summary>, y: Seq<u8>)
    requires
        metas_ok(a),
        metas_ok(b),
        a.len() == b.len(),
        metas_bytes(a) + x == metas_bytes(b) + y,
    ensures
        a == b,
        x == y,
    decreases a.len(),
{
    if a.len() > 0 {
        let (ra, rb) = (a.subrange(1, a.len() as int), b.subrange(1, b.len() as int));
        lemma_assoc(meta_bytes(a[0]), metas_bytes(ra), x);
        lemma_assoc(meta_bytes(b[0]), metas_bytes(rb), y);
        lemma_meta(a[0], metas_bytes(ra) + x, b[0], metas_bytes(rb) + y);
        lemma_metas(ra, x, rb, y);
        assert(a =~= seq![a[0]] + ra);
        assert(b =~= seq![b[0]] + rb);
    } else {
        assert(metas_bytes(a) + x =~= x);
        assert(metas_bytes(b) + y =~= y);
        assert(a =~= b);
    }
}

/// An edit is read back from its bytes, whatever follows them: bytes begin with
/// one edit at most.
pub proof fn law_edit_bytes_are_readable(b: Seq<u8>, d: Edit, e: Edit)
    requires
        edit_ok(d),
        edit_ok(e),
        begins(b, edit_bytes(d)),
        begins(b, edit_bytes(e)),
    ensures
        d == e,
{
    let x = choose|x: Seq<u8>| b == #[trigger] (edit_bytes(d) + x);
    let y = choose|y: Seq<u8>| b == #[trigger] (edit_bytes(e) + y);
    lemma_assoc(le32(mark_of(d)), fields_of(d), x);
    lemma_assoc(le32(mark_of(e)), fields_of(e), y);
    lemma_head32(mark_of(d), fields_of(d) + x, mark_of(e), fields_of(e) + y);
    lemma_fields(d, x, e, y);
}

proof fn lemma_fields(d: Edit, x: Seq<u8>, e: Edit, y: Seq<u8>)
    requires
        edit_ok(d),
        edit_ok(e),
        mark_of(d) == mark_of(e),
        fields_of(d) + x == fields_of(e) + y,
    ensures
        d == e,
{
    match (d, e) {
        (Edit::Add(m), Edit::Add(n)) => {
            lemma_meta(m, x, n, y);
        },
        (Edit::Remove(k, i), Edit::Remove(l, j)) => {
            lemma_assoc(le32(k), le64(i), x);
            lemma_assoc(le32(l), le64(j), y);
            lemma_head32(k, le64(i) + x, l, le64(j) + y);
            lemma_head64(i, x, j, y);
        },
        (Edit::Snapshot(v, i), Edit::Snapshot(w, j)) => {
            let (n, m) = (v.len() as u64, w.len() as u64);
            let (p, q) = (metas_bytes(v), metas_bytes(w));
            lemma_assoc(le64(n), p + le64(i), x);
            lemma_assoc(le64(m), q + le64(j), y);
            lemma_head64(n, (p + le64(i)) + x, m, (q + le64(j)) + y);
            lemma_assoc(p, le64(i), x);
            lemma_assoc(q, le64(j), y);
            lemma_metas(v, le64(i) + x, w, le64(j) + y);
            lemma_head64(i, x, j, y);
        },
        (Edit::Durable(i), Edit::Durable(j)) => {
            lemma_head64(i, x, j, y);
        },
        _ => {},
    }
}

} // verus!
