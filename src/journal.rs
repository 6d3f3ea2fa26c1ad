//! The journal of pending and committed file operations, and the recovery
//! rule that finds temporary files left behind by an interrupted sync.
//!
//! A record is one line `KIND\tOP\tTEMP\tFINAL\n` with `KIND` one of `P`
//! (pending) and `C` (committed) and `OP` one of `COPY` and `RENAME`.

use vstd::prelude::*;

verus! {

pub const TAB: u8 = 9;

pub const NEWLINE: u8 = 10;

/// Whether a record announces an operation or confirms it.
#[derive(Clone, Copy, Debug, PartialEq, Eq, Structural)]
pub enum RecordKind {
    Pending,
    Committed,
}

/// The operation a record is about.
#[derive(Clone, Copy, Debug, PartialEq, Eq, Structural)]
pub enum JournalOp {
    Copy,
    Rename,
}

/// One journal record; paths are raw bytes.
#[derive(Clone, Debug)]
pub struct JournalRecord {
    pub kind: RecordKind,
    pub op: JournalOp,
    pub temp: Vec<u8>,
    pub target: Vec<u8>,
}

/// A `JournalRecord` as a value.
pub struct RecordView {
    pub kind: RecordKind,
    pub op: JournalOp,
    pub temp: Seq<u8>,
    pub target: Seq<u8>,
}

impl View for JournalRecord {
    type V = RecordView;

    open spec fn view(&self) -> RecordView {
        RecordView { kind: self.kind, op: self.op, temp: self.temp@, target: self.target@ }
    }
}

pub open spec fn kind_text(k: RecordKind) -> Seq<u8> {
    match k {
        RecordKind::Pending => seq![80u8],
        RecordKind::Committed => seq![67u8],
    }
}

pub open spec fn op_text(o: JournalOp) -> Seq<u8> {
    match o {
        JournalOp::Copy => seq![67u8, 79u8, 80u8, 89u8],
        JournalOp::Rename => seq![82u8, 69u8, 78u8, 65u8, 77u8, 69u8],
    }
}

/// A field that can be written without breaking the line structure.
pub open spec fn plain_field(f: Seq<u8>) -> bool {
    forall|i: int| 0 <= i < f.len() ==> #[trigger] f[i] != TAB && f[i] != NEWLINE
}

/// A record whose paths hold no tab and no newline.
pub open spec fn record_writable(r: RecordView) -> bool {
    plain_field(r.temp) && plain_field(r.target)
}

/// The line of a record, without its newline.
pub open spec fn record_line(r: RecordView) -> Seq<u8> {
    kind_text(r.kind) + seq![TAB] + op_text(r.op) + seq![TAB] + r.temp + seq![TAB] + r.target
}

/// The bytes a record is written as.
pub open spec fn encode_record(r: RecordView) -> Seq<u8> {
    record_line(r) + seq![NEWLINE]
}

/// `s` cut at every `sep`; there is always at least one piece.
pub open spec fn split_on(s: Seq<u8>, sep: u8) -> Seq<Seq<u8>>
    decreases s.len(),
{
    if s.len() == 0 {
        seq![Seq::empty()]
    } else {
        let f = split_on(s.drop_last(), sep);
        if s.last() == sep {
            f.push(Seq::empty())
        } else {
            f.update(f.len() - 1, f.last().push(s.last()))
        }
    }
}

pub open spec fn kind_of(t: Seq<u8>) -> Option<RecordKind> {
    if t == kind_text(RecordKind::Pending) {
        Some(RecordKind::Pending)
    } else if t == kind_text(RecordKind::Committed) {
        Some(RecordKind::Committed)
    } else {
        None
    }
}

pub open spec fn op_of(t: Seq<u8>) -> Option<JournalOp> {
    if t == op_text(JournalOp::Copy) {
        Some(JournalOp::Copy)
    } else if t == op_text(JournalOp::Rename) {
        Some(JournalOp::Rename)
    } else {
        None
    }
}

/// The record a line holds: four tab-separated fields with a known kind
/// and operation.
pub open spec fn parse_record(line: Seq<u8>) -> Option<RecordView> {
    let f = split_on(line, TAB);
    if f.len() == 4 && kind_of(f[0]) is Some && op_of(f[1]) is Some {
        Some(RecordView { kind: kind_of(f[0])->0, op: op_of(f[1])->0, temp: f[2], target: f[3] })
    } else {
        None
    }
}

/// The records of a journal's lines, skipping lines that hold none (such
/// as the empty piece after the final newline, or a line cut short).
pub open spec fn parsed_records(lines: Seq<Seq<u8>>) -> Seq<RecordView>
    decreases lines.len(),
{
    if lines.len() == 0 {
        Seq::empty()
    } else {
        let r = parsed_records(lines.drop_last());
        match parse_record(lines.last()) {
            Some(x) => r.push(x),
            None => r,
        }
    }
}

/// The records a journal's bytes hold, in order.
pub open spec fn journal_records(content: Seq<u8>) -> Seq<RecordView> {
    parsed_records(split_on(content, NEWLINE))
}

pub open spec fn same_operation(a: RecordView, b: RecordView) -> bool {
    a.op == b.op && a.temp == b.temp && a.target == b.target
}

/// Some committed record of `recs` is about the operation of `r`.
pub open spec fn is_committed(recs: Seq<RecordView>, r: RecordView) -> bool {
    exists|k: int| 0 <= k < recs.len() && (#[trigger] recs[k]).kind == RecordKind::Committed
        && same_operation(recs[k], r)
}

/// Temporary paths of the first `n` records that are pending with no
/// committed record of the same operation anywhere in `recs`.
pub open spec fn orphans_prefix(recs: Seq<RecordView>, n: nat) -> Seq<Seq<u8>>
    decreases n,
{
    if n == 0 || n > recs.len() {
        Seq::empty()
    } else {
        let o = orphans_prefix(recs, (n - 1) as nat);
        let r = recs[n - 1];
        if r.kind == RecordKind::Pending && !is_committed(recs, r) {
            o.push(r.temp)
        } else {
            o
        }
    }
}

/// The temporary files that recovery deletes, in journal order.
pub open spec fn orphan_temps(recs: Seq<RecordView>) -> Seq<Seq<u8>> {
    orphans_prefix(recs, recs.len())
}

pub open spec fn pieces_view(v: Seq<Vec<u8>>) -> Seq<Seq<u8>> {
    v.map_values(|x: Vec<u8>| x@)
}

pub open spec fn records_view(v: Seq<JournalRecord>) -> Seq<RecordView> {
    v.map_values(|x: JournalRecord| x@)
}

fn append_bytes(out: &mut Vec<u8>, b: &Vec<u8>)
    ensures
        final(out)@ == old(out)@ + b@,
{
    let mut i: usize = 0;
    let ghost start = out@;
    while i < b.len()
        invariant
            i <= b.len(),
            out@ == start + b@.take(i as int),
        decreases b.len() - i,
    {
        out.push(b[i]);
        i = i + 1;
        assert(out@ =~= start + b@.take(i as int));
    }
    assert(b@.take(i as int) =~= b@);
}

fn kind_bytes(k: RecordKind) -> (r: Vec<u8>)
    ensures
        r@ == kind_text(k),
{
    let r = match k {
        RecordKind::Pending => vec![80u8],
        RecordKind::Committed => vec![67u8],
    };
    assert(r@ =~= kind_text(k));
    r
}

fn op_bytes(o: JournalOp) -> (r: Vec<u8>)
    ensures
        r@ == op_text(o),
{
    let r = match o {
        JournalOp::Copy => vec![67u8, 79u8, 80u8, 89u8],
        JournalOp::Rename => vec![82u8, 69u8, 78u8, 65u8, 77u8, 69u8],
    };
    assert(r@ =~= op_text(o));
    r
}

fn bytes_equal(a: &Vec<u8>, b: &Vec<u8>) -> (r: bool)
    ensures
        r == (a@ == b@),
{
    if a.len() != b.len() {
        return false;
    }
    let mut i: usize = 0;
    while i < a.len()
        invariant
            i <= a.len() == b.len(),
            forall|k: int| 0 <= k < i ==> a@[k] == b@[k],
        decreases a.len() - i,
    {
        if a[i] != b[i] {
            return false;
        }
        i = i + 1;
    }
    assert(a@ =~= b@);
    true
}

fn parse_kind(t: &Vec<u8>) -> (r: Option<RecordKind>)
    ensures
        r == kind_of(t@),
{
    if bytes_equal(t, &kind_bytes(RecordKind::Pending)) {
        Some(RecordKind::Pending)
    } else if bytes_equal(t, &kind_bytes(RecordKind::Committed)) {
        Some(RecordKind::Committed)
    } else {
        None
    }
}

fn parse_op(t: &Vec<u8>) -> (r: Option<JournalOp>)
    ensures
        r == op_of(t@),
{
    if bytes_equal(t, &op_bytes(JournalOp::Copy)) {
        Some(JournalOp::Copy)
    } else if bytes_equal(t, &op_bytes(JournalOp::Rename)) {
        Some(JournalOp::Rename)
    } else {
        None
    }
}

impl JournalRecord {
    /// The line this record is written as, newline included.
    pub fn encode(&self) -> (r: Vec<u8>)
        ensures
            r@ == encode_record(self@),
    {
        let mut out = kind_bytes(self.kind);
        out.push(TAB);
        append_bytes(&mut out, &op_bytes(self.op));
        out.push(TAB);
        append_bytes(&mut out, &self.temp);
        out.push(TAB);
        append_bytes(&mut out, &self.target);
        out.push(NEWLINE);
        assert(out@ =~= encode_record(self@));
        out
    }
}

/// `s` cut at every `sep`.
pub fn split_bytes(s: &[u8], sep: u8) -> (r: Vec<Vec<u8>>)
    ensures
        pieces_view(r@) == split_on(s@, sep),
{
    let mut pieces: Vec<Vec<u8>> = Vec::new();
    let mut cur: Vec<u8> = Vec::new();
    let mut i: usize = 0;
    assert(s@.take(0) =~= Seq::<u8>::empty());
    assert(pieces_view(pieces@).push(cur@) =~= split_on(s@.take(0), sep));
    while i < s.len()
        invariant
            i <= s@.len(),
            pieces_view(pieces@).push(cur@) == split_on(s@.take(i as int), sep),
        decreases s@.len() - i,
    {
        let c = s[i];
        let ghost before = split_on(s@.take(i as int), sep);
        assert(s@.take(i + 1).drop_last() =~= s@.take(i as int));
        if c == sep {
            let done = cur;
            pieces.push(done);
            cur = Vec::new();
            assert(pieces_view(pieces@).push(cur@) =~= before.push(Seq::empty()));
        } else {
            cur.push(c);
            assert(pieces_view(pieces@).push(cur@) =~= before.update(before.len() - 1, before.last().push(c)));
        }
        i = i + 1;
    }
    assert(s@.take(i as int) =~= s@);
    pieces.push(cur);
    assert(pieces_view(pieces@) =~= split_on(s@, sep));
    pieces
}

/// The record a line (without its newline) holds, if any.
pub fn parse_line(line: &[u8]) -> (r: Option<JournalRecord>)
    ensures
        match (r, parse_record(line@)) {
            (Some(x), Some(y)) => x@ == y,
            (None, None) => true,
            _ => false,
        },
{
    let mut fields = split_bytes(line, TAB);
    if fields.len() != 4 {
        return None;
    }
    let kind = match parse_kind(&fields[0]) {
        Some(k) => k,
        None => return None,
    };
    let op = match parse_op(&fields[1]) {
        Some(o) => o,
        None => return None,
    };
    let ghost f = pieces_view(fields@);
    let target = fields.pop().unwrap();
    let temp = fields.pop().unwrap();
    assert(temp@ == f[2]);
    assert(target@ == f[3]);
    Some(JournalRecord { kind, op, temp, target })
}

/// The records held by a journal's bytes, in order.
pub fn parse_journal(content: &[u8]) -> (r: Vec<JournalRecord>)
    ensures
        records_view(r@) == journal_records(content@),
{
    let lines = split_bytes(content, NEWLINE);
    let ghost lv = pieces_view(lines@);
    let mut out: Vec<JournalRecord> = Vec::new();
    let mut i: usize = 0;
    while i < lines.len()
        invariant
            i <= lines@.len(),
            lv == pieces_view(lines@),
            lv == split_on(content@, NEWLINE),
            records_view(out@) == parsed_records(lv.take(i as int)),
        decreases lines@.len() - i,
    {
        assert(lv.take(i + 1).drop_last() =~= lv.take(i as int));
        assert(lv.take(i + 1).last() == lines@[i as int]@);
        match parse_line(lines[i].as_slice()) {
            Some(rec) => {
                out.push(rec);
                assert(records_view(out@) =~= parsed_records(lv.take(i + 1)));
            },
            None => {
                assert(records_view(out@) =~= parsed_records(lv.take(i + 1)));
            },
        }
        i = i + 1;
    }
    assert(lv.take(i as int) =~= lv);
    out
}

/// Whether `records` holds a committed record of the operation of `r`.
fn committed_in(records: &Vec<JournalRecord>, r: &JournalRecord) -> (b: bool)
    ensures
        b == is_committed(records_view(records@), r@),
{
    let ghost rv = records_view(records@);
    let mut k: usize = 0;
    while k < records.len()
        invariant
            k <= records@.len(),
            rv == records_view(records@),
            forall|m: int| 0 <= m < k ==> !((#[trigger] rv[m]).kind == RecordKind::Committed && same_operation(rv[m], r@)),
        decreases records@.len() - k,
    {
        let c = &records[k];
        assert(rv[k as int] == c@);
        if c.kind == RecordKind::Committed && c.op == r.op && bytes_equal(&c.temp, &r.temp)
            && bytes_equal(&c.target, &r.target) {
            return true;
        }
        k = k + 1;
    }
    false
}

/// The temporary paths that recovery deletes: those of pending records
/// whose operation was never committed.
pub fn orphaned_temps(records: &Vec<JournalRecord>) -> (r: Vec<Vec<u8>>)
    ensures
        pieces_view(r@) == orphan_temps(records_view(records@)),
{
    let ghost rv = records_view(records@);
    let mut out: Vec<Vec<u8>> = Vec::new();
    let mut i: usize = 0;
    while i < records.len()
        invariant
            i <= records@.len(),
            rv == records_view(records@),
            pieces_view(out@) == orphans_prefix(rv, i as nat),
        decreases records@.len() - i,
    {
        let rec = &records[i];
        assert(rv[i as int] == rec@);
        if rec.kind == RecordKind::Pending && !committed_in(records, rec) {
            out.push(rec.temp.clone());
            assert(pieces_view(out@) =~= orphans_prefix(rv, (i + 1) as nat));
        }
        i = i + 1;
    }
    out
}

/// Appending bytes without a separator extends the last piece.
proof fn lemma_split_extend(x: Seq<u8>, y: Seq<u8>, sep: u8)
    requires
        forall|i: int| 0 <= i < y.len() ==> #[trigger] y[i] != sep,
    ensures
        split_on(x + y, sep) == split_on(x, sep).update(
            split_on(x, sep).len() - 1,
            split_on(x, sep).last() + y,
        ),
        split_on(x, sep).len() >= 1,
    decreases y.len(),
{
    lemma_split_nonempty(x, sep);
    if y.len() == 0 {
        assert(x + y =~= x);
        assert(split_on(x, sep).last() + y =~= split_on(x, sep).last());
        assert(split_on(x, sep).update(split_on(x, sep).len() - 1, split_on(x, sep).last()) =~= split_on(x, sep));
    } else {
        let y0 = y.drop_last();
        lemma_split_extend(x, y0, sep);
        assert((x + y).drop_last() =~= x + y0);
        assert((x + y).last() == y.last());
        let f = split_on(x, sep);
        let g = split_on(x + y0, sep);
        assert(g =~= f.update(f.len() - 1, f.last() + y0));
        assert(g.last() == f.last() + y0);
        assert(g.last().push(y.last()) =~= f.last() + y);
        assert(split_on(x + y, sep) =~= f.update(f.len() - 1, f.last() + y));
    }
}

proof fn lemma_split_nonempty(x: Seq<u8>, sep: u8)
    ensures
        split_on(x, sep).len() >= 1,
    decreases x.len(),
{
    if x.len() > 0 {
        lemma_split_nonempty(x.drop_last(), sep);
    }
}

/// A separator starts a new, empty piece.
proof fn lemma_split_sep(x: Seq<u8>, sep: u8)
    ensures
        split_on(x + seq![sep], sep) == split_on(x, sep).push(Seq::empty()),
{
    assert((x + seq![sep]).drop_last() =~= x);
}

/// A writable record is read back from its line unchanged.
pub proof fn lemma_record_round_trip(r: RecordView)
    requires
        record_writable(r),
    ensures
        parse_record(record_line(r)) == Some(r),
{
    let k = kind_text(r.kind);
    let o = op_text(r.op);
    let e = Seq::<u8>::empty();
    assert forall|i: int| 0 <= i < k.len() implies #[trigger] k[i] != TAB by {}
    assert forall|i: int| 0 <= i < o.len() implies #[trigger] o[i] != TAB by {}
    assert forall|i: int| 0 <= i < r.temp.len() implies #[trigger] r.temp[i] != TAB by {
        assert(plain_field(r.temp));
    }
    assert forall|i: int| 0 <= i < r.target.len() implies #[trigger] r.target[i] != TAB by {
        assert(plain_field(r.target));
    }
    lemma_split_extend(e, k, TAB);
    assert(e + k =~= k);
    assert(split_on(e, TAB) =~= seq![e]);
    assert(split_on(k, TAB) =~= seq![k]);
    let a1 = k + seq![TAB];
    lemma_split_sep(k, TAB);
    lemma_split_extend(a1, o, TAB);
    let a2 = a1 + o;
    assert(split_on(a2, TAB) =~= seq![k, o]);
    lemma_split_sep(a2, TAB);
    let a3 = a2 + seq![TAB];
    lemma_split_extend(a3, r.temp, TAB);
    let a4 = a3 + r.temp;
    assert(split_on(a4, TAB) =~= seq![k, o, r.temp]);
    lemma_split_sep(a4, TAB);
    let a5 = a4 + seq![TAB];
    lemma_split_extend(a5, r.target, TAB);
    let a6 = a5 + r.target;
    assert(split_on(a6, TAB) =~= seq![k, o, r.temp, r.target]);
    assert(record_line(r) =~= a6);
    assert(kind_text(RecordKind::Pending) != kind_text(RecordKind::Committed)) by {
        assert(kind_text(RecordKind::Pending)[0] != kind_text(RecordKind::Committed)[0]);
    }
    assert(op_text(JournalOp::Copy) != op_text(JournalOp::Rename)) by {
        assert(op_text(JournalOp::Copy).len() != op_text(JournalOp::Rename).len());
    }
}

} // verus!
