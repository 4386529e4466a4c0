//! The query engine: per table an end-sentinel test, a binary search, and a scan
//! of the run of equal keys around the hit; over a database the tables' answers
//! in catalog order.

use vstd::prelude::*;
pub use crate::catalog::load_tblmeta;
use crate::data::{lemma_empty_table, lemma_records_len, Record, Tbl};
use crate::error::Error;
use crate::hash::spec_primary_key;

verus! {

/// Keys never decrease along the sequence.
pub open spec fn sorted_by_key(rs: Seq<Record>) -> bool {
    forall|i: int, j: int| 0 <= i <= j < rs.len() ==> rs[i].0 <= rs[j].0
}

/// The values of all records whose key is `key`, in the order of the records.
pub open spec fn matching_values(rs: Seq<Record>, key: u32) -> Seq<u32>
    decreases rs.len(),
{
    if rs.len() == 0 {
        Seq::empty()
    } else if rs.last().0 == key {
        matching_values(rs.drop_last(), key).push(rs.last().1)
    } else {
        matching_values(rs.drop_last(), key)
    }
}

/// The values of the records at the indices `from..to`.
pub open spec fn window_values(rs: Seq<Record>, from: int, to: int) -> Seq<u32> {
    Seq::new((to - from) as nat, |j: int| rs[from + j].1)
}

/// Every value that a query gives stands in a record under the key.
pub proof fn lemma_matching_sound(rs: Seq<Record>, key: u32, j: int)
    requires
        0 <= j < matching_values(rs, key).len(),
    ensures
        rs.contains((key, matching_values(rs, key)[j])),
    decreases rs.len(),
{
    if rs.len() > 0 {
        let rest = rs.drop_last();
        let last = rs.len() - 1;
        if j < matching_values(rest, key).len() {
            lemma_matching_sound(rest, key, j);
            let i = choose|i: int|
                0 <= i < rest.len() && rest[i] == (key, matching_values(rest, key)[j]);
            assert(rs[i] == rest[i]);
        } else {
            assert(rs[last] == (key, matching_values(rs, key)[j]));
        }
    }
}

/// Every value that stands in a record under the key is among the values that
/// a query gives.
pub proof fn lemma_matching_complete(rs: Seq<Record>, key: u32, i: int)
    requires
        0 <= i < rs.len(),
        rs[i].0 == key,
    ensures
        matching_values(rs, key).contains(rs[i].1),
    decreases rs.len(),
{
    let rest = rs.drop_last();
    let mv = matching_values(rs, key);
    if i == rs.len() - 1 {
        assert(mv[mv.len() - 1] == rs[i].1);
    } else {
        lemma_matching_complete(rest, key, i);
        let j = choose|j: int|
            0 <= j < matching_values(rest, key).len() && matching_values(rest, key)[j] == rest[i].1;
        assert(mv[j] == rs[i].1);
    }
}

/// Where no record has the key, a query gives nothing.
pub proof fn lemma_matching_none(rs: Seq<Record>, key: u32)
    requires
        forall|i: int| 0 <= i < rs.len() ==> rs[i].0 != key,
    ensures
        matching_values(rs, key) == Seq::<u32>::empty(),
    decreases rs.len(),
{
    if rs.len() > 0 {
        let rest = rs.drop_last();
        assert forall|i: int| 0 <= i < rest.len() implies rest[i].0 != key by {
            assert(rest[i] == rs[i]);
        }
        lemma_matching_none(rest, key);
    }
}

/// Where the records with the key are exactly those at `from..to`, a query
/// gives the values of that window.
pub proof fn lemma_matching_window(rs: Seq<Record>, key: u32, from: int, to: int)
    requires
        0 <= from <= to <= rs.len(),
        forall|i: int| 0 <= i < rs.len() ==> (rs[i].0 == key <==> from <= i < to),
    ensures
        matching_values(rs, key) == window_values(rs, from, to),
    decreases rs.len(),
{
    if rs.len() == 0 {
        assert(window_values(rs, from, to) =~= Seq::<u32>::empty());
    } else {
        let rest = rs.drop_last();
        let n = rs.len() - 1;
        let to1 = if to <= n { to } else { n };
        let from1 = if from <= to1 { from } else { to1 };
        assert forall|i: int| 0 <= i < rest.len() implies (rest[i].0 == key <==> from1 <= i < to1) by {
            assert(rest[i] == rs[i]);
        }
        lemma_matching_window(rest, key, from1, to1);
        if rs[n].0 == key {
            assert(to == n + 1 && from1 == from && to1 == n);
            assert(window_values(rs, from, to) =~= window_values(rest, from1, to1).push(rs[n].1));
        } else {
            assert(window_values(rs, from, to) =~= window_values(rest, from1, to1));
        }
    }
}

/// Where a probe of one table stands.
#[derive(Debug, Clone, Copy, PartialEq, Eq, Structural)]
pub enum Stage {
    /// Waiting for the last record, the table's largest key.
    Sentinel,
    /// Waiting for the record in the middle of `lo..hi`.
    Search { lo: u64, hi: u64 },
    /// Record `at` has the key; waiting for the record before it.
    Rewind { at: u64 },
    /// Waiting for record `at`, whose value is taken if it has the key.
    Collect { at: u64 },
    /// Nothing more is wanted.
    Done,
}

/// The stage fits a table of `len` records.
pub open spec fn stage_wf(st: Stage, len: u64) -> bool {
    match st {
        Stage::Sentinel => len > 0,
        Stage::Search { lo, hi } => lo < hi <= len,
        Stage::Rewind { at } => 0 < at < len,
        Stage::Collect { at } => at < len,
        Stage::Done => true,
    }
}

/// The index of the record that the stage waits for.
pub open spec fn stage_wanted(st: Stage, len: u64) -> Option<u64> {
    match st {
        Stage::Sentinel => Some((len - 1) as u64),
        Stage::Search { lo, hi } => Some(((lo + hi) / 2) as u64),
        Stage::Rewind { at } => Some((at - 1) as u64),
        Stage::Collect { at } => Some(at),
        Stage::Done => None,
    }
}

/// The search of `lo..hi`, or the end where the range is empty.
pub open spec fn search_or_done(lo: int, hi: int) -> Stage {
    if lo < hi {
        Stage::Search { lo: lo as u64, hi: hi as u64 }
    } else {
        Stage::Done
    }
}

/// The stage that follows when the wanted record turns out to be `rec`, and
/// the value that this adds to the answer, if any.
pub open spec fn stage_step(st: Stage, len: u64, key: u32, rec: Record) -> (Stage, Option<u32>) {
    match st {
        Stage::Sentinel => if rec.0 < key {
            (Stage::Done, None)
        } else {
            (Stage::Search { lo: 0, hi: len }, None)
        },
        Stage::Search { lo, hi } => {
            let mid = (lo + hi) / 2;
            if key < rec.0 {
                (search_or_done(lo as int, mid), None)
            } else if key > rec.0 {
                (search_or_done(mid + 1, hi as int), None)
            } else if mid == 0 {
                (Stage::Collect { at: 0 }, None)
            } else {
                (Stage::Rewind { at: mid as u64 }, None)
            }
        },
        Stage::Rewind { at } => if rec.0 != key {
            (Stage::Collect { at }, None)
        } else if at == 1 {
            (Stage::Collect { at: 0 }, None)
        } else {
            (Stage::Rewind { at: (at - 1) as u64 }, None)
        },
        Stage::Collect { at } => if rec.0 != key {
            (Stage::Done, None)
        } else if at + 1 < len {
            (Stage::Collect { at: (at + 1) as u64 }, Some(rec.1))
        } else {
            (Stage::Done, Some(rec.1))
        },
        Stage::Done => (Stage::Done, None),
    }
}

/// An upper bound on the records that the stage will still ask for.
pub open spec fn stage_fuel(st: Stage, len: u64) -> nat {
    match st {
        Stage::Sentinel => (3 * len + 3) as nat,
        Stage::Search { lo, hi } => (2 * len + 2 + (hi - lo)) as nat,
        Stage::Rewind { at } => (len + 1 + at) as nat,
        Stage::Collect { at } => (len - at) as nat,
        Stage::Done => 0,
    }
}

/// One step of a probe: from the stage and the record it asked for to the next
/// stage and the value to add to the answer.
pub fn step(st: Stage, len: u64, key: u32, rec: Record) -> (r: (Stage, Option<u32>))
    requires
        stage_wf(st, len),
    ensures
        r == stage_step(st, len, key, rec),
        stage_wf(r.0, len),
        st !is Done ==> stage_fuel(r.0, len) < stage_fuel(st, len),
{
    match st {
        Stage::Sentinel => {
            if rec.0 < key {
                (Stage::Done, None)
            } else {
                (Stage::Search { lo: 0, hi: len }, None)
            }
        },
        Stage::Search { lo, hi } => {
            let mid: u64 = lo + (hi - lo) / 2;
            assert(mid == (lo + hi) / 2);
            if key < rec.0 {
                if lo < mid {
                    (Stage::Search { lo, hi: mid }, None)
                } else {
                    (Stage::Done, None)
                }
            } else if key > rec.0 {
                if mid + 1 < hi {
                    (Stage::Search { lo: mid + 1, hi }, None)
                } else {
                    (Stage::Done, None)
                }
            } else if mid == 0 {
                (Stage::Collect { at: 0 }, None)
            } else {
                (Stage::Rewind { at: mid }, None)
            }
        },
        Stage::Rewind { at } => {
            if rec.0 != key {
                (Stage::Collect { at }, None)
            } else if at == 1 {
                (Stage::Collect { at: 0 }, None)
            } else {
                (Stage::Rewind { at: at - 1 }, None)
            }
        },
        Stage::Collect { at } => {
            if rec.0 != key {
                (Stage::Done, None)
            } else if at + 1 < len {
                (Stage::Collect { at: at + 1 }, Some(rec.1))
            } else {
                (Stage::Done, Some(rec.1))
            }
        },
        Stage::Done => (Stage::Done, None),
    }
}

/// A probe of one table for one key. It asks for records by index, one at a
/// time, and whoever holds the table answers: so the same decisions serve a
/// table in memory and a table behind a file.
pub struct Probe {
    len: u64,
    key: u32,
    stage: Stage,
}

impl Probe {
    /// The number of records of the table.
    pub closed spec fn spec_len(self) -> u64 {
        self.len
    }

    /// The key looked for.
    pub closed spec fn spec_key(self) -> u32 {
        self.key
    }

    /// Where the probe stands.
    pub closed spec fn spec_stage(self) -> Stage {
        self.stage
    }

    /// The stage fits the table.
    pub open spec fn wf(self) -> bool {
        stage_wf(self.spec_stage(), self.spec_len())
    }

    #[verifier::type_invariant]
    spec fn inv(self) -> bool {
        self.wf()
    }

    /// A probe of a table of `len` records for `key`. An empty table is done
    /// at once.
    pub fn new(len: u64, key: u32) -> (p: Probe)
        ensures
            p.wf(),
            p.spec_len() == len,
            p.spec_key() == key,
            p.spec_stage() == (if len == 0 {
                Stage::Done
            } else {
                Stage::Sentinel
            }),
    {
        if len == 0 {
            Probe { len, key, stage: Stage::Done }
        } else {
            Probe { len, key, stage: Stage::Sentinel }
        }
    }

    /// Where the probe stands.
    pub fn stage(&self) -> (st: Stage)
        ensures
            st == self.spec_stage(),
            self.wf(),
    {
        proof {
            use_type_invariant(self);
        }
        self.stage
    }

    /// The index of the record that the probe wants next; `None` when it is
    /// done.
    pub fn wanted(&self) -> (i: Option<u64>)
        ensures
            self.wf(),
            i == stage_wanted(self.spec_stage(), self.spec_len()),
            i is Some ==> i->Some_0 < self.spec_len(),
            i is None <==> self.spec_stage() is Done,
    {
        proof {
            use_type_invariant(self);
        }
        match self.stage {
            Stage::Sentinel => Some(self.len - 1),
            Stage::Search { lo, hi } => Some(lo + (hi - lo) / 2),
            Stage::Rewind { at } => Some(at - 1),
            Stage::Collect { at } => Some(at),
            Stage::Done => None,
        }
    }

    /// Hands the probe the record it wanted. Returns the value that this adds
    /// to the answer, if any.
    pub fn feed(&mut self, rec: Record) -> (emitted: Option<u32>)
        ensures
            final(self).wf(),
            final(self).spec_len() == old(self).spec_len(),
            final(self).spec_key() == old(self).spec_key(),
            (final(self).spec_stage(), emitted) == stage_step(
                old(self).spec_stage(),
                old(self).spec_len(),
                old(self).spec_key(),
                rec,
            ),
            old(self).spec_stage() !is Done ==> stage_fuel(
                final(self).spec_stage(),
                final(self).spec_len(),
            ) < stage_fuel(old(self).spec_stage(), old(self).spec_len()),
    {
        proof {
            use_type_invariant(&*self);
        }
        let (next, emitted) = step(self.stage, self.len, self.key, rec);
        self.stage = next;
        emitted
    }
}

/// What the answer of a probe of `rs` for `key` has to be: every value stands
/// in a record under the key, and where the keys are in order the answer is
/// every such value, in the order of the records.
pub open spec fn answer_ok(rs: Seq<Record>, key: u32, out: Seq<u32>) -> bool {
    &&& forall|j: int| 0 <= j < out.len() ==> rs.contains((key, #[trigger] out[j]))
    &&& sorted_by_key(rs) ==> out == matching_values(rs, key)
}

/// What holds of a probe under way: `hit` is where the search found the key,
/// `start` is where the run of equal keys begins.
spec fn probe_inv(rs: Seq<Record>, key: u32, st: Stage, out: Seq<u32>, hit: int, start: int) -> bool {
    match st {
        Stage::Sentinel => out.len() == 0,
        Stage::Search { lo, hi } => {
            &&& out.len() == 0
            &&& sorted_by_key(rs) ==> forall|i: int| 0 <= i < lo ==> (#[trigger] rs[i]).0 < key
            &&& sorted_by_key(rs) ==> forall|i: int| hi <= i < rs.len() ==> (#[trigger] rs[i]).0 > key
        },
        Stage::Rewind { at } => {
            &&& out.len() == 0
            &&& at <= hit < rs.len()
            &&& forall|i: int| at <= i <= hit ==> (#[trigger] rs[i]).0 == key
        },
        Stage::Collect { at } => {
            &&& 0 <= start <= at
            &&& start <= hit < rs.len()
            &&& start == 0 || rs[start - 1].0 != key
            &&& forall|i: int| start <= i < at ==> (#[trigger] rs[i]).0 == key
            &&& forall|i: int| start <= i <= hit ==> (#[trigger] rs[i]).0 == key
            &&& out == window_values(rs, start, at as int)
        },
        Stage::Done => answer_ok(rs, key, out),
    }
}

/// Where the search found the key, once it has.
spec fn next_hit(st: Stage, hit: int) -> int {
    match st {
        Stage::Search { lo, hi } => (lo + hi) / 2,
        _ => hit,
    }
}

/// Where the run of equal keys begins, once that is known.
spec fn next_start(st: Stage, next: Stage, start: int) -> int {
    match st {
        Stage::Collect { .. } => start,
        _ => match next {
            Stage::Collect { at } => at as int,
            _ => start,
        },
    }
}

/// The answer with what a step adds to it.
pub open spec fn with_emitted(out: Seq<u32>, emitted: Option<u32>) -> Seq<u32> {
    match emitted {
        Some(v) => out.push(v),
        None => out,
    }
}

/// A window of equal keys that cannot be widened holds, in a table with its
/// keys in order, every record with that key.
proof fn lemma_window_done(rs: Seq<Record>, key: u32, start: int, end: int)
    requires
        0 <= start < end <= rs.len(),
        forall|i: int| start <= i < end ==> (#[trigger] rs[i]).0 == key,
        start == 0 || rs[start - 1].0 != key,
        end == rs.len() || rs[end].0 != key,
    ensures
        answer_ok(rs, key, window_values(rs, start, end)),
{
    let out = window_values(rs, start, end);
    assert forall|j: int| 0 <= j < out.len() implies rs.contains((key, #[trigger] out[j])) by {
        assert(rs[start + j] == (key, out[j]));
    }
    if sorted_by_key(rs) {
        assert forall|i: int| 0 <= i < rs.len() implies (rs[i].0 == key <==> start <= i < end) by {
            if i < start {
                assert(rs[i].0 <= rs[start - 1].0);
                assert(rs[start - 1].0 <= rs[start].0);
            }
            if i >= end {
                assert(rs[end - 1].0 <= rs[end].0);
                assert(rs[end].0 <= rs[i].0);
            }
        }
        lemma_matching_window(rs, key, start, end);
    }
}

/// A step on the record that the probe asked for keeps what holds of it.
proof fn lemma_probe_step(rs: Seq<Record>, key: u32, st: Stage, out: Seq<u32>, hit: int, start: int)
    requires
        rs.len() <= u64::MAX,
        stage_wf(st, rs.len() as u64),
        st !is Done,
        probe_inv(rs, key, st, out, hit, start),
    ensures
        ({
            let len = rs.len() as u64;
            let rec = rs[stage_wanted(st, len)->Some_0 as int];
            let (next, emitted) = stage_step(st, len, key, rec);
            probe_inv(
                rs,
                key,
                next,
                with_emitted(out, emitted),
                next_hit(st, hit),
                next_start(st, next, start),
            )
        }),
{
    let len = rs.len() as u64;
    let want = stage_wanted(st, len)->Some_0 as int;
    let rec = rs[want];
    let (next, emitted) = stage_step(st, len, key, rec);
    let out2 = with_emitted(out, emitted);
    assert(out =~= Seq::<u32>::empty() ==> out2 =~= with_emitted(Seq::<u32>::empty(), emitted));
    match st {
        Stage::Sentinel => {
            if rec.0 < key {
                if sorted_by_key(rs) {
                    assert forall|i: int| 0 <= i < rs.len() implies rs[i].0 != key by {
                        assert(rs[i].0 <= rs[want].0);
                    }
                    lemma_matching_none(rs, key);
                }
            }
        },
        Stage::Search { lo, hi } => {
            let mid = (lo + hi) / 2;
            if key < rec.0 {
                if sorted_by_key(rs) {
                    assert forall|i: int| mid <= i < rs.len() implies (#[trigger] rs[i]).0 > key by {
                        assert(rs[mid].0 <= rs[i].0);
                    }
                    if !(lo < mid) {
                        assert forall|i: int| 0 <= i < rs.len() implies rs[i].0 != key by {
                            if i < lo {
                                assert(rs[i].0 < key);
                            }
                        }
                        lemma_matching_none(rs, key);
                    }
                }
            } else if key > rec.0 {
                if sorted_by_key(rs) {
                    assert forall|i: int| 0 <= i < mid + 1 implies (#[trigger] rs[i]).0 < key by {
                        assert(rs[i].0 <= rs[mid].0);
                    }
                    if !(mid + 1 < hi) {
                        assert forall|i: int| 0 <= i < rs.len() implies rs[i].0 != key by {
                            if i >= hi {
                                assert(rs[i].0 > key);
                            }
                        }
                        lemma_matching_none(rs, key);
                    }
                }
            } else {
                if mid == 0 {
                    assert(out2 =~= window_values(rs, 0, 0));
                }
            }
        },
        Stage::Rewind { at } => {
            if rec.0 != key {
                assert(out2 =~= window_values(rs, at as int, at as int));
            } else if at == 1 {
                assert(out2 =~= window_values(rs, 0, 0));
            }
        },
        Stage::Collect { at } => {
            if rec.0 != key {
                lemma_window_done(rs, key, start, at as int);
            } else {
                assert(out2 =~= window_values(rs, start, at + 1));
                if !(at + 1 < len) {
                    lemma_window_done(rs, key, start, at + 1);
                }
            }
        },
        Stage::Done => {},
    }
}

/// What a probe of `rs` for `key` still adds to its answer from the stage it
/// stands at, when every record it asks for is handed to it.
pub open spec fn probe_rest(rs: Seq<Record>, key: u32, st: Stage) -> Seq<u32>
    decreases stage_fuel(st, rs.len() as u64),
{
    let len = rs.len() as u64;
    if st is Done || !stage_wf(st, len) || rs.len() > u64::MAX {
        Seq::empty()
    } else {
        let rec = rs[stage_wanted(st, len)->Some_0 as int];
        let next = stage_step(st, len, key, rec).0;
        with_emitted(Seq::empty(), stage_step(st, len, key, rec).1) + probe_rest(rs, key, next)
    }
}

/// The answer of a probe of `rs` for `key`.
pub open spec fn probe_answer(rs: Seq<Record>, key: u32) -> Seq<u32> {
    probe_rest(
        rs,
        key,
        if rs.len() == 0 {
            Stage::Done
        } else {
            Stage::Sentinel
        },
    )
}

/// A probe under way ends with an answer that is as it has to be.
proof fn lemma_probe_rest(rs: Seq<Record>, key: u32, st: Stage, out: Seq<u32>, hit: int, start: int)
    requires
        rs.len() <= u64::MAX,
        stage_wf(st, rs.len() as u64),
        probe_inv(rs, key, st, out, hit, start),
    ensures
        answer_ok(rs, key, out + probe_rest(rs, key, st)),
    decreases stage_fuel(st, rs.len() as u64),
{
    let len = rs.len() as u64;
    if st is Done {
        assert(out + probe_rest(rs, key, st) =~= out);
    } else {
        let rec = rs[stage_wanted(st, len)->Some_0 as int];
        let (next, emitted) = stage_step(st, len, key, rec);
        lemma_probe_step(rs, key, st, out, hit, start);
        lemma_probe_rest(
            rs,
            key,
            next,
            with_emitted(out, emitted),
            next_hit(st, hit),
            next_start(st, next, start),
        );
        assert(out + probe_rest(rs, key, st) =~= with_emitted(out, emitted) + probe_rest(
            rs,
            key,
            next,
        ));
    }
}

/// The answer of a probe is as it has to be: every value stands in a record
/// under the key, and where the keys are in order the answer is every such
/// value, in the order of the records.
pub proof fn lemma_probe_answer(rs: Seq<Record>, key: u32)
    requires
        rs.len() <= u64::MAX,
    ensures
        answer_ok(rs, key, probe_answer(rs, key)),
{
    let empty = Seq::<u32>::empty();
    if rs.len() == 0 {
        lemma_matching_none(rs, key);
        lemma_probe_rest(rs, key, Stage::Done, empty, 0, 0);
    } else {
        lemma_probe_rest(rs, key, Stage::Sentinel, empty, 0, 0);
    }
    assert(empty + probe_answer(rs, key) =~= probe_answer(rs, key));
}

/// Looks `key` up in one table: the values of the records that have it.
///
/// The table is skipped where its last key is smaller than `key`; otherwise a
/// binary search finds one record with the key, and the run of equal keys
/// around it is read out from its first record to its last, however long it is.
pub fn query_tbl(tbl: &Tbl, key: u32) -> (r: Result<Vec<u32>, Error>)
    ensures
        tbl.read_error() is Some ==> r is Err && r->Err_0 == tbl.read_error()->Some_0,
        tbl.read_error() is None ==> r is Ok && r->Ok_0@ == probe_answer(tbl.records(), key),
        tbl.read_error() is None ==> answer_ok(tbl.records(), key, r->Ok_0@),
{
    let meta = tbl.meta();
    let mut probe = Probe::new(meta.len, key);
    let mut out: Vec<u32> = Vec::new();
    let ghost rs = tbl.records();
    proof {
        if meta.len == 0 {
            lemma_empty_table(*tbl);
        } else if tbl.read_error() is None {
            lemma_records_len(*tbl);
        }
        assert(out@ + probe_answer(rs, key) =~= probe_answer(rs, key));
    }
    loop
        invariant
            tbl.wf(),
            probe.wf(),
            rs == tbl.records(),
            probe.spec_len() == tbl.spec_meta().len,
            probe.spec_key() == key,
            probe.spec_stage() is Done ==> tbl.read_error() is None,
            tbl.read_error() is None ==> rs.len() == tbl.spec_meta().len,
            tbl.read_error() is None ==> out@ + probe_rest(rs, key, probe.spec_stage())
                == probe_answer(rs, key),
        ensures
            probe.spec_stage() is Done,
        decreases stage_fuel(probe.spec_stage(), probe.spec_len()),
    {
        let i = match probe.wanted() {
            Some(i) => i,
            None => {
                break ;
            },
        };
        let rec = match tbl.record(i) {
            Ok(rec) => rec,
            Err(e) => {
                return Err(e);
            },
        };
        let ghost before = probe.spec_stage();
        let ghost done = out@;
        let emitted = probe.feed(rec);
        match emitted {
            Some(v) => {
                out.push(v);
            },
            None => {},
        }
        proof {
            assert(out@ == with_emitted(done, emitted));
            assert(done + probe_rest(rs, key, before) =~= out@ + probe_rest(
                rs,
                key,
                probe.spec_stage(),
            ));
        }
    }
    proof {
        assert(out@ + probe_rest(rs, key, probe.spec_stage()) =~= out@);
        lemma_probe_answer(rs, key);
    }
    Ok(out)
}

/// The error that a query of the database gives, if any: that of the first
/// table, in catalog order, that has one.
pub open spec fn db_error(tables: Seq<Tbl>) -> Option<Error>
    decreases tables.len(),
{
    if tables.len() == 0 {
        None
    } else if db_error(tables.drop_last()) is Some {
        db_error(tables.drop_last())
    } else {
        tables.last().read_error()
    }
}

/// The answers of the tables, one after the other in catalog order.
pub open spec fn db_matching(tables: Seq<Tbl>, key: u32) -> Seq<u32>
    decreases tables.len(),
{
    if tables.len() == 0 {
        Seq::empty()
    } else {
        db_matching(tables.drop_last(), key) + matching_values(tables.last().records(), key)
    }
}

/// The answers of the probes of the tables, one after the other in catalog
/// order.
pub open spec fn db_answer(tables: Seq<Tbl>, key: u32) -> Seq<u32>
    decreases tables.len(),
{
    if tables.len() == 0 {
        Seq::empty()
    } else {
        db_answer(tables.drop_last(), key) + probe_answer(tables.last().records(), key)
    }
}

/// Every table has its keys in order.
pub open spec fn db_sorted(tables: Seq<Tbl>) -> bool {
    forall|t: int| 0 <= t < tables.len() ==> sorted_by_key(#[trigger] tables[t].records())
}

/// Some table holds the record.
pub open spec fn db_holds(tables: Seq<Tbl>, rec: Record) -> bool {
    exists|t: int| 0 <= t < tables.len() && (#[trigger] tables[t].records()).contains(rec)
}

/// What the answer of a query of the database has to be: every value stands
/// in a record under the key in some table, and where every table has its
/// keys in order the answer is every such value, table by table.
pub open spec fn db_answer_ok(tables: Seq<Tbl>, key: u32, out: Seq<u32>) -> bool {
    &&& forall|j: int| 0 <= j < out.len() ==> db_holds(tables, (key, #[trigger] out[j]))
    &&& db_sorted(tables) ==> out == db_matching(tables, key)
}

/// Looks `key` up in every table of a database, in catalog order, and gives
/// the answers one after the other. Nothing is removed from them.
pub fn query_db(tables: &Vec<Tbl>, key: u32) -> (r: Result<Vec<u32>, Error>)
    ensures
        db_error(tables@) is Some ==> r is Err && r->Err_0 == db_error(tables@)->Some_0,
        db_error(tables@) is None ==> r is Ok && r->Ok_0@ == db_answer(tables@, key),
        db_error(tables@) is None ==> db_answer_ok(tables@, key, r->Ok_0@),
{
    let mut out: Vec<u32> = Vec::new();
    let mut t: usize = 0;
    while t < tables.len()
        invariant
            t <= tables@.len(),
            db_error(tables@.take(t as int)) is None,
            out@ == db_answer(tables@.take(t as int), key),
            db_answer_ok(tables@.take(t as int), key, out@),
        decreases tables@.len() - t,
    {
        let ghost before = tables@.take(t as int);
        let ghost after = tables@.take(t + 1);
        proof {
            assert(after.drop_last() =~= before);
            assert(after.last() == tables@[t as int]);
        }
        let mut found = match query_tbl(&tables[t], key) {
            Ok(found) => found,
            Err(e) => {
                proof {
                    lemma_db_error_prefix(tables@, t + 1);
                }
                return Err(e);
            },
        };
        let ghost old_out = out@;
        let ghost add = found@;
        out.append(&mut found);
        proof {
            assert forall|j: int| 0 <= j < out@.len() implies db_holds(
                after,
                (key, #[trigger] out@[j]),
            ) by {
                if j < old_out.len() {
                    assert(db_holds(before, (key, old_out[j])));
                    let w = choose|w: int|
                        0 <= w < before.len() && (#[trigger] before[w].records()).contains(
                            (key, old_out[j]),
                        );
                    assert(after[w] == before[w]);
                } else {
                    assert(out@[j] == add[j - old_out.len()]);
                    assert(after[t as int].records().contains((key, add[j - old_out.len()])));
                }
            }
            if db_sorted(after) {
                assert forall|w: int| 0 <= w < before.len() implies sorted_by_key(
                    #[trigger] before[w].records(),
                ) by {
                    assert(before[w] == after[w]);
                }
                assert(sorted_by_key(after[t as int].records()));
            }
        }
        t += 1;
    }
    proof {
        assert(tables@.take(t as int) =~= tables@);
    }
    Ok(out)
}

/// An error among the first `n` tables is the error of the database.
proof fn lemma_db_error_prefix(tables: Seq<Tbl>, n: int)
    requires
        0 <= n <= tables.len(),
        db_error(tables.take(n)) is Some,
    ensures
        db_error(tables) == db_error(tables.take(n)),
    decreases tables.len() - n,
{
    if n < tables.len() {
        assert(tables.take(n + 1).drop_last() =~= tables.take(n));
        lemma_db_error_prefix(tables, n + 1);
    } else {
        assert(tables.take(n) =~= tables);
    }
}

/// Looks a hash up in the primary database: the ids whose hash it is.
pub fn query_bili2(tables: &Vec<Tbl>, id: u32) -> (r: Result<Vec<u32>, Error>)
    ensures
        db_error(tables@) is Some ==> r is Err && r->Err_0 == db_error(tables@)->Some_0,
        db_error(tables@) is None ==> r is Ok && r->Ok_0@ == db_answer(tables@, id),
        db_error(tables@) is None ==> db_answer_ok(tables@, id, r->Ok_0@),
{
    query_db(tables, id)
}

/// Looks a key up in the resolution database, which is keyed by the second
/// hash of the colliding hashes: the key is used as it is given.
pub fn query_collision_rehash_resolve(tables: &Vec<Tbl>, id: u32) -> (r: Result<Vec<u32>, Error>)
    ensures
        db_error(tables@) is Some ==> r is Err && r->Err_0 == db_error(tables@)->Some_0,
        db_error(tables@) is None ==> r is Ok && r->Ok_0@ == db_answer(tables@, id),
        db_error(tables@) is None ==> db_answer_ok(tables@, id, r->Ok_0@),
{
    query_db(tables, id)
}

/// Looks a probe key up in both databases: the ids that hash to it, from the
/// primary tables, and the ids filed under it in the resolution tables.
pub fn query(primary: &Vec<Tbl>, resolved: &Vec<Tbl>, probe: u32) -> (r: Result<
    (Vec<u32>, Vec<u32>),
    Error,
>)
    ensures
        db_error(primary@) is Some ==> r is Err && r->Err_0 == db_error(primary@)->Some_0,
        db_error(primary@) is None && db_error(resolved@) is Some ==> r is Err && r->Err_0
            == db_error(resolved@)->Some_0,
        db_error(primary@) is None && db_error(resolved@) is None ==> r is Ok,
        r is Ok ==> r->Ok_0.0@ == db_answer(primary@, probe) && db_answer_ok(
            primary@,
            probe,
            r->Ok_0.0@,
        ),
        r is Ok ==> r->Ok_0.1@ == db_answer(resolved@, probe) && db_answer_ok(
            resolved@,
            probe,
            r->Ok_0.1@,
        ),
{
    let from_primary = match query_bili2(primary, probe) {
        Ok(found) => found,
        Err(e) => {
            return Err(e);
        },
    };
    let from_resolved = match query_collision_rehash_resolve(resolved, probe) {
        Ok(found) => found,
        Err(e) => {
            return Err(e);
        },
    };
    Ok((from_primary, from_resolved))
}

/// Every value that a query of the database gives stands in a record under the
/// key in some table.
pub proof fn lemma_db_sound(tables: Seq<Tbl>, key: u32, j: int)
    requires
        0 <= j < db_matching(tables, key).len(),
    ensures
        db_holds(tables, (key, db_matching(tables, key)[j])),
    decreases tables.len(),
{
    if tables.len() > 0 {
        let head = tables.drop_last();
        let front = db_matching(head, key);
        let last = tables.len() - 1;
        if j < front.len() {
            lemma_db_sound(head, key, j);
            let t = choose|t: int|
                0 <= t < head.len() && (#[trigger] head[t].records()).contains((key, front[j]));
            assert(tables[t] == head[t]);
        } else {
            lemma_matching_sound(tables[last].records(), key, j - front.len());
            assert(tables[last].records().contains((key, db_matching(tables, key)[j])));
        }
    }
}

/// Every value that stands in a record under the key in some table is among
/// the values that a query of the database gives.
pub proof fn lemma_db_complete(tables: Seq<Tbl>, key: u32, val: u32)
    requires
        db_holds(tables, (key, val)),
    ensures
        db_matching(tables, key).contains(val),
    decreases tables.len(),
{
    let t = choose|t: int|
        0 <= t < tables.len() && (#[trigger] tables[t].records()).contains((key, val));
    let head = tables.drop_last();
    let front = db_matching(head, key);
    let back = matching_values(tables.last().records(), key);
    let all = db_matching(tables, key);
    if t == tables.len() - 1 {
        let rs = tables[t].records();
        let i = choose|i: int| 0 <= i < rs.len() && rs[i] == (key, val);
        lemma_matching_complete(rs, key, i);
        let j = choose|j: int| 0 <= j < back.len() && back[j] == val;
        assert(all[front.len() + j] == val);
    } else {
        assert(head[t] == tables[t]);
        assert(db_holds(head, (key, val)));
        lemma_db_complete(head, key, val);
        let j = choose|j: int| 0 <= j < front.len() && front[j] == val;
        assert(all[j] == val);
    }
}

/// Every record of every table has the hash of its value as its key.
pub open spec fn db_primary(tables: Seq<Tbl>) -> bool {
    forall|t: int, i: int|
        0 <= t < tables.len() && 0 <= i < tables[t].records().len() ==> (
        #[trigger] tables[t].records()[i]).0 == spec_primary_key(tables[t].records()[i].1)
}

/// In a primary database, a value that is held under a key hashes to that key.
pub proof fn lemma_primary_sound(tables: Seq<Tbl>, key: u32, val: u32)
    requires
        db_primary(tables),
        db_holds(tables, (key, val)),
    ensures
        key == spec_primary_key(val),
{
    let t = choose|t: int|
        0 <= t < tables.len() && (#[trigger] tables[t].records()).contains((key, val));
    let rs = tables[t].records();
    let i = choose|i: int| 0 <= i < rs.len() && rs[i] == (key, val);
    assert(tables[t].records()[i].0 == spec_primary_key(tables[t].records()[i].1));
}

} // verus!
