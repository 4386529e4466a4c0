//! Reading a table record by record, and writing tables and whole databases
//! record by record.

use vstd::prelude::*;
use vstd::arithmetic::div_mod::{
    lemma_div_is_ordered, lemma_fundamental_div_mod, lemma_fundamental_div_mod_converse,
    lemma_mod_bound,
};
use vstd::seq_lib::*;
use vstd::slice::slice_to_vec;
use crate::data::{
    db_records, encode_records, lemma_records_roundtrip, record_bytes, sorted, Record, Tbl, TblMeta,
    BILI2_KEY_SIZE, BILI2_VAL_SIZE,
};
use crate::error::Error;
use crate::heap::sort_records;
use crate::query::db_holds;

verus! {

/// Reads the records of a table one after the other.
pub struct TblReader<'a> {
    tbl: &'a Tbl,
    cnt: u64,
}

impl<'a> TblReader<'a> {
    /// The table that is read.
    pub closed spec fn table(self) -> Tbl {
        *self.tbl
    }

    /// The number of records handed out.
    pub closed spec fn count(self) -> u64 {
        self.cnt
    }

    #[verifier::type_invariant]
    spec fn inv(self) -> bool {
        self.cnt <= self.tbl.spec_meta().len
    }

    /// A reader that stands before the first record.
    pub fn new(tbl: &'a Tbl) -> (reader: TblReader<'a>)
        ensures
            reader.table() == *tbl,
            reader.count() == 0,
    {
        TblReader { tbl, cnt: 0 }
    }

    /// Hands out the next record. After the last one the answer is
    /// `EndOfTable`; a record that cannot be read is not passed over.
    pub fn read_record(&mut self) -> (r: Result<Record, Error>)
        ensures
            final(self).table() == old(self).table(),
            old(self).count() <= old(self).table().spec_meta().len,
            r == old(self).table().spec_record_at(old(self).count() as int),
            r is Ok ==> final(self).count() == old(self).count() + 1,
            r is Err ==> final(self).count() == old(self).count(),
    {
        proof {
            use_type_invariant(&*self);
        }
        let r = self.tbl.record(self.cnt);
        if r.is_ok() {
            self.cnt += 1;
        }
        r
    }
}

/// Writes one table: the header's `len` is the room, and records are taken
/// until the room is used up.
pub struct TblWriter {
    meta: TblMeta,
    cnt: u64,
    body: Vec<u8>,
}

impl TblWriter {
    /// The header that the writer was made with.
    pub closed spec fn spec_meta(self) -> TblMeta {
        self.meta
    }

    /// The number of records written.
    pub closed spec fn count(self) -> u64 {
        self.cnt
    }

    /// The record bytes written.
    pub closed spec fn body(self) -> Seq<u8> {
        self.body@
    }

    /// No more records than there is room for, and the bytes of exactly
    /// those.
    pub open spec fn wf(self) -> bool {
        &&& self.count() <= self.spec_meta().len
        &&& self.body().len() == self.count() as nat * self.spec_meta().unit()
    }

    /// A writer with room for `meta.len` records.
    pub fn new(meta: TblMeta) -> (w: TblWriter)
        ensures
            w.wf(),
            w.spec_meta() == meta,
            w.count() == 0,
            w.body() == Seq::<u8>::empty(),
    {
        let w = TblWriter { meta, cnt: 0, body: Vec::new() };
        assert(0 * meta.unit() == 0) by (nonlinear_arith);
        w
    }

    /// Whether the room is used up.
    pub fn is_full(&self) -> (full: bool)
        ensures
            full == (self.count() == self.spec_meta().len),
    {
        self.cnt == self.meta.len
    }

    /// Takes the bytes of one record. Where the room is used up nothing is
    /// written, and the answer is `TableFull`.
    pub fn write_item(&mut self, item: &[u8]) -> (r: Result<(), Error>)
        requires
            old(self).wf(),
            item@.len() == old(self).spec_meta().unit(),
        ensures
            final(self).wf(),
            final(self).spec_meta() == old(self).spec_meta(),
            old(self).count() == old(self).spec_meta().len ==> r == Err::<(), Error>(
                Error::TableFull,
            ) && final(self).count() == old(self).count() && final(self).body() == old(self).body(),
            old(self).count() < old(self).spec_meta().len ==> r == Ok::<(), Error>(())
                && final(self).count() == old(self).count() + 1
                && final(self).body() == old(self).body() + item@,
    {
        if self.is_full() {
            return Err(Error::TableFull);
        }
        let mut bytes = slice_to_vec(item);
        self.body.append(&mut bytes);
        assert((self.cnt + 1) as nat * self.meta.unit() == self.cnt as nat * self.meta.unit()
            + self.meta.unit()) by (nonlinear_arith);
        self.cnt += 1;
        Ok(())
    }

    /// Ends the table. Its header counts the records that were written.
    pub fn finish(self) -> (t: Tbl)
        requires
            self.wf(),
        ensures
            t.wf(),
            t.spec_meta() == (TblMeta {
                len: self.count(),
                keysize: self.spec_meta().keysize,
                valsize: self.spec_meta().valsize,
            }),
            t.bytes() == self.body(),
    {
        let meta = TblMeta { len: self.cnt, keysize: self.meta.keysize, valsize: self.meta.valsize };
        Tbl::assemble(meta, self.body)
    }
}

/// Whether the table holds the records of `chunk`: as they stand, or sorted
/// where `in_order` is set. Its header counts them.
pub open spec fn holds_chunk(tbl: Tbl, chunk: Seq<Record>, in_order: bool) -> bool {
    &&& tbl.wf()
    &&& tbl.spec_meta() == (TblMeta { len: chunk.len() as u64, keysize: 4, valsize: 4 })
    &&& tbl.records().len() == chunk.len()
    &&& in_order ==> sorted(tbl.records()) && tbl.records().to_multiset() == chunk.to_multiset()
    &&& !in_order ==> tbl.records() == chunk
}

/// Writes the records into a table of their own: as they stand, or sorted
/// where `in_order` is set.
pub fn write_table(records: &Vec<Record>, in_order: bool) -> (tbl: Tbl)
    ensures
        holds_chunk(tbl, records@, in_order),
{
    broadcast use group_to_multiset_ensures;

    let sorted_records = if in_order {
        sort_records(records)
    } else {
        Vec::new()
    };
    let source: &Vec<Record> = if in_order {
        &sorted_records
    } else {
        records
    };
    proof {
        to_multiset_len(source@);
        to_multiset_len(records@);
    }
    let meta = TblMeta {
        len: source.len() as u64,
        keysize: BILI2_KEY_SIZE,
        valsize: BILI2_VAL_SIZE,
    };
    let mut writer = TblWriter::new(meta);
    let mut i: usize = 0;
    while i < source.len()
        invariant
            i <= source@.len(),
            writer.wf(),
            writer.spec_meta() == meta,
            meta == (TblMeta { len: source@.len() as u64, keysize: 4, valsize: 4 }),
            writer.count() == i,
            writer.body() == encode_records(source@.take(i as int)),
        decreases source@.len() - i,
    {
        let item = record_bytes(source[i]);
        let wrote = writer.write_item(item.as_slice());
        proof {
            assert(wrote is Ok);
            assert(source@.take(i + 1).drop_last() =~= source@.take(i as int));
        }
        i += 1;
    }
    proof {
        assert(source@.take(i as int) =~= source@);
        lemma_records_roundtrip(source@);
    }
    writer.finish()
}

/// The number of tables that `n` records take, `cap` to a table: at least
/// one, and a new one for each record that finds the last table full.
pub open spec fn chunk_count(n: nat, cap: nat) -> nat {
    if n == 0 {
        1
    } else {
        ((n - 1) / (cap as int) + 1) as nat
    }
}

/// The number of tables that are full and closed once `n` records are
/// written, `cap` to a table: every table but the one that is being written.
pub open spec fn full_count(n: nat, cap: nat) -> nat {
    (chunk_count(n, cap) - 1) as nat
}

/// The records of table `t`, with `cap` records to a table.
pub open spec fn chunk_at(rs: Seq<Record>, cap: nat, t: int) -> Seq<Record> {
    let from = t * cap;
    let to = if from + cap <= rs.len() {
        from + cap
    } else {
        rs.len() as int
    };
    rs.subrange(from, to)
}

/// Whether the tables are what `rs` gives when it is written `cap` records to
/// a table: every table full but the last.
pub open spec fn rolled(tables: Seq<Tbl>, rs: Seq<Record>, cap: nat, in_order: bool) -> bool {
    &&& tables.len() == chunk_count(rs.len(), cap)
    &&& forall|t: int|
        0 <= t < tables.len() ==> holds_chunk(#[trigger] tables[t], chunk_at(rs, cap, t), in_order)
}

/// Table `t` is full where `d` tables are: its records end before those of
/// table `d` begin.
proof fn lemma_chunk_bounds(t: int, d: int, cap: nat)
    requires
        0 <= t < d,
    ensures
        0 <= t * cap,
        t * cap + cap <= d * cap,
{
    assert(0 <= t * cap && t * cap + cap <= d * cap) by (nonlinear_arith)
        requires
            0 <= t < d,
            0 <= cap,
    ;
}

/// Writes a database: records go to the current table, and a record that
/// finds it full opens the next one. The tables that are full can be taken
/// out while the writing goes on.
pub struct DBWriter {
    cap: u64,
    in_order: bool,
    done: Vec<Tbl>,
    cur: Vec<Record>,
    handed: Ghost<Seq<Tbl>>,
    written: Ghost<Seq<Record>>,
}

impl DBWriter {
    /// The number of records that a table takes.
    pub closed spec fn cap(self) -> u64 {
        self.cap
    }

    /// Whether each table is sorted before it is handed out.
    pub closed spec fn sorts(self) -> bool {
        self.in_order
    }

    /// The records written so far, in the order in which they came.
    pub closed spec fn written(self) -> Seq<Record> {
        self.written@
    }

    /// The full tables that were taken out so far, in their order.
    pub closed spec fn handed(self) -> Seq<Tbl> {
        self.handed@
    }

    /// The full tables hold the first records, `cap` each, and the current
    /// table holds the rest.
    pub closed spec fn wf(self) -> bool {
        let full = self.handed@ + self.done@;
        let d = full.len() as int;
        let w = self.written@;
        &&& self.cur@.len() <= self.cap
        &&& self.cur@.len() > 0 || d == 0
        &&& w.len() == d * self.cap + self.cur@.len()
        &&& self.cur@ == w.subrange(d * self.cap, w.len() as int)
        &&& forall|t: int|
            0 <= t < d ==> holds_chunk(
                #[trigger] full[t],
                chunk_at(w, self.cap as nat, t),
                self.in_order,
            )
    }

    /// A writer of tables of `cap` records each, with nothing written.
    pub fn init(cap: u64, in_order: bool) -> (w: DBWriter)
        ensures
            w.wf(),
            w.cap() == cap,
            w.sorts() == in_order,
            w.written() == Seq::<Record>::empty(),
            w.handed() == Seq::<Tbl>::empty(),
    {
        let w = DBWriter {
            cap,
            in_order,
            done: Vec::new(),
            cur: Vec::new(),
            handed: Ghost(Seq::empty()),
            written: Ghost(Seq::empty()),
        };
        assert(0 * cap == 0) by (nonlinear_arith);
        assert(w.cur@ =~= w.written@.subrange(0, 0));
        w
    }

    /// Writes one record. Where a table has no room at all nothing is
    /// written, and the answer is `TableFull`.
    pub fn write(&mut self, rec: Record) -> (r: Result<(), Error>)
        requires
            old(self).wf(),
        ensures
            final(self).wf(),
            final(self).cap() == old(self).cap(),
            final(self).sorts() == old(self).sorts(),
            final(self).handed() == old(self).handed(),
            old(self).cap() == 0 ==> r == Err::<(), Error>(Error::TableFull) && final(self).written()
                == old(self).written(),
            old(self).cap() > 0 ==> r == Ok::<(), Error>(()) && final(self).written()
                == old(self).written().push(rec),
    {
        if self.cap == 0 {
            return Err(Error::TableFull);
        }
        let ghost w0 = self.written@;
        let ghost full0 = self.handed@ + self.done@;
        let ghost d0 = full0.len() as int;
        let ghost cap = self.cap as nat;
        if self.cur.len() as u64 == self.cap {
            let tbl = write_table(&self.cur, self.in_order);
            proof {
                assert(d0 * cap + cap == (d0 + 1) * cap) by (nonlinear_arith);
                assert(self.cur@ == chunk_at(w0, cap, d0));
            }
            self.done.push(tbl);
            self.cur = Vec::new();
        }
        self.cur.push(rec);
        self.written = Ghost(w0.push(rec));
        proof {
            let w1 = self.written@;
            let full1 = self.handed@ + self.done@;
            let d1 = full1.len() as int;
            assert(d0 * cap + cap == (d0 + 1) * cap) by (nonlinear_arith);
            assert(self.cur@ =~= w1.subrange(d1 * cap, w1.len() as int));
            assert forall|t: int| 0 <= t < d1 implies holds_chunk(
                #[trigger] full1[t],
                chunk_at(w1, cap, t),
                self.in_order,
            ) by {
                lemma_chunk_bounds(t, d1, cap);
                assert(chunk_at(w1, cap, t) =~= chunk_at(w0, cap, t));
                if t < d0 {
                    assert(full1[t] == full0[t]);
                }
            }
        }
        Ok(())
    }

    /// Takes out the tables that are full and were not taken out before, in
    /// their order, so that they need not be kept until the end. After it
    /// every table but the one that is being written has been handed out: the
    /// tables that come out are those from the first one not yet handed out to
    /// the last full one, each with its `cap` records of what was written.
    pub fn take_full(&mut self) -> (tables: Vec<Tbl>)
        requires
            old(self).wf(),
        ensures
            final(self).wf(),
            final(self).cap() == old(self).cap(),
            final(self).sorts() == old(self).sorts(),
            final(self).written() == old(self).written(),
            final(self).handed() == old(self).handed() + tables@,
            final(self).handed().len() == full_count(
                old(self).written().len(),
                old(self).cap() as nat,
            ),
            forall|i: int|
                0 <= i < tables@.len() ==> holds_chunk(
                    #[trigger] tables@[i],
                    chunk_at(
                        old(self).written(),
                        old(self).cap() as nat,
                        old(self).handed().len() + i,
                    ),
                    old(self).sorts(),
                ),
    {
        let ghost full0 = self.handed@ + self.done@;
        let ghost handed0 = self.handed@;
        let ghost w = self.written@;
        let ghost cap = self.cap as nat;
        let ghost d = full0.len() as int;
        let ghost c = self.cur@.len() as int;
        let mut tables: Vec<Tbl> = Vec::new();
        std::mem::swap(&mut self.done, &mut tables);
        self.handed = Ghost(self.handed@ + tables@);
        proof {
            assert(self.handed@ + self.done@ =~= full0);
            assert(self.handed@ =~= full0);
            assert(0 <= d * cap) by (nonlinear_arith)
                requires
                    0 <= d,
                    0 <= cap,
            ;
            if w.len() > 0 {
                assert(d == 0 ==> d * cap == 0) by (nonlinear_arith);
                assert(c >= 1 && cap >= 1);
                assert(w.len() - 1 == d * cap + (c - 1));
                lemma_fundamental_div_mod_converse(w.len() - 1, cap as int, d, c - 1);
            }
            assert forall|i: int| 0 <= i < tables@.len() implies holds_chunk(
                #[trigger] tables@[i],
                chunk_at(w, cap, handed0.len() + i),
                self.in_order,
            ) by {
                assert(full0[handed0.len() + i] == tables@[i]);
            }
        }
        tables
    }

    /// Ends the database: the tables that were not taken out before, in the
    /// order in which they were opened.
    pub fn finish(self) -> (tables: Vec<Tbl>)
        requires
            self.wf(),
        ensures
            rolled(self.handed() + tables@, self.written(), self.cap() as nat, self.sorts()),
    {
        let ghost w = self.written@;
        let ghost full = self.handed@ + self.done@;
        let ghost d = full.len() as int;
        let ghost cap = self.cap as nat;
        let ghost c = self.cur@.len() as int;
        let last = write_table(&self.cur, self.in_order);
        let mut tables = self.done;
        tables.push(last);
        proof {
            let all = self.handed@ + tables@;
            if w.len() > 0 {
                assert(d == 0 ==> d * cap == 0) by (nonlinear_arith);
                assert(c >= 1 && cap >= 1);
                assert(w.len() - 1 == d * cap + (c - 1));
                lemma_fundamental_div_mod_converse(w.len() - 1, cap as int, d, c - 1);
            }
            assert(self.cur@ =~= chunk_at(w, cap, d));
            assert(all.len() == d + 1);
            assert forall|t: int| 0 <= t < all.len() implies holds_chunk(
                #[trigger] all[t],
                chunk_at(w, cap, t),
                self.in_order,
            ) by {
                if t < d {
                    assert(all[t] == full[t]);
                } else {
                    assert(all[t] == last);
                }
            }
        }
        tables
    }
}

/// Where the records of table `t` begin and end, with `n` records in all:
/// every table but the last is full, and the last one takes the rest.
pub proof fn lemma_chunk_range(n: nat, cap: nat, t: int)
    requires
        cap > 0,
        0 <= t < chunk_count(n, cap),
    ensures
        0 <= t * cap <= n,
        n > 0 ==> t * cap < n,
        t + 1 < chunk_count(n, cap) ==> t * cap + cap <= n,
        t + 1 == chunk_count(n, cap) ==> t * cap + cap >= n,
{
    if n == 0 {
        assert(t * cap == 0) by (nonlinear_arith)
            requires
                t == 0,
        ;
    } else {
        let q = (n - 1) / (cap as int);
        let r = (n - 1) % (cap as int);
        lemma_fundamental_div_mod(n - 1, cap as int);
        lemma_mod_bound(n - 1, cap as int);
        assert(0 <= t * cap && t * cap <= q * cap && (t + 1 <= q ==> t * cap + cap <= q * cap)
            && q * cap == cap * q) by (nonlinear_arith)
            requires
                0 <= t <= q,
                cap > 0,
        ;
    }
}

/// The first `k` tables of a rolled database hold the first records, `cap`
/// to a table.
proof fn lemma_rolled_prefix(tables: Seq<Tbl>, rs: Seq<Record>, cap: nat, k: int)
    requires
        cap > 0,
        rolled(tables, rs, cap, false),
        0 <= k <= tables.len(),
    ensures
        k * cap <= rs.len() ==> db_records(tables.take(k)) == rs.take(k * cap),
        k * cap > rs.len() ==> db_records(tables.take(k)) == rs,
    decreases k,
{
    if k == 0 {
        assert(k * cap == 0) by (nonlinear_arith)
            requires
                k == 0,
        ;
        assert(db_records(tables.take(0)) =~= rs.take(0));
    } else {
        let t = k - 1;
        lemma_rolled_prefix(tables, rs, cap, t);
        lemma_chunk_range(rs.len(), cap, t);
        assert(t * cap + cap == k * cap) by (nonlinear_arith)
            requires
                t + 1 == k,
        ;
        assert(tables.take(k).drop_last() =~= tables.take(t));
        assert(tables.take(k).last() == tables[t]);
        assert(tables[t].records() == chunk_at(rs, cap, t));
        if k * cap <= rs.len() {
            assert(rs.take(t * cap) + chunk_at(rs, cap, t) =~= rs.take(k * cap));
        } else {
            assert(rs.take(t * cap) + chunk_at(rs, cap, t) =~= rs);
        }
    }
}

/// The tables of a rolled database that was not sorted hold, one after the
/// other, the records as they were written.
pub proof fn lemma_rolled_concat(tables: Seq<Tbl>, rs: Seq<Record>, cap: nat)
    requires
        cap > 0 || rs.len() == 0,
        rolled(tables, rs, cap, false),
    ensures
        db_records(tables) == rs,
{
    if cap == 0 {
        assert(tables.len() == 1);
        assert(tables.drop_last() =~= Seq::<Tbl>::empty());
        assert(db_records(tables.drop_last()) =~= Seq::<Record>::empty());
        assert(tables.last() == tables[0]);
        assert(holds_chunk(tables[0], chunk_at(rs, cap, 0), false));
        assert(chunk_at(rs, cap, 0).len() == 0);
        assert(tables[0].records() =~= rs);
        assert(db_records(tables) =~= rs);
    } else {
        let k = tables.len() as int;
        lemma_rolled_prefix(tables, rs, cap, k);
        lemma_chunk_range(rs.len(), cap, k - 1);
        assert((k - 1) * cap + cap == k * cap) by (nonlinear_arith);
        assert(tables.take(k) =~= tables);
        assert(rs.take(rs.len() as int) =~= rs);
    }
}

/// Every table of a rolled database but the last holds `cap` records, and the
/// last holds at most `cap`; it is empty only where nothing was written.
pub proof fn lemma_rolled_sizes(tables: Seq<Tbl>, rs: Seq<Record>, cap: nat, in_order: bool, t: int)
    requires
        cap > 0,
        rolled(tables, rs, cap, in_order),
        0 <= t < tables.len(),
    ensures
        t + 1 < tables.len() ==> tables[t].records().len() == cap,
        tables[t].records().len() <= cap,
        rs.len() > 0 ==> tables[t].records().len() > 0,
{
    lemma_chunk_range(rs.len(), cap, t);
}

/// Every record that was written stands in some table of the rolled database.
pub proof fn lemma_rolled_holds(
    tables: Seq<Tbl>,
    rs: Seq<Record>,
    cap: nat,
    in_order: bool,
    i: int,
)
    requires
        cap > 0,
        rolled(tables, rs, cap, in_order),
        0 <= i < rs.len(),
    ensures
        db_holds(tables, rs[i]),
{
    let t = i / (cap as int);
    lemma_fundamental_div_mod(i, cap as int);
    lemma_mod_bound(i, cap as int);
    lemma_div_is_ordered(i, rs.len() - 1, cap as int);
    assert(0 <= t) by (nonlinear_arith)
        requires
            i == cap * t + i % (cap as int),
            i % (cap as int) < cap,
            0 <= i,
            cap > 0,
    ;
    assert(t * cap == cap * t) by (nonlinear_arith);
    let chunk = chunk_at(rs, cap, t);
    assert(chunk[i - t * cap] == rs[i]);
    assert(chunk.contains(rs[i]));
    assert(holds_chunk(tables[t], chunk, in_order));
    if in_order {
        to_multiset_contains(chunk, rs[i]);
        to_multiset_contains(tables[t].records(), rs[i]);
    }
    assert(tables[t].records().contains(rs[i]));
}

} // verus!
