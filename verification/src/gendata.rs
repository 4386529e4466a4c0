//! Building the three table families: a primary table from a bundle of ids,
//! the duplicate tables from the primary tables, and the resolution tables
//! from the duplicate tables.

use vstd::prelude::*;
use vstd::arithmetic::div_mod::{
    lemma_fundamental_div_mod, lemma_fundamental_div_mod_converse, lemma_mod_bound,
};
use vstd::multiset::*;
use vstd::seq_lib::*;
use crate::bitmap::SeenKeys;
use crate::data::{
    db_records, lemma_empty_table, lemma_records_len, sorted, Record, Tbl, TblMeta,
};
use crate::error::Error;
use crate::hash::{primary_key, rehash, spec_primary_key, spec_rehash};
use crate::heap::MinHeap;
use crate::query::{db_holds, db_primary};
use crate::stream::{lemma_rolled_concat, lemma_rolled_holds, rolled, DBWriter, TblReader};

verus! {

/// The number of ids in a bundle, and so of records in a full table.
pub const BUNDLE_LEN: u32 = 102_400_000;

/// How colliding hashes are told apart.
#[derive(Debug, Clone, Copy, PartialEq, Eq, Structural)]
pub enum CollisionResolver {
    /// By hashing the hash once more.
    Rehash,
}

impl CollisionResolver {
    /// The key under which a record with primary key `hashval` is filed in
    /// the resolution database.
    pub open spec fn spec_resolve(self, hashval: u32) -> u32 {
        match self {
            CollisionResolver::Rehash => spec_rehash(hashval),
        }
    }

    /// The key under which a record with primary key `hashval` and value `_x`
    /// is filed in the resolution database.
    pub fn resolve(&self, hashval: u32, _x: u32) -> (key: u32)
        ensures
            key == self.spec_resolve(hashval),
    {
        match self {
            CollisionResolver::Rehash => rehash(hashval),
        }
    }
}

/// The first id of a bundle.
pub open spec fn bundle_start(bundle: u32, bundle_len: u32) -> int {
    bundle * bundle_len + 1
}

/// The records of a bundle in the order of their ids: bundle `bundle` covers
/// the ids from `bundle · bundle_len + 1` on, `bundle_len` of them.
pub open spec fn bundle_records(bundle: u32, bundle_len: u32) -> Seq<Record> {
    Seq::new(
        bundle_len as nat,
        |j: int|
            (
                spec_primary_key((bundle_start(bundle, bundle_len) + j) as u32),
                (bundle_start(bundle, bundle_len) + j) as u32,
            ),
    )
}

/// Computes the records of one bundle and sorts them by key, and by id where
/// keys are equal: every id of the bundle is hashed and pushed on a min-heap
/// of the bundle's size, and the heap is then emptied.
pub fn build_primary(bundle: u32, bundle_len: u32) -> (out: Vec<Record>)
    requires
        (bundle + 1) * bundle_len <= u32::MAX,
    ensures
        sorted(out@),
        out@.to_multiset() == bundle_records(bundle, bundle_len).to_multiset(),
        out@.len() == bundle_len,
{
    broadcast use group_to_multiset_ensures;

    assert(bundle * bundle_len + bundle_len == (bundle + 1) * bundle_len) by (nonlinear_arith);
    assert(0 <= bundle * bundle_len) by (nonlinear_arith);
    let start: u32 = bundle * bundle_len + 1;
    let ghost all = bundle_records(bundle, bundle_len);
    let mut heap = MinHeap::with_capacity(bundle_len as usize);
    let mut j: u32 = 0;
    assert(all.take(0).to_multiset().len() == 0);
    assert(all.take(0).to_multiset() =~= Multiset::<Record>::empty());
    while j < bundle_len
        invariant
            j <= bundle_len,
            start == bundle_start(bundle, bundle_len),
            start + bundle_len <= u32::MAX + 1,
            all == bundle_records(bundle, bundle_len),
            heap@ == all.take(j as int).to_multiset(),
        decreases bundle_len - j,
    {
        let id: u32 = start + j;
        let key = primary_key(id);
        heap.push((key, id));
        proof {
            assert(all.take(j + 1) =~= all.take(j as int).push((key, id)));
            to_multiset_build(all.take(j as int), (key, id));
        }
        j += 1;
    }
    proof {
        assert(all.take(j as int) =~= all);
    }
    let out = heap.into_sorted_vec();
    proof {
        to_multiset_len(out@);
        to_multiset_len(all);
    }
    out
}

/// The primary table of one bundle.
pub fn primary_table(bundle: u32, bundle_len: u32) -> (tbl: Tbl)
    requires
        (bundle + 1) * bundle_len <= u32::MAX,
    ensures
        tbl.wf(),
        tbl.spec_meta() == (TblMeta { len: bundle_len as u64, keysize: 4, valsize: 4 }),
        sorted(tbl.records()),
        tbl.records().to_multiset() == bundle_records(bundle, bundle_len).to_multiset(),
{
    let records = build_primary(bundle, bundle_len);
    Tbl::from_records(&records)
}

/// The ids of a bundle differ from each other.
pub proof fn lemma_bundle_ids_distinct(bundle: u32, bundle_len: u32)
    requires
        (bundle + 1) * bundle_len <= u32::MAX,
    ensures
        bundle_records(bundle, bundle_len).no_duplicates(),
{
    assert(bundle * bundle_len + bundle_len == (bundle + 1) * bundle_len) by (nonlinear_arith);
    assert(0 <= bundle * bundle_len) by (nonlinear_arith);
}

/// In a primary table every id of the bundle has exactly one record, and the
/// key of that record is the hash of the id.
pub proof fn lemma_primary_one_record_per_id(
    records: Seq<Record>,
    bundle: u32,
    bundle_len: u32,
    id: u32,
)
    requires
        (bundle + 1) * bundle_len <= u32::MAX,
        records.to_multiset() == bundle_records(bundle, bundle_len).to_multiset(),
        bundle_start(bundle, bundle_len) <= id < bundle_start(bundle, bundle_len) + bundle_len,
    ensures
        exists|i: int|
            0 <= i < records.len() && #[trigger] records[i] == (spec_primary_key(id), id) && forall|
                j: int,
            |
                0 <= j < records.len() && (#[trigger] records[j]).1 == id ==> j == i,
{
    broadcast use group_to_multiset_ensures;

    let all = bundle_records(bundle, bundle_len);
    let start = bundle_start(bundle, bundle_len);
    let rec = (spec_primary_key(id), id);
    lemma_bundle_ids_distinct(bundle, bundle_len);
    all.lemma_multiset_has_no_duplicates();
    records.lemma_multiset_has_no_duplicates_conv();
    assert(all[id - start] == rec);
    assert(all.contains(rec));
    to_multiset_contains(all, rec);
    to_multiset_contains(records, rec);
    assert(records.contains(rec));
    let i = choose|i: int| 0 <= i < records.len() && records[i] == rec;
    assert forall|j: int| 0 <= j < records.len() && (#[trigger] records[j]).1 == id implies j
        == i by {
        assert(records.contains(records[j]));
        to_multiset_contains(all, records[j]);
        to_multiset_contains(records, records[j]);
        assert(all.contains(records[j]));
        let a = choose|a: int| 0 <= a < all.len() && all[a] == records[j];
        assert(all[a] == rec);
    }
}

/// Whether some record has the key.
pub open spec fn has_key(rs: Seq<Record>, key: u32) -> bool {
    exists|i: int| 0 <= i < rs.len() && (#[trigger] rs[i]).0 == key
}

/// The keys of the records.
pub open spec fn keys_of(rs: Seq<Record>) -> Set<u32> {
    Set::new(|key: u32| has_key(rs, key))
}

/// The records whose key was seen before them: in `seen`, or in an earlier
/// record. They stand in the order of the records.
pub open spec fn dups_after(seen: Set<u32>, rs: Seq<Record>) -> Seq<Record>
    decreases rs.len(),
{
    if rs.len() == 0 {
        Seq::empty()
    } else if seen.contains(rs.last().0) || has_key(rs.drop_last(), rs.last().0) {
        dups_after(seen, rs.drop_last()).push(rs.last())
    } else {
        dups_after(seen, rs.drop_last())
    }
}

/// The records whose key occurs in an earlier record: of each key every
/// occurrence but the first.
pub open spec fn duplicates(rs: Seq<Record>) -> Seq<Record> {
    dups_after(Set::empty(), rs)
}

/// How many records have the key.
pub open spec fn count_key(rs: Seq<Record>, key: u32) -> nat
    decreases rs.len(),
{
    if rs.len() == 0 {
        0
    } else if rs.last().0 == key {
        count_key(rs.drop_last(), key) + 1
    } else {
        count_key(rs.drop_last(), key)
    }
}

/// The keys of records one after the other are the keys of both.
pub proof fn lemma_keys_concat(a: Seq<Record>, b: Seq<Record>)
    ensures
        keys_of(a + b) == keys_of(a).union(keys_of(b)),
{
    assert forall|key: u32| has_key(a + b, key) <==> has_key(a, key) || has_key(b, key) by {
        if has_key(a + b, key) {
            let i = choose|i: int| 0 <= i < (a + b).len() && (#[trigger] (a + b)[i]).0 == key;
            if i < a.len() {
                assert(a[i].0 == key);
            } else {
                assert(b[i - a.len()].0 == key);
            }
        }
        if has_key(a, key) {
            let i = choose|i: int| 0 <= i < a.len() && (#[trigger] a[i]).0 == key;
            assert((a + b)[i].0 == key);
        }
        if has_key(b, key) {
            let i = choose|i: int| 0 <= i < b.len() && (#[trigger] b[i]).0 == key;
            assert((a + b)[a.len() + i].0 == key);
        }
    }
    assert(keys_of(a + b) =~= keys_of(a).union(keys_of(b)));
}

/// The duplicates of records one after the other: those of the first, then
/// those of the second with the keys of the first counted as seen.
pub proof fn lemma_dups_concat(seen: Set<u32>, a: Seq<Record>, b: Seq<Record>)
    ensures
        dups_after(seen, a + b) == dups_after(seen, a) + dups_after(seen.union(keys_of(a)), b),
    decreases b.len(),
{
    if b.len() == 0 {
        assert(a + b =~= a);
        assert(dups_after(seen, a) + Seq::<Record>::empty() =~= dups_after(seen, a));
    } else {
        let head = b.drop_last();
        let last = b.last();
        assert((a + b).drop_last() =~= a + head);
        assert((a + b).last() == last);
        lemma_dups_concat(seen, a, head);
        lemma_keys_concat(a, head);
        assert(has_key(a + head, last.0) <==> has_key(a, last.0) || has_key(head, last.0)) by {
            assert(keys_of(a + head).contains(last.0) <==> keys_of(a).union(keys_of(head)).contains(
                last.0,
            ));
        }
        let front = dups_after(seen, a);
        let back = dups_after(seen.union(keys_of(a)), head);
        if seen.contains(last.0) || has_key(a + head, last.0) {
            assert((front + back).push(last) =~= front + back.push(last));
        }
    }
}

/// A prefix of the records has no more duplicates than all of them.
pub proof fn lemma_dups_prefix_len(seen: Set<u32>, rs: Seq<Record>, n: int)
    requires
        0 <= n <= rs.len(),
    ensures
        dups_after(seen, rs.take(n)).len() <= dups_after(seen, rs).len(),
    decreases rs.len(),
{
    if n == rs.len() {
        assert(rs.take(n) =~= rs);
    } else {
        assert(rs.drop_last().take(n) =~= rs.take(n));
        lemma_dups_prefix_len(seen, rs.drop_last(), n);
    }
}

/// A key is among the keys of the records just when some record counts for it.
pub proof fn lemma_count_key_positive(rs: Seq<Record>, key: u32)
    ensures
        has_key(rs, key) <==> count_key(rs, key) > 0,
    decreases rs.len(),
{
    if rs.len() > 0 {
        let head = rs.drop_last();
        lemma_count_key_positive(head, key);
        if has_key(rs, key) {
            let i = choose|i: int| 0 <= i < rs.len() && (#[trigger] rs[i]).0 == key;
            if i < rs.len() - 1 {
                assert(head[i].0 == key);
            }
        }
        if has_key(head, key) {
            let i = choose|i: int| 0 <= i < head.len() && (#[trigger] head[i]).0 == key;
            assert(rs[i].0 == key);
        }
        if rs.last().0 == key {
            assert(rs[rs.len() - 1].0 == key);
        }
    }
}

/// Of a key that occurs `n` times, `n - 1` records are duplicates; of a key
/// that does not occur, none.
pub proof fn lemma_duplicates_count(rs: Seq<Record>, key: u32)
    ensures
        count_key(rs, key) > 0 ==> count_key(duplicates(rs), key) == count_key(rs, key) - 1,
        count_key(rs, key) == 0 ==> count_key(duplicates(rs), key) == 0,
    decreases rs.len(),
{
    if rs.len() > 0 {
        let head = rs.drop_last();
        let last = rs.last();
        lemma_duplicates_count(head, key);
        lemma_count_key_positive(head, key);
        lemma_count_key_positive(head, last.0);
        if has_key(head, last.0) {
            assert(duplicates(rs).drop_last() =~= duplicates(head));
        }
    }
}

/// Sends the records of one primary table through the filter of seen keys:
/// a record whose key was seen before is written out, and every key is marked
/// as seen.
pub fn extract_table(seen: &mut SeenKeys, tbl: &Tbl, out: &mut DBWriter) -> (r: Result<(), Error>)
    requires
        old(seen).wf(),
        old(out).wf(),
    ensures
        final(out).cap() == old(out).cap(),
        final(out).sorts() == old(out).sorts(),
        final(out).handed() == old(out).handed(),
        tbl.read_error() is Some ==> r is Err && r->Err_0 == tbl.read_error()->Some_0,
        tbl.read_error() is None && old(out).cap() == 0 && dups_after(
            old(seen).keys(),
            tbl.records(),
        ).len() > 0 ==> r == Err::<(), Error>(Error::TableFull),
        tbl.read_error() is None && !(old(out).cap() == 0 && dups_after(
            old(seen).keys(),
            tbl.records(),
        ).len() > 0) ==> r == Ok::<(), Error>(()),
        final(seen).wf() && final(out).wf(),
        r is Err ==> final(out).written() == old(out).written(),
        r is Ok ==> final(seen).keys() == old(seen).keys().union(keys_of(tbl.records())),
        r is Ok ==> final(out).written() == old(out).written() + dups_after(
            old(seen).keys(),
            tbl.records(),
        ),
{
    let meta = tbl.meta();
    let ghost rs = tbl.records();
    let ghost seen0 = seen.keys();
    let ghost w0 = out.written();
    let mut reader = TblReader::new(tbl);
    proof {
        if meta.len == 0 {
            lemma_empty_table(*tbl);
        } else if tbl.read_error() is None {
            lemma_records_len(*tbl);
        }
        assert(keys_of(rs.take(0)) =~= Set::<u32>::empty());
        assert(seen0.union(keys_of(rs.take(0))) =~= seen0);
        assert(w0 + dups_after(seen0, rs.take(0)) =~= w0);
    }
    loop
        invariant
            tbl.wf(),
            reader.table() == *tbl,
            reader.count() <= tbl.spec_meta().len,
            reader.count() > 0 ==> tbl.read_error() is None,
            tbl.read_error() is None ==> rs.len() == tbl.spec_meta().len,
            rs == tbl.records(),
            seen0 == old(seen).keys(),
            w0 == old(out).written(),
            seen.wf(),
            out.wf(),
            out.cap() == old(out).cap(),
            out.sorts() == old(out).sorts(),
            out.handed() == old(out).handed(),
            seen.keys() == seen0.union(keys_of(rs.take(reader.count() as int))),
            out.written() == w0 + dups_after(seen0, rs.take(reader.count() as int)),
            out.cap() == 0 ==> dups_after(seen0, rs.take(reader.count() as int)).len() == 0,
        ensures
            reader.count() == tbl.spec_meta().len,
            tbl.read_error() is None,
        decreases tbl.spec_meta().len - reader.count(),
    {
        let ghost i = reader.count() as int;
        let rec = match reader.read_record() {
            Ok(rec) => rec,
            Err(Error::EndOfTable) => {
                break ;
            },
            Err(e) => {
                return Err(e);
            },
        };
        let ghost head = rs.take(i);
        let ghost next = rs.take(i + 1);
        proof {
            assert(next.drop_last() =~= head);
            assert(next.last() == rec);
            assert(next =~= head + seq![rec]);
            lemma_keys_concat(head, seq![rec]);
            assert(keys_of(seq![rec]) =~= Set::<u32>::empty().insert(rec.0)) by {
                assert(seq![rec][0].0 == rec.0);
            }
            assert(seen0.union(keys_of(next)) =~= seen0.union(keys_of(head)).insert(rec.0));
        }
        if seen.observe(rec.0) {
            match out.write(rec) {
                Ok(()) => {
                    proof {
                        assert(w0 + dups_after(seen0, next) =~= (w0 + dups_after(seen0, head)).push(
                            rec,
                        ));
                    }
                },
                Err(e) => {
                    proof {
                        lemma_dups_prefix_len(seen0, rs, i + 1);
                        assert(w0 + dups_after(seen0, head) =~= w0);
                    }
                    return Err(e);
                },
            }
        }
    }
    proof {
        assert(rs.take(reader.count() as int) =~= rs);
    }
    Ok(())
}

/// The error that the duplicate pass gives, if any: that of the first table,
/// in catalog order, that cannot be read, or `TableFull` at the first
/// duplicate where a table has no room at all.
pub open spec fn dup_error(tables: Seq<Tbl>, cap: u64) -> Option<Error>
    decreases tables.len(),
{
    if tables.len() == 0 {
        None
    } else if dup_error(tables.drop_last(), cap) is Some {
        dup_error(tables.drop_last(), cap)
    } else if tables.last().read_error() is Some {
        tables.last().read_error()
    } else if cap == 0 && dups_after(
        keys_of(db_records(tables.drop_last())),
        tables.last().records(),
    ).len() > 0 {
        Some(Error::TableFull)
    } else {
        None
    }
}

/// An error among the first `n` tables is the error of the pass.
proof fn lemma_dup_error_prefix(tables: Seq<Tbl>, cap: u64, n: int)
    requires
        0 <= n <= tables.len(),
        dup_error(tables.take(n), cap) is Some,
    ensures
        dup_error(tables, cap) == dup_error(tables.take(n), cap),
    decreases tables.len() - n,
{
    if n < tables.len() {
        assert(tables.take(n + 1).drop_last() =~= tables.take(n));
        lemma_dup_error_prefix(tables, cap, n + 1);
    } else {
        assert(tables.take(n) =~= tables);
    }
}

/// Builds the duplicate database from the primary tables in catalog order:
/// every record whose key occurred in an earlier record, of the same table or
/// of an earlier one, in the order of the records, `cap` records to a table.
pub fn build_dup(tables: &Vec<Tbl>, cap: u64) -> (r: Result<Vec<Tbl>, Error>)
    ensures
        dup_error(tables@, cap) is Some ==> r is Err && r->Err_0 == dup_error(tables@, cap)->Some_0,
        dup_error(tables@, cap) is None ==> r is Ok && rolled(
            r->Ok_0@,
            duplicates(db_records(tables@)),
            cap as nat,
            false,
        ),
{
    let mut seen = SeenKeys::new();
    let mut out = DBWriter::init(cap, false);
    let mut t: usize = 0;
    proof {
        assert(keys_of(db_records(tables@.take(0))) =~= Set::<u32>::empty());
    }
    while t < tables.len()
        invariant
            t <= tables@.len(),
            seen.wf(),
            out.wf(),
            out.cap() == cap,
            !out.sorts(),
            out.handed() == Seq::<Tbl>::empty(),
            dup_error(tables@.take(t as int), cap) is None,
            seen.keys() == keys_of(db_records(tables@.take(t as int))),
            out.written() == duplicates(db_records(tables@.take(t as int))),
        decreases tables@.len() - t,
    {
        let ghost before = tables@.take(t as int);
        let ghost after = tables@.take(t + 1);
        proof {
            assert(after.drop_last() =~= before);
            assert(after.last() == tables@[t as int]);
            lemma_keys_concat(db_records(before), tables@[t as int].records());
            lemma_dups_concat(Set::empty(), db_records(before), tables@[t as int].records());
            assert(Set::<u32>::empty().union(keys_of(db_records(before))) =~= keys_of(
                db_records(before),
            ));
        }
        match extract_table(&mut seen, &tables[t], &mut out) {
            Ok(()) => {},
            Err(e) => {
                proof {
                    lemma_dup_error_prefix(tables@, cap, t + 1);
                }
                return Err(e);
            },
        }
        t += 1;
    }
    proof {
        assert(tables@.take(t as int) =~= tables@);
    }
    let rolled_out = out.finish();
    proof {
        assert(Seq::<Tbl>::empty() + rolled_out@ =~= rolled_out@);
    }
    Ok(rolled_out)
}

/// The records under their second hash: the key of each is replaced, the
/// value stays.
pub open spec fn resolved(resolver: CollisionResolver, rs: Seq<Record>) -> Seq<Record> {
    Seq::new(rs.len(), |i: int| (resolver.spec_resolve(rs[i].0), rs[i].1))
}

/// Writes the records of one duplicate table out under their second hash.
pub fn resolve_table(resolver: CollisionResolver, tbl: &Tbl, out: &mut DBWriter) -> (r: Result<
    (),
    Error,
>)
    requires
        old(out).wf(),
    ensures
        final(out).cap() == old(out).cap(),
        final(out).sorts() == old(out).sorts(),
        final(out).handed() == old(out).handed(),
        tbl.read_error() is Some ==> r is Err && r->Err_0 == tbl.read_error()->Some_0,
        tbl.read_error() is None && old(out).cap() == 0 && tbl.records().len() > 0 ==> r == Err::<
            (),
            Error,
        >(Error::TableFull),
        tbl.read_error() is None && !(old(out).cap() == 0 && tbl.records().len() > 0) ==> r == Ok::<
            (),
            Error,
        >(()),
        final(out).wf(),
        r is Err ==> final(out).written() == old(out).written(),
        r is Ok ==> final(out).written() == old(out).written() + resolved(resolver, tbl.records()),
{
    let meta = tbl.meta();
    let ghost rs = tbl.records();
    let ghost w0 = out.written();
    let mut reader = TblReader::new(tbl);
    proof {
        if meta.len == 0 {
            lemma_empty_table(*tbl);
        } else if tbl.read_error() is None {
            lemma_records_len(*tbl);
        }
        assert(w0 + resolved(resolver, rs.take(0)) =~= w0);
    }
    loop
        invariant
            tbl.wf(),
            reader.table() == *tbl,
            reader.count() <= tbl.spec_meta().len,
            reader.count() > 0 ==> tbl.read_error() is None,
            tbl.read_error() is None ==> rs.len() == tbl.spec_meta().len,
            rs == tbl.records(),
            w0 == old(out).written(),
            out.wf(),
            out.cap() == old(out).cap(),
            out.sorts() == old(out).sorts(),
            out.handed() == old(out).handed(),
            out.written() == w0 + resolved(resolver, rs.take(reader.count() as int)),
            out.cap() == 0 ==> reader.count() == 0,
        ensures
            reader.count() == tbl.spec_meta().len,
            tbl.read_error() is None,
        decreases tbl.spec_meta().len - reader.count(),
    {
        let ghost i = reader.count() as int;
        let (key, val) = match reader.read_record() {
            Ok(rec) => rec,
            Err(Error::EndOfTable) => {
                break ;
            },
            Err(e) => {
                return Err(e);
            },
        };
        let new_key = resolver.resolve(key, val);
        match out.write((new_key, val)) {
            Ok(()) => {
                proof {
                    assert(w0 + resolved(resolver, rs.take(i + 1)) =~= (w0 + resolved(
                        resolver,
                        rs.take(i),
                    )).push((new_key, val)));
                }
            },
            Err(e) => {
                proof {
                    assert(w0 + resolved(resolver, rs.take(0)) =~= w0);
                }
                return Err(e);
            },
        }
    }
    proof {
        assert(rs.take(reader.count() as int) =~= rs);
    }
    Ok(())
}

/// The error that the resolution pass gives, if any: that of the first table,
/// in catalog order, that cannot be read, or `TableFull` at the first record
/// where a table has no room at all.
pub open spec fn resolve_error(tables: Seq<Tbl>, cap: u64) -> Option<Error>
    decreases tables.len(),
{
    if tables.len() == 0 {
        None
    } else if resolve_error(tables.drop_last(), cap) is Some {
        resolve_error(tables.drop_last(), cap)
    } else if tables.last().read_error() is Some {
        tables.last().read_error()
    } else if cap == 0 && tables.last().records().len() > 0 {
        Some(Error::TableFull)
    } else {
        None
    }
}

/// An error among the first `n` tables is the error of the pass.
proof fn lemma_resolve_error_prefix(tables: Seq<Tbl>, cap: u64, n: int)
    requires
        0 <= n <= tables.len(),
        resolve_error(tables.take(n), cap) is Some,
    ensures
        resolve_error(tables, cap) == resolve_error(tables.take(n), cap),
    decreases tables.len() - n,
{
    if n < tables.len() {
        assert(tables.take(n + 1).drop_last() =~= tables.take(n));
        lemma_resolve_error_prefix(tables, cap, n + 1);
    } else {
        assert(tables.take(n) =~= tables);
    }
}

/// The second hash goes record by record: over records one after the other
/// it gives what it gives over each.
pub proof fn lemma_resolved_concat(resolver: CollisionResolver, a: Seq<Record>, b: Seq<Record>)
    ensures
        resolved(resolver, a + b) == resolved(resolver, a) + resolved(resolver, b),
{
    assert(resolved(resolver, a + b) =~= resolved(resolver, a) + resolved(resolver, b));
}

/// Builds the resolution database from the duplicate tables in catalog order:
/// every duplicate record under its second hash, `cap` records to a table in
/// the order of the duplicates, and each table sorted before it is handed out.
pub fn build_resolve(resolver: CollisionResolver, tables: &Vec<Tbl>, cap: u64) -> (r:
    Result<Vec<Tbl>, Error>)
    ensures
        resolve_error(tables@, cap) is Some ==> r is Err && r->Err_0 == resolve_error(
            tables@,
            cap,
        )->Some_0,
        resolve_error(tables@, cap) is None ==> r is Ok && rolled(
            r->Ok_0@,
            resolved(resolver, db_records(tables@)),
            cap as nat,
            true,
        ),
{
    let mut out = DBWriter::init(cap, true);
    let mut t: usize = 0;
    proof {
        assert(resolved(resolver, db_records(tables@.take(0))) =~= Seq::<Record>::empty());
    }
    while t < tables.len()
        invariant
            t <= tables@.len(),
            out.wf(),
            out.cap() == cap,
            out.sorts(),
            out.handed() == Seq::<Tbl>::empty(),
            resolve_error(tables@.take(t as int), cap) is None,
            out.written() == resolved(resolver, db_records(tables@.take(t as int))),
        decreases tables@.len() - t,
    {
        let ghost before = tables@.take(t as int);
        let ghost after = tables@.take(t + 1);
        proof {
            assert(after.drop_last() =~= before);
            assert(after.last() == tables@[t as int]);
            lemma_resolved_concat(resolver, db_records(before), tables@[t as int].records());
        }
        match resolve_table(resolver, &tables[t], &mut out) {
            Ok(()) => {},
            Err(e) => {
                proof {
                    lemma_resolve_error_prefix(tables@, cap, t + 1);
                }
                return Err(e);
            },
        }
        t += 1;
    }
    proof {
        assert(tables@.take(t as int) =~= tables@);
    }
    let rolled_out = out.finish();
    proof {
        assert(Seq::<Tbl>::empty() + rolled_out@ =~= rolled_out@);
    }
    Ok(rolled_out)
}

/// Every duplicate record stands in the resolution database under its second
/// hash.
pub proof fn lemma_resolve_holds(
    resolver: CollisionResolver,
    dups: Seq<Record>,
    tables: Seq<Tbl>,
    cap: nat,
    i: int,
)
    requires
        cap > 0,
        rolled(tables, resolved(resolver, dups), cap, true),
        0 <= i < dups.len(),
    ensures
        db_holds(tables, (resolver.spec_resolve(dups[i].0), dups[i].1)),
{
    lemma_rolled_holds(tables, resolved(resolver, dups), cap, true, i);
}

/// Each record of a primary table has an id of the bundle as its value and
/// the hash of that id as its key.
pub proof fn lemma_primary_keys(records: Seq<Record>, bundle: u32, bundle_len: u32, i: int)
    requires
        (bundle + 1) * bundle_len <= u32::MAX,
        records.to_multiset() == bundle_records(bundle, bundle_len).to_multiset(),
        0 <= i < records.len(),
    ensures
        records[i].0 == spec_primary_key(records[i].1),
        bundle_start(bundle, bundle_len) <= records[i].1 < bundle_start(bundle, bundle_len)
            + bundle_len,
{
    let all = bundle_records(bundle, bundle_len);
    assert(bundle * bundle_len + bundle_len == (bundle + 1) * bundle_len) by (nonlinear_arith);
    assert(0 <= bundle * bundle_len) by (nonlinear_arith);
    assert(records.contains(records[i]));
    to_multiset_contains(all, records[i]);
    to_multiset_contains(records, records[i]);
    let a = choose|a: int| 0 <= a < all.len() && all[a] == records[i];
    assert(all[a].1 == bundle_start(bundle, bundle_len) + a);
}

/// Whether the tables are the primary tables of the bundles 0, 1, 2, … in
/// this order: table `b` holds the records of bundle `b`.
pub open spec fn is_primary_db(tables: Seq<Tbl>, bundle_len: u32) -> bool {
    forall|b: int|
        0 <= b < tables.len() ==> (#[trigger] tables[b].records()).to_multiset() == bundle_records(
            b as u32,
            bundle_len,
        ).to_multiset()
}

/// Whether record `i` of table `t` has the value `id`.
pub open spec fn holds_id_at(tables: Seq<Tbl>, t: int, i: int, id: u32) -> bool {
    &&& 0 <= t < tables.len()
    &&& 0 <= i < tables[t].records().len()
    &&& tables[t].records()[i].1 == id
}

/// In a primary database every id of the universe that the bundles cover has
/// exactly one record, and the key of that record is the hash of the id.
pub proof fn lemma_primary_db_one_record_per_id(tables: Seq<Tbl>, bundle_len: u32, id: u32)
    requires
        tables.len() * bundle_len <= u32::MAX,
        is_primary_db(tables, bundle_len),
        1 <= id <= tables.len() * bundle_len,
    ensures
        exists|t: int, i: int|
            #![trigger holds_id_at(tables, t, i, id)]
            holds_id_at(tables, t, i, id) && tables[t].records()[i].0 == spec_primary_key(id)
                && forall|t2: int, j: int| #[trigger]
                holds_id_at(tables, t2, j, id) ==> t2 == t && j == i,
{
    let n = tables.len() as int;
    let len = bundle_len as int;
    assert(len > 0) by (nonlinear_arith)
        requires
            1 <= n * len,
            0 <= len,
    ;
    let b = (id - 1) / len;
    lemma_fundamental_div_mod(id - 1, len);
    lemma_mod_bound(id - 1, len);
    assert(0 <= b < n && (b + 1) * len <= n * len && b * len == len * b && (b + 1) * len == b * len
        + len && n <= n * len) by (nonlinear_arith)
        requires
            id - 1 == len * b + (id - 1) % len,
            0 <= (id - 1) % len < len,
            0 <= id - 1 < n * len,
            len > 0,
    ;
    let recs = tables[b].records();
    lemma_primary_one_record_per_id(recs, b as u32, bundle_len, id);
    let i = choose|i: int|
        0 <= i < recs.len() && #[trigger] recs[i] == (spec_primary_key(id), id) && forall|j: int|
            0 <= j < recs.len() && (#[trigger] recs[j]).1 == id ==> j == i;
    assert(holds_id_at(tables, b, i, id));
    assert forall|t2: int, j: int| #[trigger] holds_id_at(tables, t2, j, id) implies t2 == b && j
        == i by {
        assert((t2 + 1) * len <= n * len && t2 * len + len == (t2 + 1) * len && 0 <= t2 * len && n
            <= n * len) by (nonlinear_arith)
            requires
                0 <= t2 < n,
                len > 0,
        ;
        assert(t2 as u32 == t2);
        assert(tables[t2].records().to_multiset() == bundle_records(
            t2 as u32,
            bundle_len,
        ).to_multiset());
        lemma_primary_keys(tables[t2].records(), t2 as u32, bundle_len, j);
        lemma_fundamental_div_mod_converse(id - 1, len, t2, id - 1 - t2 * len);
        assert(recs[j].1 == id);
    }
}

/// In a primary database every record has the hash of its value as its key.
pub proof fn lemma_primary_db_keys(tables: Seq<Tbl>, bundle_len: u32)
    requires
        tables.len() * bundle_len <= u32::MAX,
        is_primary_db(tables, bundle_len),
    ensures
        db_primary(tables),
{
    let n = tables.len() as int;
    let len = bundle_len as int;
    assert forall|t: int, i: int|
        0 <= t < tables.len() && 0 <= i < tables[t].records().len() implies (
    #[trigger] tables[t].records()[i]).0 == spec_primary_key(tables[t].records()[i].1) by {
        if len == 0 {
            vstd::seq_lib::to_multiset_len(tables[t].records());
            vstd::seq_lib::to_multiset_len(bundle_records(t as u32, bundle_len));
        } else {
            assert((t + 1) * len <= n * len && n <= n * len) by (nonlinear_arith)
                requires
                    0 <= t < n,
                    len >= 1,
            ;
            assert(t as u32 == t);
            lemma_primary_keys(tables[t].records(), t as u32, bundle_len, i);
        }
    }
}

/// Of a key that occurs `n` times in the primary database, `n - 1` records
/// stand in the duplicate database; of a key that does not occur, none.
pub proof fn lemma_dup_db_count(primary: Seq<Tbl>, dups: Seq<Tbl>, cap: nat, key: u32)
    requires
        cap > 0,
        rolled(dups, duplicates(db_records(primary)), cap, false),
    ensures
        count_key(db_records(primary), key) > 0 ==> count_key(db_records(dups), key) == count_key(
            db_records(primary),
            key,
        ) - 1,
        count_key(db_records(primary), key) == 0 ==> count_key(db_records(dups), key) == 0,
{
    lemma_rolled_concat(dups, duplicates(db_records(primary)), cap);
    lemma_duplicates_count(db_records(primary), key);
}

} // verus!
