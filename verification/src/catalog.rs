//! The catalog of a family: the tables that a directory scan finds, in the
//! order of their numbers.

use vstd::prelude::*;
use vstd::seq_lib::*;
use vstd::string::*;
use crate::args::{parse_number, radix_digit, radix_digits, radix_value, spec_parse_number};
use crate::data::TblMeta;
use crate::error::Error;
use crate::gendata::CollisionResolver;
use crate::shell::{decimal_chars, digit_char, TblTy};
use crate::sorted::{
    item_le, items_sorted, sorted_vec_insert, sorted_vec_into_vec, sorted_vec_items, sorted_vec_new,
    Item,
};

verus! {

/// The text that the first capture group of `pattern` matches in the
/// leftmost match in `text`; `None` where the pattern is no regular
/// expression, where nothing matches, and where the group takes no part in
/// the match.
pub uninterp spec fn regex_first_group(pattern: Seq<char>, text: Seq<char>) -> Option<Seq<char>>;

/// `Regex::new` compiles the pattern, `Regex::captures` finds the leftmost
/// match in the text, and `Captures::get(1)` is what the first group matched
/// there. The result depends on the pattern and the text alone.
#[verifier::external_body]
fn first_group(pattern: &str, text: &str) -> (found: Option<String>)
    ensures
        found is Some <==> regex_first_group(pattern@, text@) is Some,
        found is Some ==> found->Some_0@ == regex_first_group(pattern@, text@)->Some_0,
{
    let re = match regex::Regex::new(pattern) {
        Ok(re) => re,
        Err(_) => return None,
    };
    let caps = match re.captures(text) {
        Some(caps) => caps,
        None => return None,
    };
    match caps.get(1) {
        Some(group) => Some(group.as_str().to_string()),
        None => None,
    }
}

/// A decimal digit has its own value.
proof fn lemma_digit_value(d: nat)
    requires
        d < 10,
    ensures
        radix_digit(digit_char(d), 10) == Some(d),
        digit_char(d) != '+',
{
}

/// The decimal text of a number is digits only, and stands for the number.
pub proof fn lemma_decimal_roundtrip(n: nat)
    ensures
        decimal_chars(n).len() > 0,
        decimal_chars(n)[0] != '+',
        radix_digits(decimal_chars(n), 10),
        radix_value(decimal_chars(n), 10) == n,
    decreases n,
{
    let s = decimal_chars(n);
    if n < 10 {
        lemma_digit_value(n);
        assert(s.drop_last() =~= Seq::<char>::empty());
        assert(radix_value(s.drop_last(), 10) == 0);
    } else {
        lemma_decimal_roundtrip(n / 10);
        lemma_digit_value(n % 10);
        let head = decimal_chars(n / 10);
        assert(s.drop_last() =~= head);
        assert(s[0] == head[0]);
        assert forall|i: int| 0 <= i < s.len() implies radix_digit(#[trigger] s[i], 10) is Some by {
            if i < head.len() {
                assert(s[i] == head[i]);
            }
        }
    }
}

/// Reading the decimal text of a table's number gives the number back.
pub proof fn lemma_table_number_roundtrip(id: u32)
    ensures
        spec_parse_number(decimal_chars(id as nat), 10) == Some(id),
{
    lemma_decimal_roundtrip(id as nat);
}

/// The number of a primary table as the name of a directory entry gives it:
/// the digits that follow `data`.
pub open spec fn spec_tbl_id(name: Seq<char>) -> Option<u32> {
    match regex_first_group("data([0-9]+)"@, name) {
        Some(digits) => spec_parse_number(digits, 10),
        None => None,
    }
}

/// The number of a duplicate or resolution table as the name of a directory
/// entry gives it: the first run of digits.
pub open spec fn spec_numbered_id(name: Seq<char>) -> Option<u32> {
    match regex_first_group("([0-9]+)"@, name) {
        Some(digits) => spec_parse_number(digits, 10),
        None => None,
    }
}

/// The number of the primary table that a directory entry stands for, if
/// it stands for one.
pub fn tbl_id(name: &str) -> (id: Option<u32>)
    ensures
        id == spec_tbl_id(name@),
{
    match first_group("data([0-9]+)", name) {
        Some(digits) => parse_number(digits.as_str(), 10),
        None => None,
    }
}

/// The number of the duplicate table that a directory entry stands for, if
/// it stands for one.
pub fn tbl_dup_id(name: &str) -> (id: Option<u32>)
    ensures
        id == spec_numbered_id(name@),
{
    match first_group("([0-9]+)", name) {
        Some(digits) => parse_number(digits.as_str(), 10),
        None => None,
    }
}

/// Reads and checks the header of a table from the first bytes of its file
/// and the file's size: a file shorter than a header, and a header that
/// gives another size than the file has, are `BadHeader`.
pub fn load_tblmeta(head: &[u8], file_size: u64) -> (r: Result<TblMeta, Error>)
    ensures
        r is Err ==> r->Err_0 == Error::BadHeader,
        r is Ok <==> head@.len() >= 16 && TblMeta::spec_decode(head@).spec_tbl_bytes() == file_size,
        r is Ok ==> r->Ok_0 == TblMeta::spec_decode(head@),
{
    let meta = match TblMeta::from_raw(head) {
        Ok(meta) => meta,
        Err(e) => {
            return Err(e);
        },
    };
    match meta.checked_tbl_bytes() {
        Some(n) => {
            if n == file_size {
                Ok(meta)
            } else {
                Err(Error::BadHeader)
            }
        },
        None => Err(Error::BadHeader),
    }
}

/// Reads the header of a table that may hold fewer records than its header
/// announces, from the first bytes of its file and the file's size. The
/// header that is handed out counts the records that are there. A file
/// shorter than a header, one that ends inside a record, and one with more
/// records than announced are `BadHeader`.
pub fn load_tblmeta_partial(head: &[u8], file_size: u64) -> (r: Result<TblMeta, Error>)
    ensures
        r is Err ==> r->Err_0 == Error::BadHeader,
        r is Ok <==> head@.len() >= 16 && file_size >= 16 && TblMeta::spec_decode(head@).partial_len(
            file_size - 16,
        ) is Some,
        r is Ok ==> r->Ok_0 == TblMeta::spec_decode(head@).with_len(
            TblMeta::spec_decode(head@).partial_len(file_size - 16)->Some_0,
        ),
{
    let declared = match TblMeta::from_raw(head) {
        Ok(meta) => meta,
        Err(e) => {
            return Err(e);
        },
    };
    if file_size < 16 {
        return Err(Error::BadHeader);
    }
    match declared.checked_partial_len(file_size - 16) {
        Some(count) => Ok(
            TblMeta { len: count, keysize: declared.keysize, valsize: declared.valsize },
        ),
        None => Err(Error::BadHeader),
    }
}

/// The catalog of a family: each table with its header, in the order of the
/// tables' numbers.
pub struct DBMeta2(pub Vec<(TblTy, TblMeta)>);

/// A catalog entry as integers.
pub open spec fn entry_item(entry: (TblTy, TblMeta)) -> Item {
    (entry.0.spec_id(), entry.1.len, entry.1.keysize, entry.1.valsize)
}

/// What a scan found as integers.
pub open spec fn found_item(found: (u32, TblMeta)) -> Item {
    (found.0, found.1.len, found.1.keysize, found.1.valsize)
}

/// The sum of the tables' record counts.
pub open spec fn spec_total_items(entries: Seq<(TblTy, TblMeta)>) -> nat
    decreases entries.len(),
{
    if entries.len() == 0 {
        0
    } else {
        spec_total_items(entries.drop_last()) + entries.last().1.len as nat
    }
}

/// The sum of the tables' sizes in bytes.
pub open spec fn spec_total_bytes(entries: Seq<(TblTy, TblMeta)>) -> nat
    decreases entries.len(),
{
    if entries.len() == 0 {
        0
    } else {
        spec_total_bytes(entries.drop_last()) + entries.last().1.spec_tbl_bytes()
    }
}

/// The sum over the first tables is no larger than the sum over all.
proof fn lemma_total_items_grows(entries: Seq<(TblTy, TblMeta)>, n: int)
    requires
        0 <= n <= entries.len(),
    ensures
        spec_total_items(entries.take(n)) <= spec_total_items(entries),
    decreases entries.len() - n,
{
    if n < entries.len() {
        lemma_total_items_grows(entries, n + 1);
        assert(entries.take(n + 1).drop_last() =~= entries.take(n));
    } else {
        assert(entries.take(n) =~= entries);
    }
}

/// The sum over the first tables is no larger than the sum over all.
proof fn lemma_total_bytes_grows(entries: Seq<(TblTy, TblMeta)>, n: int)
    requires
        0 <= n <= entries.len(),
    ensures
        spec_total_bytes(entries.take(n)) <= spec_total_bytes(entries),
    decreases entries.len() - n,
{
    if n < entries.len() {
        lemma_total_bytes_grows(entries, n + 1);
        assert(entries.take(n + 1).drop_last() =~= entries.take(n));
    } else {
        assert(entries.take(n) =~= entries);
    }
}

impl DBMeta2 {
    /// The tables are in the order of their numbers.
    pub open spec fn ordered(self) -> bool {
        forall|i: int, j: int|
            0 <= i <= j < self.0@.len() ==> self.0@[i].0.spec_id() <= self.0@[j].0.spec_id()
    }

    /// The number of records of all tables together.
    pub fn total_items(&self) -> (n: u64)
        requires
            spec_total_items(self.0@) <= u64::MAX,
        ensures
            n == spec_total_items(self.0@),
    {
        let mut acc: u64 = 0;
        let mut i: usize = 0;
        while i < self.0.len()
            invariant
                i <= self.0@.len(),
                acc == spec_total_items(self.0@.take(i as int)),
                spec_total_items(self.0@) <= u64::MAX,
            decreases self.0@.len() - i,
        {
            proof {
                lemma_total_items_grows(self.0@, i + 1);
                assert(self.0@.take(i + 1).drop_last() =~= self.0@.take(i as int));
            }
            acc = acc + self.0[i].1.len;
            i += 1;
        }
        proof {
            assert(self.0@.take(i as int) =~= self.0@);
        }
        acc
    }

    /// The number of records of all tables together, or `None` where it
    /// does not fit in 64 bits.
    pub fn checked_total_items(&self) -> (n: Option<u64>)
        ensures
            n is Some <==> spec_total_items(self.0@) <= u64::MAX,
            n is Some ==> n->Some_0 == spec_total_items(self.0@),
    {
        let mut acc: u64 = 0;
        let mut i: usize = 0;
        while i < self.0.len()
            invariant
                i <= self.0@.len(),
                acc == spec_total_items(self.0@.take(i as int)),
            decreases self.0@.len() - i,
        {
            proof {
                lemma_total_items_grows(self.0@, i + 1);
                assert(self.0@.take(i + 1).drop_last() =~= self.0@.take(i as int));
            }
            acc = match acc.checked_add(self.0[i].1.len) {
                Some(sum) => sum,
                None => {
                    return None;
                },
            };
            i += 1;
        }
        proof {
            assert(self.0@.take(i as int) =~= self.0@);
        }
        Some(acc)
    }

    /// The size of all tables together in bytes, or `None` where it does not
    /// fit in 64 bits.
    pub fn checked_total_bytes(&self) -> (n: Option<u64>)
        ensures
            n is Some <==> spec_total_bytes(self.0@) <= u64::MAX,
            n is Some ==> n->Some_0 == spec_total_bytes(self.0@),
    {
        let mut acc: u64 = 0;
        let mut i: usize = 0;
        while i < self.0.len()
            invariant
                i <= self.0@.len(),
                acc == spec_total_bytes(self.0@.take(i as int)),
            decreases self.0@.len() - i,
        {
            proof {
                lemma_total_bytes_grows(self.0@, i + 1);
                assert(self.0@.take(i + 1).drop_last() =~= self.0@.take(i as int));
            }
            let size = match self.0[i].1.checked_tbl_bytes() {
                Some(size) => size,
                None => {
                    return None;
                },
            };
            acc = match acc.checked_add(size) {
                Some(sum) => sum,
                None => {
                    return None;
                },
            };
            i += 1;
        }
        proof {
            assert(self.0@.take(i as int) =~= self.0@);
        }
        Some(acc)
    }
}

/// What a scan found, as integers.
pub open spec fn found_items(found: Seq<(u32, TblMeta)>) -> Seq<Item> {
    Seq::new(found.len(), |i: int| found_item(found[i]))
}

/// The entries of a catalog, as integers.
pub open spec fn entry_items(entries: Seq<(TblTy, TblMeta)>) -> Seq<Item> {
    Seq::new(entries.len(), |i: int| entry_item(entries[i]))
}

/// Whether `catalog` is the catalog of what a scan found: the same tables,
/// each of the family that `first` belongs to, in the order of their numbers
/// and, where a number occurs twice, of their headers.
pub open spec fn is_catalog_of(catalog: DBMeta2, found: Seq<(u32, TblMeta)>, first: TblTy) -> bool {
    &&& catalog.0@.len() == found.len()
    &&& catalog.ordered()
    &&& items_sorted(entry_items(catalog.0@))
    &&& entry_items(catalog.0@).to_multiset() == found_items(found).to_multiset()
    &&& forall|i: int|
        0 <= i < catalog.0@.len() ==> (#[trigger] catalog.0@[i]).0 == first.with_id(
            catalog.0@[i].0.spec_id(),
        )
}

/// Puts what a scan found in the order of the tables' numbers.
fn load_catalog(found: &Vec<(u32, TblMeta)>, first: TblTy) -> (catalog: DBMeta2)
    ensures
        is_catalog_of(catalog, found@, first),
{
    let mut coll = sorted_vec_new();
    let mut i: usize = 0;
    proof {
        assert(found_items(found@.take(0)) =~= Seq::<Item>::empty());
    }
    while i < found.len()
        invariant
            i <= found@.len(),
            items_sorted(sorted_vec_items(coll)),
            sorted_vec_items(coll).to_multiset() == found_items(found@.take(i as int)).to_multiset(),
        decreases found@.len() - i,
    {
        let (id, meta) = found[i];
        let item: Item = (id, meta.len, meta.keysize, meta.valsize);
        let ghost before = sorted_vec_items(coll);
        let at = sorted_vec_insert(&mut coll, item);
        proof {
            let head = found_items(found@.take(i as int));
            to_multiset_insert(before, at as int, item);
            to_multiset_build(head, item);
            assert(found_items(found@.take(i + 1)) =~= head.push(item));
        }
        i += 1;
    }
    proof {
        assert(found@.take(i as int) =~= found@);
    }
    let items = sorted_vec_into_vec(coll);
    let mut entries: Vec<(TblTy, TblMeta)> = Vec::new();
    let mut k: usize = 0;
    while k < items.len()
        invariant
            k <= items@.len(),
            entries@.len() == k,
            forall|j: int|
                0 <= j < k ==> entry_item(#[trigger] entries@[j]) == items@[j] && entries@[j].0
                    == first.with_id(items@[j].0),
        decreases items@.len() - k,
    {
        let (id, len, keysize, valsize) = items[k];
        let ty = match first {
            TblTy::Normal(_) => TblTy::Normal(id),
            TblTy::Dup(_) => TblTy::Dup(id),
            TblTy::Resolve(_, resolver) => TblTy::Resolve(id, resolver),
        };
        entries.push((ty, TblMeta { len, keysize, valsize }));
        k += 1;
    }
    let catalog = DBMeta2(entries);
    proof {
        to_multiset_len(items@);
        to_multiset_len(found_items(found@));
        assert(entry_items(catalog.0@) =~= items@);
        assert forall|a: int, b: int| 0 <= a <= b < catalog.0@.len() implies catalog.0@[a].0.spec_id()
            <= catalog.0@[b].0.spec_id() by {
            assert(item_le(items@[a], items@[b]));
            assert(entry_item(catalog.0@[a]) == items@[a]);
            assert(entry_item(catalog.0@[b]) == items@[b]);
        }
    }
    catalog
}

/// The catalog of the primary database from what a scan found.
pub fn load_dbmeta(found: &Vec<(u32, TblMeta)>) -> (catalog: DBMeta2)
    ensures
        is_catalog_of(catalog, found@, TblTy::Normal(0)),
{
    load_catalog(found, TblTy::Normal(0))
}

/// The catalog of the duplicate database from what a scan found.
pub fn load_dup_dbmeta(found: &Vec<(u32, TblMeta)>) -> (catalog: DBMeta2)
    ensures
        is_catalog_of(catalog, found@, TblTy::Dup(0)),
{
    load_catalog(found, TblTy::Dup(0))
}

impl CollisionResolver {
    /// The number of the resolution table that a directory entry stands for,
    /// if it stands for one.
    pub fn tbl_id(&self, name: &str) -> (id: Option<u32>)
        ensures
            id == spec_numbered_id(name@),
    {
        match self {
            CollisionResolver::Rehash => match first_group("([0-9]+)", name) {
                Some(digits) => parse_number(digits.as_str(), 10),
                None => None,
            },
        }
    }

    /// The catalog of the resolution database from what a scan found.
    pub fn load_dbmeta(&self, found: &Vec<(u32, TblMeta)>) -> (catalog: DBMeta2)
        ensures
            is_catalog_of(catalog, found@, TblTy::Resolve(0, *self)),
    {
        match self {
            CollisionResolver::Rehash => load_catalog(
                found,
                TblTy::Resolve(0, CollisionResolver::Rehash),
            ),
        }
    }
}

} // verus!
