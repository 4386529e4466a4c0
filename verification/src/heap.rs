//! A binary min-heap of records, and the sort that pushing and popping gives.

use vstd::prelude::*;
use vstd::multiset::*;
use vstd::seq_lib::*;
use crate::data::{record_le, record_lt, sorted, Record};

verus! {

/// Every item is no smaller than its parent.
spec fn heap_ordered(s: Seq<Record>) -> bool {
    forall|i: int| 1 <= i < s.len() ==> record_le(s[(i - 1) / 2], #[trigger] s[i])
}

/// Every item but `k` is no smaller than its parent, and the children of `k`
/// are no smaller than the parent of `k`.
spec fn ordered_but_at(s: Seq<Record>, k: int) -> bool {
    &&& forall|i: int| 1 <= i < s.len() && i != k ==> record_le(s[(i - 1) / 2], #[trigger] s[i])
    &&& forall|i: int|
        1 <= i < s.len() && (i - 1) / 2 == k && k > 0 ==> record_le(s[(k - 1) / 2], #[trigger] s[i])
}

/// Every item whose parent is not `k` is no smaller than its parent, and the
/// children of `k` are no smaller than the parent of `k`.
spec fn ordered_but_below(s: Seq<Record>, k: int) -> bool {
    &&& forall|i: int|
        1 <= i < s.len() && (i - 1) / 2 != k ==> record_le(s[(i - 1) / 2], #[trigger] s[i])
    &&& forall|i: int|
        1 <= i < s.len() && (i - 1) / 2 == k && k > 0 ==> record_le(s[(k - 1) / 2], #[trigger] s[i])
}

/// The root of a heap is its smallest item.
proof fn lemma_root_is_least(s: Seq<Record>, i: int)
    requires
        heap_ordered(s),
        0 <= i < s.len(),
    ensures
        record_le(s[0], s[i]),
    decreases i,
{
    if i > 0 {
        lemma_root_is_least(s, (i - 1) / 2);
        assert(record_le(s[(i - 1) / 2], s[i]));
    }
}

/// Exchanges two items.
fn swap(v: &mut Vec<Record>, i: usize, j: usize)
    requires
        i < old(v)@.len(),
        j < old(v)@.len(),
    ensures
        final(v)@ == old(v)@.update(i as int, old(v)@[j as int]).update(j as int, old(v)@[i as int]),
        final(v)@.len() == old(v)@.len(),
        final(v)@.to_multiset() == old(v)@.to_multiset(),
{
    broadcast use {group_to_multiset_ensures, group_multiset_axioms};

    let a = v[i];
    let b = v[j];
    v.set(i, b);
    v.set(j, a);
    assert(v@.to_multiset() =~= old(v)@.to_multiset());
}

/// Moves the item at `at` up until its parent is no larger.
fn sift_up(v: &mut Vec<Record>, at: usize)
    requires
        at < old(v)@.len(),
        ordered_but_at(old(v)@, at as int),
    ensures
        heap_ordered(final(v)@),
        final(v)@.to_multiset() == old(v)@.to_multiset(),
        final(v)@.len() == old(v)@.len(),
{
    let mut k: usize = at;
    while k > 0
        invariant
            k < v@.len(),
            ordered_but_at(v@, k as int),
            v@.to_multiset() == old(v)@.to_multiset(),
            v@.len() == old(v)@.len(),
        ensures
            heap_ordered(v@),
        decreases k,
    {
        let p: usize = (k - 1) / 2;
        if record_lt(v[k], v[p]) {
            let ghost s = v@;
            swap(v, k, p);
            proof {
                assert forall|i: int| 1 <= i < v@.len() && i != p implies record_le(
                    v@[(i - 1) / 2],
                    #[trigger] v@[i],
                ) by {
                    if i == k {
                    } else if (i - 1) / 2 == k {
                        assert(record_le(s[p as int], s[i]));
                    } else if (i - 1) / 2 == p {
                        assert(record_le(s[p as int], s[i]));
                    } else {
                        assert(record_le(s[(i - 1) / 2], s[i]));
                    }
                }
                assert forall|i: int| 1 <= i < v@.len() && (i - 1) / 2 == p && p > 0 implies record_le(
                    v@[(p - 1) / 2],
                    #[trigger] v@[i],
                ) by {
                    assert(record_le(s[(p - 1) / 2], s[p as int]));
                    if i != k {
                        assert(record_le(s[p as int], s[i]));
                    }
                }
            }
            k = p;
        } else {
            proof {
                assert(record_le(v@[(k - 1) / 2], v@[k as int]));
            }
            break ;
        }
    }
}

/// Moves the item at the root down until its children are no smaller.
fn sift_down(v: &mut Vec<Record>)
    requires
        ordered_but_below(old(v)@, 0),
    ensures
        heap_ordered(final(v)@),
        final(v)@.to_multiset() == old(v)@.to_multiset(),
        final(v)@.len() == old(v)@.len(),
{
    let len: usize = v.len();
    let mut k: usize = 0;
    while k < len / 2
        invariant
            len == v@.len(),
            k < len || len == 0,
            ordered_but_below(v@, k as int),
            v@.to_multiset() == old(v)@.to_multiset(),
            v@.len() == old(v)@.len(),
        ensures
            heap_ordered(v@),
        decreases len - k,
    {
        let l: usize = 2 * k + 1;
        let r: usize = l + 1;
        let c: usize = if r < len && record_lt(v[r], v[l]) {
            r
        } else {
            l
        };
        if record_lt(v[c], v[k]) {
            let ghost s = v@;
            swap(v, k, c);
            proof {
                assert forall|i: int| 1 <= i < v@.len() && (i - 1) / 2 != c implies record_le(
                    v@[(i - 1) / 2],
                    #[trigger] v@[i],
                ) by {
                    if i == c {
                    } else if (i - 1) / 2 == k {
                        assert(i == l || i == r);
                    } else if i == k {
                        assert(record_le(s[(k - 1) / 2], s[c as int]));
                    } else {
                        assert(record_le(s[(i - 1) / 2], s[i]));
                    }
                }
                assert forall|i: int| 1 <= i < v@.len() && (i - 1) / 2 == c && c > 0 implies record_le(
                    v@[(c - 1) / 2],
                    #[trigger] v@[i],
                ) by {
                    assert(record_le(s[c as int], s[i]));
                }
            }
            k = c;
        } else {
            proof {
                assert forall|i: int| 1 <= i < v@.len() implies record_le(
                    v@[(i - 1) / 2],
                    #[trigger] v@[i],
                ) by {
                    if (i - 1) / 2 == k {
                        assert(i == l || i == r);
                    }
                }
            }
            break ;
        }
    }
}

/// A min-heap of records: the smallest record, by key and then by value,
/// leaves first.
pub struct MinHeap {
    items: Vec<Record>,
}

impl View for MinHeap {
    type V = Multiset<Record>;

    /// The records in the heap, each as often as it was pushed and not yet
    /// popped.
    closed spec fn view(&self) -> Multiset<Record> {
        self.items@.to_multiset()
    }
}

impl MinHeap {
    #[verifier::type_invariant]
    spec fn inv(self) -> bool {
        heap_ordered(self.items@)
    }

    /// An empty heap with room for `capacity` records.
    pub fn with_capacity(capacity: usize) -> (h: MinHeap)
        ensures
            h@ == Multiset::<Record>::empty(),
    {
        broadcast use {group_to_multiset_ensures, group_multiset_axioms};

        let items: Vec<Record> = Vec::with_capacity(capacity);
        assert(items@.to_multiset().len() == 0);
        assert(items@.to_multiset() =~= Multiset::<Record>::empty());
        MinHeap { items }
    }

    /// The number of records in the heap.
    pub fn len(&self) -> (n: usize)
        ensures
            n == self@.len(),
    {
        broadcast use group_to_multiset_ensures;

        self.items.len()
    }

    /// Adds a record.
    pub fn push(&mut self, item: Record)
        ensures
            final(self)@ == old(self)@.insert(item),
    {
        broadcast use group_to_multiset_ensures;

        proof {
            use_type_invariant(&*self);
        }
        let mut items: Vec<Record> = Vec::new();
        std::mem::swap(&mut self.items, &mut items);
        heap_push(&mut items, item);
        self.items = items;
    }

    /// Takes the smallest record out; `None` where the heap is empty.
    pub fn pop(&mut self) -> (least: Option<Record>)
        ensures
            least is None ==> old(self)@.len() == 0 && final(self)@ == old(self)@,
            least is Some ==> old(self)@.count(least->Some_0) > 0,
            least is Some ==> final(self)@ == old(self)@.remove(least->Some_0),
            least is Some ==> forall|x: Record|
                old(self)@.count(x) > 0 ==> record_le(least->Some_0, x),
    {
        broadcast use group_to_multiset_ensures;

        proof {
            use_type_invariant(&*self);
        }
        let mut items: Vec<Record> = Vec::new();
        std::mem::swap(&mut self.items, &mut items);
        let least = heap_pop(&mut items);
        self.items = items;
        least
    }

    /// Takes every record out, smallest first.
    pub fn into_sorted_vec(self) -> (out: Vec<Record>)
        ensures
            sorted(out@),
            out@.to_multiset() == self@,
    {
        broadcast use {group_to_multiset_ensures, group_multiset_axioms};

        let ghost all = self@;
        let mut heap = self;
        let mut out: Vec<Record> = Vec::with_capacity(heap.len());
        assert(out@.to_multiset().len() == 0);
        assert(out@.to_multiset() =~= Multiset::<Record>::empty());
        loop
            invariant
                sorted(out@),
                out@.to_multiset().add(heap@) == all,
                forall|i: int, y: Record|
                    #![trigger out@[i], heap@.count(y)]
                    0 <= i < out@.len() && heap@.count(y) > 0 ==> record_le(out@[i], y),
            ensures
                heap@.len() == 0,
            decreases heap@.len(),
        {
            let ghost before = heap@;
            let ghost done = out@;
            match heap.pop() {
                Some(least) => {
                    out.push(least);
                    proof {
                        assert(out@ == done.push(least));
                        to_multiset_build(done, least);
                        assert(out@.to_multiset().add(heap@) =~= done.to_multiset().add(before));
                        assert forall|i: int, j: int| 0 <= i <= j < out@.len() implies record_le(
                            out@[i],
                            out@[j],
                        ) by {
                            if j == out@.len() - 1 && i < j {
                                assert(record_le(done[i], least));
                            } else if j < out@.len() - 1 {
                                assert(record_le(done[i], done[j]));
                            }
                        }
                        assert forall|i: int, y: Record|
                            #![trigger out@[i], heap@.count(y)]
                            0 <= i < out@.len() && heap@.count(y) > 0 implies record_le(
                            out@[i],
                            y,
                        ) by {
                            assert(before.count(y) > 0);
                            if i < done.len() {
                                assert(record_le(done[i], y));
                            }
                        }
                    }
                },
                None => {
                    break ;
                },
            }
        }
        proof {
            assert(heap@ =~= Multiset::<Record>::empty());
            assert(out@.to_multiset() =~= all);
        }
        out
    }
}

/// Adds an item to a heap held in a vector.
fn heap_push(v: &mut Vec<Record>, item: Record)
    requires
        heap_ordered(old(v)@),
    ensures
        heap_ordered(final(v)@),
        final(v)@.to_multiset() == old(v)@.to_multiset().insert(item),
{
    broadcast use group_to_multiset_ensures;

    v.push(item);
    let at: usize = v.len() - 1;
    proof {
        assert forall|i: int| 1 <= i < v@.len() && i != at implies record_le(
            v@[(i - 1) / 2],
            #[trigger] v@[i],
        ) by {
            assert(record_le(old(v)@[(i - 1) / 2], old(v)@[i]));
        }
    }
    sift_up(v, at);
}

/// Takes the smallest item out of a heap held in a vector.
fn heap_pop(v: &mut Vec<Record>) -> (least: Option<Record>)
    requires
        heap_ordered(old(v)@),
    ensures
        heap_ordered(final(v)@),
        least is None ==> old(v)@.len() == 0 && final(v)@ == old(v)@,
        least is Some ==> old(v)@.to_multiset().count(least->Some_0) > 0,
        least is Some ==> final(v)@.to_multiset() == old(v)@.to_multiset().remove(least->Some_0),
        least is Some ==> forall|x: Record|
            old(v)@.to_multiset().count(x) > 0 ==> record_le(least->Some_0, x),
{
    broadcast use {group_to_multiset_ensures, group_multiset_axioms};

    let ghost s = v@;
    let last = match v.pop() {
        Some(last) => last,
        None => {
            return None;
        },
    };
    let ghost rest = v@;
    proof {
        assert(s =~= rest.push(last));
        assert forall|x: Record| s.to_multiset().count(x) > 0 implies record_le(s[0], x) by {
            assert(s.contains(x));
            let i = choose|i: int| 0 <= i < s.len() && s[i] == x;
            lemma_root_is_least(s, i);
        }
        assert(s.contains(s[0]));
    }
    if v.len() == 0 {
        proof {
            assert(s =~= seq![last]);
            assert(rest.to_multiset() =~= s.to_multiset().remove(last));
        }
        return Some(last);
    }
    let top = v[0];
    v.set(0, last);
    proof {
        assert(v@.to_multiset() =~= s.to_multiset().remove(top));
        assert forall|i: int| 1 <= i < v@.len() && (i - 1) / 2 != 0 implies record_le(
            v@[(i - 1) / 2],
            #[trigger] v@[i],
        ) by {
            assert(record_le(s[(i - 1) / 2], s[i]));
        }
    }
    sift_down(v);
    Some(top)
}

/// Sorts records by key, and by value where keys are equal: every record goes
/// through a min-heap.
pub fn sort_records(records: &Vec<Record>) -> (out: Vec<Record>)
    ensures
        sorted(out@),
        out@.to_multiset() == records@.to_multiset(),
{
    broadcast use group_to_multiset_ensures;

    let mut heap = MinHeap::with_capacity(records.len());
    let mut i: usize = 0;
    assert(records@.take(0).to_multiset().len() == 0);
    assert(records@.take(0).to_multiset() =~= Multiset::<Record>::empty());
    while i < records.len()
        invariant
            i <= records@.len(),
            heap@ == records@.take(i as int).to_multiset(),
        decreases records@.len() - i,
    {
        heap.push(records[i]);
        proof {
            let head = records@.take(i as int);
            assert(records@.take(i + 1) =~= head.push(records@[i as int]));
            to_multiset_build(head, records@[i as int]);
        }
        i += 1;
    }
    proof {
        assert(records@.take(i as int) =~= records@);
    }
    heap.into_sorted_vec()
}

} // verus!
