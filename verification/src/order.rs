//! Ascending lists of partition numbers and of names.

use std::collections::BTreeMap;

use vstd::prelude::*;
use vstd::seq_lib::{to_multiset_build, to_multiset_contains, to_multiset_insert};
use vstd::std_specs::iter::IteratorSpec;

use crate::text::{lemma_text_less_total, lemma_text_less_trans, text_before, text_less};

verus! {

/// Whether a list ascends in a strict order; nothing stands in it twice then.
pub open spec fn ascends<A>(list: Seq<A>, less: spec_fn(A, A) -> bool) -> bool {
    forall|i: int, j: int| 0 <= i < j < list.len() ==> less(#[trigger] list[i], #[trigger] list[j])
}

/// Whether no two elements precede each other, and none precedes itself.
pub open spec fn asymmetric<A>(less: spec_fn(A, A) -> bool) -> bool {
    forall|a: A, b: A| #[trigger] less(a, b) ==> !less(b, a)
}

/// Whether a list holds the elements of a set in ascending order.
pub open spec fn lists<A>(list: Seq<A>, set: Set<A>, less: spec_fn(A, A) -> bool) -> bool {
    &&& ascends(list, less)
    &&& forall|a: A| #[trigger] set.contains(a) <==> list.contains(a)
}

/// A set has at most one ascending list.
pub proof fn lemma_lists_unique<A>(
    list: Seq<A>,
    other: Seq<A>,
    set: Set<A>,
    less: spec_fn(A, A) -> bool,
)
    requires
        asymmetric(less),
        lists(list, set, less),
        lists(other, set, less),
    ensures
        list == other,
    decreases list.len(),
{
    if list.len() == 0 {
        if other.len() > 0 {
            assert(other.contains(other[0]));
            assert(set.contains(other[0]));
        }
        assert(list =~= other);
    } else {
        let last = list.last();
        assert(list.contains(list[list.len() - 1]));
        assert(set.contains(last));
        assert(other.len() > 0);
        let end = other.last();
        assert(other.contains(other[other.len() - 1]));
        assert(set.contains(end));
        let i = choose|i: int| 0 <= i < list.len() && list[i] == end;
        let j = choose|j: int| 0 <= j < other.len() && other[j] == last;
        if last != end {
            assert(less(list[i], list[list.len() - 1]));
            assert(less(other[j], other[other.len() - 1]));
        }
        let rest = set.remove(last);
        let list_rest = list.drop_last();
        let other_rest = other.drop_last();
        assert forall|a: A| #[trigger] rest.contains(a) <==> list_rest.contains(a) by {
            if rest.contains(a) {
                let k = choose|k: int| 0 <= k < list.len() && list[k] == a;
                assert(list_rest[k] == a);
            }
            if list_rest.contains(a) {
                let k = choose|k: int| 0 <= k < list_rest.len() && list_rest[k] == a;
                assert(list[k] == a);
                assert(less(list[k], list[list.len() - 1]));
            }
        }
        assert forall|a: A| #[trigger] rest.contains(a) <==> other_rest.contains(a) by {
            if rest.contains(a) {
                let k = choose|k: int| 0 <= k < other.len() && other[k] == a;
                assert(other_rest[k] == a);
            }
            if other_rest.contains(a) {
                let k = choose|k: int| 0 <= k < other_rest.len() && other_rest[k] == a;
                assert(other[k] == a);
                assert(less(other[k], other[other.len() - 1]));
            }
        }
        lemma_lists_unique(list_rest, other_rest, rest, less);
        assert(list =~= list_rest.push(last));
        assert(other =~= other_rest.push(end));
    }
}

/// Whether a strict order is transitive and compares any two elements.
pub open spec fn linear<A>(less: spec_fn(A, A) -> bool) -> bool {
    &&& asymmetric(less)
    &&& forall|a: A, b: A, c: A| #[trigger] less(a, b) && #[trigger] less(b, c) ==> less(a, c)
    &&& forall|a: A, b: A| a != b ==> #[trigger] less(a, b) || less(b, a)
}

proof fn lemma_put_in<A>(list: Seq<A>, item: A, less: spec_fn(A, A) -> bool) -> (r: Seq<A>)
    requires
        linear(less),
        ascends(list, less),
        !list.contains(item),
    ensures
        ascends(r, less),
        forall|a: A| #[trigger] r.contains(a) <==> list.contains(a) || a == item,
    decreases list.len(),
{
    if list.len() == 0 || less(list.last(), item) {
        let r = list.push(item);
        assert forall|i: int, j: int| 0 <= i < j < r.len() implies less(
            #[trigger] r[i],
            #[trigger] r[j],
        ) by {
            if j == list.len() && i < list.len() - 1 {
                assert(less(list[i], list[list.len() - 1]));
            }
        }
        assert forall|a: A| #[trigger] r.contains(a) <==> list.contains(a) || a == item by {
            if list.contains(a) {
                let k = choose|k: int| 0 <= k < list.len() && list[k] == a;
                assert(r[k] == a);
            }
            assert(r[list.len() as int] == item);
        }
        r
    } else {
        let last = list.last();
        let rest = list.drop_last();
        assert(list.contains(list[list.len() - 1]));
        assert(less(item, last));
        assert forall|a: A| rest.contains(a) implies list.contains(a) by {
            let k = choose|k: int| 0 <= k < rest.len() && rest[k] == a;
            assert(list[k] == a);
        }
        let head = lemma_put_in(rest, item, less);
        let r = head.push(last);
        assert forall|i: int, j: int| 0 <= i < j < r.len() implies less(
            #[trigger] r[i],
            #[trigger] r[j],
        ) by {
            if j == head.len() {
                assert(head.contains(head[i]));
                if head[i] != item {
                    let k = choose|k: int| 0 <= k < rest.len() && rest[k] == head[i];
                    assert(less(list[k], list[list.len() - 1]));
                }
            }
        }
        assert forall|a: A| #[trigger] r.contains(a) <==> list.contains(a) || a == item by {
            if r.contains(a) {
                let k = choose|k: int| 0 <= k < r.len() && r[k] == a;
                if k < head.len() {
                    assert(head[k] == a);
                    assert(head.contains(a));
                }
            }
            if list.contains(a) {
                let k = choose|k: int| 0 <= k < list.len() && list[k] == a;
                if k < rest.len() {
                    assert(rest[k] == a);
                    assert(rest.contains(a));
                } else {
                    assert(r[head.len() as int] == a);
                }
            }
            if list.contains(a) && rest.contains(a) || a == item {
                assert(head.contains(a));
                let k = choose|k: int| 0 <= k < head.len() && head[k] == a;
                assert(r[k] == a);
            }
        }
        r
    }
}

/// Every finite set has an ascending list.
pub proof fn lemma_lists_exists<A>(set: Set<A>, less: spec_fn(A, A) -> bool) -> (r: Seq<A>)
    requires
        linear(less),
        set.finite(),
    ensures
        lists(r, set, less),
    decreases set.len(),
{
    if set.len() == 0 {
        let r = Seq::<A>::empty();
        assert forall|a: A| #[trigger] set.contains(a) <==> r.contains(a) by {
            assert(!set.contains(a));
        }
        r
    } else {
        let item = set.choose();
        let rest = set.remove(item);
        let list = lemma_lists_exists(rest, less);
        assert(!list.contains(item)) by {
            assert(!rest.contains(item));
        }
        let r = lemma_put_in(list, item, less);
        assert forall|a: A| #[trigger] set.contains(a) <==> r.contains(a) by {
            assert(rest.contains(a) <==> list.contains(a));
        }
        r
    }
}

/// The order of partition numbers.
pub open spec fn id_order() -> spec_fn(i32, i32) -> bool {
    |a: i32, b: i32| a < b
}

/// The order of names.
pub open spec fn name_order() -> spec_fn(Seq<char>, Seq<char>) -> bool {
    |a: Seq<char>, b: Seq<char>| text_less(a, b)
}

/// The partition numbers of a finite set in ascending order.
pub open spec fn ascending_ids(set: Set<i32>) -> Seq<i32> {
    choose|list: Seq<i32>| lists(list, set, id_order())
}

/// The names of a finite set in ascending order.
pub open spec fn ascending_names(set: Set<Seq<char>>) -> Seq<Seq<char>> {
    choose|list: Seq<Seq<char>>| lists(list, set, name_order())
}

/// The ascending list of a set of partition numbers is the one that lists it.
pub proof fn lemma_ascending_ids(list: Seq<i32>, set: Set<i32>)
    requires
        lists(list, set, id_order()),
    ensures
        list == ascending_ids(set),
{
    lemma_lists_unique(list, ascending_ids(set), set, id_order());
}

/// The numbers of a finite set, in ascending order, are listed.
pub proof fn lemma_ascending_ids_list(set: Set<i32>)
    requires
        set.finite(),
    ensures
        lists(ascending_ids(set), set, id_order()),
{
    let list = lemma_lists_exists(set, id_order());
}

/// The order of names is linear.
pub proof fn lemma_name_order_linear()
    ensures
        linear(name_order()),
{
    let less = name_order();
    assert forall|a: Seq<char>, b: Seq<char>| #[trigger] less(a, b) implies !less(b, a) by {
        lemma_text_less_total(a, b);
    }
    assert forall|a: Seq<char>, b: Seq<char>, c: Seq<char>| #[trigger]
        less(a, b) && #[trigger] less(b, c) implies less(a, c) by {
        lemma_text_less_trans(a, b, c);
    }
    assert forall|a: Seq<char>, b: Seq<char>| a != b implies #[trigger] less(a, b) || less(
        b,
        a,
    ) by {
        lemma_text_less_total(a, b);
    }
}

/// The names of a finite set, in ascending order, are listed.
pub proof fn lemma_ascending_names_list(set: Set<Seq<char>>)
    requires
        set.finite(),
    ensures
        lists(ascending_names(set), set, name_order()),
{
    lemma_name_order_linear();
    let list = lemma_lists_exists(set, name_order());
}

/// The ascending list of a set of names is the one that lists it.
pub proof fn lemma_ascending_names(list: Seq<Seq<char>>, set: Set<Seq<char>>)
    requires
        lists(list, set, name_order()),
    ensures
        list == ascending_names(set),
{
    lemma_name_order_linear();
    lemma_lists_unique(list, ascending_names(set), set, name_order());
}

/// Whether numbers never descend.
pub open spec fn ids_sorted(ids: Seq<i32>) -> bool {
    forall|i: int, j: int| 0 <= i < j < ids.len() ==> ids[i] <= ids[j]
}

/// The numbers in ascending order.
pub fn sort_ids(ids: Vec<i32>) -> (r: Vec<i32>)
    ensures
        ids_sorted(r@),
        r@.to_multiset() == ids@.to_multiset(),
{
    let mut out: Vec<i32> = Vec::new();
    let mut i: usize = 0;
    proof {
        assert(ids@.take(0) =~= Seq::<i32>::empty());
        assert(out@ =~= Seq::<i32>::empty());
    }
    while i < ids.len()
        invariant
            i <= ids@.len(),
            ids_sorted(out@),
            out@.to_multiset() == ids@.take(i as int).to_multiset(),
        decreases ids.len() - i,
    {
        let id: i32 = ids[i];
        let mut at: usize = out.len();
        while at > 0 && id < out[at - 1]
            invariant
                at <= out@.len(),
                ids_sorted(out@),
                forall|j: int| at <= j < out@.len() ==> id < #[trigger] out@[j],
            decreases at,
        {
            at -= 1;
        }
        let ghost before = out@;
        out.insert(at, id);
        proof {
            assert(out@ =~= before.insert(at as int, id));
            assert forall|a: int, b: int| 0 <= a < b < out@.len() implies out@[a] <= out@[b] by {
                if at > 0 && a < at {
                    assert(before[a] <= before[at - 1]);
                }
            }
            assert(ids@.take(i + 1) =~= ids@.take(i as int).push(id));
            to_multiset_insert(before, at as int, id);
            to_multiset_build(ids@.take(i as int), id);
        }
        i += 1;
    }
    proof {
        assert(ids@.take(ids@.len() as int) =~= ids@);
    }
    out
}

/// The keys of a map in ascending order.
pub fn sorted_keys<V>(map: &BTreeMap<i32, V>) -> (r: Vec<i32>)
    ensures
        r@ == ascending_ids(map@.dom()),
        lists(r@, map@.dom(), id_order()),
{
    let mut keys: Vec<i32> = Vec::new();
    let ghost all = map.keys().remaining();
    for key in it: map.keys()
        invariant
            it.seq() == all,
            keys@ == all.unref().take(it.index()),
    {
        keys.push(*key);
        proof {
            assert(keys@ =~= all.unref().take(it.index() + 1));
        }
    }
    proof {
        assert(keys@ =~= all.unref());
        assert(keys@.to_set() == map@.dom());
        assert(keys@.no_duplicates());
    }
    let ghost collected = keys@;
    let sorted = sort_ids(keys);
    proof {
        collected.lemma_multiset_has_no_duplicates();
        sorted@.lemma_multiset_has_no_duplicates_conv();
        assert forall|key: i32| #[trigger] map@.dom().contains(key) <==> sorted@.contains(key) by {
            to_multiset_contains(collected, key);
            to_multiset_contains(sorted@, key);
            assert(collected.to_set().contains(key) <==> collected.contains(key));
        }
        assert forall|i: int, j: int| 0 <= i < j < sorted@.len() implies id_order()(
            #[trigger] sorted@[i],
            #[trigger] sorted@[j],
        ) by {
            assert(sorted@[i] != sorted@[j]);
        }
        lemma_ascending_ids(sorted@, map@.dom());
    }
    sorted
}

/// The texts of some strings.
pub open spec fn texts(strings: Seq<String>) -> Seq<Seq<char>> {
    Seq::new(strings.len(), |i: int| strings[i]@)
}

/// Whether names never descend.
pub open spec fn names_sorted(names: Seq<Seq<char>>) -> bool {
    forall|i: int, j: int|
        0 <= i < j < names.len() ==> #[trigger] names[i] == #[trigger] names[j] || text_less(
            names[i],
            names[j],
        )
}

/// The names in ascending order.
pub fn sort_names(names: Vec<String>) -> (r: Vec<String>)
    ensures
        names_sorted(texts(r@)),
        texts(r@).to_multiset() == texts(names@).to_multiset(),
{
    let mut out: Vec<String> = Vec::new();
    let mut i: usize = 0;
    let ghost told = texts(names@);
    proof {
        assert(told.take(0) =~= Seq::<Seq<char>>::empty());
        assert(texts(out@) =~= Seq::<Seq<char>>::empty());
    }
    while i < names.len()
        invariant
            i <= names@.len(),
            told == texts(names@),
            names_sorted(texts(out@)),
            texts(out@).to_multiset() == told.take(i as int).to_multiset(),
        decreases names.len() - i,
    {
        let name = names[i].as_str();
        let ghost before = texts(out@);
        let mut at: usize = out.len();
        while at > 0 && text_before(name, out[at - 1].as_str())
            invariant
                at <= out@.len(),
                before == texts(out@),
                forall|j: int| at <= j < before.len() ==> text_less(name@, #[trigger] before[j]),
            decreases at,
        {
            assert(before[at - 1] == out@[at - 1]@);
            at -= 1;
        }
        proof {
            assert forall|j: int| 0 <= j < at implies #[trigger] before[j] == name@ || text_less(
                before[j],
                name@,
            ) by {
                assert(before[at - 1] == out@[at - 1]@);
                lemma_text_less_total(before[at - 1], name@);
                if j < at - 1 {
                    if before[j] != before[at - 1] && before[at - 1] != name@ {
                        lemma_text_less_trans(before[j], before[at - 1], name@);
                    }
                }
            }
        }
        out.insert(at, name.to_owned());
        proof {
            let after = texts(out@);
            assert(after =~= before.insert(at as int, name@));
            assert forall|a: int, b: int| 0 <= a < b < after.len() implies #[trigger] after[a]
                == #[trigger] after[b] || text_less(after[a], after[b]) by {
                let old_a = if a < at { a } else { a - 1 };
                let old_b = if b < at { b } else { b - 1 };
                if a != at && b != at {
                    assert(after[a] == before[old_a] && after[b] == before[old_b]);
                } else if a == at {
                    assert(after[b] == before[old_b]);
                } else {
                    assert(after[a] == before[a]);
                }
            }
            assert(told.take(i + 1) =~= told.take(i as int).push(name@));
            to_multiset_insert(before, at as int, name@);
            to_multiset_build(told.take(i as int), name@);
        }
        i += 1;
    }
    proof {
        assert(told.take(told.len() as int) =~= told);
    }
    out
}

} // verus!
