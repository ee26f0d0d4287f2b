//! Lists without repetition: an item is added only if no item with the same key is
//! there yet, so of several items with one key the first stays.
use vstd::prelude::*;

verus! {

/// An item that lists tell apart by a text.
pub trait Keyed: Sized {
    spec fn key(self) -> Seq<char>;
}

impl Keyed for Seq<char> {
    open spec fn key(self) -> Seq<char> {
        self
    }
}

/// The list holds an item with the key `k`.
pub open spec fn has_key<T: Keyed>(list: Seq<T>, k: Seq<char>) -> bool {
    exists|i: int| 0 <= i < list.len() && (#[trigger] list[i]).key() == k
}

/// No two items of the list have the same key.
pub open spec fn all_distinct<T: Keyed>(list: Seq<T>) -> bool {
    forall|i: int, j: int|
        0 <= i < j < list.len() ==> (#[trigger] list[i]).key() != (#[trigger] list[j]).key()
}

/// `list` with `x` at its end, unless it holds an item with the key of `x`.
pub open spec fn push_new<T: Keyed>(list: Seq<T>, x: T) -> Seq<T> {
    if has_key(list, x.key()) {
        list
    } else {
        list.push(x)
    }
}

/// `list` with each of `items` added in turn, where its key is new.
pub open spec fn extend_new<T: Keyed>(list: Seq<T>, items: Seq<T>) -> Seq<T>
    decreases items.len(),
{
    if items.len() == 0 {
        list
    } else {
        push_new(extend_new(list, items.drop_last()), items.last())
    }
}

/// The items of `items` whose key occurs at no earlier place.
pub open spec fn first_of_each<T: Keyed>(items: Seq<T>) -> Seq<T> {
    extend_new(Seq::empty(), items)
}

/// The first `n` items of a list, or all of a shorter one.
pub open spec fn at_most<T>(list: Seq<T>, n: nat) -> Seq<T> {
    if list.len() <= n {
        list
    } else {
        list.take(n as int)
    }
}

/// One more item.
pub proof fn lemma_extend_step<T: Keyed>(list: Seq<T>, items: Seq<T>, i: int)
    requires
        0 <= i < items.len(),
    ensures
        extend_new(list, items.take(i + 1)) == push_new(extend_new(list, items.take(i)), items[i]),
{
    assert(items.take(i + 1).drop_last() =~= items.take(i));
    assert(items.take(i + 1).last() == items[i]);
}

/// Adding a list of one item.
pub proof fn lemma_extend_one<T: Keyed>(list: Seq<T>, x: T)
    ensures
        extend_new(list, seq![x]) == push_new(list, x),
{
    assert(seq![x].drop_last() =~= Seq::<T>::empty());
    assert(extend_new(list, Seq::<T>::empty()) == list);
    reveal_with_fuel(extend_new, 2);
}

/// One more item at the end of what is added.
pub proof fn lemma_extend_push<T: Keyed>(list: Seq<T>, items: Seq<T>, x: T)
    ensures
        extend_new(list, items.push(x)) == push_new(extend_new(list, items), x),
{
    assert(items.push(x).drop_last() =~= items);
}

/// Adding two lists one after the other is adding the list of both.
pub proof fn lemma_extend_concat<T: Keyed>(list: Seq<T>, a: Seq<T>, b: Seq<T>)
    ensures
        extend_new(list, a + b) == extend_new(extend_new(list, a), b),
    decreases b.len(),
{
    if b.len() == 0 {
        assert(a + b =~= a);
    } else {
        assert((a + b).drop_last() =~= a + b.drop_last());
        lemma_extend_concat(list, a, b.drop_last());
    }
}

/// What is in the list stays where it is.
pub proof fn law_extend_keeps_list<T: Keyed>(list: Seq<T>, items: Seq<T>)
    ensures
        list.len() <= extend_new(list, items).len(),
        extend_new(list, items).take(list.len() as int) == list,
        extend_new(list, items).len() <= list.len() + items.len(),
    decreases items.len(),
{
    if items.len() == 0 {
        assert(list.take(list.len() as int) =~= list);
    } else {
        law_extend_keeps_list(list, items.drop_last());
        let before = extend_new(list, items.drop_last());
        assert(extend_new(list, items).take(list.len() as int) =~= before.take(list.len() as int));
    }
}

/// A list without repetition stays one.
pub proof fn law_extend_distinct<T: Keyed>(list: Seq<T>, items: Seq<T>)
    requires
        all_distinct(list),
    ensures
        all_distinct(extend_new(list, items)),
    decreases items.len(),
{
    if items.len() > 0 {
        law_extend_distinct(list, items.drop_last());
    }
}

/// The keys afterwards are those of the list and those of the items.
pub proof fn law_extend_keys<T: Keyed>(list: Seq<T>, items: Seq<T>, k: Seq<char>)
    ensures
        has_key(extend_new(list, items), k) <==> has_key(list, k) || has_key(items, k),
    decreases items.len(),
{
    if items.len() > 0 {
        law_extend_keys(list, items.drop_last(), k);
        let before = extend_new(list, items.drop_last());
        let after = extend_new(list, items);
        let x = items.last();
        if has_key(items, k) && !has_key(items.drop_last(), k) {
            let i = choose|i: int| 0 <= i < items.len() && (#[trigger] items[i]).key() == k;
            if i < items.len() - 1 {
                assert(items.drop_last()[i].key() == k);
            }
            assert(x.key() == k);
        }
        if has_key(items.drop_last(), k) {
            let i = choose|i: int|
                0 <= i < items.drop_last().len() && (#[trigger] items.drop_last()[i]).key() == k;
            assert(items[i].key() == k);
        }
        if x.key() == k {
            assert(items[items.len() - 1].key() == k);
        }
        if !has_key(before, x.key()) {
            assert(after == before.push(x));
            assert(after[before.len() as int] == x);
            if has_key(before, k) {
                let i = choose|i: int| 0 <= i < before.len() && (#[trigger] before[i]).key() == k;
                assert(after[i].key() == k);
            }
            if has_key(after, k) && !has_key(before, k) {
                let i = choose|i: int| 0 <= i < after.len() && (#[trigger] after[i]).key() == k;
                if i < before.len() {
                    assert(before[i].key() == k);
                }
            }
        }
    }
}

/// Every item afterwards was in the list or is one of the items.
pub proof fn law_extend_members<T: Keyed>(list: Seq<T>, items: Seq<T>, i: int)
    requires
        0 <= i < extend_new(list, items).len(),
    ensures
        list.contains(extend_new(list, items)[i]) || items.contains(extend_new(list, items)[i]),
    decreases items.len(),
{
    if items.len() == 0 {
        assert(list.contains(list[i]));
    } else {
        let before = extend_new(list, items.drop_last());
        let after = extend_new(list, items);
        if i < before.len() {
            law_extend_members(list, items.drop_last(), i);
            if items.drop_last().contains(before[i]) {
                let j = choose|j: int|
                    0 <= j < items.drop_last().len() && items.drop_last()[j] == before[i];
                assert(items[j] == before[i]);
            }
        } else {
            assert(after[i] == items[items.len() - 1]);
        }
    }
}

/// What stands behind the list afterwards is one of the items.
pub proof fn law_extend_adds_items<T: Keyed>(list: Seq<T>, items: Seq<T>, i: int)
    requires
        list.len() <= i < extend_new(list, items).len(),
    ensures
        items.contains(extend_new(list, items)[i]),
    decreases items.len(),
{
    if items.len() > 0 {
        let before = extend_new(list, items.drop_last());
        if i < before.len() {
            law_extend_adds_items(list, items.drop_last(), i);
            let x = before[i];
            let j = choose|j: int|
                0 <= j < items.drop_last().len() && items.drop_last()[j] == x;
            assert(items[j] == x);
        } else {
            assert(items[items.len() - 1] == items.last());
        }
    }
}

/// Cutting a list to its first `n` items before more are added makes no difference
/// to the first `n` afterwards.
pub proof fn lemma_cut_then_extend<T: Keyed>(list: Seq<T>, items: Seq<T>, n: nat)
    ensures
        at_most(extend_new(at_most(list, n), items), n) == at_most(extend_new(list, items), n),
{
    if list.len() > n {
        let cut = at_most(list, n);
        law_extend_keeps_list(cut, items);
        law_extend_keeps_list(list, items);
        let a = extend_new(cut, items);
        let b = extend_new(list, items);
        assert forall|j: int| 0 <= j < n implies a[j] == b[j] by {
            assert(a.take(cut.len() as int)[j] == cut[j]);
            assert(b.take(list.len() as int)[j] == list[j]);
        }
        assert(at_most(a, n) =~= at_most(b, n));
    }
}

/// As above, for one item.
pub proof fn lemma_cut_then_push<T: Keyed>(list: Seq<T>, x: T, n: nat)
    ensures
        at_most(push_new(at_most(list, n), x), n) == at_most(push_new(list, x), n),
{
    lemma_cut_then_extend(list, seq![x], n);
    lemma_extend_one(list, x);
    lemma_extend_one(at_most(list, n), x);
}

/// The first `n` items of a list without repetition repeat nothing.
pub proof fn lemma_at_most_distinct<T: Keyed>(list: Seq<T>, n: nat)
    requires
        all_distinct(list),
    ensures
        all_distinct(at_most(list, n)),
        at_most(list, n).len() <= n,
{
}

/// The first place at which the key `k` occurs among the items; their number if it does
/// not.
pub open spec fn first_place<T: Keyed>(items: Seq<T>, k: Seq<char>) -> int
    decreases items.len(),
{
    if items.len() == 0 {
        0
    } else if items[0].key() == k {
        0
    } else {
        1 + first_place(items.drop_first(), k)
    }
}

/// The first place of a key holds it, no place before does, and there is none exactly if
/// no item has the key.
pub proof fn law_first_place<T: Keyed>(items: Seq<T>, k: Seq<char>)
    ensures
        0 <= first_place(items, k) <= items.len(),
        first_place(items, k) < items.len() <==> has_key(items, k),
        first_place(items, k) < items.len() ==> items[first_place(items, k)].key() == k,
        forall|j: int| 0 <= j < first_place(items, k) ==> (#[trigger] items[j]).key() != k,
    decreases items.len(),
{
    if items.len() > 0 {
        let rest = items.drop_first();
        law_first_place(rest, k);
        if items[0].key() != k {
            assert forall|j: int| 0 <= j < first_place(items, k) implies (
            #[trigger] items[j]).key() != k by {
                if j > 0 {
                    assert(rest[j - 1].key() != k);
                }
            }
            if has_key(items, k) {
                let i = choose|i: int| 0 <= i < items.len() && (#[trigger] items[i]).key() == k;
                assert(rest[i - 1].key() == k);
            }
        }
    }
}

/// A place that holds the key, with none before that does, is its first place.
pub proof fn lemma_first_place_is<T: Keyed>(items: Seq<T>, k: Seq<char>, p: int)
    requires
        0 <= p < items.len(),
        items[p].key() == k,
        forall|j: int| 0 <= j < p ==> (#[trigger] items[j]).key() != k,
    ensures
        first_place(items, k) == p,
{
    law_first_place(items, k);
    let q = first_place(items, k);
    assert(has_key(items, k));
    if q < p {
        assert(items[q].key() != k);
    }
}

/// What was added is the first of the items with its key, which the list did not have,
/// and what is added comes in the order of the items.
pub proof fn law_extend_order<T: Keyed>(list: Seq<T>, items: Seq<T>)
    ensures
        forall|i: int|
            list.len() <= i < extend_new(list, items).len() ==> {
                let x = #[trigger] extend_new(list, items)[i];
                &&& !has_key(list, x.key())
                &&& 0 <= first_place(items, x.key()) < items.len()
                &&& items[first_place(items, x.key())] == x
            },
        forall|i: int, j: int|
            list.len() <= i < j < extend_new(list, items).len() ==> first_place(
                items,
                (#[trigger] extend_new(list, items)[i]).key(),
            ) < first_place(items, (#[trigger] extend_new(list, items)[j]).key()),
    decreases items.len(),
{
    if items.len() > 0 {
        let front = items.drop_last();
        let before = extend_new(list, front);
        let after = extend_new(list, items);
        let last = items.last();
        law_extend_order(list, front);
        law_extend_keeps_list(list, front);
        assert forall|i: int| list.len() <= i < after.len() implies ({
            let x = #[trigger] after[i];
            &&& !has_key(list, x.key())
            &&& 0 <= first_place(items, x.key()) < items.len()
            &&& items[first_place(items, x.key())] == x
            &&& (i < before.len() ==> first_place(items, x.key()) == first_place(front, x.key()))
            &&& (i == before.len() ==> first_place(items, x.key()) == items.len() - 1)
        }) by {
            let x = after[i];
            if i < before.len() {
                assert(after[i] == before[i]);
                let p = first_place(front, x.key());
                law_first_place(front, x.key());
                assert(items[p] == front[p]);
                assert forall|j: int| 0 <= j < p implies (#[trigger] items[j]).key() != x.key() by {
                    assert(items[j] == front[j]);
                }
                lemma_first_place_is(items, x.key(), p);
            } else {
                assert(x == last);
                assert(!has_key(before, last.key()));
                law_extend_keys(list, front, last.key());
                let p = items.len() - 1;
                assert forall|j: int| 0 <= j < p implies (#[trigger] items[j]).key() != last.key() by {
                    assert(front[j] == items[j]);
                    assert(!has_key(front, last.key()));
                }
                lemma_first_place_is(items, last.key(), p);
            }
        }
        assert forall|i: int, j: int| list.len() <= i < j < after.len() implies first_place(
            items,
            (#[trigger] after[i]).key(),
        ) < first_place(items, (#[trigger] after[j]).key()) by {
            assert(after[i] == before[i]);
            law_first_place(front, before[i].key());
            if j < before.len() {
                assert(after[j] == before[j]);
            }
        }
    }
}

/// A list that is cut to `n` items is the list up to there, and one that is no longer
/// stays as it is.
pub proof fn law_at_most<T>(list: Seq<T>, n: nat)
    ensures
        at_most(list, n).len() == if list.len() <= n {
            list.len()
        } else {
            n
        },
        forall|i: int| 0 <= i < at_most(list, n).len() ==> at_most(list, n)[i] == #[trigger] list[i],
{
}

} // verus!
