use crate::names::{
    compare_names, lemma_name_order_flip, lemma_name_order_trans, name_le, name_order, NameOrder,
};
use vstd::prelude::*;

verus! {

/// A value that is ordered and found by a name it carries.
pub trait Named: View + Sized {
    /// The name, read off the value's view.
    spec fn name_of(v: Self::V) -> Seq<char>;

    fn name(&self) -> (r: &str)
        ensures
            r@ == Self::name_of(self@),
    ;
}

/// The views of the items of a list, in the same order.
pub open spec fn views<T: View>(s: Seq<T>) -> Seq<T::V> {
    Seq::new(s.len(), |i: int| s[i]@)
}

/// Every item of `r` is an item of `s`, and there are as many.
pub open spec fn drawn_from<T>(r: Seq<T>, s: Seq<T>) -> bool {
    &&& r.len() == s.len()
    &&& forall|i: int| 0 <= i < r.len() ==> s.contains(#[trigger] r[i])
}

/// No item comes before one with a smaller name.
pub open spec fn is_sorted<T: Named>(s: Seq<T::V>) -> bool {
    forall|i: int, j: int|
        0 <= i < j < s.len() ==> name_le(T::name_of(#[trigger] s[i]), T::name_of(#[trigger] s[j]))
}

/// `x` put into a sorted list: behind every item whose name does not come after its own.
pub open spec fn inserted<T: Named>(s: Seq<T::V>, x: T::V) -> Seq<T::V>
    decreases s.len(),
{
    if s.len() == 0 || name_le(T::name_of(s.last()), T::name_of(x)) {
        s.push(x)
    } else {
        inserted::<T>(s.drop_last(), x).push(s.last())
    }
}

/// The list in ascending byte-wise order of the names; items of equal name keep
/// the order in which they came.
pub open spec fn sorted<T: Named>(s: Seq<T::V>) -> Seq<T::V>
    decreases s.len(),
{
    if s.len() == 0 {
        s
    } else {
        inserted::<T>(sorted::<T>(s.drop_last()), s.last())
    }
}

proof fn lemma_inserted_at<T: Named>(s: Seq<T::V>, x: T::V, p: int)
    requires
        0 <= p <= s.len(),
        forall|j: int|
            p <= j < s.len() ==> name_order(T::name_of(#[trigger] s[j]), T::name_of(x))
                == NameOrder::Greater,
        p > 0 ==> name_le(T::name_of(s[p - 1]), T::name_of(x)),
    ensures
        inserted::<T>(s, x) == s.insert(p, x),
    decreases s.len() - p,
{
    if p == s.len() {
        assert(s.push(x) =~= s.insert(p, x));
    } else {
        let front = s.drop_last();
        assert(name_order(T::name_of(s[s.len() - 1]), T::name_of(x)) == NameOrder::Greater);
        lemma_inserted_at::<T>(front, x, p);
        assert(front.insert(p, x).push(s.last()) =~= s.insert(p, x));
    }
}

/// Putting an item into a list adds that item and nothing else.
pub proof fn lemma_inserted_members<T: Named>(s: Seq<T::V>, x: T::V)
    ensures
        inserted::<T>(s, x).len() == s.len() + 1,
        inserted::<T>(s, x).to_multiset() == s.to_multiset().insert(x),
    decreases s.len(),
{
    broadcast use vstd::seq_lib::group_to_multiset_ensures;

    if s.len() == 0 || name_le(T::name_of(s.last()), T::name_of(x)) {
    } else {
        let front = s.drop_last();
        lemma_inserted_members::<T>(front, x);
        assert(front.push(s.last()) =~= s);
        assert(inserted::<T>(s, x).to_multiset() =~= s.to_multiset().insert(x));
    }
}

/// Putting an item into a sorted list leaves it sorted.
pub proof fn lemma_inserted_sorted<T: Named>(s: Seq<T::V>, x: T::V)
    requires
        is_sorted::<T>(s),
    ensures
        is_sorted::<T>(inserted::<T>(s, x)),
    decreases s.len(),
{
    let r = inserted::<T>(s, x);
    if s.len() == 0 {
    } else if name_le(T::name_of(s.last()), T::name_of(x)) {
        assert forall|i: int, j: int| 0 <= i < j < r.len() implies name_le(
            T::name_of(#[trigger] r[i]),
            T::name_of(#[trigger] r[j]),
        ) by {
            if j == s.len() {
                if i < s.len() - 1 {
                    lemma_name_order_trans(
                        T::name_of(s[i]),
                        T::name_of(s.last()),
                        T::name_of(x),
                    );
                }
            }
        }
    } else {
        let front = s.drop_last();
        let inner = inserted::<T>(front, x);
        lemma_inserted_sorted::<T>(front, x);
        lemma_inserted_members::<T>(front, x);
        lemma_name_order_flip(T::name_of(s.last()), T::name_of(x));
        assert forall|i: int, j: int| 0 <= i < j < r.len() implies name_le(
            T::name_of(#[trigger] r[i]),
            T::name_of(#[trigger] r[j]),
        ) by {
            if j == inner.len() {
                broadcast use vstd::seq_lib::group_to_multiset_ensures;

                assert(inner.to_multiset().count(inner[i]) > 0);
                if inner[i] != x {
                    assert(front.to_multiset().count(inner[i]) > 0);
                    assert(front.contains(inner[i]));
                    let k = choose|k: int| 0 <= k < front.len() && front[k] == inner[i];
                    assert(s[k] == inner[i]);
                }
            }
        }
    }
}

/// A sorted list is in ascending order of the names.
pub proof fn lemma_sorted_is_sorted<T: Named>(s: Seq<T::V>)
    ensures
        is_sorted::<T>(sorted::<T>(s)),
    decreases s.len(),
{
    if s.len() > 0 {
        lemma_sorted_is_sorted::<T>(s.drop_last());
        lemma_inserted_sorted::<T>(sorted::<T>(s.drop_last()), s.last());
    }
}

/// Sorting rearranges: each item occurs as often after it as before.
pub proof fn lemma_sorted_permutes<T: Named>(s: Seq<T::V>)
    ensures
        sorted::<T>(s).len() == s.len(),
        sorted::<T>(s).to_multiset() == s.to_multiset(),
    decreases s.len(),
{
    broadcast use vstd::seq_lib::group_to_multiset_ensures;

    if s.len() > 0 {
        lemma_sorted_permutes::<T>(s.drop_last());
        lemma_inserted_members::<T>(sorted::<T>(s.drop_last()), s.last());
        assert(s.drop_last().push(s.last()) =~= s);
    }
}

/// Sorting a list that is in order already changes nothing.
pub proof fn lemma_sorted_fixes_sorted<T: Named>(s: Seq<T::V>)
    requires
        is_sorted::<T>(s),
    ensures
        sorted::<T>(s) == s,
    decreases s.len(),
{
    if s.len() > 0 {
        let front = s.drop_last();
        lemma_sorted_fixes_sorted::<T>(front);
        if front.len() > 0 {
            assert(front.last() == s[s.len() - 2]);
        }
        assert(front.push(s.last()) =~= s);
    }
}

fn comes_after<T: Named>(a: &T, b: &T) -> (r: bool)
    ensures
        r == (name_order(T::name_of(a@), T::name_of(b@)) == NameOrder::Greater),
{
    match compare_names(a.name(), b.name()) {
        NameOrder::Greater => true,
        _ => false,
    }
}

/// The items in the opposite order.
pub fn reversed<T>(items: Vec<T>) -> (r: Vec<T>)
    ensures
        r@.len() == items@.len(),
        forall|j: int| 0 <= j < r@.len() ==> r@[j] == items@[items@.len() - 1 - j],
{
    let ghost all = items@;
    let mut items = items;
    let mut r: Vec<T> = Vec::new();
    while items.len() > 0
        invariant
            items@.len() + r@.len() == all.len(),
            items@ == all.take(items@.len() as int),
            forall|j: int| 0 <= j < r@.len() ==> r@[j] == all[all.len() - 1 - j],
        decreases items@.len(),
    {
        let x = items.pop().unwrap();
        r.push(x);
    }
    r
}

/// Puts `x` into a list behind every item whose name does not come after its own.
pub fn insert_by_name<T: Named>(list: &mut Vec<T>, x: T)
    ensures
        views(final(list)@) == inserted::<T>(views(old(list)@), x@),
        final(list)@.len() == old(list)@.len() + 1,
        forall|i: int|
            0 <= i < final(list)@.len() ==> #[trigger] final(list)@[i] == x || old(list)@.contains(
                final(list)@[i],
            ),
{
    let ghost before = list@;
    let mut p: usize = list.len();
    while p > 0 && comes_after(&list[p - 1], &x)
        invariant
            list@ == before,
            p <= list@.len(),
            forall|j: int|
                p <= j < list@.len() ==> name_order(
                    T::name_of(#[trigger] views(list@)[j]),
                    T::name_of(x@),
                ) == NameOrder::Greater,
        decreases p,
    {
        p -= 1;
    }
    proof {
        lemma_inserted_at::<T>(views(list@), x@, p as int);
        assert(views(list@.insert(p as int, x)) =~= views(list@).insert(p as int, x@));
    }
    list.insert(p, x);
    proof {
        assert forall|i: int| 0 <= i < list@.len() implies #[trigger] list@[i] == x
            || before.contains(list@[i]) by {
            if i < p {
                assert(list@[i] == before[i]);
            } else if i == p {
            } else {
                assert(list@[i] == before[i - 1]);
            }
        }
    }
}

/// Two lists merged from their ends: the last item of the result is the last
/// item of `a` if its name comes after that of the last item of `b`, else the
/// last item of `b`.
pub open spec fn merged<T: Named>(a: Seq<T::V>, b: Seq<T::V>) -> Seq<T::V>
    decreases a.len() + b.len(),
{
    if a.len() == 0 {
        b
    } else if b.len() == 0 {
        a
    } else if name_order(T::name_of(a.last()), T::name_of(b.last())) == NameOrder::Greater {
        merged::<T>(a.drop_last(), b).push(a.last())
    } else {
        merged::<T>(a, b.drop_last()).push(b.last())
    }
}

proof fn lemma_merged_inserted<T: Named>(a: Seq<T::V>, b: Seq<T::V>, e: T::V)
    ensures
        merged::<T>(a, inserted::<T>(b, e)) == inserted::<T>(merged::<T>(a, b), e),
    decreases a.len() + b.len(),
{
    let put = inserted::<T>(b, e);
    let name = T::name_of(e);
    if a.len() == 0 {
        assert(merged::<T>(a, b) == b);
    } else if b.len() == 0 {
        let front = a.drop_last();
        let al = T::name_of(a.last());
        assert(put =~= seq![e]);
        assert(put.last() == e);
        assert(put.drop_last() =~= b);
        assert(merged::<T>(a, b) == a);
        if name_order(al, name) == NameOrder::Greater {
            lemma_merged_inserted::<T>(front, b, e);
            assert(merged::<T>(front, b) =~= front);
            assert(merged::<T>(a, put) == merged::<T>(front, put).push(a.last()));
        } else {
            assert(merged::<T>(a, put) == merged::<T>(a, b).push(e));
        }
    } else {
        let al = T::name_of(a.last());
        let bl = T::name_of(b.last());
        let both = merged::<T>(a, b);
        if name_le(bl, name) {
            assert(put == b.push(e));
            assert(put.last() == e);
            assert(put.drop_last() =~= b);
            if name_order(al, name) == NameOrder::Greater {
                lemma_merged_inserted::<T>(a.drop_last(), b, e);
                if name_order(al, bl) != NameOrder::Greater {
                    lemma_name_order_trans(al, bl, name);
                }
                let inner = merged::<T>(a.drop_last(), b);
                assert(both == inner.push(a.last()));
                assert(both.last() == a.last());
                assert(both.drop_last() =~= inner);
                assert(merged::<T>(a, put) == merged::<T>(a.drop_last(), put).push(a.last()));
            } else {
                assert(merged::<T>(a, put) == both.push(e));
                if name_order(al, bl) == NameOrder::Greater {
                    assert(both == merged::<T>(a.drop_last(), b).push(a.last()));
                    assert(both.last() == a.last());
                } else {
                    assert(both == merged::<T>(a, b.drop_last()).push(b.last()));
                    assert(both.last() == b.last());
                }
            }
        } else {
            let lower = inserted::<T>(b.drop_last(), e);
            assert(put == lower.push(b.last()));
            assert(put.last() == b.last());
            assert(put.drop_last() =~= lower);
            if name_order(al, bl) == NameOrder::Greater {
                lemma_merged_inserted::<T>(a.drop_last(), b, e);
                lemma_name_order_flip(al, bl);
                lemma_name_order_flip(bl, name);
                lemma_name_order_flip(al, name);
                lemma_name_order_trans(name, bl, al);
                let inner = merged::<T>(a.drop_last(), b);
                assert(both == inner.push(a.last()));
                assert(both.last() == a.last());
                assert(both.drop_last() =~= inner);
                assert(merged::<T>(a, put) == merged::<T>(a.drop_last(), put).push(a.last()));
            } else {
                lemma_merged_inserted::<T>(a, b.drop_last(), e);
                let inner = merged::<T>(a, b.drop_last());
                assert(both == inner.push(b.last()));
                assert(both.last() == b.last());
                assert(both.drop_last() =~= inner);
                assert(merged::<T>(a, put) == merged::<T>(a, lower).push(b.last()));
            }
        }
    }
}

/// Merging two sorted lists gives what sorting the items of the first followed
/// by the items of the second gives.
pub proof fn lemma_merged_sorted<T: Named>(x: Seq<T::V>, y: Seq<T::V>)
    ensures
        merged::<T>(sorted::<T>(x), sorted::<T>(y)) == sorted::<T>(x + y),
    decreases y.len(),
{
    if y.len() == 0 {
        assert(x + y =~= x);
    } else {
        let front = y.drop_last();
        lemma_merged_sorted::<T>(x, front);
        lemma_merged_inserted::<T>(sorted::<T>(x), sorted::<T>(front), y.last());
        assert((x + y).drop_last() =~= x + front);
        assert((x + y).last() == y.last());
    }
}

/// Merges two lists from their ends.
fn merge_by_name<T: Named>(a: Vec<T>, b: Vec<T>) -> (r: Vec<T>)
    ensures
        views(r@) == merged::<T>(views(a@), views(b@)),
        r@.len() == a@.len() + b@.len(),
        forall|i: int| 0 <= i < r@.len() ==> a@.contains(#[trigger] r@[i]) || b@.contains(r@[i]),
{
    let ghost first = a@;
    let ghost second = b@;
    let mut a = a;
    let mut b = b;
    let mut tail: Vec<T> = Vec::new();
    proof {
        assert(merged::<T>(views(a@), views(b@)) + Seq::<T::V>::empty() =~= merged::<T>(
            views(a@),
            views(b@),
        ));
    }
    while a.len() > 0 && b.len() > 0
        invariant
            a@ == first.take(a@.len() as int),
            b@ == second.take(b@.len() as int),
            a@.len() <= first.len(),
            b@.len() <= second.len(),
            tail@.len() == first.len() - a@.len() + second.len() - b@.len(),
            forall|i: int|
                0 <= i < tail@.len() ==> first.contains(#[trigger] tail@[i]) || second.contains(
                    tail@[i],
                ),
            merged::<T>(views(first), views(second)) == merged::<T>(views(a@), views(b@))
                + Seq::new(tail@.len(), |i: int| tail@[tail@.len() - 1 - i]@),
        decreases a@.len() + b@.len(),
    {
        let ghost before = merged::<T>(views(a@), views(b@));
        let ghost behind = Seq::new(tail@.len(), |i: int| tail@[tail@.len() - 1 - i]@);
        let ghost va = views(a@);
        let ghost vb = views(b@);
        let from_first = comes_after(&a[a.len() - 1], &b[b.len() - 1]);
        let item = if from_first {
            let item = a.pop().unwrap();
            proof {
                assert(va.last() == item@);
                assert(views(a@) =~= va.drop_last());
                assert(first[a@.len() as int] == item);
            }
            item
        } else {
            let item = b.pop().unwrap();
            proof {
                assert(vb.last() == item@);
                assert(views(b@) =~= vb.drop_last());
                assert(second[b@.len() as int] == item);
            }
            item
        };
        tail.push(item);
        proof {
            let now = Seq::new(tail@.len(), |i: int| tail@[tail@.len() - 1 - i]@);
            assert(now =~= seq![item@] + behind);
            assert(before == merged::<T>(views(a@), views(b@)).push(item@));
            assert(merged::<T>(views(a@), views(b@)).push(item@) + behind =~= merged::<T>(
                views(a@),
                views(b@),
            ) + now);
        }
    }
    let mut r = if a.len() == 0 {
        b
    } else {
        a
    };
    proof {
        assert(views(r@) == merged::<T>(views(a@), views(b@)));
    }
    let ghost kept = r@;
    let ghost behind = Seq::new(tail@.len(), |i: int| tail@[tail@.len() - 1 - i]@);
    let ghost all = tail@;
    while tail.len() > 0
        invariant
            tail@.len() <= all.len(),
            tail@ == all.take(tail@.len() as int),
            r@.len() == kept.len() + all.len() - tail@.len(),
            kept.len() + all.len() == first.len() + second.len(),
            views(r@) == views(kept) + behind.take(all.len() - tail@.len()),
            behind == Seq::new(all.len(), |i: int| all[all.len() - 1 - i]@),
            forall|i: int|
                0 <= i < all.len() ==> first.contains(#[trigger] all[i]) || second.contains(all[i]),
            forall|i: int|
                0 <= i < r@.len() ==> first.contains(#[trigger] r@[i]) || second.contains(r@[i]),
        decreases tail@.len(),
    {
        let ghost written = views(r@);
        let ghost done = all.len() - tail@.len();
        let item = tail.pop().unwrap();
        proof {
            assert(item == all[tail@.len() as int]);
            assert(behind[done] == item@);
            assert(behind.take(done + 1) =~= behind.take(done).push(item@));
        }
        r.push(item);
        proof {
            assert(views(r@) =~= written.push(item@));
        }
    }
    proof {
        assert(behind.take(all.len() as int) =~= behind);
    }
    r
}

/// Sorts the items by name, byte-wise; items of equal name keep their order.
pub fn sort_by_name<T: Named>(items: Vec<T>) -> (r: Vec<T>)
    ensures
        views(r@) == sorted::<T>(views(items@)),
        drawn_from(r@, items@),
    decreases items@.len(),
{
    let ghost all = items@;
    let mut items = items;
    if items.len() < 2 {
        proof {
            if items@.len() == 1 {
                let one = views(all);
                assert(one.drop_last() =~= Seq::<T::V>::empty());
                assert(sorted::<T>(one.drop_last()) == one.drop_last());
                assert(inserted::<T>(one.drop_last(), one.last()) == one.drop_last().push(
                    one.last(),
                ));
                assert(one.drop_last().push(one.last()) =~= one);
            }
        }
        return items;
    }
    let half: usize = items.len() / 2;
    let back = items.split_off(half);
    proof {
        assert(views(items@) + views(back@) =~= views(all));
        lemma_merged_sorted::<T>(views(items@), views(back@));
    }
    let ghost front = items@;
    let ghost rest = back@;
    let left = sort_by_name(items);
    let right = sort_by_name(back);
    let r = merge_by_name(left, right);
    proof {
        assert forall|i: int| 0 <= i < r@.len() implies all.contains(#[trigger] r@[i]) by {
            if left@.contains(r@[i]) {
                let k = choose|k: int| 0 <= k < left@.len() && left@[k] == r@[i];
                assert(front.contains(left@[k]));
                let m = choose|m: int| 0 <= m < front.len() && front[m] == r@[i];
                assert(all[m] == r@[i]);
            } else {
                let k = choose|k: int| 0 <= k < right@.len() && right@[k] == r@[i];
                assert(rest.contains(right@[k]));
                let m = choose|m: int| 0 <= m < rest.len() && rest[m] == r@[i];
                assert(all[half + m] == r@[i]);
            }
        }
    }
    r
}

/// Finds, in a list sorted by name, the first position whose name does not come
/// before `name`.
pub(crate) fn lower_bound<T: Named>(list: &Vec<T>, name: &str) -> (p: usize)
    requires
        is_sorted::<T>(views(list@)),
    ensures
        p <= list@.len(),
        forall|i: int|
            0 <= i < p ==> name_order(T::name_of(#[trigger] list@[i]@), name@) == NameOrder::Less,
        forall|i: int|
            p <= i < list@.len() ==> name_order(T::name_of(#[trigger] list@[i]@), name@)
                != NameOrder::Less,
{
    let mut low: usize = 0;
    let mut high: usize = list.len();
    while low < high
        invariant
            low <= high <= list@.len(),
            is_sorted::<T>(views(list@)),
            forall|i: int|
                0 <= i < low ==> name_order(T::name_of(#[trigger] list@[i]@), name@)
                    == NameOrder::Less,
            forall|i: int|
                high <= i < list@.len() ==> name_order(T::name_of(#[trigger] list@[i]@), name@)
                    != NameOrder::Less,
        decreases high - low,
    {
        let mid: usize = low + (high - low) / 2;
        let middle = compare_names(list[mid].name(), name);
        let ghost pivot = T::name_of(list@[mid as int]@);
        match middle {
            NameOrder::Less => {
                proof {
                    assert forall|i: int| 0 <= i < mid + 1 implies name_order(
                        T::name_of(#[trigger] list@[i]@),
                        name@,
                    ) == NameOrder::Less by {
                        if i < mid {
                            assert(name_le(
                                T::name_of(views(list@)[i]),
                                T::name_of(views(list@)[mid as int]),
                            ));
                            lemma_name_order_trans(T::name_of(list@[i]@), pivot, name@);
                        }
                    }
                }
                low = mid + 1;
            },
            _ => {
                proof {
                    assert forall|i: int| mid <= i < list@.len() implies name_order(
                        T::name_of(#[trigger] list@[i]@),
                        name@,
                    ) != NameOrder::Less by {
                        if i > mid {
                            assert(name_le(
                                T::name_of(views(list@)[mid as int]),
                                T::name_of(views(list@)[i]),
                            ));
                            lemma_name_order_flip(pivot, name@);
                            lemma_name_order_flip(T::name_of(list@[i]@), name@);
                            lemma_name_order_trans(name@, pivot, T::name_of(list@[i]@));
                        }
                    }
                }
                high = mid;
            },
        }
    }
    low
}

} // verus!
