//! Sequences of sequences.

use vstd::prelude::*;

verus! {

/// The elements of all lists, one list after the other.
pub open spec fn join<A>(lists: Seq<Seq<A>>) -> Seq<A>
    decreases lists.len(),
{
    if lists.len() == 0 {
        Seq::empty()
    } else {
        join(lists.drop_last()) + lists.last()
    }
}

/// The contents of each list.
pub open spec fn contents<A>(lists: Seq<Vec<A>>) -> Seq<Seq<A>> {
    Seq::new(lists.len(), |i: int| lists[i]@)
}

/// Where the list `i` starts among the elements of all lists.
pub open spec fn offset<A>(lists: Seq<Seq<A>>, i: int) -> int {
    join(lists.take(i)).len() as int
}

/// A further list adds its elements at the end.
pub proof fn lemma_join_push<A>(lists: Seq<Seq<A>>, list: Seq<A>)
    ensures
        join(lists.push(list)) == join(lists) + list,
{
    assert(lists.push(list).drop_last() =~= lists);
}

/// Further lists add their elements at the end.
pub proof fn lemma_join_add<A>(a: Seq<Seq<A>>, b: Seq<Seq<A>>)
    ensures
        join(a + b) == join(a) + join(b),
    decreases b.len(),
{
    if b.len() == 0 {
        assert(a + b =~= a);
        assert(join(a) + join(b) =~= join(a));
    } else {
        lemma_join_add(a, b.drop_last());
        assert((a + b).drop_last() =~= a + b.drop_last());
        assert(join(a + b) =~= join(a) + join(b));
    }
}

/// Taking one more list adds its elements at the end.
pub proof fn lemma_join_take<A>(lists: Seq<Seq<A>>, i: int)
    requires
        0 <= i < lists.len(),
    ensures
        join(lists.take(i + 1)) == join(lists.take(i)) + lists[i],
{
    assert(lists.take(i + 1).drop_last() =~= lists.take(i));
}

/// The first lists are the first elements.
pub proof fn lemma_join_prefix<A>(lists: Seq<Seq<A>>, i: int)
    requires
        0 <= i <= lists.len(),
    ensures
        offset(lists, i) <= join(lists).len(),
        join(lists).take(offset(lists, i)) == join(lists.take(i)),
    decreases lists.len(),
{
    if i == lists.len() {
        assert(lists.take(i) =~= lists);
        assert(join(lists).take(offset(lists, i)) =~= join(lists));
    } else {
        let rest = lists.drop_last();
        lemma_join_prefix(rest, i);
        assert(rest.take(i) =~= lists.take(i));
        assert(join(lists).take(offset(lists, i)) =~= join(rest).take(offset(lists, i)));
    }
}

/// Each element of a list is found behind the start of the list.
pub proof fn lemma_join_index<A>(lists: Seq<Seq<A>>, i: int, j: int)
    requires
        0 <= i < lists.len(),
        0 <= j < lists[i].len(),
    ensures
        0 <= offset(lists, i) + j < join(lists).len(),
        join(lists)[offset(lists, i) + j] == lists[i][j],
{
    lemma_join_take(lists, i);
    lemma_join_prefix(lists, i + 1);
    let k = offset(lists, i) + j;
    assert(join(lists.take(i + 1))[k] == lists[i][j]);
    assert(join(lists).take(offset(lists, i + 1))[k] == join(lists)[k]);
}

/// Every element comes from one of the lists.
pub proof fn lemma_join_find<A>(lists: Seq<Seq<A>>, k: int) -> (place: (int, int))
    requires
        0 <= k < join(lists).len(),
    ensures
        0 <= place.0 < lists.len(),
        0 <= place.1 < lists[place.0].len(),
        k == offset(lists, place.0) + place.1,
        lists[place.0][place.1] == join(lists)[k],
    decreases lists.len(),
{
    let rest = lists.drop_last();
    let i = lists.len() - 1;
    assert(lists.take(i) =~= rest);
    if k < join(rest).len() {
        let place = lemma_join_find(rest, k);
        assert(rest.take(place.0) =~= lists.take(place.0));
        place
    } else {
        (i, k - join(rest).len())
    }
}

/// The lists hold exactly the elements that they have together.
pub proof fn lemma_join_contains<A>(lists: Seq<Seq<A>>, x: A)
    ensures
        join(lists).contains(x) <==> exists|i: int|
            0 <= i < lists.len() && (#[trigger] lists[i]).contains(x),
{
    if join(lists).contains(x) {
        let place = lemma_join_find(lists, join(lists).index_of(x));
        assert(lists[place.0].contains(x));
    }
    if exists|i: int| 0 <= i < lists.len() && (#[trigger] lists[i]).contains(x) {
        let i = choose|i: int| 0 <= i < lists.len() && (#[trigger] lists[i]).contains(x);
        let j = lists[i].index_of(x);
        lemma_join_index(lists, i, j);
        assert(join(lists)[offset(lists, i) + j] == x);
    }
}

/// Later lists start later.
pub proof fn lemma_offset_monotonic<A>(lists: Seq<Seq<A>>, i: int, j: int)
    requires
        0 <= i <= j <= lists.len(),
    ensures
        offset(lists, i) <= offset(lists, j),
{
    lemma_join_prefix(lists.take(j), i);
    assert(lists.take(j).take(i) =~= lists.take(i));
}

/// Where no element occurs twice, an element names its list.
pub proof fn lemma_join_unique<A>(lists: Seq<Seq<A>>, i: int, j: int, x: A)
    requires
        join(lists).no_duplicates(),
        0 <= i < lists.len(),
        0 <= j < lists.len(),
        lists[i].contains(x),
        lists[j].contains(x),
    ensures
        i == j,
{
    let a = lists[i].index_of(x);
    let b = lists[j].index_of(x);
    lemma_join_index(lists, i, a);
    lemma_join_index(lists, j, b);
    if i < j {
        lemma_join_take(lists, i);
        lemma_offset_monotonic(lists, i + 1, j);
    } else if j < i {
        lemma_join_take(lists, j);
        lemma_offset_monotonic(lists, j + 1, i);
    }
}

} // verus!
