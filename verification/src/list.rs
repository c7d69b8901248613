//! Lists in which a value is kept one time, where it comes first.

use vstd::prelude::*;

verus! {

/// The values of a list, each kept one time, where it comes first.
pub open spec fn distinct<T>(list: Seq<T>) -> Seq<T>
    decreases list.len(),
{
    if list.len() == 0 {
        Seq::<T>::empty()
    } else {
        let before = distinct(list.drop_last());
        if before.contains(list.last()) {
            before
        } else {
            before.push(list.last())
        }
    }
}

/// The values of a list whose keys differ. Of two with one key, the first is kept.
pub open spec fn distinct_by<T, K>(list: Seq<T>, key: spec_fn(T) -> K) -> Seq<T>
    decreases list.len(),
{
    if list.len() == 0 {
        Seq::<T>::empty()
    } else {
        let before = distinct_by(list.drop_last(), key);
        if has_key(before, key, key(list.last())) {
            before
        } else {
            before.push(list.last())
        }
    }
}

/// Whether a value in the list has this key.
pub open spec fn has_key<T, K>(list: Seq<T>, key: spec_fn(T) -> K, wanted: K) -> bool {
    exists|i: int| 0 <= i < list.len() && key(#[trigger] list[i]) == wanted
}

/// What is kept is in the list, no value is kept twice, and none is lost.
pub proof fn lemma_distinct<T>(list: Seq<T>)
    ensures
        forall|i: int| 0 <= i < distinct(list).len() ==> list.contains(#[trigger] distinct(list)[i]),
        forall|i: int| 0 <= i < list.len() ==> distinct(list).contains(#[trigger] list[i]),
        distinct(list).no_duplicates(),
    decreases list.len(),
{
    if list.len() > 0 {
        let short = list.drop_last();
        let before = distinct(short);
        let after = distinct(list);
        lemma_distinct(short);
        assert forall|i: int| 0 <= i < after.len() implies list.contains(#[trigger] after[i]) by {
            if i < before.len() {
                assert(after[i] == before[i]);
                let k = choose|k: int| 0 <= k < short.len() && short[k] == before[i];
                assert(list[k] == after[i]);
            } else {
                assert(list[list.len() - 1] == after[i]);
            }
        }
        assert forall|i: int| 0 <= i < list.len() implies after.contains(#[trigger] list[i]) by {
            if i < short.len() {
                assert(before.contains(short[i]));
                let k = choose|k: int| 0 <= k < before.len() && before[k] == short[i];
                assert(after[k] == list[i]);
            } else if !before.contains(list.last()) {
                assert(after[after.len() - 1] == list[i]);
            }
        }
    }
}

/// What is kept is in the list, no key is kept twice, and none is lost.
pub proof fn lemma_distinct_by<T, K>(list: Seq<T>, key: spec_fn(T) -> K)
    ensures
        forall|i: int|
            0 <= i < distinct_by(list, key).len() ==> list.contains(
                #[trigger] distinct_by(list, key)[i],
            ),
        forall|i: int|
            0 <= i < list.len() ==> has_key(distinct_by(list, key), key, key(#[trigger] list[i])),
        forall|i: int, j: int|
            0 <= i < j < distinct_by(list, key).len() ==> key(#[trigger] distinct_by(list, key)[i])
                != key(#[trigger] distinct_by(list, key)[j]),
    decreases list.len(),
{
    if list.len() > 0 {
        let short = list.drop_last();
        let before = distinct_by(short, key);
        let after = distinct_by(list, key);
        lemma_distinct_by(short, key);
        assert forall|i: int| 0 <= i < after.len() implies list.contains(#[trigger] after[i]) by {
            if i < before.len() {
                assert(after[i] == before[i]);
                let k = choose|k: int| 0 <= k < short.len() && short[k] == before[i];
                assert(list[k] == after[i]);
            } else {
                assert(list[list.len() - 1] == after[i]);
            }
        }
        assert forall|i: int| 0 <= i < list.len() implies has_key(after, key, key(#[trigger] list[i])) by {
            if i < short.len() {
                assert(has_key(before, key, key(short[i])));
                let k = choose|k: int| 0 <= k < before.len() && key(#[trigger] before[k]) == key(short[i]);
                assert(after[k] == before[k]);
            } else if !has_key(before, key, key(list.last())) {
                assert(after[after.len() - 1] == list[i]);
            }
        }
        assert forall|i: int, j: int| 0 <= i < j < after.len() implies key(#[trigger] after[i]) != key(
            #[trigger] after[j],
        ) by {
            if j < before.len() {
                assert(after[i] == before[i] && after[j] == before[j]);
            } else {
                assert(after[i] == before[i]);
            }
        }
    }
}

/// A value that a filter keeps is in the list, and the filter holds of it.
pub proof fn lemma_filter_keeps<T>(list: Seq<T>, keep: spec_fn(T) -> bool, i: int)
    requires
        0 <= i < list.filter(keep).len(),
    ensures
        list.contains(list.filter(keep)[i]),
        keep(list.filter(keep)[i]),
    decreases list.len(),
{
    reveal(Seq::filter);
    if list.len() > 0 {
        let short = list.drop_last();
        let kept = list.filter(keep);
        if i < short.filter(keep).len() {
            lemma_filter_keeps(short, keep, i);
            let k = choose|k: int| 0 <= k < short.len() && short[k] == short.filter(keep)[i];
            assert(list[k] == kept[i]);
        } else {
            assert(list[list.len() - 1] == kept[i]);
        }
    }
}

/// A filter that keeps every value keeps the list.
pub proof fn lemma_filter_all<T>(list: Seq<T>, keep: spec_fn(T) -> bool)
    requires
        forall|i: int| 0 <= i < list.len() ==> keep(#[trigger] list[i]),
    ensures
        list.filter(keep) == list,
    decreases list.len(),
{
    reveal(Seq::filter);
    if list.len() > 0 {
        let short = list.drop_last();
        assert forall|i: int| 0 <= i < short.len() implies keep(#[trigger] short[i]) by {
            assert(short[i] == list[i]);
        }
        lemma_filter_all(short, keep);
        assert(keep(list[list.len() - 1]));
        assert(list =~= short.push(list.last()));
    } else {
        assert(list.filter(keep) =~= list);
    }
}

/// What holds of each two values of a list holds of each two values a filter keeps.
pub proof fn lemma_filter_pairs<T>(list: Seq<T>, keep: spec_fn(T) -> bool, apart: spec_fn(T, T) -> bool)
    requires
        forall|i: int, j: int| 0 <= i < j < list.len() ==> apart(#[trigger] list[i], #[trigger] list[j]),
    ensures
        forall|i: int, j: int|
            0 <= i < j < list.filter(keep).len() ==> apart(
                #[trigger] list.filter(keep)[i],
                #[trigger] list.filter(keep)[j],
            ),
    decreases list.len(),
{
    reveal(Seq::filter);
    if list.len() > 0 {
        let short = list.drop_last();
        let before = short.filter(keep);
        let after = list.filter(keep);
        assert forall|i: int, j: int| 0 <= i < j < short.len() implies apart(
            #[trigger] short[i],
            #[trigger] short[j],
        ) by {
            assert(short[i] == list[i] && short[j] == list[j]);
        }
        lemma_filter_pairs(short, keep, apart);
        assert forall|i: int, j: int| 0 <= i < j < after.len() implies apart(
            #[trigger] after[i],
            #[trigger] after[j],
        ) by {
            if j < before.len() {
                assert(after[i] == before[i] && after[j] == before[j]);
            } else {
                assert(after[i] == before[i]);
                lemma_filter_keeps(short, keep, i);
                let k = choose|k: int| 0 <= k < short.len() && short[k] == before[i];
                assert(list[k] == after[i]);
                assert(list[list.len() - 1] == after[j]);
            }
        }
    }
}

/// A filter of one more value.
pub proof fn lemma_filter_next<T>(list: Seq<T>, keep: spec_fn(T) -> bool, k: int)
    requires
        0 <= k < list.len(),
    ensures
        list.take(k + 1).filter(keep) == (if keep(list[k]) {
            list.take(k).filter(keep).push(list[k])
        } else {
            list.take(k).filter(keep)
        }),
{
    reveal(Seq::filter);
    assert(list.take(k + 1).drop_last() =~= list.take(k));
    assert(list.take(k + 1).last() == list[k]);
}

/// A filter after one that keeps more keeps what it keeps alone.
pub proof fn lemma_filter_twice<T>(list: Seq<T>, more: spec_fn(T) -> bool, keep: spec_fn(T) -> bool)
    requires
        forall|value: T| #[trigger] keep(value) ==> more(value),
    ensures
        list.filter(more).filter(keep) == list.filter(keep),
    decreases list.len(),
{
    reveal(Seq::filter);
    if list.len() > 0 {
        let short = list.drop_last();
        lemma_filter_twice(short, more, keep);
        if more(list.last()) {
            assert(short.filter(more).push(list.last()).drop_last() =~= short.filter(more));
        }
    } else {
        assert(list.filter(more).filter(keep) =~= list.filter(keep));
    }
}

/// What comes later does not move what was kept: the values of a longer list start with
/// those of the shorter one.
pub proof fn law_distinct_by_keeps_the_first<T, K>(list: Seq<T>, more: Seq<T>, key: spec_fn(T) -> K)
    ensures
        distinct_by(list, key).len() <= distinct_by(list + more, key).len(),
        distinct_by(list + more, key).take(distinct_by(list, key).len() as int) == distinct_by(list, key),
    decreases more.len(),
{
    let kept = distinct_by(list, key);
    if more.len() == 0 {
        assert(list + more =~= list);
        assert(kept.take(kept.len() as int) =~= kept);
    } else {
        let all = list + more;
        law_distinct_by_keeps_the_first(list, more.drop_last(), key);
        assert(all.drop_last() =~= list + more.drop_last());
        let before = distinct_by(all.drop_last(), key);
        let after = distinct_by(all, key);
        assert(after.take(kept.len() as int) =~= before.take(kept.len() as int));
    }
}

/// What comes later does not move what was kept: the values of a longer list start with
/// those of the shorter one.
pub proof fn law_distinct_keeps_the_first<T>(list: Seq<T>, more: Seq<T>)
    ensures
        distinct(list).len() <= distinct(list + more).len(),
        distinct(list + more).take(distinct(list).len() as int) == distinct(list),
    decreases more.len(),
{
    let kept = distinct(list);
    if more.len() == 0 {
        assert(list + more =~= list);
        assert(kept.take(kept.len() as int) =~= kept);
    } else {
        let all = list + more;
        law_distinct_keeps_the_first(list, more.drop_last());
        assert(all.drop_last() =~= list + more.drop_last());
        let before = distinct(all.drop_last());
        let after = distinct(all);
        assert(after.take(kept.len() as int) =~= before.take(kept.len() as int));
    }
}

/// Two filters that keep the same values of a list keep the same list.
pub proof fn lemma_filter_same<T>(list: Seq<T>, one: spec_fn(T) -> bool, other: spec_fn(T) -> bool)
    requires
        forall|i: int| 0 <= i < list.len() ==> one(#[trigger] list[i]) == other(list[i]),
    ensures
        list.filter(one) == list.filter(other),
    decreases list.len(),
{
    reveal(Seq::filter);
    if list.len() > 0 {
        let short = list.drop_last();
        assert forall|i: int| 0 <= i < short.len() implies one(#[trigger] short[i]) == other(short[i]) by {
            assert(short[i] == list[i]);
        }
        lemma_filter_same(short, one, other);
        assert(list.last() == list[list.len() - 1]);
    }
}

/// The values that are kept stand in the order of the list, each where its key comes first.
pub proof fn law_kept_values_stand_in_order<T, K>(list: Seq<T>, key: spec_fn(T) -> K, i: int, j: int)
    requires
        0 <= i < j < distinct_by(list, key).len(),
    ensures
        exists|a: int, b: int|
            0 <= a < b < list.len() && #[trigger] list[a] == distinct_by(list, key)[i] && #[trigger] list[b]
                == distinct_by(list, key)[j] && forall|c: int|
                0 <= c < b ==> key(#[trigger] list[c]) != key(list[b]),
    decreases list.len(),
{
    let short = list.drop_last();
    let before = distinct_by(short, key);
    let after = distinct_by(list, key);
    if j < before.len() {
        law_kept_values_stand_in_order(short, key, i, j);
        let (a, b) = choose|a: int, b: int|
            0 <= a < b < short.len() && #[trigger] short[a] == before[i] && #[trigger] short[b] == before[j]
                && forall|c: int| 0 <= c < b ==> key(#[trigger] short[c]) != key(short[b]);
        assert(list[a] == after[i]);
        assert(list[b] == after[j]);
        assert forall|c: int| 0 <= c < b implies key(#[trigger] list[c]) != key(list[b]) by {
            assert(short[c] == list[c]);
        }
    } else {
        lemma_distinct_by(short, key);
        assert(short.contains(before[i]));
        let a = choose|a: int| 0 <= a < short.len() && short[a] == before[i];
        let b = list.len() - 1;
        assert(list[a] == after[i]);
        assert(list[b] == after[j]);
        assert forall|c: int| 0 <= c < b implies key(#[trigger] list[c]) != key(list[b]) by {
            assert(short[c] == list[c]);
            assert(has_key(before, key, key(short[c])));
        }
    }
}

} // verus!
