use crate::ramp_table::{joined, lemma_joined_same};
use vstd::prelude::*;
use vstd::std_specs::cmp::PartialEqSpec;

verus! {

/// Whether the key function can give `a` and `b` keys that are equal.
pub open spec fn has_same_key<T, K: PartialEq, P: Fn(&T) -> K>(get_key: &P, a: T, b: T) -> bool {
    exists|ka: K, kb: K|
        call_ensures(get_key, (&a,), ka) && #[trigger] call_ensures(get_key, (&b,), kb)
            && #[trigger] ka.eq_spec(&kb)
}

/// Whether the key function can give `a` and `b` keys that differ.
pub open spec fn has_other_key<T, K: PartialEq, P: Fn(&T) -> K>(get_key: &P, a: T, b: T) -> bool {
    exists|ka: K, kb: K|
        #[trigger] call_ensures(get_key, (&a,), ka) && #[trigger] call_ensures(get_key, (&b,), kb)
            && !ka.eq_spec(&kb)
}

/// The lists that the slices hold.
pub open spec fn run_views<T>(runs: Seq<&[T]>) -> Seq<Seq<T>> {
    Seq::new(runs.len(), |r: int| runs[r]@)
}

/// Cuts `items` into runs: each run is as long a stretch of items as
/// `is_same_run` accepts together with the first item of the run.
pub fn iter_runs<'a, T, P: Fn(&T, &T) -> bool>(items: &'a [T], is_same_run: P) -> (runs: Vec<
    &'a [T],
>)
    requires
        forall|i: int, j: int|
            0 <= i < items@.len() && 0 <= j < items@.len() ==> call_requires(
                &is_same_run,
                (&#[trigger] items@[i], &#[trigger] items@[j]),
            ),
    ensures
        joined(run_views(runs@), runs@.len() as int) == items@,
        forall|r: int| 0 <= r < runs@.len() ==> (#[trigger] runs@[r])@.len() > 0,
        forall|r: int, j: int|
            0 <= r < runs@.len() && 1 <= j < runs@[r]@.len() ==> call_ensures(
                &is_same_run,
                (&runs@[r]@[0], &#[trigger] runs@[r]@[j]),
                true,
            ),
        forall|r: int|
            0 <= r && r + 1 < runs@.len() ==> call_ensures(
                &is_same_run,
                (&(#[trigger] runs@[r])@[0], &runs@[r + 1]@[0]),
                false,
            ),
{
    let len: usize = items.len();
    let mut runs: Vec<&'a [T]> = Vec::new();
    let mut start: usize = 0;
    let ghost mut last_start: int = 0;
    while start < len
        invariant
            0 <= start <= len,
            len == items@.len(),
            forall|i: int, j: int|
                0 <= i < items@.len() && 0 <= j < items@.len() ==> call_requires(
                    &is_same_run,
                    (&#[trigger] items@[i], &#[trigger] items@[j]),
                ),
            joined(run_views(runs@), runs@.len() as int) == items@.take(start as int),
            forall|r: int| 0 <= r < runs@.len() ==> (#[trigger] runs@[r])@.len() > 0,
            forall|r: int, j: int|
                0 <= r < runs@.len() && 1 <= j < runs@[r]@.len() ==> call_ensures(
                    &is_same_run,
                    (&runs@[r]@[0], &#[trigger] runs@[r]@[j]),
                    true,
                ),
            forall|r: int|
                0 <= r && r + 1 < runs@.len() ==> call_ensures(
                    &is_same_run,
                    (&(#[trigger] runs@[r])@[0], &runs@[r + 1]@[0]),
                    false,
                ),
            runs@.len() > 0 ==> 0 <= last_start < start && runs@.last()@[0] == items@[last_start],
            runs@.len() > 0 && start < len ==> call_ensures(
                &is_same_run,
                (&items@[last_start], &items@[start as int]),
                false,
            ),
        decreases len - start,
    {
        let mut i: usize = start + 1;
        loop
            invariant
                start < i <= len,
                len == items@.len(),
                forall|a: int, b: int|
                    0 <= a < items@.len() && 0 <= b < items@.len() ==> call_requires(
                        &is_same_run,
                        (&#[trigger] items@[a], &#[trigger] items@[b]),
                    ),
                forall|j: int|
                    start < j < i ==> call_ensures(
                        &is_same_run,
                        (&items@[start as int], &#[trigger] items@[j]),
                        true,
                    ),
            ensures
                i < len ==> call_ensures(
                    &is_same_run,
                    (&items@[start as int], &items@[i as int]),
                    false,
                ),
            decreases len - i,
        {
            if i >= len {
                break ;
            }
            if !is_same_run(&items[start], &items[i]) {
                break ;
            }
            i += 1;
        }
        let run: &'a [T] = vstd::slice::slice_subrange(items, start, i);
        let ghost before = runs@;
        runs.push(run);
        proof {
            let n = before.len() as int;
            lemma_joined_same(run_views(runs@), run_views(before), n);
            assert(run_views(runs@)[n] == run@);
            assert(items@.take(i as int) =~= items@.take(start as int) + run@);
            assert forall|r: int, j: int|
                0 <= r < runs@.len() && 1 <= j < runs@[r]@.len() implies call_ensures(
                &is_same_run,
                (&runs@[r]@[0], &#[trigger] runs@[r]@[j]),
                true,
            ) by {
                if r < n {
                    assert(runs@[r] == before[r]);
                } else {
                    assert(run@[j] == items@[start + j]);
                    assert(run@[0] == items@[start as int]);
                }
            }
            assert forall|r: int| 0 <= r && r + 1 < runs@.len() implies call_ensures(
                &is_same_run,
                (&(#[trigger] runs@[r])@[0], &runs@[r + 1]@[0]),
                false,
            ) by {
                if r + 1 < n {
                    assert(runs@[r] == before[r]);
                    assert(runs@[r + 1] == before[r + 1]);
                } else {
                    assert(runs@[r] == before[r]);
                    assert(run@[0] == items@[start as int]);
                }
            }
            assert(run@[0] == items@[start as int]);
            last_start = start as int;
        }
        start = i;
    }
    proof {
        assert(items@.take(len as int) =~= items@);
    }
    runs
}

/// Cuts `items` into runs: each run is as long a stretch of items as
/// follows its first item with a key equal to that of the first item. The
/// key of an item is what `get_key` returns for it.
pub fn iter_runs_by_key<'a, T, K: PartialEq, P: Fn(&T) -> K>(items: &'a [T], get_key: P) -> (runs:
    Vec<&'a [T]>)
    requires
        K::obeys_eq_spec(),
        forall|i: int| 0 <= i < items@.len() ==> call_requires(&get_key, (&#[trigger] items@[i],)),
    ensures
        joined(run_views(runs@), runs@.len() as int) == items@,
        forall|r: int| 0 <= r < runs@.len() ==> (#[trigger] runs@[r])@.len() > 0,
        forall|r: int, j: int|
            0 <= r < runs@.len() && 1 <= j < runs@[r]@.len() ==> has_same_key(
                &get_key,
                runs@[r]@[0],
                #[trigger] runs@[r]@[j],
            ),
        forall|r: int|
            0 <= r && r + 1 < runs@.len() ==> has_other_key(
                &get_key,
                (#[trigger] runs@[r])@[0],
                runs@[r + 1]@[0],
            ),
{
    let len: usize = items.len();
    let mut runs: Vec<&'a [T]> = Vec::new();
    let mut start: usize = 0;
    // Where a run has ended at an item with another key, the first item of
    // the run and that item.
    let ghost mut last_start: int = 0;
    while start < len
        invariant
            0 <= start <= len,
            len == items@.len(),
            K::obeys_eq_spec(),
            forall|i: int|
                0 <= i < items@.len() ==> call_requires(&get_key, (&#[trigger] items@[i],)),
            joined(run_views(runs@), runs@.len() as int) == items@.take(start as int),
            forall|r: int| 0 <= r < runs@.len() ==> (#[trigger] runs@[r])@.len() > 0,
            forall|r: int, j: int|
                0 <= r < runs@.len() && 1 <= j < runs@[r]@.len() ==> has_same_key(
                    &get_key,
                    runs@[r]@[0],
                    #[trigger] runs@[r]@[j],
                ),
            forall|r: int|
                0 <= r && r + 1 < runs@.len() ==> has_other_key(
                    &get_key,
                    (#[trigger] runs@[r])@[0],
                    runs@[r + 1]@[0],
                ),
            runs@.len() > 0 ==> 0 <= last_start < start && runs@.last()@[0] == items@[last_start],
            runs@.len() > 0 && start < len ==> has_other_key(
                &get_key,
                items@[last_start],
                items@[start as int],
            ),
        decreases len - start,
    {
        let first_key: K = get_key(&items[start]);
        let mut i: usize = start + 1;
        loop
            invariant
                start < i <= len,
                len == items@.len(),
                K::obeys_eq_spec(),
                call_ensures(&get_key, (&items@[start as int],), first_key),
                forall|k: int|
                    0 <= k < items@.len() ==> call_requires(&get_key, (&#[trigger] items@[k],)),
                forall|j: int|
                    start < j < i ==> has_same_key(
                        &get_key,
                        items@[start as int],
                        #[trigger] items@[j],
                    ),
            ensures
                i < len ==> has_other_key(&get_key, items@[start as int], items@[i as int]),
            decreases len - i,
        {
            if i >= len {
                break ;
            }
            let key: K = get_key(&items[i]);
            if !(first_key == key) {
                proof {
                    assert(call_ensures(&get_key, (&items@[i as int],), key) && !first_key.eq_spec(
                        &key,
                    ));
                }
                break ;
            }
            proof {
                assert(call_ensures(&get_key, (&items@[i as int],), key) && first_key.eq_spec(&key));
            }
            i += 1;
        }
        let run: &'a [T] = vstd::slice::slice_subrange(items, start, i);
        let ghost before = runs@;
        runs.push(run);
        proof {
            let n = before.len() as int;
            lemma_joined_same(run_views(runs@), run_views(before), n);
            assert(run_views(runs@)[n] == run@);
            assert(items@.take(i as int) =~= items@.take(start as int) + run@);
            assert forall|r: int, j: int|
                0 <= r < runs@.len() && 1 <= j < runs@[r]@.len() implies has_same_key(
                &get_key,
                runs@[r]@[0],
                #[trigger] runs@[r]@[j],
            ) by {
                if r < n {
                    assert(runs@[r] == before[r]);
                } else {
                    assert(run@[j] == items@[start + j]);
                    assert(run@[0] == items@[start as int]);
                }
            }
            assert forall|r: int| 0 <= r && r + 1 < runs@.len() implies has_other_key(
                &get_key,
                (#[trigger] runs@[r])@[0],
                runs@[r + 1]@[0],
            ) by {
                if r + 1 < n {
                    assert(runs@[r] == before[r]);
                    assert(runs@[r + 1] == before[r + 1]);
                } else {
                    assert(runs@[r] == before[r]);
                    assert(run@[0] == items@[start as int]);
                }
            }
            assert(run@[0] == items@[start as int]);
            last_start = start as int;
        }
        start = i;
    }
    proof {
        assert(items@.take(len as int) =~= items@);
    }
    runs
}

} // verus!
