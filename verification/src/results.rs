//! Sequences of results, of which the first error decides.
use vstd::prelude::*;

verus! {

/// The values of `results` in order where there is no error among them, and
/// else the first error.
pub open spec fn all_or_first_error<T, E>(results: Seq<Result<T, E>>) -> Result<Seq<T>, E>
    decreases results.len(),
{
    if results.len() == 0 {
        Ok(Seq::empty())
    } else {
        match all_or_first_error(results.drop_last()) {
            Err(error) => Err(error),
            Ok(values) => match results.last() {
                Err(error) => Err(error),
                Ok(value) => Ok(values.push(value)),
            },
        }
    }
}

/// One result more decides only where there was no error before it.
pub proof fn lemma_push_result<T, E>(results: Seq<Result<T, E>>, result: Result<T, E>)
    ensures
        all_or_first_error(results.push(result)) == match all_or_first_error(results) {
            Err(error) => Err(error),
            Ok(values) => match result {
                Err(error) => Err(error),
                Ok(value) => Ok(values.push(value)),
            },
        },
{
    assert(results.push(result).drop_last() =~= results);
}

/// The results of a second sequence decide only where there was no error in
/// the first.
pub proof fn lemma_concat_results<T, E>(a: Seq<Result<T, E>>, b: Seq<Result<T, E>>)
    ensures
        all_or_first_error(a + b) == match all_or_first_error(a) {
            Err(error) => Err(error),
            Ok(values) => match all_or_first_error(b) {
                Err(error) => Err(error),
                Ok(more) => Ok(values + more),
            },
        },
    decreases b.len(),
{
    if b.len() == 0 {
        assert(a + b =~= a);
        if let Ok(values) = all_or_first_error(a) {
            assert(values + Seq::empty() =~= values);
        }
    } else {
        lemma_concat_results(a, b.drop_last());
        assert((a + b).drop_last() =~= a + b.drop_last());
        if let Ok(values) = all_or_first_error(a) {
            if let Ok(more) = all_or_first_error(b.drop_last()) {
                if let Ok(value) = b.last() {
                    assert((values + more).push(value) =~= values + more.push(value));
                }
            }
        }
    }
}

/// An error among the first `k` results is the first error of all.
pub proof fn lemma_early_error<T, E>(results: Seq<Result<T, E>>, k: int)
    requires
        0 <= k <= results.len(),
        all_or_first_error(results.take(k)) is Err,
    ensures
        all_or_first_error(results) == all_or_first_error(results.take(k)),
{
    lemma_concat_results(results.take(k), results.skip(k));
    assert(results.take(k) + results.skip(k) =~= results);
}

/// Without an error the values stand in the order of the results.
pub proof fn lemma_all_values<T, E>(results: Seq<Result<T, E>>)
    requires
        forall|i: int| 0 <= i < results.len() ==> (#[trigger] results[i]) is Ok,
    ensures
        all_or_first_error(results) == Ok::<Seq<T>, E>(
            results.map_values(|result: Result<T, E>| result->Ok_0),
        ),
    decreases results.len(),
{
    let values = results.map_values(|result: Result<T, E>| result->Ok_0);
    if results.len() == 0 {
        assert(values =~= Seq::empty());
    } else {
        let shorter = results.drop_last();
        assert forall|i: int| 0 <= i < shorter.len() implies (#[trigger] shorter[i]) is Ok by {
            assert(results[i] is Ok);
        }
        lemma_all_values(shorter);
        assert(values =~= shorter.map_values(|result: Result<T, E>| result->Ok_0).push(
            results.last()->Ok_0,
        ));
    }
}

/// Values without an error are those of the results, one for one.
pub proof fn lemma_values_are_results<T, E>(results: Seq<Result<T, E>>)
    ensures
        all_or_first_error(results) matches Ok(values) ==> {
            &&& values.len() == results.len()
            &&& forall|i: int| 0 <= i < results.len() ==> #[trigger] results[i] == Ok::<T, E>(values[i])
        },
    decreases results.len(),
{
    if results.len() > 0 {
        lemma_values_are_results(results.drop_last());
        if let Ok(values) = all_or_first_error(results) {
            let shorter = all_or_first_error(results.drop_last())->Ok_0;
            assert forall|i: int| 0 <= i < results.len() implies #[trigger] results[i] == Ok::<
                T,
                E,
            >(values[i]) by {
                if i < results.len() - 1 {
                    assert(results.drop_last()[i] == Ok::<T, E>(shorter[i]));
                }
            }
        }
    }
}

/// An error in what the first `k` items give is the first error of all.
pub proof fn lemma_early_error_among<A, T, E>(
    items: Seq<A>,
    found: spec_fn(A) -> Seq<Result<T, E>>,
    k: int,
)
    requires
        0 <= k <= items.len(),
        all_or_first_error(items.take(k).flat_map(found)) is Err,
    ensures
        all_or_first_error(items.flat_map(found)) == all_or_first_error(
            items.take(k).flat_map(found),
        ),
    decreases items.len() - k,
{
    if k == items.len() {
        assert(items.take(k) =~= items);
    } else {
        items.lemma_flat_map_take_append(found, k);
        lemma_concat_results(items.take(k).flat_map(found), found(items[k]));
        lemma_early_error_among(items, found, k + 1);
    }
}


/// What items give holds no error exactly if what each of them gives holds
/// none.
pub proof fn lemma_no_error_among<A, T, E>(items: Seq<A>, found: spec_fn(A) -> Seq<Result<T, E>>)
    ensures
        all_or_first_error(items.flat_map(found)) is Ok <==> forall|i: int|
            0 <= i < items.len() ==> all_or_first_error(found(#[trigger] items[i])) is Ok,
{
    lemma_no_error_among_first(items, found, items.len() as int);
    assert(items.take(items.len() as int) =~= items);
}

proof fn lemma_no_error_among_first<A, T, E>(
    items: Seq<A>,
    found: spec_fn(A) -> Seq<Result<T, E>>,
    k: int,
)
    requires
        0 <= k <= items.len(),
    ensures
        all_or_first_error(items.take(k).flat_map(found)) is Ok <==> forall|i: int|
            0 <= i < k ==> all_or_first_error(found(#[trigger] items[i])) is Ok,
    decreases k,
{
    if k == 0 {
        assert(items.take(0).flat_map(found) =~= Seq::empty());
    } else {
        lemma_no_error_among_first(items, found, k - 1);
        items.lemma_flat_map_take_append(found, k - 1);
        lemma_concat_results(items.take(k - 1).flat_map(found), found(items[k - 1]));
    }
}

/// Results hold no error exactly if each of them is a value.
pub proof fn lemma_no_error<T, E>(results: Seq<Result<T, E>>)
    ensures
        all_or_first_error(results) is Ok <==> forall|i: int|
            0 <= i < results.len() ==> (#[trigger] results[i]) is Ok,
{
    if all_or_first_error(results) is Ok {
        lemma_values_are_results(results);
    } else if forall|i: int| 0 <= i < results.len() ==> (#[trigger] results[i]) is Ok {
        lemma_all_values(results);
    }
}

/// Without an error, what comes of results are their values, one for one.
pub proof fn law_all_values_come_through<T, E>(results: Seq<Result<T, E>>, values: Seq<T>)
    requires
        results.len() == values.len(),
        forall|i: int| 0 <= i < results.len() ==> #[trigger] results[i] == Ok::<T, E>(values[i]),
    ensures
        all_or_first_error(results) == Ok::<Seq<T>, E>(values),
{
    lemma_all_values(results);
    lemma_values_are_results(results);
    assert(all_or_first_error(results)->Ok_0 =~= values);
}

/// With an error, what comes of results is the first one.
pub proof fn law_the_first_error_comes_through<T, E>(results: Seq<Result<T, E>>, k: int)
    requires
        0 <= k < results.len(),
        results[k] is Err,
        forall|i: int| 0 <= i < k ==> (#[trigger] results[i]) is Ok,
    ensures
        all_or_first_error(results) == Err::<Seq<T>, E>(results[k]->Err_0),
{
    let before = results.take(k);
    assert forall|i: int| 0 <= i < before.len() implies (#[trigger] before[i]) is Ok by {
        assert(results[i] is Ok);
    }
    lemma_all_values(before);
    lemma_push_result(before, results[k]);
    assert(results.take(k + 1) =~= before.push(results[k]));
    lemma_early_error(results, k + 1);
}

} // verus!
