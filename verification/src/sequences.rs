//! Sequences that are put together from what each of some items gives.
use vstd::prelude::*;

verus! {

/// What the first `k` items give holds exactly what one of them gives.
pub proof fn lemma_flat_map_contains<A, B>(items: Seq<A>, found: spec_fn(A) -> Seq<B>, k: int, x: B)
    requires
        0 <= k <= items.len(),
    ensures
        items.take(k).flat_map(found).contains(x) <==> exists|i: int|
            0 <= i < k && found(#[trigger] items[i]).contains(x),
    decreases k,
{
    if k == 0 {
        assert(items.take(0).flat_map(found) =~= Seq::empty());
    } else {
        lemma_flat_map_contains(items, found, k - 1, x);
        items.lemma_flat_map_take_append(found, k - 1);
        let before = items.take(k - 1).flat_map(found);
        let more = found(items[k - 1]);
        let all = items.take(k).flat_map(found);
        assert(all == before + more);
        if before.contains(x) {
            let m = choose|m: int| 0 <= m < before.len() && before[m] == x;
            assert(all[m] == x);
        }
        if more.contains(x) {
            let m = choose|m: int| 0 <= m < more.len() && more[m] == x;
            assert(all[before.len() + m] == x);
        }
        if all.contains(x) {
            let m = choose|m: int| 0 <= m < all.len() && all[m] == x;
            if m < before.len() {
                assert(before[m] == x);
            } else {
                assert(more[m - before.len()] == x);
                assert(found(items[k - 1]).contains(x));
            }
        }
    }
}

/// What the first `k` items give has no duplicates, where what each gives has
/// none and no two give the same.
pub proof fn lemma_flat_map_no_duplicates<A, B>(items: Seq<A>, found: spec_fn(A) -> Seq<B>, k: int)
    requires
        0 <= k <= items.len(),
        forall|i: int| 0 <= i < items.len() ==> found(#[trigger] items[i]).no_duplicates(),
        forall|i: int, j: int, x: B|
            0 <= i < j < items.len() && #[trigger] found(items[i]).contains(x)
                ==> !#[trigger] found(items[j]).contains(x),
    ensures
        items.take(k).flat_map(found).no_duplicates(),
    decreases k,
{
    if k == 0 {
        assert(items.take(0).flat_map(found) =~= Seq::empty());
    } else {
        lemma_flat_map_no_duplicates(items, found, k - 1);
        items.lemma_flat_map_take_append(found, k - 1);
        let before = items.take(k - 1).flat_map(found);
        let more = found(items[k - 1]);
        assert forall|i: int, j: int| 0 <= i < before.len() && 0 <= j < more.len() implies before[i]
            != more[j] by {
            if before[i] == more[j] {
                let x = more[j];
                lemma_flat_map_contains(items, found, k - 1, x);
                assert(before.contains(x));
                let m = choose|m: int| 0 <= m < k - 1 && found(#[trigger] items[m]).contains(x);
                assert(more.contains(x));
                assert(!found(items[k - 1]).contains(x));
            }
        }
        vstd::seq_lib::lemma_no_dup_in_concat(before, more);
    }
}

/// What two sequences of items give is what the first gives and then what the
/// second gives.
pub proof fn lemma_flat_map_concat<A, B>(a: Seq<A>, b: Seq<A>, found: spec_fn(A) -> Seq<B>)
    ensures
        (a + b).flat_map(found) == a.flat_map(found) + b.flat_map(found),
{
    lemma_flat_map_concat_first(a, b, found, b.len() as int);
    assert(b.take(b.len() as int) =~= b);
}

proof fn lemma_flat_map_concat_first<A, B>(
    a: Seq<A>,
    b: Seq<A>,
    found: spec_fn(A) -> Seq<B>,
    k: int,
)
    requires
        0 <= k <= b.len(),
    ensures
        (a + b.take(k)).flat_map(found) == a.flat_map(found) + b.take(k).flat_map(found),
    decreases k,
{
    if k == 0 {
        assert(b.take(0).flat_map(found) =~= Seq::empty());
        assert(a + b.take(0) =~= a);
        assert(a.flat_map(found) + Seq::empty() =~= a.flat_map(found));
    } else {
        lemma_flat_map_concat_first(a, b, found, k - 1);
        let all = a + b.take(k);
        let at = all.len() - 1;
        b.lemma_flat_map_take_append(found, k - 1);
        all.lemma_flat_map_take_append(found, at);
        assert(all.take(at + 1) =~= all);
        assert(all.take(at) =~= a + b.take(k - 1));
        assert(all[at] == b[k - 1]);
        assert(all.flat_map(found) =~= a.flat_map(found) + b.take(k).flat_map(found));
    }
}

/// What one item gives, and what none do.
pub proof fn lemma_flat_map_one<A, B>(item: A, found: spec_fn(A) -> Seq<B>)
    ensures
        seq![item].flat_map(found) == found(item),
        Seq::<A>::empty().flat_map(found) == Seq::<B>::empty(),
{
    let one = seq![item];
    one.lemma_flat_map_take_append(found, 0);
    assert(one.take(1) =~= one);
    assert(one.take(0) =~= Seq::empty());
    assert(one.take(0).flat_map(found) =~= Seq::empty());
    assert(one.flat_map(found) =~= found(item));
}

/// What items give contains what one of them gives, and nothing else.
pub proof fn lemma_flat_map_holds<A, B>(items: Seq<A>, found: spec_fn(A) -> Seq<B>, x: B)
    ensures
        items.flat_map(found).contains(x) <==> exists|i: int|
            0 <= i < items.len() && found(#[trigger] items[i]).contains(x),
{
    lemma_flat_map_contains(items, found, items.len() as int, x);
    assert(items.take(items.len() as int) =~= items);
}

} // verus!
