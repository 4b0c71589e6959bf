//! Sets of names, kept in ascending order.
use vstd::prelude::*;

use crate::ordering::bytes_less;
use crate::ordering::law_bytes_less_is_irreflexive;
use crate::ordering::law_bytes_less_is_total;
use crate::ordering::law_bytes_less_is_transitive;
use crate::ordering::lemma_text_bytes_are_injective;
use crate::ordering::text_before;
use crate::ordering::text_less;
use vstd::utf8::encode_utf8;

verus! {

/// Whether each name comes before the next.
pub open spec fn is_ascending(names: Seq<Seq<char>>) -> bool {
    forall|i: int, j: int|
        0 <= i < j < names.len() ==> text_less(#[trigger] names[i], #[trigger] names[j])
}

/// The names of a finite set in ascending order.
pub open spec fn in_order(names: Set<Seq<char>>) -> Seq<Seq<char>> {
    choose|ordered: Seq<Seq<char>>| is_ascending(ordered) && #[trigger] ordered.to_set() == names
}

/// The texts of a vector of strings.
pub open spec fn texts(names: Seq<String>) -> Seq<Seq<char>> {
    names.map_values(|name: String| name@)
}

/// There is one way only to put names in ascending order.
pub proof fn law_order_of_names_is_unique(a: Seq<Seq<char>>, b: Seq<Seq<char>>)
    requires
        is_ascending(a),
        is_ascending(b),
        a.to_set() == b.to_set(),
    ensures
        a == b,
    decreases a.len(),
{
    if a.len() == 0 {
        if b.len() > 0 {
            assert(b.to_set().contains(b[0]));
            assert(a.contains(b[0]));
        }
        assert(a =~= b);
    } else {
        assert(a.to_set().contains(a[0]));
        assert(b.contains(a[0]));
        assert(b.len() > 0);
        lemma_same_last(a, b);
        let x = a.drop_last();
        let y = b.drop_last();
        assert(x.to_set() =~= y.to_set()) by {
            lemma_without_last(a);
            lemma_without_last(b);
        }
        law_order_of_names_is_unique(x, y);
        assert(a =~= x.push(a.last()));
        assert(b =~= y.push(b.last()));
    }
}

proof fn lemma_same_last(a: Seq<Seq<char>>, b: Seq<Seq<char>>)
    requires
        is_ascending(a),
        is_ascending(b),
        a.to_set() == b.to_set(),
        a.len() > 0,
        b.len() > 0,
    ensures
        a.last() == b.last(),
{
    assert(a.to_set().contains(a.last()));
    assert(b.to_set().contains(b.last()));
    let i = choose|i: int| 0 <= i < b.len() && b[i] == a.last();
    let j = choose|j: int| 0 <= j < a.len() && a[j] == b.last();
    if i < b.len() - 1 && j < a.len() - 1 {
        assert(text_less(b[i], b[b.len() - 1]));
        assert(text_less(a[j], a[a.len() - 1]));
        lemma_text_less_is_asymmetric(a.last(), b.last());
    }
}

proof fn lemma_text_less_is_asymmetric(a: Seq<char>, b: Seq<char>)
    requires
        text_less(a, b),
    ensures
        !text_less(b, a),
{
    if text_less(b, a) {
        law_bytes_less_is_transitive(encode_utf8(a), encode_utf8(b), encode_utf8(a));
        law_bytes_less_is_irreflexive(encode_utf8(a));
    }
}

proof fn lemma_without_last(a: Seq<Seq<char>>)
    requires
        is_ascending(a),
        a.len() > 0,
    ensures
        a.drop_last().to_set() == a.to_set().remove(a.last()),
{
    let x = a.drop_last();
    assert forall|name: Seq<char>| x.to_set().contains(name) == a.to_set().remove(
        a.last(),
    ).contains(name) by {
        if x.contains(name) {
            let i = choose|i: int| 0 <= i < x.len() && x[i] == name;
            assert(a[i] == name);
            assert(text_less(a[i], a[a.len() - 1]));
            law_bytes_less_is_irreflexive(encode_utf8(name));
        }
        if a.contains(name) && name != a.last() {
            let i = choose|i: int| 0 <= i < a.len() && a[i] == name;
            assert(x[i] == name);
        }
    }
    assert(x.to_set() =~= a.to_set().remove(a.last()));
}

/// A set of names.
#[derive(Debug)]
pub struct NameSet {
    names: Vec<String>,
}

impl View for NameSet {
    type V = Set<Seq<char>>;

    closed spec fn view(&self) -> Set<Seq<char>> {
        texts(self.names@).to_set()
    }
}

impl NameSet {
    #[verifier::type_invariant]
    spec fn well_formed(&self) -> bool {
        is_ascending(texts(self.names@))
    }

    /// The empty set.
    pub fn new() -> (set: Self)
        ensures
            set@ == Set::<Seq<char>>::empty(),
    {
        let set = NameSet { names: Vec::new() };
        assert(texts(set.names@) =~= Seq::empty());
        assert(set@ =~= Set::empty());
        set
    }

    /// The names in ascending order.
    pub fn names(&self) -> (names: &Vec<String>)
        ensures
            texts(names@) == in_order(self@),
            is_ascending(texts(names@)),
            texts(names@).to_set() == self@,
            self@.finite(),
    {
        proof {
            lemma_name_sets_are_finite(*self);
            use_type_invariant(self);
            law_order_of_names_is_unique(texts(self.names@), in_order(self@));
        }
        &self.names
    }

    /// Whether the set has no name.
    pub fn is_empty(&self) -> (empty: bool)
        ensures
            empty == (self@ == Set::<Seq<char>>::empty()),
    {
        let empty = self.names.is_empty();
        proof {
            if empty {
                assert(self@ =~= Set::empty());
            } else {
                assert(texts(self.names@)[0] == self.names@[0]@);
                assert(self@.contains(self.names@[0]@));
            }
        }
        empty
    }

    /// Adds `name`. The result says whether it was new.
    pub fn insert(&mut self, name: String) -> (is_new: bool)
        ensures
            final(self)@ == old(self)@.insert(name@),
            is_new == !old(self)@.contains(name@),
    {
        proof {
            use_type_invariant(&*self);
        }
        let ghost before = texts(self.names@);
        let mut at: usize = 0;
        while at < self.names.len() && text_before(self.names[at].as_str(), name.as_str())
            invariant
                at <= self.names@.len(),
                before == texts(self.names@),
                self@ == old(self)@,
                self.names@ == old(self).names@,
                forall|k: int| 0 <= k < at ==> text_less(#[trigger] before[k], name@),
            decreases self.names@.len() - at,
        {
            assert(before[at as int] == self.names@[at as int]@);
            at += 1;
        }
        if at < self.names.len() && self.names[at] == name {
            assert(before[at as int] == name@);
            assert(self@.contains(name@));
            assert(self@ =~= old(self)@.insert(name@));
            return false;
        }
        let mut names: Vec<String> = Vec::new();
        assert(is_ascending(texts(names@)));
        core::mem::swap(&mut names, &mut self.names);
        names.insert(at, name);
        proof {
            let after = texts(names@);
            assert(after =~= before.insert(at as int, name@));
            if at < before.len() {
                let next = before[at as int];
                law_bytes_less_is_total(encode_utf8(next), encode_utf8(name@));
                if encode_utf8(next) == encode_utf8(name@) {
                    lemma_text_bytes_are_injective(next, name@);
                }
                assert(text_less(name@, next));
            }
            lemma_insert_ascending(before, at as int, name@);
        }
        self.names = names;
        true
    }
}

/// A set of names is finite.
pub proof fn lemma_name_sets_are_finite(set: NameSet)
    ensures
        set@.finite(),
{
    vstd::seq_lib::seq_to_set_is_finite(texts(set.names@));
}

proof fn lemma_insert_ascending(before: Seq<Seq<char>>, at: int, name: Seq<char>)
    requires
        is_ascending(before),
        0 <= at <= before.len(),
        forall|k: int| 0 <= k < at ==> text_less(#[trigger] before[k], name),
        at < before.len() ==> text_less(name, before[at]),
    ensures
        is_ascending(before.insert(at, name)),
        before.insert(at, name).to_set() == before.to_set().insert(name),
        !before.to_set().contains(name),
{
    let after = before.insert(at, name);
    assert forall|i: int, j: int| 0 <= i < j < after.len() implies text_less(
        #[trigger] after[i],
        #[trigger] after[j],
    ) by {
        if i == at {
            if j - 1 > at {
                assert(text_less(before[at], before[j - 1]));
                law_bytes_less_is_transitive(
                    encode_utf8(name),
                    encode_utf8(before[at]),
                    encode_utf8(before[j - 1]),
                );
            }
        } else if j == at {
            assert(text_less(before[i], name));
        } else {
            let a = if i < at { i } else { i - 1 };
            let b = if j < at { j } else { j - 1 };
            assert(text_less(before[a], before[b]));
        }
    }
    assert forall|other: Seq<char>| after.to_set().contains(other) == before.to_set().insert(
        name,
    ).contains(other) by {
        if after.contains(other) && other != name {
            let i = choose|i: int| 0 <= i < after.len() && after[i] == other;
            assert(before[if i < at { i } else { i - 1 }] == other);
        }
        if before.contains(other) {
            let i = choose|i: int| 0 <= i < before.len() && before[i] == other;
            assert(after[if i < at { i } else { i + 1 }] == other);
        }
        assert(after[at] == name);
    }
    assert(after.to_set() =~= before.to_set().insert(name));
    if before.contains(name) {
        let i = choose|i: int| 0 <= i < before.len() && before[i] == name;
        if i < at {
            assert(text_less(before[i], name));
        } else if i > at {
            assert(text_less(before[at], before[i]));
            law_bytes_less_is_transitive(
                encode_utf8(name),
                encode_utf8(before[at]),
                encode_utf8(name),
            );
        }
        law_bytes_less_is_irreflexive(encode_utf8(name));
    }
}

/// Every finite set of names has an ascending order.
pub proof fn law_finite_sets_have_an_order(names: Set<Seq<char>>)
    requires
        names.finite(),
    ensures
        is_ascending(in_order(names)),
        in_order(names).to_set() == names,
    decreases names.len(),
{
    if names.len() == 0 {
        let none = Seq::<Seq<char>>::empty();
        assert(none.to_set() =~= names);
    } else {
        let name = names.choose();
        let others = names.remove(name);
        law_finite_sets_have_an_order(others);
        let ordered = in_order(others);
        let at = lemma_place_of(ordered, name, 0);
        if at < ordered.len() {
            let next = ordered[at];
            assert(others.contains(next)) by {
                assert(ordered.to_set().contains(next));
            }
            law_bytes_less_is_total(encode_utf8(next), encode_utf8(name));
            if encode_utf8(next) == encode_utf8(name) {
                lemma_text_bytes_are_injective(next, name);
            }
        }
        lemma_insert_ascending(ordered, at, name);
        assert(ordered.insert(at, name).to_set() =~= names);
    }
}

/// Finds where `name` belongs among names in ascending order.
proof fn lemma_place_of(ordered: Seq<Seq<char>>, name: Seq<char>, from: int) -> (at: int)
    requires
        0 <= from <= ordered.len(),
        forall|k: int| 0 <= k < from ==> text_less(#[trigger] ordered[k], name),
    ensures
        0 <= at <= ordered.len(),
        forall|k: int| 0 <= k < at ==> text_less(#[trigger] ordered[k], name),
        at < ordered.len() ==> !text_less(ordered[at], name),
    decreases ordered.len() - from,
{
    if from == ordered.len() || !text_less(ordered[from], name) {
        from
    } else {
        lemma_place_of(ordered, name, from + 1)
    }
}

/// The order of a finite set of names holds each of them once, each before
/// those whose UTF-8 bytes come after its own.
pub proof fn law_names_are_in_byte_order(names: Set<Seq<char>>)
    requires
        names.finite(),
    ensures
        forall|name: Seq<char>| in_order(names).contains(name) <==> #[trigger] names.contains(name),
        forall|i: int, j: int|
            0 <= i < j < in_order(names).len() ==> bytes_less(
                encode_utf8(#[trigger] in_order(names)[i]),
                encode_utf8(#[trigger] in_order(names)[j]),
            ),
        in_order(names).len() == names.len(),
{
    law_finite_sets_have_an_order(names);
    let ordered = in_order(names);
    assert forall|name: Seq<char>| ordered.contains(name) <==> #[trigger] names.contains(name) by {
        assert(ordered.contains(name) <==> ordered.to_set().contains(name));
    }
    assert forall|i: int, j: int| 0 <= i < j < ordered.len() implies bytes_less(
        encode_utf8(#[trigger] ordered[i]),
        encode_utf8(#[trigger] ordered[j]),
    ) by {
        assert(text_less(ordered[i], ordered[j]));
    }
    assert(ordered.no_duplicates()) by {
        assert forall|i: int, j: int|
            0 <= i < ordered.len() && 0 <= j < ordered.len() && i != j implies ordered[i]
            != ordered[j] by {
            law_bytes_less_is_irreflexive(encode_utf8(ordered[i]));
            if i < j {
                assert(text_less(ordered[i], ordered[j]));
            } else {
                assert(text_less(ordered[j], ordered[i]));
            }
        }
    }
    ordered.unique_seq_to_set();
}

} // verus!
