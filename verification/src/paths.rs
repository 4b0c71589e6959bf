//! Path text: bytes in which `/` separates names.
//!
//! A path is the byte string that a POSIX file system is called with: drive
//! letters and backslashes have no meaning in it. Nor have repeated separators,
//! a trailing separator and `.` names, except a `.` that the path starts with.
use vstd::prelude::*;
use vstd::slice::slice_subrange;
use vstd::slice::slice_to_vec;
use vstd::utf8::decode_utf8;
use vstd::utf8::valid_utf8;

verus! {

/// The byte `/`.
pub const SEPARATOR: u8 = 0x2f;

/// The byte `.`.
pub const DOT: u8 = 0x2e;

/// Where the run of bytes other than `/` that starts at `i` ends.
pub open spec fn run_end(path: Seq<u8>, i: int) -> int
    decreases path.len() - i,
{
    if i < 0 || i >= path.len() || path[i] == SEPARATOR {
        i
    } else {
        run_end(path, i + 1)
    }
}

/// Whether the bytes from `start` to `end` are the single byte `.`.
pub open spec fn is_dot(path: Seq<u8>, start: int, end: int) -> bool {
    end == start + 1 && path[start] == DOT
}

/// The spans of the names from position `i` on: the runs of bytes other than
/// `/`, without those that are `.` and do not start the path.
pub open spec fn name_spans(path: Seq<u8>, i: int) -> Seq<(int, int)>
    decreases path.len() - i,
{
    if i < 0 || i >= path.len() {
        Seq::empty()
    } else if path[i] == SEPARATOR {
        name_spans(path, i + 1)
    } else {
        let end = run_end(path, i);
        let here = if is_dot(path, i, end) && i > 0 {
            Seq::empty()
        } else {
            seq![(i, end)]
        };
        proof {
            lemma_run_end(path, i);
        }
        here + name_spans(path, end)
    }
}

/// The spans of a path's components: the root `/`, where the path starts with
/// one, and then the names.
pub open spec fn component_spans(path: Seq<u8>) -> Seq<(int, int)> {
    if path.len() > 0 && path[0] == SEPARATOR {
        seq![(0int, 1int)] + name_spans(path, 0)
    } else {
        name_spans(path, 0)
    }
}

/// The components of a path.
pub open spec fn components(path: Seq<u8>) -> Seq<Seq<u8>> {
    component_spans(path).map_values(|span: (int, int)| path.subrange(span.0, span.1))
}

/// The text of a path from its component `n` to the end of its last component.
pub open spec fn from_component(path: Seq<u8>, n: int) -> Seq<u8> {
    let spans = component_spans(path);
    if n < spans.len() {
        path.subrange(spans[n].0, spans.last().1)
    } else {
        Seq::empty()
    }
}

/// The rest of `path` below `base`, where the components of `base` start those
/// of `path`.
pub open spec fn relative_path(path: Seq<u8>, base: Seq<u8>) -> Option<Seq<u8>> {
    if components(base).is_prefix_of(components(path)) {
        Some(from_component(path, components(base).len() as int))
    } else {
        None
    }
}

/// The path of `child` below `base`. A `child` that starts with `/` stands for
/// itself.
pub open spec fn joined_path(base: Seq<u8>, child: Seq<u8>) -> Seq<u8> {
    if child.len() > 0 && child[0] == SEPARATOR {
        child
    } else if base.len() > 0 && base.last() != SEPARATOR {
        base.push(SEPARATOR) + child
    } else {
        base + child
    }
}

/// A run ends within the path, at a separator or with the path.
pub proof fn lemma_run_end(path: Seq<u8>, i: int)
    requires
        0 <= i <= path.len(),
    ensures
        i <= run_end(path, i) <= path.len(),
        i < path.len() && path[i] != SEPARATOR ==> i < run_end(path, i),
        run_end(path, i) < path.len() ==> path[run_end(path, i)] == SEPARATOR,
        forall|j: int| i <= j < run_end(path, i) ==> path[j] != SEPARATOR,
    decreases path.len() - i,
{
    if i < path.len() && path[i] != SEPARATOR {
        lemma_run_end(path, i + 1);
    }
}

/// A run ends at the first separator, or with the path.
proof fn lemma_run_end_is(path: Seq<u8>, i: int, end: int)
    requires
        0 <= i <= end <= path.len(),
        forall|j: int| i <= j < end ==> path[j] != SEPARATOR,
        end == path.len() || path[end] == SEPARATOR,
    ensures
        run_end(path, i) == end,
{
    lemma_run_end(path, i);
}

/// Spans that lie one behind the other between `low` and `high`.
spec fn in_sequence(spans: Seq<(int, int)>, low: int, high: int) -> bool {
    &&& forall|k: int|
        0 <= k < spans.len() ==> low <= (#[trigger] spans[k]).0 < spans[k].1 <= high
    &&& forall|k: int, m: int|
        0 <= k < m < spans.len() ==> (#[trigger] spans[k]).1 <= (#[trigger] spans[m]).0
}

proof fn lemma_name_spans_bounds(path: Seq<u8>, i: int)
    requires
        0 <= i <= path.len(),
    ensures
        in_sequence(name_spans(path, i), i, path.len() as int),
    decreases path.len() - i,
{
    if i < path.len() {
        if path[i] == SEPARATOR {
            lemma_name_spans_bounds(path, i + 1);
        } else {
            lemma_run_end(path, i);
            let end = run_end(path, i);
            lemma_name_spans_bounds(path, end);
            let rest = name_spans(path, end);
            if is_dot(path, i, end) && i > 0 {
                assert(name_spans(path, i) =~= rest);
            } else {
                assert(name_spans(path, i) =~= seq![(i, end)] + rest);
            }
        }
    }
}

proof fn lemma_component_spans_bounds(path: Seq<u8>)
    ensures
        in_sequence(component_spans(path), 0, path.len() as int),
{
    lemma_name_spans_bounds(path, 0);
    if path.len() > 0 && path[0] == SEPARATOR {
        lemma_name_spans_bounds(path, 1);
        assert(name_spans(path, 0) == name_spans(path, 1));
        assert(component_spans(path) =~= seq![(0int, 1int)] + name_spans(path, 1));
    }
}

/// Whether spans computed on machine integers are the spans `spans`.
spec fn are_spans(found: Seq<(usize, usize)>, spans: Seq<(int, int)>) -> bool {
    &&& found.len() == spans.len()
    &&& forall|k: int|
        0 <= k < found.len() ==> (#[trigger] found[k]).0 == spans[k].0 && found[k].1 == spans[k].1
}

/// Finds the spans of the components of `path`.
fn find_component_spans(path: &[u8]) -> (found: Vec<(usize, usize)>)
    ensures
        are_spans(found@, component_spans(path@)),
{
    let mut found: Vec<(usize, usize)> = Vec::new();
    if path.len() > 0 && path[0] == SEPARATOR {
        found.push((0, 1));
    }
    let ghost root = found@;
    let mut i: usize = 0;
    proof {
        if root.len() == 0 {
            assert(component_spans(path@) =~= name_spans(path@, 0));
        }
    }
    let ghost mut done: Seq<(int, int)> = if root.len() == 0 {
        Seq::empty()
    } else {
        seq![(0int, 1int)]
    };
    while i < path.len()
        invariant
            i <= path@.len(),
            component_spans(path@) =~= done + name_spans(path@, i as int),
            are_spans(found@, done),
        decreases path@.len() - i,
    {
        if path[i] == SEPARATOR {
            i += 1;
        } else {
            let start: usize = i;
            while i < path.len() && path[i] != SEPARATOR
                invariant
                    start <= i <= path@.len(),
                    forall|j: int| start <= j < i ==> path@[j] != SEPARATOR,
                decreases path@.len() - i,
            {
                i += 1;
            }
            proof {
                lemma_run_end_is(path@, start as int, i as int);
            }
            if !(i == start + 1 && path[start] == DOT && start > 0) {
                found.push((start, i));
                proof {
                    done = done.push((start as int, i as int));
                }
            }
        }
    }
    assert(name_spans(path@, i as int) =~= Seq::empty());
    found
}

/// Whether two byte strings are the same.
fn same_bytes(a: &[u8], b: &[u8]) -> (same: bool)
    ensures
        same == (a@ == b@),
{
    if a.len() != b.len() {
        return false;
    }
    let mut i: usize = 0;
    while i < a.len()
        invariant
            a@.len() == b@.len(),
            i <= a@.len(),
            forall|j: int| 0 <= j < i ==> a@[j] == b@[j],
        decreases a@.len() - i,
    {
        if a[i] != b[i] {
            return false;
        }
        i += 1;
    }
    assert(a@ =~= b@);
    true
}

/// The rest of `path` below `base`: `Some` exactly where the components of
/// `base` start those of `path`.
pub fn strip_prefix(path: &[u8], base: &[u8]) -> (rest: Option<Vec<u8>>)
    ensures
        match rest {
            Some(rest) => relative_path(path@, base@) == Some(rest@),
            None => relative_path(path@, base@) is None,
        },
{
    let path_spans = find_component_spans(path);
    let base_spans = find_component_spans(base);
    proof {
        lemma_component_spans_bounds(path@);
        lemma_component_spans_bounds(base@);
    }
    let ghost of_path = components(path@);
    let ghost of_base = components(base@);
    if base_spans.len() > path_spans.len() {
        return None;
    }
    let mut k: usize = 0;
    while k < base_spans.len()
        invariant
            are_spans(path_spans@, component_spans(path@)),
            are_spans(base_spans@, component_spans(base@)),
            of_path == components(path@),
            of_base == components(base@),
            base_spans@.len() <= path_spans@.len(),
            k <= base_spans@.len(),
            forall|j: int| 0 <= j < k ==> of_path[j] == of_base[j],
            in_sequence(component_spans(path@), 0, path@.len() as int),
            in_sequence(component_spans(base@), 0, base@.len() as int),
        decreases base_spans@.len() - k,
    {
        let (path_start, path_end) = path_spans[k];
        let (base_start, base_end) = base_spans[k];
        assert(component_spans(path@)[k as int] == (path_start as int, path_end as int));
        assert(component_spans(base@)[k as int] == (base_start as int, base_end as int));
        let same = same_bytes(
            slice_subrange(path, path_start, path_end),
            slice_subrange(base, base_start, base_end),
        );
        if !same {
            assert(of_path[k as int] != of_base[k as int]);
            assert(!of_base.is_prefix_of(of_path));
            return None;
        }
        k += 1;
    }
    assert(of_base.is_prefix_of(of_path)) by {
        assert(of_base =~= of_path.subrange(0, of_base.len() as int));
    }
    if k < path_spans.len() {
        let last: usize = path_spans.len() - 1;
        let start: usize = path_spans[k].0;
        let end: usize = path_spans[last].1;
        assert(component_spans(path@)[k as int].0 == start);
        assert(component_spans(path@)[last as int].1 == end);
        assert(start <= end);
        Some(slice_to_vec(slice_subrange(path, start, end)))
    } else {
        Some(Vec::new())
    }
}

/// The path of `child` below `base`.
pub fn join(base: &[u8], child: &[u8]) -> (path: Vec<u8>)
    ensures
        path@ == joined_path(base@, child@),
{
    if child.len() > 0 && child[0] == SEPARATOR {
        return slice_to_vec(child);
    }
    let mut path = slice_to_vec(base);
    if base.len() > 0 && base[base.len() - 1] != SEPARATOR {
        path.push(SEPARATOR);
    }
    let mut rest = slice_to_vec(child);
    path.append(&mut rest);
    path
}

/// Whether a relative path starts with a name other than `.`.
pub open spec fn starts_with_name(path: Seq<u8>) -> bool {
    &&& path.len() > 0
    &&& path[0] != SEPARATOR
    &&& !is_dot(path, 0, run_end(path, 0))
}

/// Whether the last name of a path is the one that starts at `start`, is not
/// `.`, and has nothing behind it.
pub open spec fn ends_with_name(path: Seq<u8>, start: int) -> bool {
    &&& 0 <= start < path.len()
    &&& start == 0 || path[start - 1] == SEPARATOR
    &&& forall|j: int| start <= j < path.len() ==> path[j] != SEPARATOR
    &&& !is_dot(path, start, path.len() as int)
}

/// The names of a path from position `i` on.
spec fn names_from(path: Seq<u8>, i: int) -> Seq<Seq<u8>> {
    name_spans(path, i).map_values(|span: (int, int)| path.subrange(span.0, span.1))
}

/// The components of a joined path are those of the base, and then the names
/// that were joined onto it.
proof fn lemma_components_of_join(base: Seq<u8>, child: Seq<u8>)
    requires
        child.len() > 0 ==> child[0] != SEPARATOR,
    ensures
        ({
            let path = joined_path(base, child);
            let at = path.len() - child.len();
            &&& at >= base.len()
            &&& forall|k: int| 0 <= k < child.len() ==> #[trigger] child[k] == path[at + k]
            &&& component_spans(path) == component_spans(base) + name_spans(path, at)
            &&& components(path) == components(base) + names_from(path, at)
        }),
{
    let parent = if base.len() > 0 && base.last() != SEPARATOR {
        base.push(SEPARATOR)
    } else {
        base
    };
    let path = joined_path(base, child);
    let at = parent.len() as int;
    assert(path =~= parent + child);
    if parent != base {
        lemma_trailing_separator(base, 0);
    }
    assert(component_spans(parent) =~= component_spans(base));
    lemma_spans_split(parent, child, 0);
    let above = component_spans(base);
    let below = name_spans(path, at);
    if base.len() > 0 {
        assert(path[0] == base[0]);
    } else {
        assert(above =~= Seq::empty());
    }
    assert(component_spans(path) =~= above + below);
    lemma_component_spans_bounds(base);
    assert forall|k: int| 0 <= k < above.len() implies components(base)[k] == components(
        path,
    )[k] by {
        let span = above[k];
        assert(component_spans(path)[k] == span);
        assert(base.subrange(span.0, span.1) =~= path.subrange(span.0, span.1));
    }
    assert(components(path) =~= components(base) + names_from(path, at));
}

/// What was joined onto a base is what is left below that base, for every base
/// and every relative path that starts and ends with a name.
pub proof fn law_joined_path_is_relative_to_its_base(base: Seq<u8>, child: Seq<u8>, last: int)
    requires
        starts_with_name(child),
        ends_with_name(child, last),
    ensures
        relative_path(joined_path(base, child), base) == Some(child),
{
    let path = joined_path(base, child);
    let at = path.len() - child.len();
    lemma_components_of_join(base, child);
    let above = component_spans(base);
    let below = name_spans(path, at);
    assert(components(base).is_prefix_of(components(path))) by {
        assert(components(base) =~= components(path).subrange(0, above.len() as int));
    }
    lemma_run_end(child, 0);
    assert(path.subrange(at, path.len() as int) =~= child);
    assert forall|j: int| at <= j < path.len() implies path[j] == child[j - at] by {}
    if at + run_end(child, 0) < path.len() {
        assert(child[run_end(child, 0)] == path[at + run_end(child, 0)]);
    }
    lemma_run_end_is(path, at, at + run_end(child, 0));
    assert(child[0] == path[at + 0]);
    assert(below.len() > 0 && below[0].0 == at);
    if last > 0 {
        assert(child[last - 1] == path[at + (last - 1)]);
    } else if at > 0 {
        assert(path[at - 1] == SEPARATOR);
    }
    assert(child[last] == path[at + last]);
    lemma_last_span(path, at, at + last);
    assert(component_spans(path)[above.len() as int] == below[0]);
    assert(component_spans(path).last() == below.last());
}

/// What is joined onto a base lies below it, unless it is an absolute path.
pub proof fn law_joined_path_lies_below_its_base(base: Seq<u8>, child: Seq<u8>)
    requires
        child.len() > 0 ==> child[0] != SEPARATOR,
    ensures
        components(base).is_prefix_of(components(joined_path(base, child))),
{
    lemma_components_of_join(base, child);
    assert(components(base) =~= components(joined_path(base, child)).subrange(
        0,
        components(base).len() as int,
    ));
}

/// A separator behind a path adds no name.
proof fn lemma_trailing_separator(path: Seq<u8>, i: int)
    requires
        0 <= i <= path.len(),
    ensures
        name_spans(path.push(SEPARATOR), i) == name_spans(path, i),
    decreases path.len() - i,
{
    let longer = path.push(SEPARATOR);
    if i == path.len() {
        assert(name_spans(longer, i + 1) =~= Seq::empty());
    } else if path[i] == SEPARATOR {
        lemma_trailing_separator(path, i + 1);
    } else {
        lemma_run_end(path, i);
        lemma_run_end_is(longer, i, run_end(path, i));
        lemma_trailing_separator(path, run_end(path, i));
    }
}

/// The names of a path are those of its parent part, which is empty or ends
/// with a separator, and then those of the rest.
proof fn lemma_spans_split(parent: Seq<u8>, child: Seq<u8>, i: int)
    requires
        0 <= i <= parent.len(),
        parent.len() == 0 || parent.last() == SEPARATOR,
    ensures
        name_spans(parent + child, i) == name_spans(parent, i) + name_spans(
            parent + child,
            parent.len() as int,
        ),
    decreases parent.len() - i,
{
    let path = parent + child;
    let below = name_spans(path, parent.len() as int);
    if i == parent.len() {
        assert(name_spans(parent, i) + below =~= below);
    } else if parent[i] == SEPARATOR {
        assert(path[i] == SEPARATOR);
        lemma_spans_split(parent, child, i + 1);
    } else {
        assert(path[i] == parent[i]);
        lemma_run_end(parent, i);
        let end = run_end(parent, i);
        lemma_run_end_is(path, i, end);
        lemma_spans_split(parent, child, end);
        assert(is_dot(path, i, end) == is_dot(parent, i, end));
        assert(name_spans(path, i) =~= name_spans(parent, i) + below);
    }
}

/// The last span of a path that ends with a name ends with the path.
proof fn lemma_last_span(path: Seq<u8>, i: int, start: int)
    requires
        0 <= i <= start,
        ends_with_name(path, start),
    ensures
        name_spans(path, i).len() > 0,
        name_spans(path, i).last().1 == path.len(),
    decreases path.len() - i,
{
    if i == start {
        lemma_run_end_is(path, i, path.len() as int);
        assert(name_spans(path, path.len() as int) =~= Seq::empty());
        assert(name_spans(path, i) =~= seq![(i, path.len() as int)]);
    } else if path[i] == SEPARATOR {
        lemma_last_span(path, i + 1, start);
    } else {
        lemma_run_end(path, i);
        lemma_last_span(path, run_end(path, i), start);
    }
}

/// Where a path has names, nothing stands behind the last of them, and it ends
/// where its run ends.
proof fn lemma_behind_last_span(path: Seq<u8>, i: int)
    requires
        0 <= i <= path.len(),
        name_spans(path, i).len() > 0,
    ensures
        ({
            let end = name_spans(path, i).last().1;
            &&& i < end <= path.len()
            &&& end == path.len() || path[end] == SEPARATOR
            &&& name_spans(path, end) == Seq::<(int, int)>::empty()
        }),
    decreases path.len() - i,
{
    if path[i] == SEPARATOR {
        lemma_behind_last_span(path, i + 1);
    } else {
        lemma_run_end(path, i);
        let end = run_end(path, i);
        let rest = name_spans(path, end);
        if rest.len() > 0 {
            lemma_behind_last_span(path, end);
            assert(name_spans(path, i).last() == rest.last());
        } else {
            assert(rest =~= Seq::empty());
            assert(name_spans(path, i) =~= seq![(i, end)]);
        }
    }
}

/// The spans from one of the names on are the rest of the spans.
proof fn lemma_spans_from(path: Seq<u8>, i: int, m: int)
    requires
        0 <= i <= path.len(),
        0 <= m < name_spans(path, i).len(),
    ensures
        ({
            let start = name_spans(path, i)[m].0;
            &&& i <= start < path.len()
            &&& path[start] != SEPARATOR
            &&& m > 0 ==> start > i
            &&& name_spans(path, start) == name_spans(path, i).skip(m)
        }),
    decreases path.len() - i,
{
    let spans = name_spans(path, i);
    if path[i] == SEPARATOR {
        lemma_spans_from(path, i + 1, m);
    } else {
        lemma_run_end(path, i);
        let end = run_end(path, i);
        let rest = name_spans(path, end);
        if is_dot(path, i, end) && i > 0 {
            assert(spans =~= rest);
            lemma_spans_from(path, end, m);
        } else {
            assert(spans =~= seq![(i, end)] + rest);
            if m == 0 {
                assert(spans.skip(0) =~= spans);
            } else {
                lemma_spans_from(path, end, m - 1);
                assert(spans.skip(m) =~= rest.skip(m - 1));
            }
        }
    }
}

/// Behind their starts, paths with the same bytes have the same names, also
/// where one of them goes on without names.
proof fn lemma_same_names(path: Seq<u8>, i: int, end: int, other: Seq<u8>, j: int)
    requires
        0 < i <= end <= path.len(),
        0 < j,
        other.len() == j + (end - i),
        forall|k: int| i <= k < end ==> #[trigger] path[k] == other[j + (k - i)],
        end == path.len() || path[end] == SEPARATOR,
        name_spans(path, end) == Seq::<(int, int)>::empty(),
    ensures
        names_from(path, i) == names_from(other, j),
    decreases end - i,
{
    if i == end {
        assert(name_spans(other, j) =~= Seq::empty());
        assert(names_from(path, i) =~= names_from(other, j));
    } else {
        assert(path[i] == other[j + (i - i)]);
        if path[i] == SEPARATOR {
            lemma_same_names(path, i + 1, end, other, j + 1);
        } else {
            lemma_run_end(path, i);
            let stop = run_end(path, i);
            let stop_of_other = j + (stop - i);
            assert forall|k: int| j <= k < stop_of_other implies other[k] != SEPARATOR by {
                assert(path[i + (k - j)] == other[j + (i + (k - j) - i)]);
            }
            if stop < end {
                assert(path[stop] == other[j + (stop - i)]);
            }
            lemma_run_end_is(other, j, stop_of_other);
            lemma_same_names(path, stop, end, other, stop_of_other);
            assert(is_dot(path, i, stop) == is_dot(other, j, stop_of_other));
            assert(path.subrange(i, stop) =~= other.subrange(j, stop_of_other)) by {
                assert forall|k: int| i <= k < stop implies path[k] == other[j + (k - i)] by {}
            }
            let rest = names_from(path, stop);
            if is_dot(path, i, stop) {
                assert(name_spans(path, i) =~= name_spans(path, stop));
                assert(name_spans(other, j) =~= name_spans(other, stop_of_other));
            } else {
                assert(names_from(path, i) =~= seq![path.subrange(i, stop)] + rest);
                assert(names_from(other, j) =~= seq![other.subrange(j, stop_of_other)] + rest);
            }
        }
    }
}

/// What comes behind the last name of a path can be left out.
proof fn lemma_spans_of_start(path: Seq<u8>, i: int, end: int)
    requires
        0 <= i <= end <= path.len(),
        end == path.len() || path[end] == SEPARATOR,
        name_spans(path, end) == Seq::<(int, int)>::empty(),
    ensures
        name_spans(path.take(end), i) == name_spans(path, i),
    decreases end - i,
{
    let start = path.take(end);
    if i == end {
        assert(name_spans(start, i) =~= Seq::empty());
    } else if path[i] == SEPARATOR {
        lemma_spans_of_start(path, i + 1, end);
    } else {
        lemma_run_end(path, i);
        lemma_run_end_is(start, i, run_end(path, i));
        lemma_spans_of_start(path, run_end(path, i), end);
    }
}

/// Only the empty path has no component.
proof fn lemma_has_components(path: Seq<u8>)
    requires
        path.len() > 0,
    ensures
        component_spans(path).len() > 0,
        component_spans(path)[0].0 == 0,
{
    if path[0] != SEPARATOR {
        lemma_run_end(path, 0);
        assert(name_spans(path, 0)[0] == (0int, run_end(path, 0)));
    }
}

/// What is left of a path below a base leads back to the path when it is joined
/// onto the base: the components are the same.
pub proof fn law_relative_path_joins_back(path: Seq<u8>, base: Seq<u8>)
    ensures
        relative_path(path, base) matches Some(relative) ==> components(
            joined_path(base, relative),
        ) == components(path),
{
    if let Some(relative) = relative_path(path, base) {
        let spans = component_spans(path);
        let n = components(base).len() as int;
        assert(components(path).len() == spans.len());
        if n == spans.len() {
            lemma_components_of_join(base, relative);
            assert(names_from(joined_path(base, relative), joined_path(base, relative).len() as int)
                =~= Seq::empty());
            assert(components(joined_path(base, relative)) =~= components(base));
            assert(components(base) =~= components(path));
        } else if n == 0 {
            if base.len() > 0 {
                lemma_has_components(base);
            }
            assert(path.len() > 0);
            lemma_has_components(path);
            assert(joined_path(base, relative) =~= relative);
            let end = spans.last().1;
            assert(relative =~= path.take(end));
            lemma_component_spans_bounds(path);
            if name_spans(path, 0).len() > 0 {
                lemma_behind_last_span(path, 0);
                assert(spans.last() == name_spans(path, 0).last());
                lemma_spans_of_start(path, 0, end);
                assert(component_spans(relative) =~= spans);
            } else {
                assert(spans =~= seq![(0int, 1int)]);
                assert(name_spans(relative, 1) =~= Seq::empty());
                assert(name_spans(relative, 0) =~= Seq::empty());
                assert(component_spans(relative) =~= spans);
            }
            assert forall|k: int| 0 <= k < spans.len() implies components(relative)[k]
                == components(path)[k] by {
                let span = spans[k];
                assert(span.1 <= end) by {
                    if k < spans.len() - 1 {
                        assert(spans[k].1 <= spans[spans.len() - 1].0);
                    }
                }
                assert(relative.subrange(span.0, span.1) =~= path.subrange(span.0, span.1));
            }
            assert(components(relative) =~= components(path));
        } else {
            lemma_relative_names(path, base);
        }
    }
}

/// The names below a base are the components behind those of the base.
proof fn lemma_relative_names(path: Seq<u8>, base: Seq<u8>)
    requires
        components(base).is_prefix_of(components(path)),
        0 < components(base).len() < components(path).len(),
    ensures
        components(joined_path(base, relative_path(path, base)->0)) == components(path),
{
    let spans = component_spans(path);
    let n = components(base).len() as int;
    let relative = relative_path(path, base)->0;
    let start = spans[n].0;
    let end = spans.last().1;
    let has_root = path.len() > 0 && path[0] == SEPARATOR;
    let names = name_spans(path, 0);
    let first = if has_root {
        n - 1
    } else {
        n
    };
    assert(names[first] == spans[n]);
    lemma_spans_from(path, 0, first);
    assert(start > 0);
    assert(name_spans(path, start) =~= spans.skip(n)) by {
        if has_root {
            assert(spans.skip(n) =~= names.skip(n - 1));
        }
    }
    assert(names_from(path, start) =~= components(path).skip(n));
    lemma_behind_last_span(path, start);
    assert(name_spans(path, start).last() == spans.last());
    assert(relative =~= path.subrange(start, end));
    assert(relative[0] == path[start]);
    lemma_components_of_join(base, relative);
    let joined = joined_path(base, relative);
    let at = joined.len() - relative.len();
    assert(base.len() > 0) by {
        if base.len() == 0 {
            assert(component_spans(base) =~= Seq::empty());
        }
    }
    assert forall|k: int| start <= k < end implies #[trigger] path[k] == joined[at + (k
        - start)] by {
        assert(relative[k - start] == joined[at + (k - start)]);
    }
    lemma_same_names(path, start, end, joined, at);
    assert(components(path) =~= components(base) + components(path).skip(n));
}

/// What the components of a path are, from its first byte to its last: an empty
/// path has none, a first name is one, whatever it is, and so is a first
/// separator. A separator adds none, and a name behind a separator adds itself
/// unless it is `.`.
pub proof fn law_components_are_the_names_between_separators(path: Seq<u8>, name: Seq<u8>)
    requires
        name.len() > 0,
        !name.contains(0x2f),
    ensures
        components(Seq::empty()) == Seq::<Seq<u8>>::empty(),
        components(seq![0x2fu8]) == seq![seq![0x2fu8]],
        components(name) == seq![name],
        path.len() > 0 ==> components(path.push(0x2f)) == components(path),
        path.len() > 0 && path.last() == 0x2f ==> components(path + name) == if name == seq![
            0x2eu8,
        ] {
            components(path)
        } else {
            components(path).push(name)
        },
{
    let none = Seq::<u8>::empty();
    assert(component_spans(none) =~= Seq::empty());
    assert(components(none) =~= Seq::empty());
    let root = seq![0x2fu8];
    assert(name_spans(root, 1) =~= Seq::empty());
    assert(name_spans(root, 0) =~= Seq::empty());
    assert(component_spans(root) =~= seq![(0int, 1int)]);
    assert(root.subrange(0, 1) =~= root);
    assert(components(root) =~= seq![root]);
    assert forall|j: int| 0 <= j < name.len() implies name[j] != SEPARATOR by {
        assert(name.contains(name[j]));
    }
    let count = name.len() as int;
    lemma_run_end_is(name, 0, count);
    assert(name_spans(name, count) =~= Seq::empty());
    assert(component_spans(name) =~= seq![(0int, count)]);
    assert(name.subrange(0, count) =~= name);
    assert(components(name) =~= seq![name]);
    if path.len() > 0 {
        let longer = path.push(SEPARATOR);
        lemma_trailing_separator(path, 0);
        assert(longer[0] == path[0]);
        assert(component_spans(longer) =~= component_spans(path));
        lemma_same_components_of_start(path, longer);
    }
    if path.len() > 0 && path.last() == SEPARATOR {
        let whole = path + name;
        let at = path.len() as int;
        lemma_spans_split(path, name, 0);
        assert(whole[0] == path[0]);
        let below = name_spans(whole, at);
        assert(component_spans(whole) =~= component_spans(path) + below);
        assert forall|j: int| at <= j < whole.len() implies whole[j] != SEPARATOR by {
            assert(whole[j] == name[j - at]);
        }
        lemma_run_end_is(whole, at, whole.len() as int);
        assert(name_spans(whole, whole.len() as int) =~= Seq::empty());
        assert(whole[at] == name[0]);
        assert(is_dot(whole, at, whole.len() as int) <==> name =~= seq![0x2eu8]);
        lemma_component_spans_bounds(path);
        assert forall|k: int| 0 <= k < component_spans(path).len() implies components(path)[k]
            == components(whole)[k] by {
            let span = component_spans(path)[k];
            assert(component_spans(whole)[k] == span);
            assert(path.subrange(span.0, span.1) =~= whole.subrange(span.0, span.1));
        }
        if name == seq![0x2eu8] {
            assert(below =~= Seq::empty());
            assert(components(whole) =~= components(path));
        } else {
            assert(below =~= seq![(at, whole.len() as int)]);
            assert(whole.subrange(at, whole.len() as int) =~= name);
            assert(components(whole) =~= components(path).push(name));
        }
    }
}

/// Paths with the same spans, one of which starts with the other, have the same
/// components.
proof fn lemma_same_components_of_start(path: Seq<u8>, longer: Seq<u8>)
    requires
        component_spans(longer) == component_spans(path),
        path.len() <= longer.len(),
        forall|i: int| 0 <= i < path.len() ==> path[i] == longer[i],
    ensures
        components(longer) == components(path),
{
    lemma_component_spans_bounds(path);
    assert forall|k: int| 0 <= k < component_spans(path).len() implies components(path)[k]
        == components(longer)[k] by {
        let span = component_spans(path)[k];
        assert(path.subrange(span.0, span.1) =~= longer.subrange(span.0, span.1));
    }
    assert(components(longer) =~= components(path));
}

/// A path is relative to a base exactly if the components of the base start its
/// own. What is left is the part of its text from the first of the other
/// components to the last of them, and nothing where there is no other.
pub proof fn law_relative_paths_are_what_is_left(path: Seq<u8>, base: Seq<u8>)
    ensures
        relative_path(path, base) is Some <==> components(base).is_prefix_of(components(path)),
        relative_path(path, base) matches Some(relative) ==> {
            &&& exists|start: int| #[trigger]
                path.subrange(start, start + relative.len()) == relative && 0 <= start && start
                    + relative.len() <= path.len()
            &&& relative.len() > 0 && base.len() > 0 ==> relative[0] != 0x2f && relative.last()
                != 0x2f
            &&& relative.len() == 0 <==> components(base).len() == components(path).len()
            &&& relative.len() > 0 ==> components(path)[components(
                base,
            ).len() as int].is_prefix_of(relative) && components(path).last().is_suffix_of(
                relative,
            )
            &&& components(joined_path(base, relative)) == components(path)
        },
{
    law_relative_path_joins_back(path, base);
    if let Some(relative) = relative_path(path, base) {
        let spans = component_spans(path);
        let n = components(base).len() as int;
        lemma_component_spans_bounds(path);
        if n < spans.len() {
            if n < spans.len() - 1 {
                assert(spans[n].1 <= spans[spans.len() - 1].0);
            }
            let start = spans[n].0;
            let end = spans.last().1;
            assert(path.subrange(start, start + relative.len()) =~= relative);
            let first_name = components(path)[n];
            assert(first_name =~= relative.subrange(0, first_name.len() as int));
            let last_name = components(path).last();
            assert(last_name == path.subrange(spans.last().0, end));
            assert(last_name =~= relative.subrange(
                relative.len() - last_name.len(),
                relative.len() as int,
            ));
            if base.len() > 0 {
                lemma_has_components(base);
                let names = name_spans(path, 0);
                let first = if path[0] == SEPARATOR {
                    n - 1
                } else {
                    n
                };
                assert(names[first] == spans[n]);
                lemma_spans_from(path, 0, first);
                assert(relative[0] == path[start]);
                lemma_last_byte_of_span(path, 0, names.len() - 1);
                assert(spans.last() == names.last());
                assert(relative.last() == path[spans.last().1 - 1]);
            }
        } else {
            assert(path.subrange(0int, 0int + relative.len()) =~= relative);
        }
    }
}

/// The last byte of a name is no separator.
proof fn lemma_last_byte_of_span(path: Seq<u8>, i: int, m: int)
    requires
        0 <= i <= path.len(),
        0 <= m < name_spans(path, i).len(),
    ensures
        ({
            let end = name_spans(path, i)[m].1;
            i < end <= path.len() && path[end - 1] != SEPARATOR
        }),
    decreases path.len() - i,
{
    if path[i] == SEPARATOR {
        lemma_last_byte_of_span(path, i + 1, m);
    } else {
        lemma_run_end(path, i);
        let end = run_end(path, i);
        let rest = name_spans(path, end);
        if is_dot(path, i, end) && i > 0 {
            assert(name_spans(path, i) =~= rest);
            lemma_last_byte_of_span(path, end, m);
        } else {
            assert(name_spans(path, i) =~= seq![(i, end)] + rest);
            if m > 0 {
                lemma_last_byte_of_span(path, end, m - 1);
            }
        }
    }
}

/// A joined path is the base and then the child, with a separator between them
/// where the base does not end with one. An absolute child stands alone.
pub proof fn law_joined_paths_are_base_and_child(base: Seq<u8>, child: Seq<u8>)
    ensures
        child.len() > 0 && child[0] == 0x2f ==> joined_path(base, child) == child,
        child.len() == 0 || child[0] != 0x2f ==> {
            let between = joined_path(base, child).len() - base.len() - child.len();
            &&& base.is_prefix_of(joined_path(base, child))
            &&& child.is_suffix_of(joined_path(base, child))
            &&& between == 0 <==> base.len() == 0 || base.last() == 0x2f
            &&& between == 0 || between == 1 && joined_path(base, child)[base.len() as int] == 0x2f
        },
{
    let path = joined_path(base, child);
    if child.len() == 0 || child[0] != SEPARATOR {
        assert(base =~= path.subrange(0, base.len() as int));
        assert(child =~= path.subrange(path.len() - child.len(), path.len() as int));
    }
}

/// What stands for a byte string that is not UTF-8.
pub uninterp spec fn utf8_lossy(bytes: Seq<u8>) -> Seq<char>;

/// The text of a path: what its bytes encode, or what stands for them where
/// they are not UTF-8.
pub open spec fn path_text(bytes: Seq<u8>) -> Seq<char> {
    if valid_utf8(bytes) {
        decode_utf8(bytes)
    } else {
        utf8_lossy(bytes)
    }
}

/// Calls `String::from_utf8_lossy`. Of bytes that are UTF-8 it is the text that
/// they encode. Of other bytes it is a text that depends on the bytes alone;
/// which one is left to the name `utf8_lossy`.
#[verifier::external_body]
fn to_text_lossy(bytes: &[u8]) -> (text: String)
    ensures
        text@ == (if valid_utf8(bytes@) {
            decode_utf8(bytes@)
        } else {
            utf8_lossy(bytes@)
        }),
{
    String::from_utf8_lossy(bytes).into_owned()
}

/// The text of a path for people to read.
pub fn display(path: &[u8]) -> (text: String)
    ensures
        text@ == path_text(path@),
{
    to_text_lossy(path)
}

/// The text of a path is what its bytes encode, where they encode a text, and
/// else what the lossy reading of them gives.
pub proof fn law_path_text_is_what_the_bytes_encode(text: Seq<char>, bytes: Seq<u8>)
    ensures
        path_text(vstd::utf8::encode_utf8(text)) == text,
        !valid_utf8(bytes) ==> path_text(bytes) == utf8_lossy(bytes),
{
    vstd::utf8::encode_utf8_valid_utf8(text);
    vstd::utf8::encode_utf8_decode_utf8(text);
}

} // verus!
