//! The files in the live directories, as a set, and which of them are closed.
use vstd::prelude::*;
use vstd::utf8::encode_utf8;

use crate::conversion::has_feather_extension;
use crate::conversion::is_plain_name;
use crate::conversion::lemma_live_is_plain;
use crate::conversion::lemma_recorded_path_is_joined;
use crate::conversion::live_directory;
use crate::conversion::recorded_path;
use crate::ordering::bytes_less;
use crate::ordering::law_bytes_less_is_irreflexive;
use crate::ordering::law_bytes_less_is_total;
use crate::ordering::law_bytes_less_is_transitive;
use crate::ordering::lemma_text_bytes_are_injective;
use crate::paths::DOT;
use crate::paths::SEPARATOR;
use crate::paths::components;
use crate::paths::joined_path;
use crate::paths::law_joined_path_lies_below_its_base;

verus! {

/// A file in the directory of an identifier, which lies in the directory of a
/// data type. The path of that directory ends with a separator.
pub struct LiveFile {
    pub directory: Seq<u8>,
    pub identifier: Seq<u8>,
    pub name: Seq<u8>,
}

/// The path of a file.
pub open spec fn path_of(file: LiveFile) -> Seq<u8> {
    file.directory + file.identifier.push(SEPARATOR) + file.name
}

/// Whether the last two names on the way to a file are plain, as the names in a
/// directory are.
pub open spec fn is_plain_file(file: LiveFile) -> bool {
    &&& file.directory.len() == 0 || file.directory.last() == SEPARATOR
    &&& is_plain_name(file.identifier)
    &&& is_plain_name(file.name)
}

/// Whether all files of a tree have plain names.
pub open spec fn is_plain_tree(tree: Set<LiveFile>) -> bool {
    forall|file: LiveFile| #[trigger] tree.contains(file) ==> is_plain_file(file)
}

/// Whether two files lie in one directory.
pub open spec fn same_directory(a: LiveFile, b: LiveFile) -> bool {
    a.directory == b.directory && a.identifier == b.identifier
}

/// Whether `file` is a feather file of a tree.
pub open spec fn is_feather_file(tree: Set<LiveFile>, file: LiveFile) -> bool {
    tree.contains(file) && has_feather_extension(file.name)
}

/// Whether `file` is closed: a feather file with a later one in its directory.
pub open spec fn is_closed(tree: Set<LiveFile>, file: LiveFile) -> bool {
    &&& is_feather_file(tree, file)
    &&& exists|later: LiveFile|
        {
            &&& #[trigger] is_feather_file(tree, later)
            &&& same_directory(file, later)
            &&& bytes_less(file.name, later.name)
        }
}

/// Whether `file` is the latest feather file of its directory.
pub open spec fn is_latest(tree: Set<LiveFile>, file: LiveFile) -> bool {
    is_feather_file(tree, file) && !is_closed(tree, file)
}

/// The live directory of a data type, with the separator behind it.
pub open spec fn directory_of(
    catalog_path: Seq<u8>,
    instance_id: Seq<char>,
    data_type: Seq<char>,
) -> Seq<u8> {
    joined_path(live_directory(catalog_path, instance_id, data_type), Seq::empty())
}

/// Whether `file` lies in the live directory of one of the data types.
pub open spec fn is_live(
    catalog_path: Seq<u8>,
    instance_id: Seq<char>,
    data_types: Set<Seq<char>>,
    file: LiveFile,
) -> bool {
    exists|data_type: Seq<char>| #[trigger]
        data_types.contains(data_type) && file.directory == directory_of(
            catalog_path,
            instance_id,
            data_type,
        )
}

/// Names behind the last separator are the same where the whole is.
proof fn lemma_last_name(a: Seq<u8>, x: Seq<u8>, b: Seq<u8>, y: Seq<u8>)
    requires
        a.len() == 0 || a.last() == SEPARATOR,
        b.len() == 0 || b.last() == SEPARATOR,
        is_plain_name(x),
        is_plain_name(y),
        a + x == b + y,
    ensures
        a == b,
        x == y,
{
    let whole = a + x;
    let other = b + y;
    assert(whole.len() == a.len() + x.len() && other.len() == b.len() + y.len());
    if a.len() < b.len() {
        assert(other[b.len() - 1] == b[b.len() - 1]);
        assert(whole[b.len() - 1] == x[b.len() - 1 - a.len()]);
    } else if b.len() < a.len() {
        assert(whole[a.len() - 1] == a[a.len() - 1]);
        assert(whole[a.len() - 1] == y[a.len() - 1 - b.len()]);
    }
    assert(a =~= whole.take(a.len() as int));
    assert(b =~= whole.take(a.len() as int));
    assert(x =~= whole.skip(a.len() as int));
    assert(y =~= whole.skip(a.len() as int));
}

/// Different files have different paths.
pub proof fn law_paths_tell_files_apart(file: LiveFile, other: LiveFile)
    requires
        is_plain_file(file),
        is_plain_file(other),
        path_of(file) == path_of(other),
    ensures
        file == other,
{
    let a = file.directory + file.identifier.push(SEPARATOR);
    let b = other.directory + other.identifier.push(SEPARATOR);
    lemma_last_name(a, file.name, b, other.name);
    let x = file.directory + file.identifier;
    let y = other.directory + other.identifier;
    assert(x =~= a.drop_last());
    assert(y =~= b.drop_last());
    lemma_last_name(file.directory, file.identifier, other.directory, other.identifier);
}

/// The path of a file is that of its name, joined onto that of its identifier,
/// joined onto the directory, whether or not that ends with a separator.
pub proof fn lemma_path_is_joined(directory: Seq<u8>, file: LiveFile)
    requires
        is_plain_name(file.identifier),
        is_plain_name(file.name),
        file.directory == joined_path(directory, Seq::empty()),
    ensures
        path_of(file) == joined_path(joined_path(directory, file.identifier), file.name),
        is_plain_file(file),
{
    let parent = joined_path(directory, file.identifier);
    assert(parent =~= file.directory + file.identifier);
    assert(parent.last() == file.identifier.last());
    assert(joined_path(parent, file.name) =~= path_of(file));
}

/// Whether the live directories of all data types lie below the catalog.
pub open spec fn are_below(
    catalog_path: Seq<u8>,
    instance_id: Seq<char>,
    data_types: Set<Seq<char>>,
) -> bool {
    forall|data_type: Seq<char>| #[trigger]
        data_types.contains(data_type) ==> components(catalog_path).is_prefix_of(
            components(live_directory(catalog_path, instance_id, data_type)),
        )
}

/// The live directories lie below the catalog unless the instance or a data type
/// is an absolute path.
pub proof fn law_live_directories_lie_below_the_catalog(
    catalog_path: Seq<u8>,
    instance_id: Seq<char>,
    data_types: Set<Seq<char>>,
)
    requires
        instance_id.len() > 0 ==> encode_utf8(instance_id)[0] != SEPARATOR,
        forall|data_type: Seq<char>| #[trigger]
            data_types.contains(data_type) && encode_utf8(data_type).len() > 0 ==> encode_utf8(
                data_type,
            )[0] != SEPARATOR,
    ensures
        are_below(catalog_path, instance_id, data_types),
{
    lemma_live_is_plain();
    let live = joined_path(catalog_path, encode_utf8("live"@));
    let instance = encode_utf8(instance_id);
    if instance_id.len() == 0 {
        assert(instance =~= Seq::empty());
    }
    law_joined_path_lies_below_its_base(catalog_path, encode_utf8("live"@));
    law_joined_path_lies_below_its_base(live, instance);
    assert forall|data_type: Seq<char>| #[trigger] data_types.contains(
        data_type,
    ) implies components(catalog_path).is_prefix_of(
        components(live_directory(catalog_path, instance_id, data_type)),
    ) by {
        law_joined_path_lies_below_its_base(joined_path(live, instance), encode_utf8(data_type));
        lemma_prefix_of_prefix(
            components(catalog_path),
            components(live),
            components(joined_path(live, instance)),
        );
        lemma_prefix_of_prefix(
            components(catalog_path),
            components(joined_path(live, instance)),
            components(live_directory(catalog_path, instance_id, data_type)),
        );
    }
}

/// What starts the start of something starts it.
pub proof fn lemma_prefix_of_prefix<A>(a: Seq<A>, b: Seq<A>, c: Seq<A>)
    requires
        a.is_prefix_of(b),
        b.is_prefix_of(c),
    ensures
        a.is_prefix_of(c),
{
    assert(a =~= c.subrange(0, a.len() as int));
}

/// Names before the first separator are the same where the whole is.
proof fn lemma_first_name(a: Seq<u8>, x: Seq<u8>, b: Seq<u8>, y: Seq<u8>)
    requires
        is_plain_name(a),
        is_plain_name(b),
        a.push(SEPARATOR) + x == b.push(SEPARATOR) + y,
    ensures
        a == b,
        x == y,
{
    let whole = a.push(SEPARATOR) + x;
    assert(whole[a.len() as int] == SEPARATOR);
    assert(whole[b.len() as int] == SEPARATOR);
    if a.len() < b.len() {
        assert(whole[a.len() as int] == b[a.len() as int]);
    } else if b.len() < a.len() {
        assert(whole[b.len() as int] == a[b.len() as int]);
    }
    assert(a =~= whole.take(a.len() as int));
    assert(b =~= whole.take(a.len() as int));
    assert(x =~= whole.skip(a.len() as int + 1));
    assert(y =~= whole.skip(a.len() as int + 1));
}

/// Relative paths are the same where they lead to the same from one base.
proof fn lemma_same_relative(base: Seq<u8>, x: Seq<u8>, y: Seq<u8>)
    requires
        x.len() > 0,
        y.len() > 0,
        x[0] != SEPARATOR,
        y[0] != SEPARATOR,
        joined_path(base, x) == joined_path(base, y),
    ensures
        x == y,
{
    let path = joined_path(base, x);
    let at = path.len() - x.len();
    assert(path.skip(at) =~= x);
    assert(path.skip(at) =~= y);
}

/// Recorded paths are the same only where all names on them are.
proof fn lemma_names_of_recorded_path(
    a: Seq<u8>,
    b: Seq<u8>,
    c: Seq<u8>,
    d: Seq<u8>,
    p: Seq<u8>,
    q: Seq<u8>,
    r: Seq<u8>,
    s: Seq<u8>,
)
    requires
        is_plain_name(a) && is_plain_name(b) && is_plain_name(c),
        is_plain_name(p) && is_plain_name(q) && is_plain_name(r),
        recorded_path(a, b, c, d) == recorded_path(p, q, r, s),
    ensures
        a == p && b == q && c == r && d == s,
{
    lemma_live_is_plain();
    let live = encode_utf8("live"@);
    let x3 = c.push(SEPARATOR) + d;
    let x2 = b.push(SEPARATOR) + x3;
    let x1 = a.push(SEPARATOR) + x2;
    let y3 = r.push(SEPARATOR) + s;
    let y2 = q.push(SEPARATOR) + y3;
    let y1 = p.push(SEPARATOR) + y2;
    assert(recorded_path(a, b, c, d) =~= live.push(SEPARATOR) + x1);
    assert(recorded_path(p, q, r, s) =~= live.push(SEPARATOR) + y1);
    lemma_first_name(live, x1, live, y1);
    lemma_first_name(a, x2, p, y2);
    lemma_first_name(b, x3, q, y3);
    lemma_first_name(c, d, r, s);
}

/// Instances and data types with plain names have directories of their own.
pub proof fn law_plain_names_have_their_own_directories(
    catalog_path: Seq<u8>,
    instance_id: Seq<char>,
    data_type: Seq<char>,
    other_instance: Seq<char>,
    other_type: Seq<char>,
)
    requires
        is_plain_name(encode_utf8(instance_id)),
        is_plain_name(encode_utf8(data_type)),
        is_plain_name(encode_utf8(other_instance)),
        is_plain_name(encode_utf8(other_type)),
        directory_of(catalog_path, instance_id, data_type) == directory_of(
            catalog_path,
            other_instance,
            other_type,
        ),
    ensures
        instance_id == other_instance,
        data_type == other_type,
{
    let name = seq![0u8];
    assert(name[0] != seq![DOT][0]);
    let a = encode_utf8(instance_id);
    let b = encode_utf8(data_type);
    let c = encode_utf8(other_instance);
    let d = encode_utf8(other_type);
    lemma_recorded_path_is_joined(catalog_path, instance_id, data_type, name, name);
    lemma_recorded_path_is_joined(catalog_path, other_instance, other_type, name, name);
    let directory = directory_of(catalog_path, instance_id, data_type);
    let file = LiveFile { directory, identifier: name, name };
    lemma_path_is_joined(live_directory(catalog_path, instance_id, data_type), file);
    lemma_path_is_joined(live_directory(catalog_path, other_instance, other_type), file);
    lemma_same_relative(
        catalog_path,
        recorded_path(a, b, name, name),
        recorded_path(c, d, name, name),
    );
    lemma_names_of_recorded_path(a, b, name, name, c, d, name, name);
    lemma_text_bytes_are_injective(instance_id, other_instance);
    lemma_text_bytes_are_injective(data_type, other_type);
}

/// A directory with a feather file has a latest one, and only one. It is the
/// file itself or comes after it.
pub proof fn law_directories_have_one_latest_file(tree: Set<LiveFile>, file: LiveFile)
    requires
        tree.finite(),
        is_feather_file(tree, file),
    ensures
        exists|latest: LiveFile|
            {
                &&& #[trigger] is_latest(tree, latest)
                &&& same_directory(file, latest)
                &&& file == latest || bytes_less(file.name, latest.name)
            },
        forall|a: LiveFile, b: LiveFile|
            {
                &&& #[trigger] is_latest(tree, a)
                &&& #[trigger] is_latest(tree, b)
                &&& same_directory(a, b)
            } ==> a == b,
{
    lemma_some_latest(tree, file);
    assert forall|a: LiveFile, b: LiveFile|
        {
            &&& #[trigger] is_latest(tree, a)
            &&& #[trigger] is_latest(tree, b)
            &&& same_directory(a, b)
        } implies a == b by {
        lemma_only_latest(tree, a, b);
    }
}

/// A directory has one latest file only.
pub proof fn lemma_only_latest(tree: Set<LiveFile>, a: LiveFile, b: LiveFile)
    requires
        is_latest(tree, a),
        is_latest(tree, b),
        same_directory(a, b),
    ensures
        a == b,
{
    law_bytes_less_is_total(a.name, b.name);
    assert(is_feather_file(tree, a) && is_feather_file(tree, b));
}

spec fn later_files(tree: Set<LiveFile>, file: LiveFile) -> Set<LiveFile> {
    tree.filter(
        |later: LiveFile|
            {
                &&& is_feather_file(tree, later)
                &&& same_directory(file, later)
                &&& bytes_less(file.name, later.name)
            },
    )
}

proof fn lemma_some_latest(tree: Set<LiveFile>, file: LiveFile)
    requires
        tree.finite(),
        is_feather_file(tree, file),
    ensures
        exists|latest: LiveFile|
            {
                &&& #[trigger] is_latest(tree, latest)
                &&& same_directory(file, latest)
                &&& file == latest || bytes_less(file.name, latest.name)
            },
    decreases later_files(tree, file).len(),
{
    if is_closed(tree, file) {
        let later = choose|later: LiveFile|
            {
                &&& #[trigger] is_feather_file(tree, later)
                &&& same_directory(file, later)
                &&& bytes_less(file.name, later.name)
            };
        let after_file = later_files(tree, file);
        let after_later = later_files(tree, later);
        law_bytes_less_is_irreflexive(later.name);
        assert forall|other: LiveFile| after_later.contains(other) implies after_file.contains(
            other,
        ) by {
            law_bytes_less_is_transitive(file.name, later.name, other.name);
        }
        assert(after_file.contains(later) && !after_later.contains(later));
        assert(after_later.subset_of(after_file.remove(later)));
        vstd::set_lib::lemma_len_subset(after_later, after_file.remove(later));
        lemma_some_latest(tree, later);
        let latest = choose|latest: LiveFile|
            {
                &&& #[trigger] is_latest(tree, latest)
                &&& same_directory(later, latest)
                &&& later == latest || bytes_less(later.name, latest.name)
            };
        if later != latest {
            law_bytes_less_is_transitive(file.name, later.name, latest.name);
        }
        assert(is_latest(tree, latest));
    } else {
        assert(is_latest(tree, file));
    }
}

} // verus!
