//! What conversion passes do to the files of the live directories.
use vstd::prelude::*;
use vstd::utf8::encode_utf8;

use crate::collection_laws::are_closed_files;
use crate::collection_laws::closed_file;
use crate::collection_laws::is_read;
use crate::collection_laws::law_the_closed_files_are_collected;
use crate::collection_laws::law_what_is_read_below_the_catalog_is_collected;
use crate::collection_laws::lemma_nothing_is_found;
use crate::collection_laws::lists_all;
use crate::collection_laws::lists_only;
use crate::conversion::ClosedFeatherFileView;
use crate::conversion::ConversionErrorView;
use crate::conversion::DataTypeListing;
use crate::conversion::findings;
use crate::conversion::is_plain_name;
use crate::conversion_pass::PassAction;
use crate::conversion_pass::PassRequestView;
use crate::conversion_pass::TaskEvent;
use crate::conversion_pass::action_after;
use crate::conversion_pass::action_at;
use crate::conversion_pass::actions_from;
use crate::conversion_pass::actions_on_file;
use crate::conversion_pass::actions_on_files;
use crate::conversion_pass::is_warning;
use crate::conversion_pass::law_pass_converts_all_and_deletes_the_converted;
use crate::conversion_pass::request_of;
use crate::conversion_pass::warning_of;
use crate::live_tree::LiveFile;
use crate::live_tree::are_below;
use crate::live_tree::directory_of;
use crate::live_tree::is_closed;
use crate::live_tree::is_feather_file;
use crate::live_tree::is_latest;
use crate::live_tree::is_live;
use crate::live_tree::is_plain_file;
use crate::live_tree::is_plain_tree;
use crate::live_tree::law_directories_have_one_latest_file;
use crate::live_tree::law_paths_tell_files_apart;
use crate::live_tree::law_plain_names_have_their_own_directories;
use crate::live_tree::path_of;
use crate::live_tree::same_directory;
use crate::ordering::bytes_less;
use crate::ordering::law_bytes_less_is_total;
use crate::results::all_or_first_error;

verus! {

/// The actions of a pass over `files`. `converts` says which files can be
/// converted, `deletes` which can be deleted.
pub open spec fn actions_of_pass(
    files: Seq<ClosedFeatherFileView>,
    converts: spec_fn(int) -> bool,
    deletes: spec_fn(int) -> bool,
) -> Seq<PassAction> {
    actions_from(files.len() as int, action_at(files.len() as int, 0), converts, deletes)
}

/// What a pass over `files` asks for.
pub open spec fn requests_of_pass(
    files: Seq<ClosedFeatherFileView>,
    converts: spec_fn(int) -> bool,
    deletes: spec_fn(int) -> bool,
) -> Seq<PassRequestView> {
    actions_of_pass(files, converts, deletes).map_values(
        |action: PassAction| request_of(files, action),
    )
}

/// Whether a pass over `files` deletes the file with the path `path`: one of its
/// requests asks for that, and what the pass does there succeeds.
pub open spec fn is_removed(
    files: Seq<ClosedFeatherFileView>,
    converts: spec_fn(int) -> bool,
    deletes: spec_fn(int) -> bool,
    path: Seq<u8>,
) -> bool {
    exists|m: int|
        {
            &&& 0 <= m < requests_of_pass(files, converts, deletes).len()
            &&& #[trigger] requests_of_pass(files, converts, deletes)[m]
                == PassRequestView::Delete { file_path: path }
            &&& deletes(actions_of_pass(files, converts, deletes)[m]->Delete_index as int)
        }
}

/// The files that are there after a pass over `files`.
pub open spec fn tree_after(
    tree: Set<LiveFile>,
    files: Seq<ClosedFeatherFileView>,
    converts: spec_fn(int) -> bool,
    deletes: spec_fn(int) -> bool,
) -> Set<LiveFile> {
    tree.filter(|file: LiveFile| !is_removed(files, converts, deletes, path_of(file)))
}

/// Whether `files` are collected by what `listings` lists of the files of
/// `tree`. It may list some of them only.
pub open spec fn collects(
    catalog_path: Seq<u8>,
    instance_id: Seq<char>,
    data_types: Set<Seq<char>>,
    listings: Seq<DataTypeListing>,
    tree: Set<LiveFile>,
    files: Seq<ClosedFeatherFileView>,
) -> bool {
    &&& data_types.finite()
    &&& tree.finite()
    &&& is_plain_tree(tree)
    &&& lists_only(catalog_path, instance_id, data_types, listings, tree)
    &&& all_or_first_error(findings(catalog_path, instance_id, data_types, listings)) == Ok::<
        _,
        ConversionErrorView,
    >(files)
    &&& files.len() <= usize::MAX
}

/// The actions on files, each once, convert all of them, and delete those that
/// were converted.
proof fn lemma_actions_on_files(index: int, count: int, converts: spec_fn(int) -> bool)
    requires
        0 <= index <= count <= usize::MAX,
    ensures
        ({
            let actions = actions_on_files(index, count, converts);
            &&& actions.no_duplicates()
            &&& forall|m: int|
                0 <= m < actions.len() ==> match #[trigger] actions[m] {
                    PassAction::Convert { index: i } => index <= i < count,
                    PassAction::Delete { index: i } => index <= i < count && converts(i as int),
                    PassAction::Finish => false,
                }
            &&& forall|i: int|
                index <= i < count ==> #[trigger] actions.contains(
                    PassAction::Convert { index: i as usize },
                )
            &&& forall|i: int|
                index <= i < count && converts(i) ==> #[trigger] actions.contains(
                    PassAction::Delete { index: i as usize },
                )
        }),
    decreases count - index,
{
    if index < count {
        lemma_actions_on_files(index + 1, count, converts);
        let here = actions_on_file(index, converts);
        let rest = actions_on_files(index + 1, count, converts);
        let actions = actions_on_files(index, count, converts);
        assert(actions == here + rest);
        assert forall|i: int, j: int| 0 <= i < here.len() && 0 <= j < rest.len() implies here[i]
            != rest[j] by {}
        vstd::seq_lib::lemma_no_dup_in_concat(here, rest);
        assert forall|m: int| 0 <= m < actions.len() implies match #[trigger] actions[m] {
            PassAction::Convert { index: i } => index <= i < count,
            PassAction::Delete { index: i } => index <= i < count && converts(i as int),
            PassAction::Finish => false,
        } by {
            if m >= here.len() {
                assert(actions[m] == rest[m - here.len()]);
            }
        }
        assert forall|i: int| index <= i < count implies #[trigger] actions.contains(
            PassAction::Convert { index: i as usize },
        ) by {
            if i == index {
                assert(actions[0] == PassAction::Convert { index: i as usize });
            } else {
                lemma_contains_behind(here, rest, PassAction::Convert { index: i as usize });
            }
        }
        assert forall|i: int| index <= i < count && converts(i) implies #[trigger] actions.contains(
            PassAction::Delete { index: i as usize },
        ) by {
            if i == index {
                assert(actions[1] == PassAction::Delete { index: i as usize });
            } else {
                lemma_contains_behind(here, rest, PassAction::Delete { index: i as usize });
            }
        }
    }
}

proof fn lemma_contains_behind<A>(a: Seq<A>, b: Seq<A>, x: A)
    requires
        b.contains(x),
    ensures
        (a + b).contains(x),
{
    let i = choose|i: int| 0 <= i < b.len() && b[i] == x;
    assert((a + b)[a.len() + i] == x);
}

/// A pass deletes what was converted and could be deleted.
proof fn lemma_is_removed(
    files: Seq<ClosedFeatherFileView>,
    converts: spec_fn(int) -> bool,
    deletes: spec_fn(int) -> bool,
    path: Seq<u8>,
)
    requires
        files.len() <= usize::MAX,
    ensures
        is_removed(files, converts, deletes, path) <==> exists|i: int|
            0 <= i < files.len() && (#[trigger] files[i]).file_path == path && converts(i)
                && deletes(i),
{
    let count = files.len() as int;
    let actions = actions_of_pass(files, converts, deletes);
    let requests = requests_of_pass(files, converts, deletes);
    law_pass_converts_all_and_deletes_the_converted(count as usize, converts, deletes);
    lemma_actions_on_files(0, count, converts);
    if is_removed(files, converts, deletes, path) {
        let m = choose|m: int|
            {
                &&& 0 <= m < requests.len()
                &&& #[trigger] requests[m] == PassRequestView::Delete { file_path: path }
                &&& deletes(actions[m]->Delete_index as int)
            };
        assert(requests[m] == request_of(files, actions[m]));
        let i = actions[m]->Delete_index as int;
        assert(files[i].file_path == path && converts(i) && deletes(i));
    }
    if exists|i: int|
        0 <= i < files.len() && (#[trigger] files[i]).file_path == path && converts(i) && deletes(
            i,
        ) {
        let i = choose|i: int|
            0 <= i < files.len() && (#[trigger] files[i]).file_path == path && converts(i)
                && deletes(i);
        let action = PassAction::Delete { index: i as usize };
        assert(actions.contains(action));
        let m = choose|m: int| 0 <= m < actions.len() && actions[m] == action;
        assert(requests[m] == PassRequestView::Delete { file_path: path });
    }
}

/// Whether a request is for the file with the path `path`.
pub open spec fn is_request_for(request: PassRequestView, path: Seq<u8>) -> bool {
    match request {
        PassRequestView::Convert { file_path, .. } => file_path == path,
        PassRequestView::Delete { file_path } => file_path == path,
        PassRequestView::Finish => false,
    }
}

/// Whether a request is for a closed file of one of the data types.
pub open spec fn asks_for_closed_file(
    catalog_path: Seq<u8>,
    instance_id: Seq<char>,
    data_types: Set<Seq<char>>,
    tree: Set<LiveFile>,
    request: PassRequestView,
) -> bool {
    exists|file: LiveFile| #[trigger]
        is_closed(tree, file) && is_live(catalog_path, instance_id, data_types, file)
            && is_request_for(request, path_of(file))
}

/// The collected file with the path of `file` is `file`, which is closed.
proof fn lemma_collected_file_is(
    catalog_path: Seq<u8>,
    instance_id: Seq<char>,
    data_types: Set<Seq<char>>,
    tree: Set<LiveFile>,
    files: Seq<ClosedFeatherFileView>,
    i: int,
    file: LiveFile,
)
    requires
        is_plain_tree(tree),
        are_closed_files(catalog_path, instance_id, data_types, tree, files),
        0 <= i < files.len(),
        is_plain_file(file),
        files[i].file_path == path_of(file),
    ensures
        is_closed(tree, file),
        data_types.contains(files[i].data_type),
        file.directory == directory_of(catalog_path, instance_id, files[i].data_type),
        files[i] == closed_file(catalog_path, files[i].data_type, file),
        is_live(catalog_path, instance_id, data_types, file),
{
    assert(data_types.contains(files[i].data_type));
    let found = choose|found: LiveFile|
        {
            &&& #[trigger] is_closed(tree, found)
            &&& found.directory == directory_of(catalog_path, instance_id, files[i].data_type)
            &&& files[i] == closed_file(catalog_path, files[i].data_type, found)
        };
    assert(tree.contains(found));
    law_paths_tell_files_apart(found, file);
}

/// Whatever fails, a pass asks to convert and to delete closed files of the data
/// types only: for no file elsewhere, for no file that is no feather file, and
/// not for the latest of a directory. It does so also where some names in a
/// directory could not be read.
pub proof fn law_only_closed_files_are_touched(
    catalog_path: Seq<u8>,
    instance_id: Seq<char>,
    data_types: Set<Seq<char>>,
    listings: Seq<DataTypeListing>,
    tree: Set<LiveFile>,
    files: Seq<ClosedFeatherFileView>,
    converts: spec_fn(int) -> bool,
    deletes: spec_fn(int) -> bool,
)
    requires
        collects(catalog_path, instance_id, data_types, listings, tree, files),
    ensures
        forall|m: int|
            0 <= m < requests_of_pass(files, converts, deletes).len() ==> asks_for_closed_file(
                catalog_path,
                instance_id,
                data_types,
                tree,
                #[trigger] requests_of_pass(files, converts, deletes)[m],
            ),
        forall|m: int, other: LiveFile|
            {
                &&& 0 <= m < requests_of_pass(files, converts, deletes).len()
                &&& is_plain_file(other)
                &&& #[trigger] is_request_for(
                    requests_of_pass(files, converts, deletes)[m],
                    path_of(other),
                )
            } ==> is_closed(tree, other) && is_live(catalog_path, instance_id, data_types, other),
{
    let requests = requests_of_pass(files, converts, deletes);
    let actions = actions_of_pass(files, converts, deletes);
    let count = files.len() as int;
    law_the_closed_files_are_collected(
        catalog_path,
        instance_id,
        data_types,
        listings,
        tree,
        files,
    );
    law_pass_converts_all_and_deletes_the_converted(count as usize, converts, deletes);
    lemma_actions_on_files(0, count, converts);
    assert forall|m: int| 0 <= m < requests.len() implies asks_for_closed_file(
        catalog_path,
        instance_id,
        data_types,
        tree,
        #[trigger] requests[m],
    ) by {
        let i = match actions[m] {
            PassAction::Convert { index } => index as int,
            PassAction::Delete { index } => index as int,
            PassAction::Finish => 0,
        };
        assert(0 <= i < count);
        assert(data_types.contains(files[i].data_type));
        let file = choose|file: LiveFile|
            {
                &&& #[trigger] is_closed(tree, file)
                &&& file.directory == directory_of(catalog_path, instance_id, files[i].data_type)
                &&& files[i] == closed_file(catalog_path, files[i].data_type, file)
            };
        assert(is_closed(tree, file));
        assert(is_live(catalog_path, instance_id, data_types, file));
        assert(is_request_for(requests[m], path_of(file)));
    }
    assert forall|m: int, other: LiveFile|
        {
            &&& 0 <= m < requests.len()
            &&& is_plain_file(other)
            &&& #[trigger] is_request_for(requests[m], path_of(other))
        } implies is_closed(tree, other) && is_live(
        catalog_path,
        instance_id,
        data_types,
        other,
    ) by {
        assert(asks_for_closed_file(catalog_path, instance_id, data_types, tree, requests[m]));
        let file = choose|file: LiveFile| #[trigger]
            is_closed(tree, file) && is_live(catalog_path, instance_id, data_types, file)
                && is_request_for(requests[m], path_of(file));
        assert(tree.contains(file));
        law_paths_tell_files_apart(file, other);
    }
}

/// A pass asks for no file of another instance, and for none of another data
/// type, where the names of these are plain.
pub proof fn law_other_instances_and_data_types_are_left_alone(
    catalog_path: Seq<u8>,
    instance_id: Seq<char>,
    data_types: Set<Seq<char>>,
    listings: Seq<DataTypeListing>,
    tree: Set<LiveFile>,
    files: Seq<ClosedFeatherFileView>,
    converts: spec_fn(int) -> bool,
    deletes: spec_fn(int) -> bool,
    other_instance: Seq<char>,
    other_type: Seq<char>,
    other: LiveFile,
    m: int,
)
    requires
        collects(catalog_path, instance_id, data_types, listings, tree, files),
        is_plain_name(encode_utf8(instance_id)),
        forall|data_type: Seq<char>| #[trigger]
            data_types.contains(data_type) ==> is_plain_name(encode_utf8(data_type)),
        is_plain_name(encode_utf8(other_instance)),
        is_plain_name(encode_utf8(other_type)),
        other_instance != instance_id || !data_types.contains(other_type),
        is_plain_file(other),
        other.directory == directory_of(catalog_path, other_instance, other_type),
        0 <= m < requests_of_pass(files, converts, deletes).len(),
    ensures
        !is_request_for(requests_of_pass(files, converts, deletes)[m], path_of(other)),
{
    law_only_closed_files_are_touched(
        catalog_path,
        instance_id,
        data_types,
        listings,
        tree,
        files,
        converts,
        deletes,
    );
    if is_request_for(requests_of_pass(files, converts, deletes)[m], path_of(other)) {
        let data_type = choose|data_type: Seq<char>| #[trigger]
            data_types.contains(data_type) && other.directory == directory_of(
                catalog_path,
                instance_id,
                data_type,
            );
        law_plain_names_have_their_own_directories(
            catalog_path,
            instance_id,
            data_type,
            other_instance,
            other_type,
        );
    }
}

/// Whatever fails, and also where some names in a directory could not be read, a
/// pass leaves every file where it is that is not closed or lies elsewhere. So
/// a directory that held a feather file still holds its latest.
pub proof fn law_the_latest_files_stay(
    catalog_path: Seq<u8>,
    instance_id: Seq<char>,
    data_types: Set<Seq<char>>,
    listings: Seq<DataTypeListing>,
    tree: Set<LiveFile>,
    files: Seq<ClosedFeatherFileView>,
    converts: spec_fn(int) -> bool,
    deletes: spec_fn(int) -> bool,
)
    requires
        collects(catalog_path, instance_id, data_types, listings, tree, files),
    ensures
        ({
            let after = tree_after(tree, files, converts, deletes);
            &&& after.subset_of(tree)
            &&& forall|file: LiveFile| #[trigger]
                tree.contains(file) && !(is_closed(tree, file) && is_live(
                    catalog_path,
                    instance_id,
                    data_types,
                    file,
                )) ==> after.contains(file)
            &&& forall|file: LiveFile| #[trigger]
                is_latest(tree, file) ==> is_latest(after, file)
            &&& forall|file: LiveFile| #[trigger]
                is_feather_file(tree, file) ==> exists|latest: LiveFile| #[trigger]
                    is_latest(after, latest) && same_directory(file, latest)
        }),
{
    let after = tree_after(tree, files, converts, deletes);
    law_the_closed_files_are_collected(
        catalog_path,
        instance_id,
        data_types,
        listings,
        tree,
        files,
    );
    assert forall|file: LiveFile| #[trigger]
        tree.contains(file) && !(is_closed(tree, file) && is_live(
            catalog_path,
            instance_id,
            data_types,
            file,
        )) implies after.contains(file) by {
        let path = path_of(file);
        lemma_is_removed(files, converts, deletes, path);
        if is_removed(files, converts, deletes, path) {
            let i = choose|i: int|
                0 <= i < files.len() && (#[trigger] files[i]).file_path == path && converts(i)
                    && deletes(i);
            lemma_collected_file_is(catalog_path, instance_id, data_types, tree, files, i, file);
        }
    }
    assert forall|file: LiveFile| #[trigger] is_latest(tree, file) implies is_latest(
        after,
        file,
    ) by {
        assert(after.contains(file));
        if is_closed(after, file) {
            lemma_closed_in_more(after, tree, file);
        }
    }
    assert forall|file: LiveFile| #[trigger] is_feather_file(tree, file) implies exists|
        latest: LiveFile,
    | #[trigger] is_latest(after, latest) && same_directory(file, latest) by {
        law_directories_have_one_latest_file(tree, file);
        let latest = choose|latest: LiveFile| #[trigger]
            is_latest(tree, latest) && same_directory(file, latest);
        assert(is_latest(after, latest));
    }
}

/// A file that is closed among some files is closed among more.
proof fn lemma_closed_in_more(fewer: Set<LiveFile>, more: Set<LiveFile>, file: LiveFile)
    requires
        fewer.subset_of(more),
        is_closed(fewer, file),
    ensures
        is_closed(more, file),
{
    let later = choose|later: LiveFile|
        {
            &&& #[trigger] is_feather_file(fewer, later)
            &&& same_directory(file, later)
            &&& bytes_less(file.name, later.name)
        };
    assert(is_feather_file(more, later));
}

/// After a pass over all closed files in which everything succeeded, a pass over
/// what is left has nothing to do: no directory of the data types holds two
/// feather files.
pub proof fn law_a_second_pass_has_nothing_to_do(
    catalog_path: Seq<u8>,
    instance_id: Seq<char>,
    data_types: Set<Seq<char>>,
    listings: Seq<DataTypeListing>,
    tree: Set<LiveFile>,
    files: Seq<ClosedFeatherFileView>,
    converts: spec_fn(int) -> bool,
    deletes: spec_fn(int) -> bool,
    later_listings: Seq<DataTypeListing>,
)
    requires
        collects(catalog_path, instance_id, data_types, listings, tree, files),
        lists_all(catalog_path, instance_id, data_types, listings, tree),
        forall|i: int| 0 <= i < files.len() ==> #[trigger] converts(i) && deletes(i),
        lists_only(
            catalog_path,
            instance_id,
            data_types,
            later_listings,
            tree_after(tree, files, converts, deletes),
        ),
        forall|data_type: Seq<char>| #[trigger]
            data_types.contains(data_type) ==> is_read(later_listings, data_type),
    ensures
        all_or_first_error(findings(catalog_path, instance_id, data_types, later_listings)) == Ok::<
            _,
            ConversionErrorView,
        >(Seq::<ClosedFeatherFileView>::empty()),
        action_at(0, 0) == PassAction::Finish,
        ({
            let after = tree_after(tree, files, converts, deletes);
            forall|a: LiveFile, b: LiveFile|
                {
                    &&& #[trigger] is_feather_file(after, a)
                    &&& #[trigger] is_feather_file(after, b)
                    &&& is_live(catalog_path, instance_id, data_types, a)
                    &&& same_directory(a, b)
                } ==> a == b
        }),
{
    let after = tree_after(tree, files, converts, deletes);
    law_the_closed_files_are_collected(
        catalog_path,
        instance_id,
        data_types,
        listings,
        tree,
        files,
    );
    assert(is_plain_tree(after)) by {
        assert forall|file: LiveFile| #[trigger] after.contains(file) implies is_plain_file(
            file,
        ) by {
            assert(tree.contains(file));
        }
    }
    assert forall|file: LiveFile| #[trigger] is_closed(after, file) implies !is_live(
        catalog_path,
        instance_id,
        data_types,
        file,
    ) by {
        if is_live(catalog_path, instance_id, data_types, file) {
            let data_type = choose|data_type: Seq<char>| #[trigger]
                data_types.contains(data_type) && file.directory == directory_of(
                    catalog_path,
                    instance_id,
                    data_type,
                );
            lemma_closed_in_more(after, tree, file);
            let path = path_of(file);
            let found = closed_file(catalog_path, data_type, file);
            assert(files.contains(found));
            let i = choose|i: int| 0 <= i < files.len() && files[i] == found;
            assert(files[i].file_path == path);
            assert(converts(i));
            assert(deletes(i));
            lemma_is_removed(files, converts, deletes, path);
            assert(after.contains(file));
        }
    }
    lemma_nothing_is_found(catalog_path, instance_id, data_types, later_listings, after);
    assert forall|a: LiveFile, b: LiveFile|
        {
            &&& #[trigger] is_feather_file(after, a)
            &&& #[trigger] is_feather_file(after, b)
            &&& is_live(catalog_path, instance_id, data_types, a)
            &&& same_directory(a, b)
        } implies a == b by {
        law_bytes_less_is_total(a.name, b.name);
        assert(is_live(catalog_path, instance_id, data_types, b)) by {
            let data_type = choose|data_type: Seq<char>| #[trigger]
                data_types.contains(data_type) && a.directory == directory_of(
                    catalog_path,
                    instance_id,
                    data_type,
                );
            assert(data_types.contains(data_type));
        }
        assert(!is_closed(after, a) && !is_closed(after, b));
    }
}

/// Whether a request is for the conversion of the file with the path `path`
/// into data of the type `data_type`.
pub open spec fn is_conversion_of(
    request: PassRequestView,
    data_type: Seq<char>,
    path: Seq<u8>,
) -> bool {
    match request {
        PassRequestView::Convert { data_type: of_type, file_path, .. } => of_type == data_type
            && file_path == path,
        _ => false,
    }
}

/// A collected file that stayed, because it could not be converted or not be
/// deleted, is converted again in the next pass, once, and with the same
/// request.
pub proof fn law_what_stayed_is_converted_again(
    catalog_path: Seq<u8>,
    instance_id: Seq<char>,
    data_types: Set<Seq<char>>,
    listings: Seq<DataTypeListing>,
    tree: Set<LiveFile>,
    files: Seq<ClosedFeatherFileView>,
    converts: spec_fn(int) -> bool,
    deletes: spec_fn(int) -> bool,
    k: int,
    later_listings: Seq<DataTypeListing>,
    later_converts: spec_fn(int) -> bool,
    later_deletes: spec_fn(int) -> bool,
)
    requires
        collects(catalog_path, instance_id, data_types, listings, tree, files),
        0 <= k < files.len(),
        forall|i: int|
            0 <= i < files.len() && (#[trigger] files[i]).file_path == files[k].file_path ==> !(
            converts(i) && deletes(i)),
        are_below(catalog_path, instance_id, data_types),
        lists_only(
            catalog_path,
            instance_id,
            data_types,
            later_listings,
            tree_after(tree, files, converts, deletes),
        ),
        lists_all(
            catalog_path,
            instance_id,
            data_types,
            later_listings,
            tree_after(tree, files, converts, deletes),
        ),
    ensures
        all_or_first_error(
            findings(catalog_path, instance_id, data_types, later_listings),
        ) matches Ok(later_files) && (later_files.len() <= usize::MAX ==> {
            let requests = requests_of_pass(later_files, later_converts, later_deletes);
            &&& requests.contains(
                PassRequestView::Convert {
                    data_type: files[k].data_type,
                    object_path: files[k].object_path,
                    file_path: files[k].file_path,
                    use_event_time: false,
                },
            )
            &&& forall|m: int, n: int|
                {
                    &&& 0 <= m < requests.len()
                    &&& 0 <= n < requests.len()
                    &&& is_conversion_of(
                        #[trigger] requests[m],
                        files[k].data_type,
                        files[k].file_path,
                    )
                    &&& is_conversion_of(
                        #[trigger] requests[n],
                        files[k].data_type,
                        files[k].file_path,
                    )
                } ==> m == n
        }),
{
    let after = tree_after(tree, files, converts, deletes);
    assert(is_plain_tree(after)) by {
        assert forall|file: LiveFile| #[trigger] after.contains(file) implies is_plain_file(
            file,
        ) by {
            assert(tree.contains(file));
        }
    }
    law_what_is_read_below_the_catalog_is_collected(
        catalog_path,
        instance_id,
        data_types,
        later_listings,
        after,
    );
    let later_files = all_or_first_error(
        findings(catalog_path, instance_id, data_types, later_listings),
    )->Ok_0;
    law_the_closed_files_are_collected(
        catalog_path,
        instance_id,
        data_types,
        later_listings,
        after,
        later_files,
    );
    let file = lemma_stays_closed(
        catalog_path,
        instance_id,
        data_types,
        listings,
        tree,
        files,
        converts,
        deletes,
        k,
    );
    assert(is_closed(after, file));
    assert(data_types.contains(files[k].data_type));
    assert(later_files.contains(files[k]));
    let j = choose|j: int| 0 <= j < later_files.len() && later_files[j] == files[k];
    if later_files.len() <= usize::MAX {
        lemma_converted_once(later_files, later_converts, later_deletes, j);
    }
}

/// A collected file that a pass did not delete is still closed after it.
proof fn lemma_stays_closed(
    catalog_path: Seq<u8>,
    instance_id: Seq<char>,
    data_types: Set<Seq<char>>,
    listings: Seq<DataTypeListing>,
    tree: Set<LiveFile>,
    files: Seq<ClosedFeatherFileView>,
    converts: spec_fn(int) -> bool,
    deletes: spec_fn(int) -> bool,
    k: int,
) -> (file: LiveFile)
    requires
        collects(catalog_path, instance_id, data_types, listings, tree, files),
        0 <= k < files.len(),
        forall|i: int|
            0 <= i < files.len() && (#[trigger] files[i]).file_path == files[k].file_path ==> !(
            converts(i) && deletes(i)),
    ensures
        data_types.contains(files[k].data_type),
        file.directory == directory_of(catalog_path, instance_id, files[k].data_type),
        files[k] == closed_file(catalog_path, files[k].data_type, file),
        is_closed(tree_after(tree, files, converts, deletes), file),
{
    let after = tree_after(tree, files, converts, deletes);
    let path = files[k].file_path;
    law_the_closed_files_are_collected(
        catalog_path,
        instance_id,
        data_types,
        listings,
        tree,
        files,
    );
    assert(data_types.contains(files[k].data_type));
    let file = choose|file: LiveFile|
        {
            &&& #[trigger] is_closed(tree, file)
            &&& file.directory == directory_of(catalog_path, instance_id, files[k].data_type)
            &&& files[k] == closed_file(catalog_path, files[k].data_type, file)
        };
    lemma_is_removed(files, converts, deletes, path);
    assert(after.contains(file));
    law_directories_have_one_latest_file(tree, file);
    let latest = choose|latest: LiveFile|
        {
            &&& #[trigger] is_latest(tree, latest)
            &&& same_directory(file, latest)
            &&& file == latest || bytes_less(file.name, latest.name)
        };
    law_the_latest_files_stay(
        catalog_path,
        instance_id,
        data_types,
        listings,
        tree,
        files,
        converts,
        deletes,
    );
    assert(is_latest(after, latest));
    assert(is_feather_file(after, latest));
    file
}

/// A pass converts each of its files once.
proof fn lemma_converted_once(
    files: Seq<ClosedFeatherFileView>,
    converts: spec_fn(int) -> bool,
    deletes: spec_fn(int) -> bool,
    j: int,
)
    requires
        files.len() <= usize::MAX,
        0 <= j < files.len(),
        forall|i: int, k: int|
            0 <= i < k < files.len() && (#[trigger] files[i]).data_type == (
            #[trigger] files[k]).data_type ==> files[i].file_path != files[k].file_path,
    ensures
        ({
            let requests = requests_of_pass(files, converts, deletes);
            &&& requests.contains(
                PassRequestView::Convert {
                    data_type: files[j].data_type,
                    object_path: files[j].object_path,
                    file_path: files[j].file_path,
                    use_event_time: false,
                },
            )
            &&& forall|m: int, n: int|
                {
                    &&& 0 <= m < requests.len()
                    &&& 0 <= n < requests.len()
                    &&& is_conversion_of(
                        #[trigger] requests[m],
                        files[j].data_type,
                        files[j].file_path,
                    )
                    &&& is_conversion_of(
                        #[trigger] requests[n],
                        files[j].data_type,
                        files[j].file_path,
                    )
                } ==> m == n
        }),
{
    let count = files.len() as int;
    let actions = actions_of_pass(files, converts, deletes);
    let requests = requests_of_pass(files, converts, deletes);
    let action = PassAction::Convert { index: j as usize };
    law_pass_converts_all_and_deletes_the_converted(count as usize, converts, deletes);
    lemma_actions_on_files(0, count, converts);
    assert(actions.contains(action));
    let at = choose|at: int| 0 <= at < actions.len() && actions[at] == action;
    assert(requests[at] == request_of(files, action));
    assert forall|m: int|
        0 <= m < requests.len() && is_conversion_of(
            #[trigger] requests[m],
            files[j].data_type,
            files[j].file_path,
        ) implies m == at by {
        assert(requests[m] == request_of(files, actions[m]));
        let i = actions[m]->Convert_index as int;
        if i < j {
            assert(files[i].file_path != files[j].file_path);
        } else if j < i {
            assert(files[j].file_path != files[i].file_path);
        }
        assert(actions[m] == action);
        if m != at {
            assert(actions[m] != actions[at]);
        }
    }
}

/// What a pass asks for, file after file: the conversion of the file, and then,
/// exactly if that succeeds, the deletion of the same file. Whether a deletion
/// succeeds changes nothing of it.
pub proof fn law_each_file_is_converted_and_then_deleted(
    files: Seq<ClosedFeatherFileView>,
    file: ClosedFeatherFileView,
    converts: spec_fn(int) -> bool,
    deletes: spec_fn(int) -> bool,
)
    requires
        files.len() < usize::MAX,
    ensures
        requests_of_pass(Seq::empty(), converts, deletes) == Seq::<PassRequestView>::empty(),
        ({
            let before = requests_of_pass(files, converts, deletes).push(
                PassRequestView::Convert {
                    data_type: file.data_type,
                    object_path: file.object_path,
                    file_path: file.file_path,
                    use_event_time: false,
                },
            );
            requests_of_pass(files.push(file), converts, deletes) == if converts(
                files.len() as int,
            ) {
                before.push(PassRequestView::Delete { file_path: file.file_path })
            } else {
                before
            }
        }),
{
    let none = Seq::<ClosedFeatherFileView>::empty();
    let more = files.push(file);
    let count = files.len() as int;
    law_pass_converts_all_and_deletes_the_converted(0, converts, deletes);
    assert(requests_of_pass(none, converts, deletes) =~= Seq::empty());
    law_pass_converts_all_and_deletes_the_converted(count as usize, converts, deletes);
    law_pass_converts_all_and_deletes_the_converted((count + 1) as usize, converts, deletes);
    lemma_actions_on_one_more(0, count, converts);
    lemma_actions_on_files(0, count, converts);
    let actions = actions_on_files(0, count, converts);
    let all = actions_on_files(0, count + 1, converts);
    assert forall|m: int| 0 <= m < actions.len() implies request_of(files, #[trigger] actions[m])
        == request_of(more, actions[m]) by {
        match actions[m] {
            PassAction::Convert { index } => {
                assert(files[index as int] == more[index as int]);
            },
            PassAction::Delete { index } => {
                assert(files[index as int] == more[index as int]);
            },
            PassAction::Finish => {},
        }
    }
    assert(more[count] == file);
    let before = requests_of_pass(files, converts, deletes);
    let after = requests_of_pass(more, converts, deletes);
    assert(before.len() == actions.len() && after.len() == all.len());
    assert forall|m: int| 0 <= m < actions.len() implies after[m] == before[m] by {
        assert(all[m] == actions[m]);
    }
    assert(all[actions.len() as int] == PassAction::Convert { index: count as usize });
    let converted = before.push(
        PassRequestView::Convert {
            data_type: file.data_type,
            object_path: file.object_path,
            file_path: file.file_path,
            use_event_time: false,
        },
    );
    if converts(count) {
        assert(all[actions.len() as int + 1] == PassAction::Delete { index: count as usize });
        assert(after =~= converted.push(PassRequestView::Delete { file_path: file.file_path }));
    } else {
        assert(after =~= converted);
    }
}

proof fn lemma_actions_on_one_more(index: int, count: int, converts: spec_fn(int) -> bool)
    requires
        index <= count,
    ensures
        actions_on_files(index, count + 1, converts) == actions_on_files(index, count, converts)
            + actions_on_file(count, converts),
    decreases count - index,
{
    if index < count {
        lemma_actions_on_one_more(index + 1, count, converts);
        assert(actions_on_files(index, count + 1, converts) =~= actions_on_files(
            index,
            count,
            converts,
        ) + actions_on_file(count, converts));
    } else {
        assert(actions_on_files(index + 1, count + 1, converts) =~= Seq::empty());
        assert(actions_on_files(index, count + 1, converts) =~= actions_on_files(
            index,
            count,
            converts,
        ) + actions_on_file(count, converts));
    }
}

/// Every request for a deletion stands right behind the request for the
/// conversion of the same file, and that conversion succeeded.
pub proof fn law_deletions_follow_the_conversion_of_the_file(
    files: Seq<ClosedFeatherFileView>,
    converts: spec_fn(int) -> bool,
    deletes: spec_fn(int) -> bool,
    m: int,
)
    requires
        files.len() <= usize::MAX,
        0 <= m < requests_of_pass(files, converts, deletes).len(),
        requests_of_pass(files, converts, deletes)[m] is Delete,
    ensures
        m > 0,
        requests_of_pass(files, converts, deletes)[m - 1] is Convert,
        requests_of_pass(files, converts, deletes)[m - 1]->Convert_file_path == requests_of_pass(
            files,
            converts,
            deletes,
        )[m]->Delete_file_path,
        exists|i: int|
            {
                &&& 0 <= i < files.len()
                &&& converts(i)
                &&& (#[trigger] files[i]).file_path == requests_of_pass(
                    files,
                    converts,
                    deletes,
                )[m]->Delete_file_path
                &&& files[i].data_type == requests_of_pass(
                    files,
                    converts,
                    deletes,
                )[m - 1]->data_type
            },
    decreases files.len(),
{
    let requests = requests_of_pass(files, converts, deletes);
    if files.len() == 0 {
        law_pass_converts_all_and_deletes_the_converted(0, converts, deletes);
    } else {
        let fewer = files.drop_last();
        let last = files.last();
        let k = files.len() - 1;
        law_each_file_is_converted_and_then_deleted(fewer, last, converts, deletes);
        assert(fewer.push(last) =~= files);
        let before = requests_of_pass(fewer, converts, deletes);
        if m < before.len() {
            assert(requests[m] == before[m]);
            law_deletions_follow_the_conversion_of_the_file(fewer, converts, deletes, m);
            assert(requests[m - 1] == before[m - 1]);
            let i = choose|i: int|
                {
                    &&& 0 <= i < fewer.len()
                    &&& converts(i)
                    &&& (#[trigger] fewer[i]).file_path == before[m]->Delete_file_path
                    &&& fewer[i].data_type == before[m - 1]->data_type
                };
            assert(files[i] == fewer[i]);
        } else {
            assert(m == before.len() + 1);
            assert(files[k] == last);
        }
    }
}

/// The step of a pass, from one request to the next: it begins with the
/// conversion of its first file. A conversion that succeeds is followed by the
/// deletion of the same file. A conversion that fails, and a deletion, are
/// followed by the conversion of the next file. Behind the last file the pass is
/// finished, and stays so.
pub proof fn law_how_a_pass_goes_on(
    files: Seq<ClosedFeatherFileView>,
    action: PassAction,
    succeeded: bool,
    i: int,
)
    requires
        files.len() <= usize::MAX,
        0 <= i < files.len(),
    ensures
        ({
            let conversion = |i: int|
                if i < files.len() {
                    PassRequestView::Convert {
                        data_type: files[i].data_type,
                        object_path: files[i].object_path,
                        file_path: files[i].file_path,
                        use_event_time: false,
                    }
                } else {
                    PassRequestView::Finish
                };
            let count = files.len() as int;
            let now = request_of(files, action);
            let next = request_of(files, action_after(count, action, succeeded));
            &&& request_of(files, action_at(count, 0)) == conversion(0)
            &&& action == PassAction::Convert { index: i as usize } ==> {
                &&& now == conversion(i)
                &&& next == if succeeded {
                    PassRequestView::Delete { file_path: files[i].file_path }
                } else {
                    conversion(i + 1)
                }
            }
            &&& action == PassAction::Delete { index: i as usize } ==> {
                &&& now == PassRequestView::Delete { file_path: files[i].file_path }
                &&& next == conversion(i + 1)
            }
            &&& action is Finish ==> now is Finish && next is Finish
        }),
        request_of(Seq::empty(), action_at(0, 0)) is Finish,
{
}

/// What the task that repeats a pass warns of: of a pass that failed or was
/// broken off, with what is known of it, and of nothing else.
pub proof fn law_what_the_task_warns_of(event: TaskEvent, warning: Option<String>)
    ensures
        is_warning(warning, warning_of(event)) <==> match (event, warning) {
            (TaskEvent::PassFailed { detail }, Some(text)) => text@
                == "stream conversion pass failed: "@ + detail@,
            (TaskEvent::JoinFailed { detail }, Some(text)) => text@
                == "stream conversion task join failed: "@ + detail@,
            (TaskEvent::PassFailed { .. }, None) => false,
            (TaskEvent::JoinFailed { .. }, None) => false,
            (_, text) => text is None,
        },
{
}

/// The paths of the deletions that a pass asks for are those of the files whose
/// conversion succeeds, in the order of the files.
pub proof fn law_the_converted_files_are_deleted_in_order(
    files: Seq<ClosedFeatherFileView>,
    file: ClosedFeatherFileView,
    converts: spec_fn(int) -> bool,
    deletes: spec_fn(int) -> bool,
)
    requires
        files.len() < usize::MAX,
    ensures
        ({
            let deletions = |files: Seq<ClosedFeatherFileView>|
                requests_of_pass(files, converts, deletes).filter(
                    |request: PassRequestView| request is Delete,
                );
            &&& deletions(Seq::empty()) == Seq::<PassRequestView>::empty()
            &&& deletions(files.push(file)) == if converts(files.len() as int) {
                deletions(files).push(PassRequestView::Delete { file_path: file.file_path })
            } else {
                deletions(files)
            }
        }),
{
    let is_deletion = |request: PassRequestView| request is Delete;
    let before = requests_of_pass(files, converts, deletes);
    let convert = PassRequestView::Convert {
        data_type: file.data_type,
        object_path: file.object_path,
        file_path: file.file_path,
        use_event_time: false,
    };
    let delete = PassRequestView::Delete { file_path: file.file_path };
    law_each_file_is_converted_and_then_deleted(files, file, converts, deletes);
    assert(Seq::<PassRequestView>::empty().filter(is_deletion) =~= Seq::empty()) by {
        reveal(Seq::filter);
    }
    lemma_filter_push(before, is_deletion, convert);
    lemma_filter_push(before.push(convert), is_deletion, delete);
}

proof fn lemma_filter_push<A>(items: Seq<A>, kept: spec_fn(A) -> bool, item: A)
    ensures
        items.push(item).filter(kept) == if kept(item) {
            items.filter(kept).push(item)
        } else {
            items.filter(kept)
        },
{
    reveal(Seq::filter);
    assert(items.push(item).drop_last() =~= items);
}

} // verus!
