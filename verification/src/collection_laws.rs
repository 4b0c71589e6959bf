//! Which files are collected, over the files that are there.
use vstd::prelude::*;
use vstd::utf8::encode_utf8;

use crate::conversion::ClosedFeatherFileView;
use crate::conversion::ConversionErrorView;
use crate::conversion::DataTypeListing;
use crate::conversion::DirectoryEntry;
use crate::conversion::closed_names;
use crate::conversion::data_type_findings;
use crate::conversion::entry_findings;
use crate::conversion::feather_name;
use crate::conversion::feather_names;
use crate::conversion::file_finding;
use crate::conversion::findings;
use crate::conversion::has_feather_extension;
use crate::conversion::is_plain_name;
use crate::conversion::listing_of;
use crate::conversion::live_directory;
use crate::conversion::name_order;
use crate::conversion::object_path;
use crate::live_tree::LiveFile;
use crate::live_tree::are_below;
use crate::live_tree::directory_of;
use crate::live_tree::is_closed;
use crate::live_tree::is_feather_file;
use crate::live_tree::is_latest;
use crate::live_tree::is_live;
use crate::live_tree::is_plain_file;
use crate::live_tree::is_plain_tree;
use crate::live_tree::law_paths_tell_files_apart;
use crate::live_tree::lemma_only_latest;
use crate::live_tree::lemma_path_is_joined;
use crate::live_tree::lemma_prefix_of_prefix;
use crate::live_tree::path_of;
use crate::live_tree::same_directory;
use crate::names::in_order;
use crate::names::law_finite_sets_have_an_order;
use crate::ordering::bytes_less;
use crate::ordering::law_bytes_less_is_irreflexive;
use crate::ordering::law_bytes_less_is_transitive;
use crate::ordering::lemma_bytes_at_most_is_total_ordering;
use crate::paths::components;
use crate::paths::joined_path;
use crate::paths::law_joined_path_lies_below_its_base;
use crate::results::all_or_first_error;
use crate::results::lemma_no_error;
use crate::results::lemma_values_are_results;
use crate::sequences::lemma_flat_map_contains;
use crate::sequences::lemma_flat_map_no_duplicates;

verus! {

/// The entry for a file of a data type among the closed files.
pub open spec fn closed_file(
    catalog_path: Seq<u8>,
    data_type: Seq<char>,
    file: LiveFile,
) -> ClosedFeatherFileView {
    ClosedFeatherFileView {
        data_type,
        file_path: path_of(file),
        object_path: object_path(catalog_path, path_of(file))->0,
    }
}

/// The entries of the directory of a data type, none where it does not exist.
pub open spec fn entries_of(listings: Seq<DataTypeListing>, data_type: Seq<char>) -> Seq<
    Result<DirectoryEntry, String>,
> {
    match listing_of(listings, data_type) {
        Some(listing) => match listing.directory {
            Some(Ok(entries)) => entries@,
            _ => Seq::empty(),
        },
        None => Seq::empty(),
    }
}

/// The files in an entry, none where it is no directory.
pub open spec fn files_of(entry: Result<DirectoryEntry, String>) -> Seq<Result<Vec<u8>, String>> {
    match entry {
        Ok(entry) => match entry.files {
            Ok(files) => if entry.is_dir {
                files@
            } else {
                Seq::empty()
            },
            Err(_) => Seq::empty(),
        },
        Err(_) => Seq::empty(),
    }
}

/// Whether no name occurs twice among those of `files` that could be read.
pub open spec fn are_distinct(files: Seq<Result<Vec<u8>, String>>) -> bool {
    forall|k: int, m: int|
        0 <= k < m < files.len() && (#[trigger] files[k]) is Ok && (#[trigger] files[m]) is Ok
            ==> files[k]->Ok_0@ != files[m]->Ok_0@
}

/// Whether an entry could be read, and the names in it where it is a directory.
/// Some of these names may not have been read.
pub open spec fn is_read_entry(entry: Result<DirectoryEntry, String>) -> bool {
    match entry {
        Ok(directory) => directory.is_dir ==> directory.files is Ok,
        Err(_) => false,
    }
}

/// Whether the directory of a data type and its entries could be read.
pub open spec fn is_read(listings: Seq<DataTypeListing>, data_type: Seq<char>) -> bool {
    let entries = entries_of(listings, data_type);
    &&& listing_of(listings, data_type) matches Some(listing) ==> match listing.directory {
        Some(directory) => directory is Ok,
        None => true,
    }
    &&& forall|i: int| 0 <= i < entries.len() ==> is_read_entry(#[trigger] entries[i])
}

/// Whether no name is listed twice, neither of an entry of the directory of a
/// data type nor of a file in an entry.
pub open spec fn has_distinct_names(
    listings: Seq<DataTypeListing>,
    data_type: Seq<char>,
) -> bool {
    let entries = entries_of(listings, data_type);
    &&& forall|i: int| 0 <= i < entries.len() ==> are_distinct(files_of(#[trigger] entries[i]))
    &&& forall|i: int, j: int|
        0 <= i < j < entries.len() && (#[trigger] entries[i]) is Ok && (#[trigger] entries[j]) is Ok
            ==> entries[i]->Ok_0.name@ != entries[j]->Ok_0.name@
}

/// Whether the name `name` is among `files`.
pub open spec fn is_name_among(files: Seq<Result<Vec<u8>, String>>, name: Seq<u8>) -> bool {
    exists|k: int| 0 <= k < files.len() && (#[trigger] files[k]) is Ok && files[k]->Ok_0@ == name
}

/// Whether the entry `i` of the directory of a data type lists `file`.
pub open spec fn is_listed_in(
    listings: Seq<DataTypeListing>,
    data_type: Seq<char>,
    file: LiveFile,
    i: int,
) -> bool {
    let entries = entries_of(listings, data_type);
    &&& 0 <= i < entries.len()
    &&& entries[i] is Ok
    &&& entries[i]->Ok_0.name@ == file.identifier
    &&& is_name_among(files_of(entries[i]), file.name)
}

/// Whether every file that the listings list is there, and none is listed
/// twice. Files may be there that are not listed.
pub open spec fn lists_only(
    catalog_path: Seq<u8>,
    instance_id: Seq<char>,
    data_types: Set<Seq<char>>,
    listings: Seq<DataTypeListing>,
    tree: Set<LiveFile>,
) -> bool {
    &&& forall|data_type: Seq<char>| #[trigger]
        data_types.contains(data_type) ==> has_distinct_names(listings, data_type)
    &&& forall|data_type: Seq<char>, file: LiveFile, i: int|
        {
            &&& data_types.contains(data_type)
            &&& file.directory == directory_of(catalog_path, instance_id, data_type)
            &&& #[trigger] is_listed_in(listings, data_type, file, i)
        } ==> tree.contains(file)
}

/// Whether the directories could be read, and list every file that is there.
pub open spec fn lists_all(
    catalog_path: Seq<u8>,
    instance_id: Seq<char>,
    data_types: Set<Seq<char>>,
    listings: Seq<DataTypeListing>,
    tree: Set<LiveFile>,
) -> bool {
    &&& forall|data_type: Seq<char>| #[trigger]
        data_types.contains(data_type) ==> is_read(listings, data_type)
    &&& forall|data_type: Seq<char>, file: LiveFile|
        {
            &&& #[trigger] data_types.contains(data_type)
            &&& file.directory == directory_of(catalog_path, instance_id, data_type)
            &&& #[trigger] tree.contains(file)
        } ==> exists|i: int| is_listed_in(listings, data_type, file, i)
}

/// Whether `name` is closed among the names `files`: a feather file, and not
/// the latest.
spec fn is_closed_name(files: Seq<Result<Vec<u8>, String>>, name: Seq<u8>) -> bool {
    &&& is_name_among(files, name)
    &&& has_feather_extension(name)
    &&& exists|later: Seq<u8>| #[trigger]
        is_name_among(files, later) && has_feather_extension(later) && bytes_less(name, later)
}

/// The names among the first `k` files and one more that could not be read are
/// those among the first `k`.
proof fn lemma_name_among_more(files: Seq<Result<Vec<u8>, String>>, k: int, name: Seq<u8>)
    requires
        0 <= k < files.len(),
        files[k] is Err,
    ensures
        is_name_among(files.take(k + 1), name) <==> is_name_among(files.take(k), name),
{
    let fewer = files.take(k);
    let more = files.take(k + 1);
    if is_name_among(more, name) {
        let m = choose|m: int|
            0 <= m < more.len() && (#[trigger] more[m]) is Ok && more[m]->Ok_0@ == name;
        assert(fewer[m] == more[m]);
    }
    if is_name_among(fewer, name) {
        let m = choose|m: int|
            0 <= m < fewer.len() && (#[trigger] fewer[m]) is Ok && fewer[m]->Ok_0@ == name;
        assert(more[m] == fewer[m]);
    }
}

proof fn lemma_feather_names(files: Seq<Result<Vec<u8>, String>>, k: int)
    requires
        are_distinct(files),
        0 <= k <= files.len(),
    ensures
        feather_names(files.take(k)).no_duplicates(),
        forall|name: Seq<u8>| #[trigger]
            feather_names(files.take(k)).contains(name) <==> is_name_among(files.take(k), name)
                && has_feather_extension(name),
    decreases k,
{
    let first = files.take(k);
    if k == 0 {
        assert(feather_names(first) =~= Seq::empty());
    } else {
        lemma_feather_names(files, k - 1);
        files.lemma_filter_map_take_succ(
            |file: Result<Vec<u8>, String>| feather_name(file),
            k - 1,
        );
        let fewer = files.take(k - 1);
        let before = feather_names(fewer);
        if files[k - 1] is Err {
            assert(feather_names(first) =~= before);
            assert forall|other: Seq<u8>| is_name_among(first, other) <==> is_name_among(
                fewer,
                other,
            ) by {
                lemma_name_among_more(files, k - 1, other);
            }
        } else {
            let name = files[k - 1]->Ok_0@;
            assert(!is_name_among(fewer, name)) by {
                if is_name_among(fewer, name) {
                    let m = choose|m: int|
                        0 <= m < fewer.len() && (#[trigger] fewer[m]) is Ok && fewer[m]->Ok_0@ == name;
                    assert(files[m]->Ok_0@ != files[k - 1]->Ok_0@);
                }
            }
            assert forall|other: Seq<u8>| is_name_among(first, other) <==> is_name_among(fewer, other)
                || other == name by {
                if is_name_among(first, other) {
                    let m = choose|m: int|
                        0 <= m < first.len() && (#[trigger] first[m]) is Ok && first[m]->Ok_0@ == other;
                    if m < k - 1 {
                        assert(fewer[m] == first[m]);
                    }
                }
                if is_name_among(fewer, other) {
                    let m = choose|m: int|
                        0 <= m < fewer.len() && (#[trigger] fewer[m]) is Ok && fewer[m]->Ok_0@ == other;
                    assert(first[m] == fewer[m]);
                }
                assert(first[k - 1] == files[k - 1]);
            }
            if has_feather_extension(name) {
                assert(feather_names(first) =~= before.push(name));
                assert forall|other: Seq<u8>| #[trigger] feather_names(first).contains(other)
                    <==> before.contains(other) || other == name by {
                    if before.contains(other) {
                        let m = choose|m: int| 0 <= m < before.len() && before[m] == other;
                        assert(feather_names(first)[m] == other);
                    }
                    assert(feather_names(first)[before.len() as int] == name);
                }
                assert(!before.contains(name));
                assert forall|i: int, j: int|
                    0 <= i < feather_names(first).len() && 0 <= j < feather_names(first).len() && i
                        != j implies feather_names(first)[i] != feather_names(first)[j] by {
                    if i < before.len() && j < before.len() {
                        assert(before[i] != before[j]);
                    } else if i < before.len() {
                        assert(before.contains(before[i]));
                    } else {
                        assert(before.contains(before[j]));
                    }
                }
            } else {
                assert(feather_names(first) =~= before);
            }
        }
    }
}

/// The closed names of a directory, each once, are those with a later one.
proof fn lemma_closed_names(files: Seq<Result<Vec<u8>, String>>)
    requires
        are_distinct(files),
    ensures
        closed_names(files).no_duplicates(),
        forall|name: Seq<u8>| #[trigger]
            closed_names(files).contains(name) <==> is_closed_name(files, name),
{
    let names = feather_names(files);
    let order = name_order();
    let sorted = names.sort_by(order);
    let closed = closed_names(files);
    lemma_feather_names(files, files.len() as int);
    assert(files.take(files.len() as int) =~= files);
    lemma_bytes_at_most_is_total_ordering();
    names.lemma_sort_by_ensures(order);
    names.to_multiset_ensures();
    sorted.to_multiset_ensures();
    names.lemma_multiset_has_no_duplicates();
    sorted.lemma_multiset_has_no_duplicates_conv();
    assert forall|name: Seq<u8>| #[trigger] names.contains(name) <==> sorted.contains(name) by {
        vstd::seq_lib::to_multiset_contains(names, name);
        vstd::seq_lib::to_multiset_contains(sorted, name);
    }
    assert forall|i: int, j: int| 0 <= i < j < sorted.len() implies #[trigger] bytes_less(
        sorted[i],
        sorted[j],
    ) by {
        assert(order(sorted[i], sorted[j]));
        assert(sorted[i] != sorted[j]);
    }
    assert forall|name: Seq<u8>| #[trigger] closed.contains(name) <==> is_closed_name(
        files,
        name,
    ) by {
        if closed.contains(name) {
            let i = choose|i: int| 0 <= i < closed.len() && closed[i] == name;
            assert(sorted[i] == name);
            let later = sorted[sorted.len() - 1];
            assert(bytes_less(sorted[i], sorted[sorted.len() - 1]));
            assert(names.contains(name) && names.contains(later));
            assert(is_name_among(files, later));
        }
        if is_closed_name(files, name) {
            let later = choose|later: Seq<u8>| #[trigger]
                is_name_among(files, later) && has_feather_extension(later) && bytes_less(
                    name,
                    later,
                );
            assert(names.contains(name) && names.contains(later));
            let i = choose|i: int| 0 <= i < sorted.len() && sorted[i] == name;
            let j = choose|j: int| 0 <= j < sorted.len() && sorted[j] == later;
            law_bytes_less_is_irreflexive(name);
            if j < i {
                assert(bytes_less(sorted[j], sorted[i]));
                law_bytes_less_is_transitive(name, later, name);
            }
            assert(i < j);
            assert(closed[i] == name);
        }
    }
}

/// What is found of a file: the file, or that it does not lie below the
/// catalog.
spec fn finding_of(catalog_path: Seq<u8>, data_type: Seq<char>, file: LiveFile) -> Result<
    ClosedFeatherFileView,
    ConversionErrorView,
> {
    match object_path(catalog_path, path_of(file)) {
        Some(_) => Ok(closed_file(catalog_path, data_type, file)),
        None => Err(
            ConversionErrorView::NotUnderCatalog { file_path: path_of(file), catalog_path },
        ),
    }
}

/// Whether `file` is closed by what an entry lists.
spec fn is_found_in_entry(
    entry: Result<DirectoryEntry, String>,
    directory: Seq<u8>,
    file: LiveFile,
) -> bool {
    &&& file.directory == directory
    &&& entry is Ok
    &&& entry->Ok_0.name@ == file.identifier
    &&& is_closed_name(files_of(entry), file.name)
}

/// What is found in an entry that could be read: its closed files, each once.
proof fn lemma_entry_findings(
    catalog_path: Seq<u8>,
    instance_id: Seq<char>,
    data_type: Seq<char>,
    entry: Result<DirectoryEntry, String>,
)
    requires
        is_read_entry(entry),
        are_distinct(files_of(entry)),
        forall|name: Seq<u8>| #[trigger]
            is_name_among(files_of(entry), name) ==> is_plain_name(entry->Ok_0.name@)
                && is_plain_name(name),
    ensures
        ({
            let found = entry_findings(
                catalog_path,
                data_type,
                live_directory(catalog_path, instance_id, data_type),
                entry,
            );
            let directory = directory_of(catalog_path, instance_id, data_type);
            &&& found.no_duplicates()
            &&& forall|x: Result<ClosedFeatherFileView, ConversionErrorView>| #[trigger]
                found.contains(x) <==> exists|file: LiveFile| #[trigger]
                    is_found_in_entry(entry, directory, file) && x == finding_of(
                        catalog_path,
                        data_type,
                        file,
                    )
        }),
{
    let live = live_directory(catalog_path, instance_id, data_type);
    let directory = directory_of(catalog_path, instance_id, data_type);
    let found = entry_findings(catalog_path, data_type, live, entry);
    let files = files_of(entry);
    let identifier = entry->Ok_0.name@;
    if !entry->Ok_0.is_dir {
        assert(files =~= Seq::empty());
        assert(found =~= Seq::empty());
        assert forall|name: Seq<u8>| !is_name_among(files, name) by {}
    } else {
        lemma_closed_names(files);
        let closed = closed_names(files);
        assert forall|m: int| 0 <= m < closed.len() implies #[trigger] found[m] == finding_of(
            catalog_path,
            data_type,
            LiveFile { directory, identifier, name: closed[m] },
        ) && is_plain_file(LiveFile { directory, identifier, name: closed[m] }) by {
            assert(closed.contains(closed[m]));
            assert(is_name_among(files, closed[m]));
            lemma_path_is_joined(live, LiveFile { directory, identifier, name: closed[m] });
            assert(found[m] == file_finding(
                catalog_path,
                data_type,
                joined_path(live, identifier),
                closed[m],
            ));
        }
        assert forall|x: Result<ClosedFeatherFileView, ConversionErrorView>| #[trigger]
            found.contains(x) <==> exists|file: LiveFile| #[trigger]
            is_found_in_entry(entry, directory, file) && x == finding_of(
                catalog_path,
                data_type,
                file,
            ) by {
            if found.contains(x) {
                let m = choose|m: int| 0 <= m < found.len() && found[m] == x;
                let file = LiveFile { directory, identifier, name: closed[m] };
                assert(closed.contains(closed[m]));
                assert(is_found_in_entry(entry, directory, file));
            }
            if exists|file: LiveFile| #[trigger]
                is_found_in_entry(entry, directory, file) && x == finding_of(
                    catalog_path,
                    data_type,
                    file,
                ) {
                let file = choose|file: LiveFile| #[trigger]
                    is_found_in_entry(entry, directory, file) && x == finding_of(
                        catalog_path,
                        data_type,
                        file,
                    );
                assert(closed.contains(file.name));
                let m = choose|m: int| 0 <= m < closed.len() && closed[m] == file.name;
                assert(found[m] == x);
            }
        }
        assert forall|i: int, j: int|
            0 <= i < found.len() && 0 <= j < found.len() && i != j implies found[i] != found[j] by {
            let a = LiveFile { directory, identifier, name: closed[i] };
            let b = LiveFile { directory, identifier, name: closed[j] };
            assert(found[i] == finding_of(catalog_path, data_type, a));
            assert(found[j] == finding_of(catalog_path, data_type, b));
            if found[i] == found[j] {
                lemma_findings_tell_files_apart(catalog_path, data_type, a, data_type, b);
                assert(closed[i] == closed[j]);
            }
        }
    }
}

/// What is found of different files is different.
proof fn lemma_findings_tell_files_apart(
    catalog_path: Seq<u8>,
    data_type: Seq<char>,
    file: LiveFile,
    other_type: Seq<char>,
    other: LiveFile,
)
    requires
        is_plain_file(file),
        is_plain_file(other),
        finding_of(catalog_path, data_type, file) == finding_of(catalog_path, other_type, other),
    ensures
        file == other,
{
    law_paths_tell_files_apart(file, other);
}

/// Whether `file` is closed by what the listing of a data type lists.
spec fn is_closed_in_listing(
    catalog_path: Seq<u8>,
    instance_id: Seq<char>,
    listings: Seq<DataTypeListing>,
    data_type: Seq<char>,
    file: LiveFile,
) -> bool {
    exists|i: int|
        0 <= i < entries_of(listings, data_type).len() && is_found_in_entry(
            #[trigger] entries_of(listings, data_type)[i],
            directory_of(catalog_path, instance_id, data_type),
            file,
        )
}

/// Whether the names that are listed for a data type are plain.
spec fn lists_plain_names(listings: Seq<DataTypeListing>, data_type: Seq<char>) -> bool {
    forall|file: LiveFile, i: int| #[trigger]
        is_listed_in(listings, data_type, file, i) ==> is_plain_name(file.identifier)
            && is_plain_name(file.name)
}

/// What is found of a data type that could be read: its closed files, each once.
proof fn lemma_data_type_findings(
    catalog_path: Seq<u8>,
    instance_id: Seq<char>,
    listings: Seq<DataTypeListing>,
    data_type: Seq<char>,
)
    requires
        is_read(listings, data_type),
        has_distinct_names(listings, data_type),
        lists_plain_names(listings, data_type),
    ensures
        ({
            let found = data_type_findings(catalog_path, instance_id, listings, data_type);
            &&& found.no_duplicates()
            &&& forall|x: Result<ClosedFeatherFileView, ConversionErrorView>| #[trigger]
                found.contains(x) <==> exists|file: LiveFile| #[trigger]
                    is_closed_in_listing(catalog_path, instance_id, listings, data_type, file) && x
                        == finding_of(catalog_path, data_type, file)
        }),
{
    let entries = entries_of(listings, data_type);
    let live = live_directory(catalog_path, instance_id, data_type);
    let directory = directory_of(catalog_path, instance_id, data_type);
    let found = data_type_findings(catalog_path, instance_id, listings, data_type);
    let of_entry = |entry: Result<DirectoryEntry, String>|
        entry_findings(catalog_path, data_type, live, entry);
    let count = entries.len() as int;
    assert(entries.take(count) =~= entries);
    lemma_found_in_entries(catalog_path, instance_id, listings, data_type);
    assert forall|i: int| 0 <= i < count implies is_read_entry(#[trigger] entries[i])
        && are_distinct(files_of(entries[i])) && forall|name: Seq<u8>| #[trigger]
        is_name_among(files_of(entries[i]), name) ==> is_plain_name(entries[i]->Ok_0.name@)
            && is_plain_name(name) by {
        assert forall|name: Seq<u8>| #[trigger]
            is_name_among(files_of(entries[i]), name) implies is_plain_name(
            entries[i]->Ok_0.name@,
        ) && is_plain_name(name) by {
            let file = LiveFile { directory, identifier: entries[i]->Ok_0.name@, name };
            assert(is_listed_in(listings, data_type, file, i));
        }
    }
    assert forall|i: int| 0 <= i < count implies of_entry(#[trigger] entries[i]).no_duplicates() by {
        lemma_entry_findings(catalog_path, instance_id, data_type, entries[i]);
    }
    assert forall|i: int, j: int, x: Result<ClosedFeatherFileView, ConversionErrorView>|
        0 <= i < j < count && #[trigger] of_entry(entries[i]).contains(x) implies !#[trigger]
        of_entry(entries[j]).contains(x) by {
        lemma_entry_findings(catalog_path, instance_id, data_type, entries[i]);
        lemma_entry_findings(catalog_path, instance_id, data_type, entries[j]);
        if of_entry(entries[j]).contains(x) {
            let a = choose|file: LiveFile| #[trigger]
                is_found_in_entry(entries[i], directory, file) && x == finding_of(
                    catalog_path,
                    data_type,
                    file,
                );
            let b = choose|file: LiveFile| #[trigger]
                is_found_in_entry(entries[j], directory, file) && x == finding_of(
                    catalog_path,
                    data_type,
                    file,
                );
            assert(is_name_among(files_of(entries[i]), a.name));
            assert(is_name_among(files_of(entries[j]), b.name));
            lemma_path_is_joined(live, a);
            lemma_path_is_joined(live, b);
            lemma_findings_tell_files_apart(catalog_path, data_type, a, data_type, b);
            assert(entries[i]->Ok_0.name@ != entries[j]->Ok_0.name@);
        }
    }
    lemma_flat_map_no_duplicates(entries, of_entry, count);
    assert forall|x: Result<ClosedFeatherFileView, ConversionErrorView>| #[trigger]
        found.contains(x) <==> exists|file: LiveFile| #[trigger]
        is_closed_in_listing(catalog_path, instance_id, listings, data_type, file) && x
            == finding_of(catalog_path, data_type, file) by {
        lemma_flat_map_contains(entries, of_entry, count, x);
        if found.contains(x) {
            let i = choose|i: int| 0 <= i < count && of_entry(#[trigger] entries[i]).contains(x);
            lemma_entry_findings(catalog_path, instance_id, data_type, entries[i]);
            let file = choose|file: LiveFile| #[trigger]
                is_found_in_entry(entries[i], directory, file) && x == finding_of(
                    catalog_path,
                    data_type,
                    file,
                );
            assert(is_found_in_entry(entries_of(listings, data_type)[i], directory, file));
            assert(is_closed_in_listing(catalog_path, instance_id, listings, data_type, file));
        }
        if exists|file: LiveFile| #[trigger]
            is_closed_in_listing(catalog_path, instance_id, listings, data_type, file) && x
                == finding_of(catalog_path, data_type, file) {
            let file = choose|file: LiveFile| #[trigger]
                is_closed_in_listing(catalog_path, instance_id, listings, data_type, file) && x
                    == finding_of(catalog_path, data_type, file);
            let i = choose|i: int|
                0 <= i < entries_of(listings, data_type).len() && is_found_in_entry(
                    #[trigger] entries_of(listings, data_type)[i],
                    directory,
                    file,
                );
            lemma_entry_findings(catalog_path, instance_id, data_type, entries[i]);
            assert(of_entry(entries[i]).contains(x));
        }
    }
}

/// The listing of a data type is for that data type.
proof fn lemma_listing_is_for(listings: Seq<DataTypeListing>, data_type: Seq<char>)
    ensures
        listing_of(listings, data_type) matches Some(listing) ==> listing.data_type@ == data_type,
    decreases listings.len(),
{
    if listings.len() > 0 && listings[0].data_type@ != data_type {
        lemma_listing_is_for(listings.skip(1), data_type);
    }
}

/// What is found of a data type whose directory could be read is what is found
/// in its entries.
proof fn lemma_found_in_entries(
    catalog_path: Seq<u8>,
    instance_id: Seq<char>,
    listings: Seq<DataTypeListing>,
    data_type: Seq<char>,
)
    requires
        listing_of(listings, data_type) matches Some(listing) ==> match listing.directory {
            Some(directory) => directory is Ok,
            None => true,
        },
    ensures
        data_type_findings(catalog_path, instance_id, listings, data_type) == entries_of(
            listings,
            data_type,
        ).flat_map(
            |entry: Result<DirectoryEntry, String>|
                entry_findings(
                    catalog_path,
                    data_type,
                    live_directory(catalog_path, instance_id, data_type),
                    entry,
                ),
        ),
{
    let entries = entries_of(listings, data_type);
    let live = live_directory(catalog_path, instance_id, data_type);
    let of_entry = |entry: Result<DirectoryEntry, String>|
        entry_findings(catalog_path, data_type, live, entry);
    lemma_listing_is_for(listings, data_type);
    if entries.len() == 0 {
        assert(entries =~= entries.take(0));
        assert(entries.take(0).flat_map(of_entry) =~= Seq::empty());
    }
    assert(data_type_findings(catalog_path, instance_id, listings, data_type) =~= entries.flat_map(
        of_entry,
    ));
}

/// Where files were collected, the directories of the data types could be read.
proof fn lemma_collected_is_read(
    catalog_path: Seq<u8>,
    instance_id: Seq<char>,
    data_types: Set<Seq<char>>,
    listings: Seq<DataTypeListing>,
    data_type: Seq<char>,
)
    requires
        data_types.finite(),
        data_types.contains(data_type),
        all_or_first_error(findings(catalog_path, instance_id, data_types, listings)) is Ok,
    ensures
        is_read(listings, data_type),
{
    let found = findings(catalog_path, instance_id, data_types, listings);
    let types = in_order(data_types);
    let of_type = |data_type: Seq<char>|
        data_type_findings(catalog_path, instance_id, listings, data_type);
    lemma_no_error(found);
    law_finite_sets_have_an_order(data_types);
    assert(types.to_set().contains(data_type));
    let at = choose|at: int| 0 <= at < types.len() && types[at] == data_type;
    let of_this = data_type_findings(catalog_path, instance_id, listings, data_type);
    assert(types.take(types.len() as int) =~= types);
    assert forall|x: Result<ClosedFeatherFileView, ConversionErrorView>| #[trigger]
        of_this.contains(x) implies x is Ok by {
        assert(of_type(types[at]).contains(x));
        lemma_flat_map_contains(types, of_type, types.len() as int, x);
        let m = choose|m: int| 0 <= m < found.len() && found[m] == x;
        assert(found[m] is Ok);
    }
    if let Some(listing) = listing_of(listings, data_type) {
        if let Some(Err(_)) = listing.directory {
            assert(of_this.contains(of_this[0]));
        }
    }
    lemma_found_in_entries(catalog_path, instance_id, listings, data_type);
    let entries = entries_of(listings, data_type);
    let of_entry = |entry: Result<DirectoryEntry, String>|
        entry_findings(
            catalog_path,
            data_type,
            live_directory(catalog_path, instance_id, data_type),
            entry,
        );
    assert(entries.take(entries.len() as int) =~= entries);
    assert forall|i: int| 0 <= i < entries.len() implies is_read_entry(#[trigger] entries[i]) by {
        if !is_read_entry(entries[i]) {
            let x = of_entry(entries[i])[0];
            assert(of_entry(entries[i]).contains(x));
            lemma_flat_map_contains(entries, of_entry, entries.len() as int, x);
            assert(of_this.contains(x));
        }
    }
}

/// What the listings close is closed, where they list only what is there, and
/// the other way round where they list all.
proof fn lemma_closed_in_listing(
    catalog_path: Seq<u8>,
    instance_id: Seq<char>,
    data_types: Set<Seq<char>>,
    listings: Seq<DataTypeListing>,
    tree: Set<LiveFile>,
    data_type: Seq<char>,
    file: LiveFile,
)
    requires
        lists_only(catalog_path, instance_id, data_types, listings, tree),
        data_types.contains(data_type),
        file.directory == directory_of(catalog_path, instance_id, data_type),
    ensures
        is_closed_in_listing(catalog_path, instance_id, listings, data_type, file) ==> is_closed(
            tree,
            file,
        ),
        lists_all(catalog_path, instance_id, data_types, listings, tree) && is_closed(tree, file)
            ==> is_closed_in_listing(catalog_path, instance_id, listings, data_type, file),
{
    let entries = entries_of(listings, data_type);
    if is_closed_in_listing(catalog_path, instance_id, listings, data_type, file) {
        let i = choose|i: int|
            0 <= i < entries_of(listings, data_type).len() && is_found_in_entry(
                #[trigger] entries_of(listings, data_type)[i],
                directory_of(catalog_path, instance_id, data_type),
                file,
            );
        assert(is_listed_in(listings, data_type, file, i));
        let files = files_of(entries[i]);
        let name = choose|later: Seq<u8>| #[trigger]
            is_name_among(files, later) && has_feather_extension(later) && bytes_less(
                file.name,
                later,
            );
        let later = LiveFile { directory: file.directory, identifier: file.identifier, name };
        assert(is_listed_in(listings, data_type, later, i));
        assert(is_feather_file(tree, later));
    }
    if lists_all(catalog_path, instance_id, data_types, listings, tree) && is_closed(tree, file) {
        let later = choose|later: LiveFile|
            {
                &&& #[trigger] is_feather_file(tree, later)
                &&& same_directory(file, later)
                &&& bytes_less(file.name, later.name)
            };
        assert(tree.contains(file) && tree.contains(later));
        let i = choose|i: int| is_listed_in(listings, data_type, file, i);
        let j = choose|j: int| is_listed_in(listings, data_type, later, j);
        assert(has_distinct_names(listings, data_type));
        assert(i == j) by {
            if i < j {
                assert(entries[i]->Ok_0.name@ != entries[j]->Ok_0.name@);
            } else if j < i {
                assert(entries[j]->Ok_0.name@ != entries[i]->Ok_0.name@);
            }
        }
        assert(is_name_among(files_of(entries[i]), later.name));
        assert(is_found_in_entry(entries[i], file.directory, file));
    }
}

/// Whether each of `files` is the entry for a closed file of one of the data
/// types, and none has the data type and the path of another.
pub open spec fn are_closed_files(
    catalog_path: Seq<u8>,
    instance_id: Seq<char>,
    data_types: Set<Seq<char>>,
    tree: Set<LiveFile>,
    files: Seq<ClosedFeatherFileView>,
) -> bool {
    &&& forall|i: int|
        0 <= i < files.len() ==> {
            &&& data_types.contains((#[trigger] files[i]).data_type)
            &&& object_path(catalog_path, files[i].file_path) == Some(files[i].object_path)
            &&& exists|file: LiveFile|
                {
                    &&& #[trigger] is_closed(tree, file)
                    &&& file.directory == directory_of(
                        catalog_path,
                        instance_id,
                        files[i].data_type,
                    )
                    &&& files[i] == closed_file(catalog_path, files[i].data_type, file)
                }
        }
    &&& forall|i: int, j: int|
        0 <= i < j < files.len() && (#[trigger] files[i]).data_type == (
        #[trigger] files[j]).data_type ==> files[i].file_path != files[j].file_path
}

/// Whether every closed file of each of the data types is among `files`.
pub open spec fn has_all_closed_files(
    catalog_path: Seq<u8>,
    instance_id: Seq<char>,
    data_types: Set<Seq<char>>,
    tree: Set<LiveFile>,
    files: Seq<ClosedFeatherFileView>,
) -> bool {
    forall|data_type: Seq<char>, file: LiveFile|
        {
            &&& #[trigger] data_types.contains(data_type)
            &&& file.directory == directory_of(catalog_path, instance_id, data_type)
            &&& #[trigger] is_closed(tree, file)
        } ==> files.contains(closed_file(catalog_path, data_type, file))
}

/// What is found, over all data types.
proof fn lemma_findings(
    catalog_path: Seq<u8>,
    instance_id: Seq<char>,
    data_types: Set<Seq<char>>,
    listings: Seq<DataTypeListing>,
    tree: Set<LiveFile>,
    x: Result<ClosedFeatherFileView, ConversionErrorView>,
)
    requires
        data_types.finite(),
        is_plain_tree(tree),
        lists_only(catalog_path, instance_id, data_types, listings, tree),
        forall|data_type: Seq<char>| #[trigger]
            data_types.contains(data_type) ==> is_read(listings, data_type),
    ensures
        findings(catalog_path, instance_id, data_types, listings).contains(x) <==> exists|
            data_type: Seq<char>,
            file: LiveFile,
        |
            {
                &&& data_types.contains(data_type)
                &&& #[trigger] is_closed_in_listing(
                    catalog_path,
                    instance_id,
                    listings,
                    data_type,
                    file,
                )
                &&& x == finding_of(catalog_path, data_type, file)
            },
{
    let types = in_order(data_types);
    let count = types.len() as int;
    let of_type = |data_type: Seq<char>|
        data_type_findings(catalog_path, instance_id, listings, data_type);
    let found = findings(catalog_path, instance_id, data_types, listings);
    law_finite_sets_have_an_order(data_types);
    assert(types.take(count) =~= types);
    lemma_flat_map_contains(types, of_type, count, x);
    if found.contains(x) {
        let i = choose|i: int| 0 <= i < count && of_type(#[trigger] types[i]).contains(x);
        assert(types.to_set().contains(types[i]));
        lemma_lists_plain_names(catalog_path, instance_id, data_types, listings, tree, types[i]);
        lemma_data_type_findings(catalog_path, instance_id, listings, types[i]);
        let file = choose|file: LiveFile| #[trigger]
            is_closed_in_listing(catalog_path, instance_id, listings, types[i], file) && x
                == finding_of(catalog_path, types[i], file);
        assert(is_closed_in_listing(catalog_path, instance_id, listings, types[i], file));
    }
    if exists|data_type: Seq<char>, file: LiveFile|
        {
            &&& data_types.contains(data_type)
            &&& #[trigger] is_closed_in_listing(
                catalog_path,
                instance_id,
                listings,
                data_type,
                file,
            )
            &&& x == finding_of(catalog_path, data_type, file)
        } {
        let (data_type, file) = choose|data_type: Seq<char>, file: LiveFile|
            {
                &&& data_types.contains(data_type)
                &&& #[trigger] is_closed_in_listing(
                    catalog_path,
                    instance_id,
                    listings,
                    data_type,
                    file,
                )
                &&& x == finding_of(catalog_path, data_type, file)
            };
        assert(types.to_set().contains(data_type));
        let i = choose|i: int| 0 <= i < count && types[i] == data_type;
        lemma_lists_plain_names(catalog_path, instance_id, data_types, listings, tree, data_type);
        lemma_data_type_findings(catalog_path, instance_id, listings, data_type);
        assert(of_type(types[i]).contains(x));
    }
}

proof fn lemma_lists_plain_names(
    catalog_path: Seq<u8>,
    instance_id: Seq<char>,
    data_types: Set<Seq<char>>,
    listings: Seq<DataTypeListing>,
    tree: Set<LiveFile>,
    data_type: Seq<char>,
)
    requires
        is_plain_tree(tree),
        lists_only(catalog_path, instance_id, data_types, listings, tree),
        data_types.contains(data_type),
    ensures
        lists_plain_names(listings, data_type),
{
    assert forall|file: LiveFile, i: int| #[trigger]
        is_listed_in(listings, data_type, file, i) implies is_plain_name(file.identifier)
        && is_plain_name(file.name) by {
        let there = LiveFile {
            directory: directory_of(catalog_path, instance_id, data_type),
            identifier: file.identifier,
            name: file.name,
        };
        assert(is_listed_in(listings, data_type, there, i));
        assert(tree.contains(there));
    }
}

/// Where the listings list only what is there, only closed files are collected,
/// each once for each of the data types. Where they list all, all are.
pub proof fn law_the_closed_files_are_collected(
    catalog_path: Seq<u8>,
    instance_id: Seq<char>,
    data_types: Set<Seq<char>>,
    listings: Seq<DataTypeListing>,
    tree: Set<LiveFile>,
    files: Seq<ClosedFeatherFileView>,
)
    requires
        data_types.finite(),
        is_plain_tree(tree),
        lists_only(catalog_path, instance_id, data_types, listings, tree),
        all_or_first_error(findings(catalog_path, instance_id, data_types, listings)) == Ok::<
            _,
            ConversionErrorView,
        >(files),
    ensures
        are_closed_files(catalog_path, instance_id, data_types, tree, files),
        lists_all(catalog_path, instance_id, data_types, listings, tree) ==> has_all_closed_files(
            catalog_path,
            instance_id,
            data_types,
            tree,
            files,
        ),
{
    let found = findings(catalog_path, instance_id, data_types, listings);
    assert forall|data_type: Seq<char>| #[trigger] data_types.contains(data_type) implies is_read(
        listings,
        data_type,
    ) by {
        lemma_collected_is_read(catalog_path, instance_id, data_types, listings, data_type);
    }
    lemma_values_are_results(found);
    lemma_no_error(found);
    assert forall|i: int| 0 <= i < files.len() implies {
        &&& data_types.contains((#[trigger] files[i]).data_type)
        &&& object_path(catalog_path, files[i].file_path) == Some(files[i].object_path)
        &&& exists|file: LiveFile|
            {
                &&& #[trigger] is_closed(tree, file)
                &&& file.directory == directory_of(catalog_path, instance_id, files[i].data_type)
                &&& files[i] == closed_file(catalog_path, files[i].data_type, file)
            }
    } by {
        assert(found[i] == Ok::<_, ConversionErrorView>(files[i]));
        assert(found.contains(found[i]));
        lemma_findings(catalog_path, instance_id, data_types, listings, tree, found[i]);
        let (data_type, file) = choose|data_type: Seq<char>, file: LiveFile|
            {
                &&& data_types.contains(data_type)
                &&& #[trigger] is_closed_in_listing(
                    catalog_path,
                    instance_id,
                    listings,
                    data_type,
                    file,
                )
                &&& found[i] == finding_of(catalog_path, data_type, file)
            };
        lemma_closed_in_listing(
            catalog_path,
            instance_id,
            data_types,
            listings,
            tree,
            data_type,
            file,
        );
        assert(is_closed(tree, file));
        assert(files[i] == closed_file(catalog_path, data_type, file));
    }
    lemma_findings_are_distinct(catalog_path, instance_id, data_types, listings, tree);
    assert forall|i: int, j: int|
        0 <= i < j < files.len() && (#[trigger] files[i]).data_type == (
        #[trigger] files[j]).data_type implies files[i].file_path != files[j].file_path by {
        if files[i].file_path == files[j].file_path {
            assert(found[i] == Ok::<_, ConversionErrorView>(files[i]));
            assert(found[j] == Ok::<_, ConversionErrorView>(files[j]));
            assert(files[i] == files[j]);
        }
    }
    if lists_all(catalog_path, instance_id, data_types, listings, tree) {
        assert forall|data_type: Seq<char>, file: LiveFile|
            {
                &&& #[trigger] data_types.contains(data_type)
                &&& file.directory == directory_of(catalog_path, instance_id, data_type)
                &&& #[trigger] is_closed(tree, file)
            } implies files.contains(closed_file(catalog_path, data_type, file)) by {
            let x = finding_of(catalog_path, data_type, file);
            lemma_closed_in_listing(
                catalog_path,
                instance_id,
                data_types,
                listings,
                tree,
                data_type,
                file,
            );
            lemma_findings(catalog_path, instance_id, data_types, listings, tree, x);
            assert(is_closed_in_listing(catalog_path, instance_id, listings, data_type, file));
            assert(found.contains(x));
            let i = choose|i: int| 0 <= i < found.len() && found[i] == x;
            assert(found[i] is Ok);
            assert(files[i] == closed_file(catalog_path, data_type, file));
        }
    }
}

/// Without an error, nothing is found twice.
proof fn lemma_findings_are_distinct(
    catalog_path: Seq<u8>,
    instance_id: Seq<char>,
    data_types: Set<Seq<char>>,
    listings: Seq<DataTypeListing>,
    tree: Set<LiveFile>,
)
    requires
        data_types.finite(),
        is_plain_tree(tree),
        lists_only(catalog_path, instance_id, data_types, listings, tree),
        all_or_first_error(findings(catalog_path, instance_id, data_types, listings)) is Ok,
    ensures
        findings(catalog_path, instance_id, data_types, listings).no_duplicates(),
{
    let types = in_order(data_types);
    let count = types.len() as int;
    let of_type = |data_type: Seq<char>|
        data_type_findings(catalog_path, instance_id, listings, data_type);
    let found = findings(catalog_path, instance_id, data_types, listings);
    law_finite_sets_have_an_order(data_types);
    lemma_no_error(found);
    assert(types.take(count) =~= types);
    assert forall|i: int| 0 <= i < count implies data_types.contains(#[trigger] types[i])
        && is_read(listings, types[i]) && has_distinct_names(listings, types[i])
        && lists_plain_names(listings, types[i]) by {
        assert(types.to_set().contains(types[i]));
        lemma_collected_is_read(catalog_path, instance_id, data_types, listings, types[i]);
        lemma_lists_plain_names(catalog_path, instance_id, data_types, listings, tree, types[i]);
    }
    assert forall|i: int| 0 <= i < count implies of_type(#[trigger] types[i]).no_duplicates() by {
        lemma_data_type_findings(catalog_path, instance_id, listings, types[i]);
    }
    assert forall|i: int, j: int, x: Result<ClosedFeatherFileView, ConversionErrorView>|
        0 <= i < j < count && #[trigger] of_type(types[i]).contains(x) implies !#[trigger] of_type(
        types[j],
    ).contains(x) by {
        lemma_data_type_findings(catalog_path, instance_id, listings, types[i]);
        lemma_data_type_findings(catalog_path, instance_id, listings, types[j]);
        lemma_flat_map_contains(types, of_type, count, x);
        assert(found.contains(x));
        let m = choose|m: int| 0 <= m < found.len() && found[m] == x;
        assert(found[m] is Ok);
        law_bytes_less_is_irreflexive(encode_utf8(types[i]));
        assert(types[i] != types[j]);
    }
    lemma_flat_map_no_duplicates(types, of_type, count);
}

/// Where the directories could be read and lie below the catalog, files are
/// collected.
pub proof fn law_what_is_read_below_the_catalog_is_collected(
    catalog_path: Seq<u8>,
    instance_id: Seq<char>,
    data_types: Set<Seq<char>>,
    listings: Seq<DataTypeListing>,
    tree: Set<LiveFile>,
)
    requires
        data_types.finite(),
        is_plain_tree(tree),
        lists_only(catalog_path, instance_id, data_types, listings, tree),
        forall|data_type: Seq<char>| #[trigger]
            data_types.contains(data_type) ==> is_read(listings, data_type),
        are_below(catalog_path, instance_id, data_types),
    ensures
        all_or_first_error(findings(catalog_path, instance_id, data_types, listings)) is Ok,
{
    let found = findings(catalog_path, instance_id, data_types, listings);
    assert forall|i: int| 0 <= i < found.len() implies (#[trigger] found[i]) is Ok by {
        assert(found.contains(found[i]));
        lemma_findings(catalog_path, instance_id, data_types, listings, tree, found[i]);
        let (data_type, file) = choose|data_type: Seq<char>, file: LiveFile|
            {
                &&& data_types.contains(data_type)
                &&& #[trigger] is_closed_in_listing(
                    catalog_path,
                    instance_id,
                    listings,
                    data_type,
                    file,
                )
                &&& found[i] == finding_of(catalog_path, data_type, file)
            };
        lemma_closed_in_listing(
            catalog_path,
            instance_id,
            data_types,
            listings,
            tree,
            data_type,
            file,
        );
        assert(tree.contains(file));
        let live = live_directory(catalog_path, instance_id, data_type);
        let parent = joined_path(live, file.identifier);
        lemma_path_is_joined(live, file);
        law_joined_path_lies_below_its_base(live, file.identifier);
        law_joined_path_lies_below_its_base(parent, file.name);
        lemma_prefix_of_prefix(components(catalog_path), components(live), components(parent));
        lemma_prefix_of_prefix(
            components(catalog_path),
            components(parent),
            components(path_of(file)),
        );
    }
    lemma_no_error(found);
}

/// Where no file of the data types is closed, nothing is found.
pub proof fn lemma_nothing_is_found(
    catalog_path: Seq<u8>,
    instance_id: Seq<char>,
    data_types: Set<Seq<char>>,
    listings: Seq<DataTypeListing>,
    tree: Set<LiveFile>,
)
    requires
        data_types.finite(),
        is_plain_tree(tree),
        lists_only(catalog_path, instance_id, data_types, listings, tree),
        forall|data_type: Seq<char>| #[trigger]
            data_types.contains(data_type) ==> is_read(listings, data_type),
        forall|file: LiveFile| #[trigger]
            is_closed(tree, file) ==> !is_live(catalog_path, instance_id, data_types, file),
    ensures
        all_or_first_error(findings(catalog_path, instance_id, data_types, listings)) == Ok::<
            _,
            ConversionErrorView,
        >(Seq::<ClosedFeatherFileView>::empty()),
{
    let found = findings(catalog_path, instance_id, data_types, listings);
    if found.len() > 0 {
        assert(found.contains(found[0]));
        lemma_findings(catalog_path, instance_id, data_types, listings, tree, found[0]);
        let (data_type, file) = choose|data_type: Seq<char>, file: LiveFile|
            {
                &&& data_types.contains(data_type)
                &&& #[trigger] is_closed_in_listing(
                    catalog_path,
                    instance_id,
                    listings,
                    data_type,
                    file,
                )
                &&& found[0] == finding_of(catalog_path, data_type, file)
            };
        lemma_closed_in_listing(
            catalog_path,
            instance_id,
            data_types,
            listings,
            tree,
            data_type,
            file,
        );
        assert(is_live(catalog_path, instance_id, data_types, file));
    }
}

/// The paths of the files that are collected, none where something could not
/// be read.
pub open spec fn collected_paths(
    catalog_path: Seq<u8>,
    instance_id: Seq<char>,
    data_types: Set<Seq<char>>,
    listings: Seq<DataTypeListing>,
) -> Set<Seq<u8>> {
    match all_or_first_error(findings(catalog_path, instance_id, data_types, listings)) {
        Ok(files) => files.map_values(|file: ClosedFeatherFileView| file.file_path).to_set(),
        Err(_) => Set::empty(),
    }
}

/// Where the listings show what is there, the paths that are collected are
/// those of the closed files in the live directories.
pub proof fn law_the_paths_of_the_closed_files_are_collected(
    catalog_path: Seq<u8>,
    instance_id: Seq<char>,
    data_types: Set<Seq<char>>,
    listings: Seq<DataTypeListing>,
    tree: Set<LiveFile>,
    path: Seq<u8>,
)
    requires
        data_types.finite(),
        is_plain_tree(tree),
        are_below(catalog_path, instance_id, data_types),
        lists_only(catalog_path, instance_id, data_types, listings, tree),
        lists_all(catalog_path, instance_id, data_types, listings, tree),
    ensures
        collected_paths(catalog_path, instance_id, data_types, listings).contains(path)
            <==> exists|file: LiveFile| #[trigger]
            is_closed(tree, file) && is_live(catalog_path, instance_id, data_types, file) && path
                == path_of(file),
{
    law_what_is_read_below_the_catalog_is_collected(
        catalog_path,
        instance_id,
        data_types,
        listings,
        tree,
    );
    let files = all_or_first_error(
        findings(catalog_path, instance_id, data_types, listings),
    )->Ok_0;
    law_the_closed_files_are_collected(
        catalog_path,
        instance_id,
        data_types,
        listings,
        tree,
        files,
    );
    let paths = files.map_values(|file: ClosedFeatherFileView| file.file_path);
    if paths.to_set().contains(path) {
        let i = choose|i: int| 0 <= i < paths.len() && paths[i] == path;
        assert(data_types.contains(files[i].data_type));
        let file = choose|file: LiveFile|
            {
                &&& #[trigger] is_closed(tree, file)
                &&& file.directory == directory_of(catalog_path, instance_id, files[i].data_type)
                &&& files[i] == closed_file(catalog_path, files[i].data_type, file)
            };
        assert(is_closed(tree, file));
        assert(is_live(catalog_path, instance_id, data_types, file));
    }
    if exists|file: LiveFile| #[trigger]
        is_closed(tree, file) && is_live(catalog_path, instance_id, data_types, file) && path
            == path_of(file) {
        let file = choose|file: LiveFile| #[trigger]
            is_closed(tree, file) && is_live(catalog_path, instance_id, data_types, file) && path
                == path_of(file);
        let data_type = choose|data_type: Seq<char>| #[trigger]
            data_types.contains(data_type) && file.directory == directory_of(
                catalog_path,
                instance_id,
                data_type,
            );
        let found = closed_file(catalog_path, data_type, file);
        assert(files.contains(found));
        let i = choose|i: int| 0 <= i < files.len() && files[i] == found;
        assert(paths[i] == path);
    }
}

/// A new file that comes after all feather files of its directory closes the
/// one that was the latest before, and nothing else. In a directory without a
/// feather file it closes nothing. It is not closed itself.
pub proof fn law_a_new_file_closes_the_former_latest(
    catalog_path: Seq<u8>,
    instance_id: Seq<char>,
    data_types: Set<Seq<char>>,
    tree: Set<LiveFile>,
    new: LiveFile,
    listings: Seq<DataTypeListing>,
    later_listings: Seq<DataTypeListing>,
)
    requires
        data_types.finite(),
        is_plain_tree(tree.insert(new)),
        are_below(catalog_path, instance_id, data_types),
        lists_only(catalog_path, instance_id, data_types, listings, tree),
        lists_all(catalog_path, instance_id, data_types, listings, tree),
        lists_only(catalog_path, instance_id, data_types, later_listings, tree.insert(new)),
        lists_all(catalog_path, instance_id, data_types, later_listings, tree.insert(new)),
        is_live(catalog_path, instance_id, data_types, new),
        has_feather_extension(new.name),
        forall|file: LiveFile| #[trigger]
            is_feather_file(tree, file) && same_directory(file, new) ==> bytes_less(
                file.name,
                new.name,
            ),
    ensures
        ({
            let before = collected_paths(catalog_path, instance_id, data_types, listings);
            let after = collected_paths(catalog_path, instance_id, data_types, later_listings);
            &&& forall|former: LiveFile| #[trigger]
                is_latest(tree, former) && same_directory(former, new) ==> after == before.insert(
                    path_of(former),
                )
            &&& (forall|file: LiveFile| #[trigger]
                is_feather_file(tree, file) ==> !same_directory(file, new)) ==> after == before
            &&& !after.contains(path_of(new))
        }),
{
    let grown = tree.insert(new);
    let before = collected_paths(catalog_path, instance_id, data_types, listings);
    let after = collected_paths(catalog_path, instance_id, data_types, later_listings);
    assert(is_plain_tree(tree)) by {
        assert forall|file: LiveFile| #[trigger] tree.contains(file) implies is_plain_file(
            file,
        ) by {
            assert(grown.contains(file));
        }
    }
    assert forall|file: LiveFile| #[trigger] is_closed(grown, file) <==> is_closed(tree, file) || (
    is_latest(tree, file) && same_directory(file, new)) by {
        lemma_closed_in_grown(tree, new, file);
    }
    assert(!is_feather_file(tree, new)) by {
        law_bytes_less_is_irreflexive(new.name);
        assert(same_directory(new, new));
    }
    assert forall|path: Seq<u8>| after.contains(path) <==> before.contains(path) || exists|
        former: LiveFile,
    | #[trigger]
        is_latest(tree, former) && same_directory(former, new) && path == path_of(former) by {
        law_the_paths_of_the_closed_files_are_collected(
            catalog_path,
            instance_id,
            data_types,
            listings,
            tree,
            path,
        );
        law_the_paths_of_the_closed_files_are_collected(
            catalog_path,
            instance_id,
            data_types,
            later_listings,
            grown,
            path,
        );
        if after.contains(path) {
            let file = choose|file: LiveFile| #[trigger]
                is_closed(grown, file) && is_live(catalog_path, instance_id, data_types, file)
                    && path == path_of(file);
            assert(is_closed(tree, file) || is_latest(tree, file));
        }
        if before.contains(path) {
            let file = choose|file: LiveFile| #[trigger]
                is_closed(tree, file) && is_live(catalog_path, instance_id, data_types, file)
                    && path == path_of(file);
            assert(is_closed(grown, file));
        }
        if exists|former: LiveFile| #[trigger]
            is_latest(tree, former) && same_directory(former, new) && path == path_of(former) {
            let former = choose|former: LiveFile| #[trigger]
                is_latest(tree, former) && same_directory(former, new) && path == path_of(former);
            assert(is_closed(grown, former));
            assert(is_live(catalog_path, instance_id, data_types, former));
        }
    }
    assert forall|former: LiveFile| #[trigger]
        is_latest(tree, former) && same_directory(former, new) implies after == before.insert(
        path_of(former),
    ) by {
        assert forall|other: LiveFile| #[trigger]
            is_latest(tree, other) && same_directory(other, new) implies other == former by {
            lemma_only_latest(tree, other, former);
        }
        assert(after =~= before.insert(path_of(former)));
    }
    if forall|file: LiveFile| #[trigger]
        is_feather_file(tree, file) ==> !same_directory(file, new) {
        assert forall|former: LiveFile| #[trigger] is_latest(tree, former) implies !same_directory(
            former,
            new,
        ) by {
            assert(is_feather_file(tree, former));
        }
        assert(after =~= before);
    }
    let path = path_of(new);
    if after.contains(path) {
        law_the_paths_of_the_closed_files_are_collected(
            catalog_path,
            instance_id,
            data_types,
            later_listings,
            grown,
            path,
        );
        let file = choose|file: LiveFile| #[trigger]
            is_closed(grown, file) && is_live(catalog_path, instance_id, data_types, file) && path
                == path_of(file);
        assert(grown.contains(file) && grown.contains(new));
        law_paths_tell_files_apart(file, new);
    }
}

/// With a new latest file in its directory, a file is closed exactly if it was
/// before or was the latest.
proof fn lemma_closed_in_grown(tree: Set<LiveFile>, new: LiveFile, file: LiveFile)
    requires
        has_feather_extension(new.name),
        forall|file: LiveFile| #[trigger]
            is_feather_file(tree, file) && same_directory(file, new) ==> bytes_less(
                file.name,
                new.name,
            ),
    ensures
        is_closed(tree.insert(new), file) <==> is_closed(tree, file) || (is_latest(tree, file)
            && same_directory(file, new)),
{
    let grown = tree.insert(new);
    assert forall|other: LiveFile| #[trigger] is_feather_file(grown, other) <==> is_feather_file(
        tree,
        other,
    ) || other == new by {}
    law_bytes_less_is_irreflexive(new.name);
    if is_closed(tree, file) {
        let later = choose|later: LiveFile|
            {
                &&& #[trigger] is_feather_file(tree, later)
                &&& same_directory(file, later)
                &&& bytes_less(file.name, later.name)
            };
        assert(is_feather_file(grown, later));
    }
    if is_latest(tree, file) && same_directory(file, new) {
        assert(is_feather_file(grown, new));
    }
    if is_closed(grown, file) {
        let later = choose|later: LiveFile|
            {
                &&& #[trigger] is_feather_file(grown, later)
                &&& same_directory(file, later)
                &&& bytes_less(file.name, later.name)
            };
        if file == new {
            assert(is_feather_file(tree, later));
            law_bytes_less_is_transitive(new.name, later.name, new.name);
        }
        if later != new {
            assert(is_feather_file(tree, later));
        }
    }
}

} // verus!
