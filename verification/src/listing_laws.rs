//! What is found in the live directories, told from the listings alone.
use vstd::prelude::*;
use vstd::utf8::encode_utf8;

use crate::collection_laws::closed_file;
use crate::collection_laws::law_the_closed_files_are_collected;
use crate::collection_laws::lists_only;
use crate::conversion::ClosedFeatherFile;
use crate::conversion::ClosedFeatherFileView;
use crate::conversion::ConversionErrorView;
use crate::conversion::DataTypeListing;
use crate::conversion::DirectoryEntry;
use crate::conversion::closed_names;
use crate::conversion::data_type_findings;
use crate::conversion::entry_findings;
use crate::conversion::error_message;
use crate::conversion::error_reason;
use crate::conversion::feather_name;
use crate::conversion::feather_names;
use crate::conversion::feather_suffix;
use crate::conversion::file_finding;
use crate::conversion::file_views;
use crate::conversion::findings;
use crate::conversion::has_feather_extension;
use crate::conversion::is_plain_name;
use crate::conversion::listing_findings;
use crate::conversion::listing_of;
use crate::conversion::live_directory;
use crate::conversion::name_order;
use crate::conversion::object_path;
use crate::conversion::with_forward_slashes;
use crate::live_tree::LiveFile;
use crate::live_tree::directory_of;
use crate::live_tree::is_closed;
use crate::live_tree::is_feather_file;
use crate::live_tree::is_plain_tree;
use crate::live_tree::same_directory;
use crate::names::in_order;
use crate::names::is_ascending;
use crate::names::law_finite_sets_have_an_order;
use crate::names::law_names_are_in_byte_order;
use crate::names::law_order_of_names_is_unique;
use crate::ordering::bytes_less;
use crate::ordering::law_bytes_less_is_irreflexive;
use crate::ordering::law_bytes_less_is_transitive;
use crate::ordering::lemma_bytes_at_most_is_total_ordering;
use crate::ordering::text_less;
use crate::paths::components;
use crate::paths::joined_path;
use crate::paths::path_text;
use crate::paths::relative_path;
use crate::results::all_or_first_error;
use crate::results::lemma_values_are_results;
use crate::sequences::lemma_flat_map_concat;
use crate::sequences::lemma_flat_map_holds;
use crate::sequences::lemma_flat_map_one;

verus! {

proof fn lemma_feather_suffix()
    ensures
        feather_suffix() == encode_utf8(".feather"@),
        feather_suffix().len() == 8,
{
    reveal_strlit(".feather");
    let suffix = encode_utf8(".feather"@);
    vstd::utf8::is_ascii_chars_encode_utf8(".feather"@);
    assert(".feather"@.len() == 8);
    assert(suffix[0] == '.' as u8 && suffix[1] == 'f' as u8 && suffix[2] == 'e' as u8 && suffix[3]
        == 'a' as u8 && suffix[4] == 't' as u8 && suffix[5] == 'h' as u8 && suffix[6] == 'e' as u8
        && suffix[7] == 'r' as u8);
    assert(feather_suffix() =~= suffix);
}

/// A feather name is anything, of whatever length, with `.feather` behind it,
/// but not `.feather` alone.
pub proof fn law_feather_names_end_with_the_extension(stem: Seq<u8>, name: Seq<u8>)
    ensures
        has_feather_extension(stem + encode_utf8(".feather"@)) <==> stem.len() > 0,
        has_feather_extension(name) <==> exists|s: Seq<u8>|
            s.len() > 0 && name == #[trigger] (s + encode_utf8(".feather"@)),
{
    lemma_feather_suffix();
    let suffix = encode_utf8(".feather"@);
    let whole = stem + suffix;
    assert(whole.skip(stem.len() as int) =~= suffix);
    if has_feather_extension(name) {
        let s = name.take(name.len() - 8);
        assert(name =~= s + suffix);
    }
    if exists|s: Seq<u8>| s.len() > 0 && name == #[trigger] (s + suffix) {
        let s = choose|s: Seq<u8>| s.len() > 0 && name == #[trigger] (s + suffix);
        assert(name.skip(s.len() as int) =~= suffix);
    }
}

/// An object path is the text of what is left of the file's path below the
/// catalog, character for character, with `/` for a backslash.
pub proof fn law_object_paths_are_relative_texts(
    catalog_path: Seq<u8>,
    file_path: Seq<u8>,
    i: int,
)
    ensures
        object_path(catalog_path, file_path) is Some <==> components(catalog_path).is_prefix_of(
            components(file_path),
        ),
        object_path(catalog_path, file_path) matches Some(path) ==> {
            let text = path_text(relative_path(file_path, catalog_path)->0);
            &&& path.len() == text.len()
            &&& 0 <= i < text.len() && text[i] == '\\' ==> path[i] == '/'
            &&& 0 <= i < text.len() && text[i] != '\\' ==> path[i] == text[i]
        },
{
}

/// Forward slashes stand for backslashes, and every other character stays.
pub proof fn law_only_backslashes_are_replaced(text: Seq<char>, i: int)
    requires
        0 <= i < text.len(),
    ensures
        with_forward_slashes(text).len() == text.len(),
        text[i] == '\\' ==> with_forward_slashes(text)[i] == '/',
        text[i] != '\\' ==> with_forward_slashes(text)[i] == text[i],
{
}

/// The live directory of a data type is `live`, the instance and the data type,
/// joined onto the catalog one after the other. Where these are plain names, its
/// components are those of the catalog and then these names.
pub proof fn law_where_live_directories_are(
    catalog_path: Seq<u8>,
    instance_id: Seq<char>,
    data_type: Seq<char>,
)
    ensures
        live_directory(catalog_path, instance_id, data_type) == joined_path(
            joined_path(
                joined_path(catalog_path, encode_utf8("live"@)),
                encode_utf8(instance_id),
            ),
            encode_utf8(data_type),
        ),
        catalog_path.len() > 0 && is_plain_name(encode_utf8(instance_id)) && is_plain_name(
            encode_utf8(data_type),
        ) ==> components(live_directory(catalog_path, instance_id, data_type)) == components(
            catalog_path,
        ).push(encode_utf8("live"@)).push(encode_utf8(instance_id)).push(encode_utf8(data_type)),
{
    if catalog_path.len() > 0 && is_plain_name(encode_utf8(instance_id)) && is_plain_name(
        encode_utf8(data_type),
    ) {
        crate::conversion::lemma_live_is_plain();
        let one = joined_path(catalog_path, encode_utf8("live"@));
        let two = joined_path(one, encode_utf8(instance_id));
        lemma_components_of_plain_join(catalog_path, encode_utf8("live"@));
        lemma_components_of_plain_join(one, encode_utf8(instance_id));
        lemma_components_of_plain_join(two, encode_utf8(data_type));
    }
}

proof fn lemma_components_of_plain_join(base: Seq<u8>, name: Seq<u8>)
    requires
        base.len() > 0,
        is_plain_name(name),
    ensures
        components(joined_path(base, name)) == components(base).push(name),
        joined_path(base, name).len() > 0,
{
    let parent = if base.last() == 0x2f {
        base
    } else {
        base.push(0x2f)
    };
    assert(!name.contains(0x2f)) by {
        if name.contains(0x2f) {
            let i = choose|i: int| 0 <= i < name.len() && name[i] == 0x2f;
        }
    }
    crate::paths::law_components_are_the_names_between_separators(base, name);
    crate::paths::law_components_are_the_names_between_separators(parent, name);
    assert(joined_path(base, name) =~= parent + name);
}

/// Data types are gone through in the order of their bytes: one that comes after
/// all others adds what is found of it alone, behind the rest.
pub proof fn law_data_types_are_gone_through_in_order(
    catalog_path: Seq<u8>,
    instance_id: Seq<char>,
    data_types: Set<Seq<char>>,
    last: Seq<char>,
    listings: Seq<DataTypeListing>,
)
    requires
        data_types.finite(),
        forall|data_type: Seq<char>| #[trigger]
            data_types.contains(data_type) ==> bytes_less(
                encode_utf8(data_type),
                encode_utf8(last),
            ),
    ensures
        findings(catalog_path, instance_id, Set::empty(), listings) == Seq::<
            Result<ClosedFeatherFileView, ConversionErrorView>,
        >::empty(),
        findings(catalog_path, instance_id, data_types.insert(last), listings) == findings(
            catalog_path,
            instance_id,
            data_types,
            listings,
        ) + findings(catalog_path, instance_id, set![last], listings),
{
    let of_type = |data_type: Seq<char>|
        data_type_findings(catalog_path, instance_id, listings, data_type);
    let before = in_order(data_types);
    let after = before.push(last);
    law_finite_sets_have_an_order(data_types);
    assert(is_ascending(after)) by {
        assert forall|i: int, j: int| 0 <= i < j < after.len() implies text_less(
            #[trigger] after[i],
            #[trigger] after[j],
        ) by {
            if j == before.len() {
                assert(before.to_set().contains(before[i]));
                assert(data_types.contains(before[i]));
            } else {
                assert(text_less(before[i], before[j]));
            }
        }
    }
    before.lemma_push_to_set_commute(last);
    law_finite_sets_have_an_order(data_types.insert(last));
    law_order_of_names_is_unique(after, in_order(data_types.insert(last)));
    lemma_findings_of_one(catalog_path, instance_id, last, listings);
    assert(after =~= before + seq![last]);
    lemma_flat_map_concat(before, seq![last], of_type);
    lemma_flat_map_one(last, of_type);
    law_names_are_in_byte_order(Set::empty());
    assert(in_order(Set::empty()) =~= Seq::empty());
}

proof fn lemma_findings_of_one(
    catalog_path: Seq<u8>,
    instance_id: Seq<char>,
    data_type: Seq<char>,
    listings: Seq<DataTypeListing>,
)
    ensures
        findings(catalog_path, instance_id, set![data_type], listings) == data_type_findings(
            catalog_path,
            instance_id,
            listings,
            data_type,
        ),
{
    let of_type = |data_type: Seq<char>|
        data_type_findings(catalog_path, instance_id, listings, data_type);
    let one = set![data_type];
    law_names_are_in_byte_order(one);
    assert(one.len() == 1);
    assert(in_order(one).contains(in_order(one)[0]));
    assert(one.contains(in_order(one)[0]));
    assert(in_order(one) =~= seq![data_type]);
    lemma_flat_map_one(data_type, of_type);
}

/// What is found of a data type is what its first listing shows, and nothing
/// where there is none.
pub proof fn law_the_first_listing_of_a_data_type_counts(
    catalog_path: Seq<u8>,
    instance_id: Seq<char>,
    data_type: Seq<char>,
    listings: Seq<DataTypeListing>,
    k: int,
)
    requires
        0 <= k <= listings.len(),
        k < listings.len() ==> listings[k].data_type@ == data_type,
        forall|j: int| 0 <= j < k ==> (#[trigger] listings[j]).data_type@ != data_type,
    ensures
        k == listings.len() ==> findings(catalog_path, instance_id, set![data_type], listings)
            == Seq::<Result<ClosedFeatherFileView, ConversionErrorView>>::empty(),
        k < listings.len() ==> findings(catalog_path, instance_id, set![data_type], listings)
            == findings(catalog_path, instance_id, set![data_type], seq![listings[k]]),
{
    lemma_findings_of_one(catalog_path, instance_id, data_type, listings);
    lemma_listing_at(listings, data_type, k);
    if k < listings.len() {
        let one = seq![listings[k]];
        lemma_findings_of_one(catalog_path, instance_id, data_type, one);
        lemma_listing_at(one, data_type, 0);
    }
}

proof fn lemma_listing_at(listings: Seq<DataTypeListing>, data_type: Seq<char>, k: int)
    requires
        0 <= k <= listings.len(),
        k < listings.len() ==> listings[k].data_type@ == data_type,
        forall|j: int| 0 <= j < k ==> (#[trigger] listings[j]).data_type@ != data_type,
    ensures
        listing_of(listings, data_type) == if k < listings.len() {
            Some(listings[k])
        } else {
            None
        },
    decreases listings.len(),
{
    if listings.len() > 0 && k > 0 {
        let rest = listings.skip(1);
        assert(listings[0].data_type@ != data_type);
        assert forall|j: int| 0 <= j < k - 1 implies (#[trigger] rest[j]).data_type@
            != data_type by {
            assert(rest[j] == listings[j + 1]);
        }
        if k < listings.len() {
            assert(rest[k - 1] == listings[k]);
        }
        lemma_listing_at(rest, data_type, k - 1);
    }
}

proof fn lemma_findings_of_listing(
    catalog_path: Seq<u8>,
    instance_id: Seq<char>,
    listing: DataTypeListing,
)
    ensures
        findings(catalog_path, instance_id, set![listing.data_type@], seq![listing])
            == listing_findings(catalog_path, instance_id, listing),
{
    lemma_findings_of_one(catalog_path, instance_id, listing.data_type@, seq![listing]);
    lemma_listing_at(seq![listing], listing.data_type@, 0);
}

/// A directory that does not exist holds nothing, and one that could not be read
/// is an error that names it. What is found in a directory is what is found in
/// its entries, one after the other.
pub proof fn law_directories_are_gone_through_entry_by_entry(
    catalog_path: Seq<u8>,
    instance_id: Seq<char>,
    all: DataTypeListing,
    first: DataTypeListing,
    rest: DataTypeListing,
)
    requires
        first.data_type@ == all.data_type@,
        rest.data_type@ == all.data_type@,
    ensures
        ({
            let found = |listing: DataTypeListing|
                findings(catalog_path, instance_id, set![all.data_type@], seq![listing]);
            let live = live_directory(catalog_path, instance_id, all.data_type@);
            &&& all.directory is None ==> found(all) == Seq::<
                Result<ClosedFeatherFileView, ConversionErrorView>,
            >::empty()
            &&& all.directory matches Some(Err(reason)) ==> found(all) == seq![
                Err::<ClosedFeatherFileView, _>(
                    ConversionErrorView::ReadDataDirectory { path: live, reason: reason@ },
                ),
            ]
            &&& match (all.directory, first.directory, rest.directory) {
                (Some(Ok(entries)), Some(Ok(some)), Some(Ok(others))) => entries@ == some@ + others@
                    ==> found(all) == found(first) + found(rest),
                _ => true,
            }
            &&& all.directory matches Some(Ok(entries)) ==> entries@.len() == 0 ==> found(all)
                == Seq::<Result<ClosedFeatherFileView, ConversionErrorView>>::empty()
        }),
{
    lemma_findings_of_listing(catalog_path, instance_id, all);
    lemma_findings_of_listing(catalog_path, instance_id, first);
    lemma_findings_of_listing(catalog_path, instance_id, rest);
    let live = live_directory(catalog_path, instance_id, all.data_type@);
    let of_entry = |entry: Result<DirectoryEntry, String>|
        entry_findings(catalog_path, all.data_type@, live, entry);
    if let (Some(Ok(entries)), Some(Ok(some)), Some(Ok(others))) = (
        all.directory,
        first.directory,
        rest.directory,
    ) {
        lemma_flat_map_concat(some@, others@, of_entry);
    }
    if let Some(Ok(entries)) = all.directory {
        if entries@.len() == 0 {
            lemma_flat_map_one(arbitrary::<Result<DirectoryEntry, String>>(), of_entry);
            assert(entries@ =~= Seq::empty());
        }
    }
}

/// What is found in one entry. An entry that could not be read is an error, one
/// that is no directory holds nothing, and a directory whose names could not be
/// read is an error that names it. Of the names with the extension `.feather`
/// in a directory, all that could be read are closed but the last of them in
/// the order of their bytes, and they are found in that order.
pub proof fn law_what_is_found_in_an_entry(
    catalog_path: Seq<u8>,
    instance_id: Seq<char>,
    listing: DataTypeListing,
    entries: Vec<Result<DirectoryEntry, String>>,
    entry: Result<DirectoryEntry, String>,
)
    requires
        listing.directory == Some(Ok::<_, String>(entries)),
        entries@ == seq![entry],
    ensures
        ({
            let data_type = listing.data_type@;
            let found = findings(catalog_path, instance_id, set![data_type], seq![listing]);
            let live = live_directory(catalog_path, instance_id, data_type);
            match entry {
                Err(reason) => found == seq![
                    Err::<ClosedFeatherFileView, _>(
                        ConversionErrorView::ReadEntry { reason: reason@ },
                    ),
                ],
                Ok(directory) => {
                    let path = joined_path(live, directory.name@);
                    if !directory.is_dir {
                        found == Seq::<Result<ClosedFeatherFileView, ConversionErrorView>>::empty()
                    } else {
                        match directory.files {
                            Err(reason) => found == seq![
                                Err::<ClosedFeatherFileView, _>(
                                    ConversionErrorView::ReadIdentifierDirectory {
                                        path,
                                        reason: reason@,
                                    },
                                ),
                            ],
                            Ok(files) => exists|sorted: Seq<Seq<u8>>|
                                are_findings_but_last(
                                    catalog_path,
                                    data_type,
                                    path,
                                    sorted,
                                    found,
                                ) && #[trigger] sorted.to_multiset() == files@.filter_map(
                                    |file: Result<Vec<u8>, String>|
                                        match file {
                                            Ok(name) => if name@.len() > 8 && name@.skip(
                                                name@.len() - 8,
                                            ) == encode_utf8(".feather"@) {
                                                Some(name@)
                                            } else {
                                                None
                                            },
                                            Err(_) => None,
                                        },
                                ).to_multiset(),
                        }
                    }
                },
            }
        }),
{
    let data_type = listing.data_type@;
    let live = live_directory(catalog_path, instance_id, data_type);
    let of_entry = |entry: Result<DirectoryEntry, String>|
        entry_findings(catalog_path, data_type, live, entry);
    lemma_findings_of_listing(catalog_path, instance_id, listing);
    lemma_flat_map_one(entry, of_entry);
    if let Ok(directory) = entry {
        if directory.is_dir {
            if let Ok(files) = directory.files {
                let path = joined_path(live, directory.name@);
                let found = entry_findings(catalog_path, data_type, live, entry);
                let names = feather_names(files@);
                let sorted = names.sort_by(name_order());
                lemma_feather_suffix();
                let pick = |file: Result<Vec<u8>, String>|
                    match file {
                        Ok(name) => if name@.len() > 8 && name@.skip(name@.len() - 8)
                            == encode_utf8(".feather"@) {
                            Some(name@)
                        } else {
                            None
                        },
                        Err(_) => None,
                    };
                assert(pick =~= (|file: Result<Vec<u8>, String>| feather_name(file)));
                lemma_bytes_at_most_is_total_ordering();
                names.lemma_sort_by_ensures(name_order());
                lemma_findings_but_last(catalog_path, data_type, path, files@, found);
                assert(sorted.to_multiset() == files@.filter_map(pick).to_multiset());
            }
        }
    }
}

/// Whether `found` is what is found of the files with the names `sorted` in the
/// directory `path`, but the last: the names are in the order of their bytes,
/// and each file comes with its path and its object path, or does not lie below
/// the catalog.
pub open spec fn are_findings_but_last(
    catalog_path: Seq<u8>,
    data_type: Seq<char>,
    path: Seq<u8>,
    sorted: Seq<Seq<u8>>,
    found: Seq<Result<ClosedFeatherFileView, ConversionErrorView>>,
) -> bool {
    &&& forall|m: int, n: int|
        0 <= m < n < sorted.len() ==> !bytes_less(#[trigger] sorted[n], #[trigger] sorted[m])
    &&& found.len() == if sorted.len() == 0 {
        0
    } else {
        sorted.len() - 1
    }
    &&& forall|m: int|
        0 <= m < found.len() ==> {
            let file_path = joined_path(path, sorted[m]);
            #[trigger] found[m] == match object_path(catalog_path, file_path) {
                Some(object_path) => Ok(
                    ClosedFeatherFileView { data_type, file_path, object_path },
                ),
                None => Err(ConversionErrorView::NotUnderCatalog { file_path, catalog_path }),
            }
        }
}

proof fn lemma_findings_but_last(
    catalog_path: Seq<u8>,
    data_type: Seq<char>,
    path: Seq<u8>,
    files: Seq<Result<Vec<u8>, String>>,
    found: Seq<Result<ClosedFeatherFileView, ConversionErrorView>>,
)
    requires
        found == closed_names(files).map_values(
            |name: Seq<u8>| file_finding(catalog_path, data_type, path, name),
        ),
    ensures
        are_findings_but_last(
            catalog_path,
            data_type,
            path,
            feather_names(files).sort_by(name_order()),
            found,
        ),
{
    let order = name_order();
    let names = feather_names(files);
    let sorted = names.sort_by(order);
    lemma_bytes_at_most_is_total_ordering();
    names.lemma_sort_by_ensures(order);
    assert forall|m: int, n: int| 0 <= m < n < sorted.len() implies !bytes_less(
        #[trigger] sorted[n],
        #[trigger] sorted[m],
    ) by {
        assert(order(sorted[m], sorted[n]));
        law_bytes_less_is_irreflexive(sorted[m]);
        if bytes_less(sorted[n], sorted[m]) && sorted[m] != sorted[n] {
            law_bytes_less_is_transitive(sorted[m], sorted[n], sorted[m]);
        }
    }
    assert forall|m: int| 0 <= m < found.len() implies #[trigger] found[m] == file_finding(
        catalog_path,
        data_type,
        path,
        sorted[m],
    ) by {
        assert(closed_names(files)[m] == sorted[m]);
    }
}

/// Of two names `<stem>.feather` in the directory of an identifier, whatever the
/// stems, the one that comes first in the order of their bytes is collected,
/// with its data type, its path and its object path.
pub proof fn law_an_older_feather_file_is_collected(
    catalog_path: Seq<u8>,
    instance_id: Seq<char>,
    data_types: Set<Seq<char>>,
    listings: Seq<DataTypeListing>,
    collected: Seq<ClosedFeatherFileView>,
    k: int,
    entries: Vec<Result<DirectoryEntry, String>>,
    e: int,
    directory: DirectoryEntry,
    files: Vec<Result<Vec<u8>, String>>,
    x: int,
    y: int,
    stem: Seq<u8>,
    later_stem: Seq<u8>,
)
    requires
        data_types.finite(),
        all_or_first_error(findings(catalog_path, instance_id, data_types, listings)) == Ok::<
            _,
            ConversionErrorView,
        >(collected),
        0 <= k < listings.len(),
        data_types.contains(listings[k].data_type@),
        forall|j: int|
            0 <= j < k ==> (#[trigger] listings[j]).data_type@ != listings[k].data_type@,
        listings[k].directory == Some(Ok::<_, String>(entries)),
        0 <= e < entries@.len(),
        entries@[e] == Ok::<_, String>(directory),
        directory.is_dir,
        directory.files == Ok::<_, String>(files),
        0 <= x < files@.len(),
        0 <= y < files@.len(),
        files@[x] matches Ok(name) && name@ == stem + encode_utf8(".feather"@),
        files@[y] matches Ok(name) && name@ == later_stem + encode_utf8(".feather"@),
        stem.len() > 0,
        later_stem.len() > 0,
        bytes_less(stem + encode_utf8(".feather"@), later_stem + encode_utf8(".feather"@)),
    ensures
        exists|n: int|
            {
                &&& 0 <= n < collected.len()
                &&& (#[trigger] collected[n]).data_type == listings[k].data_type@
                &&& collected[n].file_path == joined_path(
                    joined_path(
                        live_directory(catalog_path, instance_id, listings[k].data_type@),
                        directory.name@,
                    ),
                    stem + encode_utf8(".feather"@),
                )
                &&& object_path(catalog_path, collected[n].file_path) == Some(
                    collected[n].object_path,
                )
            },
{
    let data_type = listings[k].data_type@;
    let live = live_directory(catalog_path, instance_id, data_type);
    let path = joined_path(live, directory.name@);
    let name = stem + encode_utf8(".feather"@);
    let later = later_stem + encode_utf8(".feather"@);
    let entry = entries@[e];
    let inner = entry_findings(catalog_path, data_type, live, entry);
    let names = feather_names(files@);
    let sorted = names.sort_by(name_order());
    law_feather_names_end_with_the_extension(stem, name);
    law_feather_names_end_with_the_extension(later_stem, later);
    lemma_picked(files@, x, files@.len() as int);
    lemma_picked(files@, y, files@.len() as int);
    assert(files@.take(files@.len() as int) =~= files@);
    lemma_bytes_at_most_is_total_ordering();
    names.lemma_sort_by_ensures(name_order());
    vstd::seq_lib::to_multiset_contains(names, name);
    vstd::seq_lib::to_multiset_contains(sorted, name);
    vstd::seq_lib::to_multiset_contains(names, later);
    vstd::seq_lib::to_multiset_contains(sorted, later);
    let i = choose|i: int| 0 <= i < sorted.len() && sorted[i] == name;
    let j = choose|j: int| 0 <= j < sorted.len() && sorted[j] == later;
    lemma_findings_but_last(catalog_path, data_type, path, files@, inner);
    law_bytes_less_is_irreflexive(name);
    if j < i {
        assert(!bytes_less(sorted[i], sorted[j]));
    }
    assert(i < inner.len());
    let found = inner[i];
    assert(inner.contains(found));
    let of_entry = |entry: Result<DirectoryEntry, String>|
        entry_findings(catalog_path, data_type, live, entry);
    lemma_flat_map_holds(entries@, of_entry, found);
    assert(of_entry(entries@[e]).contains(found));
    lemma_listing_at(listings, data_type, k);
    assert(data_type_findings(catalog_path, instance_id, listings, data_type).contains(found));
    let of_type = |data_type: Seq<char>|
        data_type_findings(catalog_path, instance_id, listings, data_type);
    let types = in_order(data_types);
    law_names_are_in_byte_order(data_types);
    assert(types.contains(data_type));
    let t = choose|t: int| 0 <= t < types.len() && types[t] == data_type;
    lemma_flat_map_holds(types, of_type, found);
    assert(of_type(types[t]).contains(found));
    let all = findings(catalog_path, instance_id, data_types, listings);
    assert(all.contains(found));
    let n = choose|n: int| 0 <= n < all.len() && all[n] == found;
    lemma_values_are_results(all);
    assert(all[n] == Ok::<_, ConversionErrorView>(collected[n]));
}

/// A feather name among the first `k` files is among their feather names.
proof fn lemma_picked(files: Seq<Result<Vec<u8>, String>>, x: int, k: int)
    requires
        0 <= x < k <= files.len(),
        files[x] is Ok,
        has_feather_extension(files[x]->Ok_0@),
    ensures
        feather_names(files.take(k)).contains(files[x]->Ok_0@),
    decreases k,
{
    let name = files[x]->Ok_0@;
    let pick = |file: Result<Vec<u8>, String>| feather_name(file);
    files.lemma_filter_map_take_succ(pick, k - 1);
    let before = feather_names(files.take(k - 1));
    let after = feather_names(files.take(k));
    if x < k - 1 {
        lemma_picked(files, x, k - 1);
        let m = choose|m: int| 0 <= m < before.len() && before[m] == name;
        assert(after[m] == name);
    } else {
        assert(after =~= before.push(name));
        assert(after[before.len() as int] == name);
    }
}

/// What the errors of a collection say, and the reasons that they give.
pub proof fn law_what_collection_errors_say(a: Seq<u8>, b: Seq<u8>, reason: Seq<char>)
    ensures
        error_message(ConversionErrorView::ReadDataDirectory { path: a, reason })
            == "failed to read data directory "@ + path_text(a),
        error_message(ConversionErrorView::ReadIdentifierDirectory { path: a, reason })
            == "failed to read identifier directory "@ + path_text(a),
        error_message(ConversionErrorView::ReadEntry { reason }) == reason,
        error_message(ConversionErrorView::NotUnderCatalog { file_path: a, catalog_path: b })
            == "failed to make "@ + path_text(a) + " relative to "@ + path_text(b),
        error_reason(ConversionErrorView::ReadDataDirectory { path: a, reason }) == Some(reason),
        error_reason(ConversionErrorView::ReadIdentifierDirectory { path: a, reason }) == Some(
            reason,
        ),
        error_reason(ConversionErrorView::ReadEntry { reason }) is None,
        error_reason(ConversionErrorView::NotUnderCatalog { file_path: a, catalog_path: b })
            == Some("prefix not found"@),
{
}

/// Nothing else is collected: each of the collected files has a name
/// `<stem>.feather`, lies in the directory of an identifier below the live
/// directory of its data type, and another such file in its directory comes
/// after it in the order of their bytes.
pub proof fn law_only_older_feather_files_are_collected(
    catalog_path: Seq<u8>,
    instance_id: Seq<char>,
    data_types: Set<Seq<char>>,
    listings: Seq<DataTypeListing>,
    tree: Set<LiveFile>,
    collected: Seq<ClosedFeatherFileView>,
    n: int,
)
    requires
        data_types.finite(),
        is_plain_tree(tree),
        lists_only(catalog_path, instance_id, data_types, listings, tree),
        all_or_first_error(findings(catalog_path, instance_id, data_types, listings)) == Ok::<
            _,
            ConversionErrorView,
        >(collected),
        0 <= n < collected.len(),
    ensures
        data_types.contains(collected[n].data_type),
        object_path(catalog_path, collected[n].file_path) == Some(collected[n].object_path),
        exists|directory: Seq<u8>, identifier: Seq<u8>, stem: Seq<u8>, later_stem: Seq<u8>|
            {
                let name = stem + encode_utf8(".feather"@);
                let later = later_stem + encode_utf8(".feather"@);
                &&& directory == joined_path(
                    live_directory(catalog_path, instance_id, collected[n].data_type),
                    Seq::empty(),
                )
                &&& #[trigger] tree.contains(
                    LiveFile { directory, identifier, name: stem + encode_utf8(".feather"@) },
                )
                &&& #[trigger] tree.contains(
                    LiveFile { directory, identifier, name: later_stem + encode_utf8(".feather"@) },
                )
                &&& stem.len() > 0
                &&& later_stem.len() > 0
                &&& bytes_less(name, later)
                &&& collected[n].file_path == directory + identifier + seq![0x2fu8] + name
            },
{
    law_the_closed_files_are_collected(
        catalog_path,
        instance_id,
        data_types,
        listings,
        tree,
        collected,
    );
    let file = choose|file: LiveFile|
        {
            &&& #[trigger] is_closed(tree, file)
            &&& file.directory == directory_of(
                catalog_path,
                instance_id,
                collected[n].data_type,
            )
            &&& collected[n] == closed_file(catalog_path, collected[n].data_type, file)
        };
    let later = choose|later: LiveFile|
        {
            &&& #[trigger] is_feather_file(tree, later)
            &&& same_directory(file, later)
            &&& bytes_less(file.name, later.name)
        };
    law_feather_names_end_with_the_extension(Seq::empty(), file.name);
    law_feather_names_end_with_the_extension(Seq::empty(), later.name);
    let suffix = encode_utf8(".feather"@);
    let stem = choose|s: Seq<u8>| s.len() > 0 && file.name == #[trigger] (s + suffix);
    let later_stem = choose|s: Seq<u8>| s.len() > 0 && later.name == #[trigger] (s + suffix);
    assert(tree.contains(
        LiveFile {
            directory: file.directory,
            identifier: file.identifier,
            name: stem + encode_utf8(".feather"@),
        },
    ));
    assert(tree.contains(
        LiveFile {
            directory: file.directory,
            identifier: file.identifier,
            name: later_stem + encode_utf8(".feather"@),
        },
    ));
    assert(collected[n].file_path =~= file.directory + file.identifier + seq![0x2fu8] + file.name);
}

/// The views of files hold what the files hold, one for one.
pub proof fn law_views_of_files(files: Seq<ClosedFeatherFile>, i: int)
    requires
        0 <= i < files.len(),
    ensures
        file_views(files).len() == files.len(),
        file_views(files)[i].data_type == files[i].data_type@,
        file_views(files)[i].file_path == files[i].file_path@,
        file_views(files)[i].object_path == files[i].object_path@,
{
}

} // verus!
