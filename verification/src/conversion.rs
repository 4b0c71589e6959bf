//! Which stream files of the live catalog are closed.
//!
//! The recorder writes below `live/<instance>/<data type>/<identifier>/` of
//! the catalog, into one feather file after the other. The latest file of an
//! identifier may still be written to; the others are closed and can be
//! converted.
use vstd::prelude::*;
use vstd::string::StringExecFns;
use vstd::utf8::encode_utf8;
use vstd::utf8::valid_utf8;

use crate::names::in_order;
use crate::names::texts;
use crate::names::NameSet;
use crate::ordering::bytes_at_most;
use crate::ordering::bytes_before;
use crate::ordering::bytes_less;
use crate::ordering::law_bytes_less_is_total;
use crate::ordering::lemma_bytes_at_most_is_total_ordering;
use crate::ordering::same_text;
use crate::paths::display;
use crate::paths::ends_with_name;
use crate::paths::join;
use crate::paths::joined_path;
use crate::paths::components;
use crate::paths::law_joined_path_is_relative_to_its_base;
use crate::paths::law_relative_path_joins_back;
use crate::paths::lemma_run_end;
use crate::paths::relative_path;
use crate::paths::strip_prefix;
use crate::paths::DOT;
use crate::paths::SEPARATOR;
use crate::paths::path_text;
use crate::paths::starts_with_name;
use crate::results::all_or_first_error;
use crate::results::lemma_concat_results;
use crate::results::lemma_early_error;
use crate::results::lemma_early_error_among;
use crate::results::lemma_push_result;

verus! {

/// A feather file that is no longer written to.
#[derive(Debug, Clone, PartialEq, Eq)]
pub struct ClosedFeatherFile {
    /// The type of the data in it.
    pub data_type: String,
    /// Its path in the file system.
    pub file_path: Vec<u8>,
    /// Its path in the catalog.
    pub object_path: String,
}

pub struct ClosedFeatherFileView {
    pub data_type: Seq<char>,
    pub file_path: Seq<u8>,
    pub object_path: Seq<char>,
}

impl View for ClosedFeatherFile {
    type V = ClosedFeatherFileView;

    open spec fn view(&self) -> ClosedFeatherFileView {
        ClosedFeatherFileView {
            data_type: self.data_type@,
            file_path: self.file_path@,
            object_path: self.object_path@,
        }
    }
}

/// Why the closed files could not be listed.
#[derive(Debug, Clone, PartialEq, Eq)]
pub enum ConversionError {
    /// The directory of a data type could not be read.
    ReadDataDirectory { path: Vec<u8>, reason: String },
    /// An entry of the directory of a data type could not be read.
    ReadEntry { reason: String },
    /// The directory of an identifier could not be read.
    ReadIdentifierDirectory { path: Vec<u8>, reason: String },
    /// A file does not lie below the catalog.
    NotUnderCatalog { file_path: Vec<u8>, catalog_path: Vec<u8> },
}

pub enum ConversionErrorView {
    ReadDataDirectory { path: Seq<u8>, reason: Seq<char> },
    ReadEntry { reason: Seq<char> },
    ReadIdentifierDirectory { path: Seq<u8>, reason: Seq<char> },
    NotUnderCatalog { file_path: Seq<u8>, catalog_path: Seq<u8> },
}

impl View for ConversionError {
    type V = ConversionErrorView;

    open spec fn view(&self) -> ConversionErrorView {
        match self {
            ConversionError::ReadDataDirectory { path, reason } =>
                ConversionErrorView::ReadDataDirectory { path: path@, reason: reason@ },
            ConversionError::ReadEntry { reason } =>
                ConversionErrorView::ReadEntry { reason: reason@ },
            ConversionError::ReadIdentifierDirectory { path, reason } =>
                ConversionErrorView::ReadIdentifierDirectory { path: path@, reason: reason@ },
            ConversionError::NotUnderCatalog { file_path, catalog_path } =>
                ConversionErrorView::NotUnderCatalog {
                    file_path: file_path@,
                    catalog_path: catalog_path@,
                },
        }
    }
}

/// An entry of the directory of a data type.
#[derive(Debug)]
pub struct DirectoryEntry {
    /// Its name.
    pub name: Vec<u8>,
    /// Whether it is a directory.
    pub is_dir: bool,
    /// The names of the files in it, each as far as it could be read, or why
    /// none could be read.
    pub files: Result<Vec<Result<Vec<u8>, String>>, String>,
}

/// What stands in the live directory of a data type.
#[derive(Debug)]
pub struct DataTypeListing {
    /// The data type, which is the name of its directory.
    pub data_type: String,
    /// The entries of the directory, each as far as it could be read, or why
    /// none could be read. `None` where there is no such directory.
    pub directory: Option<Result<Vec<Result<DirectoryEntry, String>>, String>>,
}

/// `text` with `/` in the place of every backslash.
pub open spec fn with_forward_slashes(text: Seq<char>) -> Seq<char> {
    text.map_values(
        |c: char|
            if c == '\\' {
                '/'
            } else {
                c
            },
    )
}

/// The path in the catalog of a file below it.
pub open spec fn object_path(catalog_path: Seq<u8>, file_path: Seq<u8>) -> Option<Seq<char>> {
    match relative_path(file_path, catalog_path) {
        Some(relative) => Some(with_forward_slashes(path_text(relative))),
        None => None,
    }
}

/// `String::push`: the text grows by the character at its end.
pub assume_specification[ String::push ](text: &mut String, c: char)
    ensures
        final(text)@ == old(text)@.push(c),
;

/// Replaces every backslash in `text` by `/`.
pub fn forward_slashes(text: &str) -> (replaced: String)
    ensures
        replaced@ == with_forward_slashes(text@),
{
    let mut replaced = String::new();
    for c in iter: text.chars()
        invariant
            replaced@ =~= with_forward_slashes(text@.take(iter.index() as int)),
            iter.seq() == text@,
    {
        if c == '\\' {
            replaced.push('/');
        } else {
            replaced.push(c);
        }
    }
    assert(text@.take(text@.len() as int) =~= text@);
    replaced
}

/// The path in the catalog of the file `file_path` below `catalog_path`.
pub fn local_path_to_object_path(catalog_path: &[u8], file_path: &[u8]) -> (result: Result<
    String,
    ConversionError,
>)
    ensures
        match result {
            Ok(path) => object_path(catalog_path@, file_path@) == Some(path@),
            Err(error) => {
                &&& object_path(catalog_path@, file_path@) is None
                &&& error@ == (ConversionErrorView::NotUnderCatalog {
                    file_path: file_path@,
                    catalog_path: catalog_path@,
                })
            },
        },
{
    match strip_prefix(file_path, catalog_path) {
        Some(relative) => Ok(forward_slashes(display(relative.as_slice()).as_str())),
        None => Err(
            ConversionError::NotUnderCatalog {
                file_path: vstd::slice::slice_to_vec(file_path),
                catalog_path: vstd::slice::slice_to_vec(catalog_path),
            },
        ),
    }
}

/// The bytes of `.feather`.
pub open spec fn feather_suffix() -> Seq<u8> {
    seq![0x2eu8, 0x66u8, 0x65u8, 0x61u8, 0x74u8, 0x68u8, 0x65u8, 0x72u8]
}

/// Whether a file name has the extension `feather`: it ends with `.feather`,
/// with something before that.
pub open spec fn has_feather_extension(name: Seq<u8>) -> bool {
    name.len() > 8 && name.skip(name.len() - 8) == feather_suffix()
}

/// The names among `files` that could be read and have the extension `feather`.
pub open spec fn feather_names(files: Seq<Result<Vec<u8>, String>>) -> Seq<Seq<u8>> {
    files.filter_map(|file: Result<Vec<u8>, String>| feather_name(file))
}

pub open spec fn feather_name(file: Result<Vec<u8>, String>) -> Option<Seq<u8>> {
    match file {
        Ok(name) => if has_feather_extension(name@) {
            Some(name@)
        } else {
            None
        },
        Err(_) => None,
    }
}

/// The byte order as a function, for sorting.
pub open spec fn name_order() -> spec_fn(Seq<u8>, Seq<u8>) -> bool {
    |a: Seq<u8>, b: Seq<u8>| bytes_at_most(a, b)
}

/// The names of the closed files in the directory of an identifier: in
/// ascending order all feather files but the latest, which is the last in
/// that order.
pub open spec fn closed_names(files: Seq<Result<Vec<u8>, String>>) -> Seq<Seq<u8>> {
    let names = feather_names(files).sort_by(name_order());
    if names.len() < 2 {
        Seq::empty()
    } else {
        names.drop_last()
    }
}

/// What is found of one closed file: the file, or that it does not lie below
/// the catalog.
pub open spec fn file_finding(
    catalog_path: Seq<u8>,
    data_type: Seq<char>,
    directory: Seq<u8>,
    name: Seq<u8>,
) -> Result<ClosedFeatherFileView, ConversionErrorView> {
    let file_path = joined_path(directory, name);
    match object_path(catalog_path, file_path) {
        Some(object_path) => Ok(ClosedFeatherFileView { data_type, file_path, object_path }),
        None => Err(ConversionErrorView::NotUnderCatalog { file_path, catalog_path }),
    }
}

/// What is found in an entry of the directory of a data type: nothing in what
/// is no directory, the closed files of a directory.
pub open spec fn entry_findings(
    catalog_path: Seq<u8>,
    data_type: Seq<char>,
    directory: Seq<u8>,
    entry: Result<DirectoryEntry, String>,
) -> Seq<Result<ClosedFeatherFileView, ConversionErrorView>> {
    match entry {
        Err(reason) => seq![Err(ConversionErrorView::ReadEntry { reason: reason@ })],
        Ok(entry) => {
            let path = joined_path(directory, entry.name@);
            if !entry.is_dir {
                Seq::empty()
            } else {
                match entry.files {
                    Err(reason) => seq![
                        Err(
                            ConversionErrorView::ReadIdentifierDirectory { path, reason: reason@ },
                        ),
                    ],
                    Ok(files) => closed_names(files@).map_values(
                        |name: Seq<u8>| file_finding(catalog_path, data_type, path, name),
                    ),
                }
            }
        },
    }
}

/// The live directory of a data type.
pub open spec fn live_directory(
    catalog_path: Seq<u8>,
    instance_id: Seq<char>,
    data_type: Seq<char>,
) -> Seq<u8> {
    joined_path(
        joined_path(joined_path(catalog_path, encode_utf8("live"@)), encode_utf8(instance_id)),
        encode_utf8(data_type),
    )
}

/// What is found for a data type: nothing where its directory does not exist,
/// else what is found in the entries of the directory, in their order.
pub open spec fn listing_findings(
    catalog_path: Seq<u8>,
    instance_id: Seq<char>,
    listing: DataTypeListing,
) -> Seq<Result<ClosedFeatherFileView, ConversionErrorView>> {
    let path = live_directory(catalog_path, instance_id, listing.data_type@);
    match listing.directory {
        None => Seq::empty(),
        Some(Err(reason)) => seq![
            Err(ConversionErrorView::ReadDataDirectory { path, reason: reason@ }),
        ],
        Some(Ok(entries)) => entries@.flat_map(
            |entry: Result<DirectoryEntry, String>|
                entry_findings(catalog_path, listing.data_type@, path, entry),
        ),
    }
}

/// The listing of a data type: the first one that is for it.
pub open spec fn listing_of(listings: Seq<DataTypeListing>, data_type: Seq<char>) -> Option<
    DataTypeListing,
>
    decreases listings.len(),
{
    if listings.len() == 0 {
        None
    } else if listings[0].data_type@ == data_type {
        Some(listings[0])
    } else {
        listing_of(listings.skip(1), data_type)
    }
}

/// What is found for a data type, of which there may be no listing.
pub open spec fn data_type_findings(
    catalog_path: Seq<u8>,
    instance_id: Seq<char>,
    listings: Seq<DataTypeListing>,
    data_type: Seq<char>,
) -> Seq<Result<ClosedFeatherFileView, ConversionErrorView>> {
    match listing_of(listings, data_type) {
        None => Seq::empty(),
        Some(listing) => listing_findings(catalog_path, instance_id, listing),
    }
}

/// What is found for the data types, in ascending order, whatever the order of
/// the listings.
pub open spec fn findings(
    catalog_path: Seq<u8>,
    instance_id: Seq<char>,
    data_types: Set<Seq<char>>,
    listings: Seq<DataTypeListing>,
) -> Seq<Result<ClosedFeatherFileView, ConversionErrorView>> {
    in_order(data_types).flat_map(
        |data_type: Seq<char>|
            data_type_findings(catalog_path, instance_id, listings, data_type),
    )
}

/// The views of a vector of files.
pub open spec fn file_views(files: Seq<ClosedFeatherFile>) -> Seq<ClosedFeatherFileView> {
    files.map_values(|file: ClosedFeatherFile| file@)
}

/// Whether `result` is what `expected` says.
pub open spec fn is_collected(
    result: Result<Vec<ClosedFeatherFile>, ConversionError>,
    expected: Result<Seq<ClosedFeatherFileView>, ConversionErrorView>,
) -> bool {
    match result {
        Ok(files) => expected == Ok::<_, ConversionErrorView>(file_views(files@)),
        Err(error) => expected == Err::<Seq<ClosedFeatherFileView>, _>(error@),
    }
}

/// Whether a file name has the extension `feather`.
pub fn is_feather_name(name: &[u8]) -> (is_feather: bool)
    ensures
        is_feather == has_feather_extension(name@),
{
    if name.len() <= 8 {
        return false;
    }
    let at: usize = name.len() - 8;
    let is_feather = name[at] == 0x2e && name[at + 1] == 0x66 && name[at + 2] == 0x65 && name[at
        + 3] == 0x61 && name[at + 4] == 0x74 && name[at + 5] == 0x68 && name[at + 6] == 0x65
        && name[at + 7] == 0x72;
    proof {
        let end = name@.skip(at as int);
        assert(forall|k: int| 0 <= k < 8 ==> #[trigger] end[k] == name@[at + k]);
        if is_feather {
            assert(end =~= feather_suffix());
        } else {
            let suffix = feather_suffix();
            assert(suffix[0] == 0x2e && suffix[1] == 0x66 && suffix[2] == 0x65 && suffix[3] == 0x61
                && suffix[4] == 0x74 && suffix[5] == 0x68 && suffix[6] == 0x65 && suffix[7]
                == 0x72);
            assert(end[0] == name@[at + 0] && end[1] == name@[at + 1] && end[2] == name@[at + 2]
                && end[3] == name@[at + 3] && end[4] == name@[at + 4] && end[5] == name@[at + 5]
                && end[6] == name@[at + 6] && end[7] == name@[at + 7]);
        }
    }
    is_feather
}

/// The views of a vector of names.
spec fn name_views(names: Seq<Vec<u8>>) -> Seq<Seq<u8>> {
    names.map_values(|name: Vec<u8>| name@)
}

/// A name that is put between those that come before it and those that come
/// after it is in its place in the sorted sequence.
proof fn lemma_insert_sorted(names: Seq<Seq<u8>>, sorted: Seq<Seq<u8>>, at: int, name: Seq<u8>)
    requires
        sorted == names.sort_by(name_order()),
        0 <= at <= sorted.len(),
        forall|k: int| 0 <= k < at ==> bytes_at_most(#[trigger] sorted[k], name),
        at < sorted.len() ==> bytes_less(name, sorted[at]),
    ensures
        sorted.insert(at, name) == names.push(name).sort_by(name_order()),
{
    broadcast use vstd::seq_lib::group_to_multiset_ensures;

    let order = name_order();
    lemma_bytes_at_most_is_total_ordering();
    assert(order =~= |a: Seq<u8>, b: Seq<u8>| bytes_at_most(a, b));
    names.lemma_sort_by_ensures(order);
    names.push(name).lemma_sort_by_ensures(order);
    let inserted = sorted.insert(at, name);
    assert(vstd::relations::sorted_by(inserted, order)) by {
        assert forall|i: int, j: int| 0 <= i < j < inserted.len() implies #[trigger] order(
            inserted[i],
            inserted[j],
        ) by {
            let a = if i < at { i } else { i - 1 };
            let b = if j < at { j } else { j - 1 };
            if i == at {
                assert(order(name, sorted[at]));
                if b > at {
                    assert(order(sorted[at], sorted[b]));
                }
            } else if j == at {
                assert(order(sorted[i], name));
            } else {
                assert(order(sorted[a], sorted[b]));
            }
        }
    }
    vstd::seq_lib::to_multiset_insert(sorted, at, name);
    vstd::seq_lib::to_multiset_build(names, name);
    vstd::seq_lib::lemma_sorted_unique(
        inserted,
        names.push(name).sort_by(order),
        order,
    );
}

/// The feather files among `files` in ascending order.
fn sorted_feather_names(files: &Vec<Result<Vec<u8>, String>>) -> (sorted: Vec<Vec<u8>>)
    ensures
        name_views(sorted@) == feather_names(files@).sort_by(name_order()),
{
    let mut sorted: Vec<Vec<u8>> = Vec::new();
    let mut i: usize = 0;
    proof {
        lemma_bytes_at_most_is_total_ordering();
        let none = feather_names(files@.take(0));
        assert(none =~= Seq::empty());
        none.lemma_sort_by_ensures(name_order());
        none.sort_by(name_order()).to_multiset_ensures();
        none.to_multiset_ensures();
        assert(name_views(sorted@) =~= none.sort_by(name_order()));
    }
    while i < files.len()
        invariant
            i <= files@.len(),
            name_views(sorted@) == feather_names(files@.take(i as int)).sort_by(name_order()),
        decreases files@.len() - i,
    {
        let ghost before = feather_names(files@.take(i as int));
        proof {
            files@.lemma_filter_map_take_succ(
                |file: Result<Vec<u8>, String>| feather_name(file),
                i as int,
            );
        }
        match &files[i] {
            Ok(name) => {
                if is_feather_name(name.as_slice()) {
                    let mut at: usize = 0;
                    while at < sorted.len() && !bytes_before(name.as_slice(), sorted[at].as_slice())
                        invariant
                            at <= sorted@.len(),
                            forall|k: int|
                                0 <= k < at ==> bytes_at_most(#[trigger] sorted@[k]@, name@),
                        decreases sorted@.len() - at,
                    {
                        proof {
                            law_bytes_less_is_total(sorted@[at as int]@, name@);
                        }
                        at += 1;
                    }
                    proof {
                        let views = name_views(sorted@);
                        assert forall|k: int| 0 <= k < at implies bytes_at_most(
                            #[trigger] views[k],
                            name@,
                        ) by {
                            assert(views[k] == sorted@[k]@);
                        }
                        lemma_insert_sorted(before, views, at as int, name@);
                        assert(feather_names(files@.take(i + 1)) =~= before.push(name@));
                    }
                    let ghost previous = sorted@;
                    sorted.insert(at, vstd::slice::slice_to_vec(name.as_slice()));
                    assert(name_views(sorted@) =~= name_views(previous).insert(at as int, name@));
                } else {
                    assert(feather_names(files@.take(i + 1)) =~= before);
                }
            },
            Err(_) => {
                assert(feather_names(files@.take(i + 1)) =~= before);
            },
        }
        i += 1;
    }
    assert(files@.take(i as int) =~= files@);
    sorted
}

/// The closed files of an entry of the directory of a data type.
fn entry_files(
    catalog_path: &[u8],
    data_type: &str,
    directory: &[u8],
    entry: &Result<DirectoryEntry, String>,
) -> (result: Result<Vec<ClosedFeatherFile>, ConversionError>)
    ensures
        is_collected(
            result,
            all_or_first_error(entry_findings(catalog_path@, data_type@, directory@, *entry)),
        ),
{
    let ghost found = entry_findings(catalog_path@, data_type@, directory@, *entry);
    let mut files: Vec<ClosedFeatherFile> = Vec::new();
    assert(file_views(files@) =~= Seq::empty());
    match entry {
        Err(reason) => {
            let reason = reason.clone();
            proof {
                lemma_single_error(found);
            }
            Err(ConversionError::ReadEntry { reason })
        },
        Ok(identifier) => {
            if !identifier.is_dir {
                return Ok(files);
            }
            let path = join(directory, identifier.name.as_slice());
            match &identifier.files {
                Err(reason) => {
                    let reason = reason.clone();
                    proof {
                        lemma_single_error(found);
                    }
                    Err(ConversionError::ReadIdentifierDirectory { path, reason })
                },
                Ok(names) => {
                    let mut closed = sorted_feather_names(names);
                    if closed.len() < 2 {
                        assert(found =~= Seq::empty());
                        return Ok(files);
                    }
                    closed.pop();
                    let ghost views = closed_names(names@);
                    assert(name_views(closed@) =~= views);
                    let mut i: usize = 0;
                    assert(found.take(0) =~= Seq::empty());
                    while i < closed.len()
                        invariant
                            i <= closed@.len(),
                            name_views(closed@) == views,
                            found == entry_findings(
                                catalog_path@,
                                data_type@,
                                directory@,
                                *entry,
                            ),
                            found == views.map_values(
                                |name: Seq<u8>|
                                    file_finding(catalog_path@, data_type@, path@, name),
                            ),
                            all_or_first_error(found.take(i as int)) == Ok::<
                                _,
                                ConversionErrorView,
                            >(file_views(files@)),
                        decreases closed@.len() - i,
                    {
                        proof {
                            assert(views[i as int] == closed@[i as int]@);
                            assert(found.take(i + 1) =~= found.take(i as int).push(
                                found[i as int],
                            ));
                            lemma_push_result(found.take(i as int), found[i as int]);
                        }
                        let file_path = join(path.as_slice(), closed[i].as_slice());
                        match local_path_to_object_path(catalog_path, file_path.as_slice()) {
                            Ok(object_path) => {
                                let ghost previous = files@;
                                let file = ClosedFeatherFile {
                                    data_type: data_type.to_owned(),
                                    file_path,
                                    object_path,
                                };
                                files.push(file);
                                assert(file_views(files@) =~= file_views(previous).push(file@));
                            },
                            Err(error) => {
                                proof {
                                    lemma_early_error(found, i + 1);
                                }
                                return Err(error);
                            },
                        }
                        i += 1;
                    }
                    assert(found.take(i as int) =~= found);
                    Ok(files)
                },
            }
        },
    }
}

/// A single error is the first one.
proof fn lemma_single_error(found: Seq<Result<ClosedFeatherFileView, ConversionErrorView>>)
    requires
        found.len() == 1,
        found[0] is Err,
    ensures
        all_or_first_error(found) == Err::<Seq<ClosedFeatherFileView>, _>(found[0]->Err_0),
{
    assert(found.drop_last() =~= Seq::empty());
    assert(all_or_first_error(found.drop_last()) is Ok);
}

/// The closed files of a data type.
fn listing_files(catalog_path: &[u8], instance_id: &str, listing: &DataTypeListing) -> (result:
    Result<Vec<ClosedFeatherFile>, ConversionError>)
    ensures
        is_collected(
            result,
            all_or_first_error(listing_findings(catalog_path@, instance_id@, *listing)),
        ),
{
    let ghost found = listing_findings(catalog_path@, instance_id@, *listing);
    let mut files: Vec<ClosedFeatherFile> = Vec::new();
    assert(file_views(files@) =~= Seq::empty());
    let path = live_data_directory(catalog_path, instance_id, listing.data_type.as_str());
    match &listing.directory {
        None => Ok(files),
        Some(Err(reason)) => {
            let reason = reason.clone();
            proof {
                lemma_single_error(found);
            }
            Err(ConversionError::ReadDataDirectory { path, reason })
        },
        Some(Ok(entries)) => {
            let ghost of_entry = |entry: Result<DirectoryEntry, String>|
                entry_findings(catalog_path@, listing.data_type@, path@, entry);
            let mut i: usize = 0;
            assert(entries@.take(0).flat_map(of_entry) =~= Seq::empty());
            while i < entries.len()
                invariant
                    i <= entries@.len(),
                    found == listing_findings(catalog_path@, instance_id@, *listing),
                    found == entries@.flat_map(of_entry),
                    forall|entry: Result<DirectoryEntry, String>| #[trigger]
                        of_entry(entry) == entry_findings(
                            catalog_path@,
                            listing.data_type@,
                            path@,
                            entry,
                        ),
                    all_or_first_error(entries@.take(i as int).flat_map(of_entry)) == Ok::<
                        _,
                        ConversionErrorView,
                    >(file_views(files@)),
                decreases entries@.len() - i,
            {
                proof {
                    entries@.lemma_flat_map_take_append(of_entry, i as int);
                    lemma_concat_results(
                        entries@.take(i as int).flat_map(of_entry),
                        of_entry(entries@[i as int]),
                    );
                }
                match entry_files(
                    catalog_path,
                    listing.data_type.as_str(),
                    path.as_slice(),
                    &entries[i],
                ) {
                    Ok(mut more) => {
                        let ghost previous = files@;
                        let ghost added = more@;
                        files.append(&mut more);
                        assert(file_views(files@) =~= file_views(previous) + file_views(added));
                    },
                    Err(error) => {
                        proof {
                            lemma_early_error_among(entries@, of_entry, i + 1);
                        }
                        return Err(error);
                    },
                }
                i += 1;
            }
            assert(entries@.take(i as int) =~= entries@);
            Ok(files)
        },
    }
}

/// The live directory of a data type: `live/<instance>/<data type>` below the
/// catalog.
pub fn live_data_directory(catalog_path: &[u8], instance_id: &str, data_type: &str) -> (path: Vec<
    u8,
>)
    ensures
        path@ == live_directory(catalog_path@, instance_id@, data_type@),
{
    let live = join(catalog_path, "live".as_bytes());
    let instance = join(live.as_slice(), instance_id.as_bytes());
    join(instance.as_slice(), data_type.as_bytes())
}

/// The listing of a data type.
fn find_listing<'a>(listings: &'a Vec<DataTypeListing>, data_type: &str) -> (listing: Option<
    &'a DataTypeListing,
>)
    ensures
        match listing {
            Some(listing) => listing_of(listings@, data_type@) == Some(*listing),
            None => listing_of(listings@, data_type@) is None,
        },
{
    let mut i: usize = 0;
    assert(listings@.skip(0) =~= listings@);
    while i < listings.len()
        invariant
            i <= listings@.len(),
            listing_of(listings@, data_type@) == listing_of(listings@.skip(i as int), data_type@),
        decreases listings@.len() - i,
    {
        if same_text(listings[i].data_type.as_str(), data_type) {
            return Some(&listings[i]);
        }
        assert(listings@.skip(i as int).skip(1) =~= listings@.skip(i + 1));
        i += 1;
    }
    None
}

/// The closed files of a data type, of which there may be no listing.
fn data_type_files(
    catalog_path: &[u8],
    instance_id: &str,
    listings: &Vec<DataTypeListing>,
    data_type: &str,
) -> (result: Result<Vec<ClosedFeatherFile>, ConversionError>)
    ensures
        is_collected(
            result,
            all_or_first_error(
                data_type_findings(catalog_path@, instance_id@, listings@, data_type@),
            ),
        ),
{
    match find_listing(listings, data_type) {
        Some(listing) => listing_files(catalog_path, instance_id, listing),
        None => {
            let files: Vec<ClosedFeatherFile> = Vec::new();
            assert(file_views(files@) =~= Seq::empty());
            Ok(files)
        },
    }
}

/// The closed files of the data types `data_types`: per identifier all feather
/// files but the latest, in ascending order.
///
/// `listings` holds what stands in the live directories of the data types. A
/// data type without a listing has no directory, and a listing for any other
/// data type is passed over. The first thing that could not be read or does
/// not lie below the catalog is the error.
pub fn collect_closed_feather_files(
    catalog_path: &[u8],
    instance_id: &str,
    data_types: &NameSet,
    listings: &Vec<DataTypeListing>,
) -> (result: Result<Vec<ClosedFeatherFile>, ConversionError>)
    ensures
        match result {
            Ok(files) => all_or_first_error(
                findings(catalog_path@, instance_id@, data_types@, listings@),
            ) == Ok::<_, ConversionErrorView>(file_views(files@)),
            Err(error) => all_or_first_error(
                findings(catalog_path@, instance_id@, data_types@, listings@),
            ) == Err::<Seq<ClosedFeatherFileView>, _>(error@),
        },
{
    let mut files: Vec<ClosedFeatherFile> = Vec::new();
    assert(file_views(files@) =~= Seq::empty());
    let ghost of_type = |data_type: Seq<char>|
        data_type_findings(catalog_path@, instance_id@, listings@, data_type);
    let names = data_types.names();
    let ghost types = texts(names@);
    let mut i: usize = 0;
    assert(types.take(0).flat_map(of_type) =~= Seq::empty());
    while i < names.len()
        invariant
            i <= names@.len(),
            types == texts(names@),
            types == in_order(data_types@),
            forall|data_type: Seq<char>| #[trigger]
                of_type(data_type) == data_type_findings(
                    catalog_path@,
                    instance_id@,
                    listings@,
                    data_type,
                ),
            findings(catalog_path@, instance_id@, data_types@, listings@) == types.flat_map(
                of_type,
            ),
            all_or_first_error(types.take(i as int).flat_map(of_type)) == Ok::<
                _,
                ConversionErrorView,
            >(file_views(files@)),
        decreases names@.len() - i,
    {
        proof {
            assert(types[i as int] == names@[i as int]@);
            types.lemma_flat_map_take_append(of_type, i as int);
            lemma_concat_results(
                types.take(i as int).flat_map(of_type),
                of_type(types[i as int]),
            );
        }
        match data_type_files(catalog_path, instance_id, listings, names[i].as_str()) {
            Ok(mut more) => {
                let ghost previous = files@;
                let ghost added = more@;
                files.append(&mut more);
                assert(file_views(files@) =~= file_views(previous) + file_views(added));
            },
            Err(error) => {
                proof {
                    lemma_early_error_among(types, of_type, i + 1);
                }
                return Err(error);
            },
        }
        i += 1;
    }
    assert(types.take(i as int) =~= types);
    Ok(files)
}

/// What an error says: the thing that could not be done, without its reason
/// where there is one, or the bare reason.
pub open spec fn error_message(error: ConversionErrorView) -> Seq<char> {
    match error {
        ConversionErrorView::ReadDataDirectory { path, .. } => "failed to read data directory "@
            + path_text(path),
        ConversionErrorView::ReadEntry { reason } => reason,
        ConversionErrorView::ReadIdentifierDirectory { path, .. } =>
            "failed to read identifier directory "@ + path_text(path),
        ConversionErrorView::NotUnderCatalog { file_path, catalog_path } => "failed to make "@
            + path_text(file_path) + " relative to "@ + path_text(catalog_path),
    }
}

/// Why the thing could not be done: what the file system said of it, or that
/// the path of the catalog does not start that of the file. The message of an
/// entry that could not be read is the reason itself.
pub open spec fn error_reason(error: ConversionErrorView) -> Option<Seq<char>> {
    match error {
        ConversionErrorView::ReadDataDirectory { reason, .. } => Some(reason),
        ConversionErrorView::ReadEntry { .. } => None,
        ConversionErrorView::ReadIdentifierDirectory { reason, .. } => Some(reason),
        ConversionErrorView::NotUnderCatalog { .. } => Some("prefix not found"@),
    }
}

impl ConversionError {
    /// What the error says.
    pub fn message(&self) -> (message: String)
        ensures
            message@ == error_message(self@),
    {
        match self {
            ConversionError::ReadDataDirectory { path, .. } => {
                "failed to read data directory ".to_owned().concat(
                    display(path.as_slice()).as_str(),
                )
            },
            ConversionError::ReadEntry { reason } => reason.clone(),
            ConversionError::ReadIdentifierDirectory { path, .. } => {
                "failed to read identifier directory ".to_owned().concat(
                    display(path.as_slice()).as_str(),
                )
            },
            ConversionError::NotUnderCatalog { file_path, catalog_path } => {
                "failed to make ".to_owned().concat(display(file_path.as_slice()).as_str()).concat(
                    " relative to ",
                ).concat(display(catalog_path.as_slice()).as_str())
            },
        }
    }

    /// Why the thing could not be done, where the message does not say so.
    pub fn reason(&self) -> (reason: Option<String>)
        ensures
            match reason {
                Some(reason) => error_reason(self@) == Some(reason@),
                None => error_reason(self@) is None,
            },
    {
        match self {
            ConversionError::ReadDataDirectory { reason, .. } => Some(reason.clone()),
            ConversionError::ReadEntry { .. } => None,
            ConversionError::ReadIdentifierDirectory { reason, .. } => Some(reason.clone()),
            ConversionError::NotUnderCatalog { .. } => Some("prefix not found".to_owned()),
        }
    }
}

/// The feather file that an identifier's directory keeps: the last in order.
pub open spec fn latest_name(files: Seq<Result<Vec<u8>, String>>) -> Seq<u8> {
    feather_names(files).sort_by(name_order()).last()
}

/// Of the feather files of an identifier only the latest is kept: no name
/// comes after it, and it and the closed names are all there are.
pub proof fn law_only_the_latest_file_is_kept(files: Seq<Result<Vec<u8>, String>>)
    requires
        feather_names(files).len() > 0,
    ensures
        forall|i: int|
            0 <= i < feather_names(files).len() ==> bytes_at_most(
                #[trigger] feather_names(files)[i],
                latest_name(files),
            ),
        closed_names(files).push(latest_name(files)).to_multiset() == feather_names(
            files,
        ).to_multiset(),
        forall|i: int, j: int|
            0 <= i < j < closed_names(files).len() ==> bytes_at_most(
                #[trigger] closed_names(files)[i],
                #[trigger] closed_names(files)[j],
            ),
{
    broadcast use vstd::seq_lib::group_to_multiset_ensures;

    let names = feather_names(files);
    let sorted = names.sort_by(name_order());
    let order = name_order();
    lemma_bytes_at_most_is_total_ordering();
    names.lemma_sort_by_ensures(order);
    assert(sorted.len() == names.len()) by {
        names.to_multiset_ensures();
        sorted.to_multiset_ensures();
    }
    assert(closed_names(files).push(latest_name(files)) =~= sorted);
    assert forall|i: int| 0 <= i < names.len() implies bytes_at_most(
        #[trigger] names[i],
        latest_name(files),
    ) by {
        vstd::seq_lib::to_multiset_contains(names, names[i]);
        vstd::seq_lib::to_multiset_contains(sorted, names[i]);
        assert(names.contains(names[i]));
        assert(sorted.contains(names[i]));
        let at = choose|at: int| 0 <= at < sorted.len() && sorted[at] == names[i];
        if at < sorted.len() - 1 {
            assert(order(sorted[at], sorted[sorted.len() - 1]));
        }
    }
    assert forall|i: int, j: int|
        0 <= i < j < closed_names(files).len() implies bytes_at_most(
        #[trigger] closed_names(files)[i],
        #[trigger] closed_names(files)[j],
    ) by {
        assert(order(sorted[i], sorted[j]));
    }
}

/// The files of one identifier do not count for another: where no identifier
/// has two feather files, there is no closed file.
pub proof fn law_counts_are_kept_apart(
    catalog_path: Seq<u8>,
    instance_id: Seq<char>,
    listing: DataTypeListing,
    entries: Vec<Result<DirectoryEntry, String>>,
)
    requires
        listing.directory == Some(Ok::<_, String>(entries)),
        forall|i: int|
            0 <= i < entries@.len() ==> match #[trigger] entries@[i] {
                Ok(entry) => entry.is_dir ==> match entry.files {
                    Ok(files) => feather_names(files@).len() < 2,
                    Err(_) => false,
                },
                Err(_) => false,
            },
    ensures
        listing_findings(catalog_path, instance_id, listing).len() == 0,
{
    let path = live_directory(catalog_path, instance_id, listing.data_type@);
    let of_entry = |entry: Result<DirectoryEntry, String>|
        entry_findings(catalog_path, listing.data_type@, path, entry);
    assert forall|i: int| 0 <= i < entries@.len() implies of_entry(
        #[trigger] entries@[i],
    ).len() == 0 by {
        let entry = entries@[i]->Ok_0;
        if entry.is_dir {
            let names = feather_names(entry.files->Ok_0@);
            lemma_bytes_at_most_is_total_ordering();
            names.lemma_sort_by_ensures(name_order());
            names.to_multiset_ensures();
            names.sort_by(name_order()).to_multiset_ensures();
        }
    }
    lemma_nothing_found(entries@, of_entry, entries@.len() as int);
    assert(entries@.take(entries@.len() as int) =~= entries@);
}

proof fn lemma_nothing_found<A, B>(items: Seq<A>, found: spec_fn(A) -> Seq<B>, k: int)
    requires
        0 <= k <= items.len(),
        forall|i: int| 0 <= i < items.len() ==> found(#[trigger] items[i]).len() == 0,
    ensures
        items.take(k).flat_map(found).len() == 0,
    decreases k,
{
    if k > 0 {
        lemma_nothing_found(items, found, k - 1);
        items.lemma_flat_map_take_append(found, k - 1);
    } else {
        assert(items.take(k).flat_map(found) =~= Seq::empty());
    }
}

/// Whether `name` is a plain name: not empty, not `.`, and without `/`.
pub open spec fn is_plain_name(name: Seq<u8>) -> bool {
    &&& name.len() > 0
    &&& name != seq![DOT]
    &&& forall|i: int| 0 <= i < name.len() ==> name[i] != SEPARATOR
}

/// The path below the catalog of a file that the recorder writes.
pub open spec fn recorded_path(
    instance_id: Seq<u8>,
    data_type: Seq<u8>,
    identifier: Seq<u8>,
    name: Seq<u8>,
) -> Seq<u8> {
    encode_utf8("live"@).push(SEPARATOR) + instance_id.push(SEPARATOR) + data_type.push(SEPARATOR)
        + identifier.push(SEPARATOR) + name
}

/// A closed file lies below the catalog, whatever the catalog's path, and
/// its object path is `live/<instance>/<data type>/<identifier>/<name>`.
pub proof fn law_object_path_follows_the_layout(
    catalog_path: Seq<u8>,
    instance_id: Seq<char>,
    data_type: Seq<char>,
    identifier: Seq<u8>,
    name: Seq<u8>,
)
    requires
        is_plain_name(encode_utf8(instance_id)),
        is_plain_name(encode_utf8(data_type)),
        is_plain_name(identifier),
        is_plain_name(name),
    ensures
        ({
            let directory = joined_path(
                live_directory(catalog_path, instance_id, data_type),
                identifier,
            );
            let relative = recorded_path(
                encode_utf8(instance_id),
                encode_utf8(data_type),
                identifier,
                name,
            );
            file_finding(catalog_path, data_type, directory, name) == Ok::<_, ConversionErrorView>(
                ClosedFeatherFileView {
                    data_type,
                    file_path: joined_path(directory, name),
                    object_path: with_forward_slashes(path_text(relative)),
                },
            )
        }),
{
    let relative = recorded_path(
        encode_utf8(instance_id),
        encode_utf8(data_type),
        identifier,
        name,
    );
    lemma_recorded_path_is_joined(catalog_path, instance_id, data_type, identifier, name);
    lemma_live_is_plain();
    let live = encode_utf8("live"@);
    let last = relative.len() - name.len();
    lemma_run_end(relative, 0);
    assert(relative[1] == live[1]);
    assert(starts_with_name(relative));
    assert(ends_with_name(relative, last)) by {
        assert forall|j: int| last <= j < relative.len() implies relative[j] != SEPARATOR by {
            assert(relative[j] == name[j - last]);
        }
        if name.len() == 1 {
            assert(relative[last] == name[0]);
            assert(name[0] != DOT) by {
                if name[0] == DOT {
                    assert(name =~= seq![DOT]);
                }
            }
        }
    }
    law_joined_path_is_relative_to_its_base(catalog_path, relative, last);
}

/// The path of a recorded file is its path below the catalog, joined onto the
/// catalog.
pub proof fn lemma_recorded_path_is_joined(
    catalog_path: Seq<u8>,
    instance_id: Seq<char>,
    data_type: Seq<char>,
    identifier: Seq<u8>,
    name: Seq<u8>,
)
    requires
        is_plain_name(encode_utf8(instance_id)),
        is_plain_name(encode_utf8(data_type)),
        is_plain_name(identifier),
        is_plain_name(name),
    ensures
        ({
            let relative = recorded_path(
                encode_utf8(instance_id),
                encode_utf8(data_type),
                identifier,
                name,
            );
            let directory = joined_path(
                live_directory(catalog_path, instance_id, data_type),
                identifier,
            );
            &&& joined_path(directory, name) == joined_path(catalog_path, relative)
            &&& relative[0] != SEPARATOR
        }),
{
    let live = encode_utf8("live"@);
    let instance = encode_utf8(instance_id);
    let kind = encode_utf8(data_type);
    lemma_live_is_plain();
    let two = live.push(SEPARATOR) + instance;
    let three = two.push(SEPARATOR) + kind;
    let four = three.push(SEPARATOR) + identifier;
    let five = four.push(SEPARATOR) + name;
    lemma_join_twice(catalog_path, live, instance);
    lemma_join_twice(catalog_path, two, kind);
    lemma_join_twice(catalog_path, three, identifier);
    lemma_join_twice(catalog_path, four, name);
    assert(recorded_path(instance, kind, identifier, name) =~= five);
}

/// The object path of a file leads back to the file when it is joined onto the
/// catalog: the components are the same. The part below the catalog must be
/// UTF-8 and hold no backslash, since these do not come through.
pub proof fn law_object_path_joins_back(
    catalog_path: Seq<u8>,
    file_path: Seq<u8>,
    relative: Seq<u8>,
)
    requires
        relative_path(file_path, catalog_path) == Some(relative),
        valid_utf8(relative),
        !path_text(relative).contains('\\'),
    ensures
        object_path(catalog_path, file_path) == Some(path_text(relative)),
        encode_utf8(path_text(relative)) == relative,
        components(joined_path(catalog_path, encode_utf8(path_text(relative)))) == components(
            file_path,
        ),
{
    let text = path_text(relative);
    assert(with_forward_slashes(text) =~= text) by {
        assert forall|i: int| 0 <= i < text.len() implies text[i] != '\\' by {
            assert(text.contains(text[i]));
        }
    }
    vstd::utf8::decode_utf8_encode_utf8(relative);
    law_relative_path_joins_back(file_path, catalog_path);
}

/// The name `live` is plain.
pub proof fn lemma_live_is_plain()
    ensures
        encode_utf8("live"@).len() == 4,
        is_plain_name(encode_utf8("live"@)),
        encode_utf8("live"@)[0] == 0x6c,
{
    reveal_strlit("live");
    let live = encode_utf8("live"@);
    vstd::utf8::is_ascii_chars_encode_utf8("live"@);
    assert("live"@.len() == 4);
    assert(live[0] == 'l' as u8 && live[1] == 'i' as u8 && live[2] == 'v' as u8 && live[3]
        == 'e' as u8);
}

/// Joining one name after the other is joining the path of both.
proof fn lemma_join_twice(base: Seq<u8>, parent: Seq<u8>, name: Seq<u8>)
    requires
        parent.len() > 0,
        parent[0] != SEPARATOR,
        parent.last() != SEPARATOR,
        is_plain_name(name),
    ensures
        joined_path(joined_path(base, parent), name) == joined_path(
            base,
            parent.push(SEPARATOR) + name,
        ),
        (parent.push(SEPARATOR) + name)[0] != SEPARATOR,
        (parent.push(SEPARATOR) + name).last() != SEPARATOR,
{
    let longer = parent.push(SEPARATOR) + name;
    assert(longer[0] == parent[0]);
    assert(longer.last() == name.last());
    assert(joined_path(base, parent).last() == parent.last());
    assert(joined_path(joined_path(base, parent), name) =~= joined_path(base, longer));
}

} // verus!
