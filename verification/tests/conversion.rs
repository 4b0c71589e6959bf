use std::path::Path;
use std::path::PathBuf;

use collector::conversion::collect_closed_feather_files;
use collector::conversion::forward_slashes;
use collector::conversion::is_feather_name;
use collector::conversion::live_data_directory;
use collector::conversion::local_path_to_object_path;
use collector::conversion::ClosedFeatherFile;
use collector::conversion::ConversionError;
use collector::conversion::DataTypeListing;
use collector::conversion::DirectoryEntry;
use collector::names::NameSet;
use collector::paths::display;
use collector::paths::join;
use collector::paths::strip_prefix;

const TEMP_DIR: &str = "/tmp/nautilus-collector-conversion-test-1-1";

fn types(names: &[&str]) -> NameSet {
    let mut set = NameSet::new();
    for name in names {
        set.insert(name.to_string());
    }
    set
}

fn directory(name: &str, files: &[&str]) -> Result<DirectoryEntry, String> {
    Ok(DirectoryEntry {
        name: name.as_bytes().to_vec(),
        is_dir: true,
        files: Ok(files.iter().map(|file| Ok(file.as_bytes().to_vec())).collect()),
    })
}

fn listing(data_type: &str, entries: Vec<Result<DirectoryEntry, String>>) -> DataTypeListing {
    DataTypeListing {
        data_type: data_type.to_string(),
        directory: Some(Ok(entries)),
    }
}

fn object_paths(files: &[ClosedFeatherFile]) -> Vec<&str> {
    files.iter().map(|file| file.object_path.as_str()).collect()
}

#[test]
fn skips_single_feather_file() {
    let listings = vec![listing("quotes", vec![directory("BTCUSD", &["BTCUSD_1.feather"])])];

    let files = collect_closed_feather_files(TEMP_DIR.as_bytes(), "instance", &types(&["quotes"]), &listings).unwrap();

    assert!(files.is_empty());
}

#[test]
fn keeps_latest_feather_file_per_identifier_directory() {
    let listings = vec![listing(
        "quotes",
        vec![directory(
            "BTCUSD",
            &["BTCUSD_1.feather", "BTCUSD_2.feather", "BTCUSD_3.feather"],
        )],
    )];

    let files = collect_closed_feather_files(TEMP_DIR.as_bytes(), "instance", &types(&["quotes"]), &listings).unwrap();

    assert_eq!(
        object_paths(&files),
        vec![
            "live/instance/quotes/BTCUSD/BTCUSD_1.feather",
            "live/instance/quotes/BTCUSD/BTCUSD_2.feather",
        ]
    );
}

#[test]
fn does_not_combine_feather_counts_across_identifier_directories() {
    let listings = vec![listing(
        "quotes",
        vec![
            directory("BTCUSD", &["BTCUSD_1.feather"]),
            directory("ETHUSD", &["ETHUSD_1.feather"]),
        ],
    )];

    let files = collect_closed_feather_files(TEMP_DIR.as_bytes(), "instance", &types(&["quotes"]), &listings).unwrap();

    assert!(files.is_empty());
}

#[test]
fn sorts_by_name_and_ignores_what_is_no_feather_file() {
    let mut entry = directory("BTCUSD", &["b.feather", "10.feather", "9.feather", "a.txt", ".feather"]);
    if let Ok(entry) = &mut entry {
        if let Ok(files) = &mut entry.files {
            files.push(Err("permission denied".to_string()));
        }
    }
    let file = Ok(DirectoryEntry {
        name: b"notes.feather".to_vec(),
        is_dir: false,
        files: Err("not a directory".to_string()),
    });
    let listings = vec![
        DataTypeListing {
            data_type: "book_deltas".to_string(),
            directory: None,
        },
        listing("quotes", vec![file, entry]),
    ];

    let files = collect_closed_feather_files(b"/data/", "i", &types(&["book_deltas", "quotes"]), &listings).unwrap();

    assert_eq!(
        files,
        vec![
            ClosedFeatherFile {
                data_type: "quotes".to_string(),
                file_path: b"/data/live/i/quotes/BTCUSD/10.feather".to_vec(),
                object_path: "live/i/quotes/BTCUSD/10.feather".to_string(),
            },
            ClosedFeatherFile {
                data_type: "quotes".to_string(),
                file_path: b"/data/live/i/quotes/BTCUSD/9.feather".to_vec(),
                object_path: "live/i/quotes/BTCUSD/9.feather".to_string(),
            },
        ]
    );
}

#[test]
fn collects_data_types_and_identifiers_in_their_order() {
    let listings = vec![
        listing("trades", vec![directory("B", &["1.feather", "2.feather"]), directory("A", &["1.feather", "2.feather"])]),
        listing("quotes", vec![directory("C", &["1.feather", "2.feather"])]),
    ];

    let files = collect_closed_feather_files(b"./catalog", "i", &types(&["trades", "quotes", "bars"]), &listings).unwrap();

    assert_eq!(
        object_paths(&files),
        vec![
            "live/i/quotes/C/1.feather",
            "live/i/trades/B/1.feather",
            "live/i/trades/A/1.feather",
        ]
    );
    assert_eq!(files[0].data_type, "quotes");
    assert_eq!(files[2].data_type, "trades");
}

#[test]
fn names_the_data_directory_that_cannot_be_read() {
    let listings = vec![DataTypeListing {
        data_type: "quotes".to_string(),
        directory: Some(Err("denied".to_string())),
    }];

    let error = collect_closed_feather_files(b"/c", "i", &types(&["quotes"]), &listings).unwrap_err();

    assert_eq!(
        error,
        ConversionError::ReadDataDirectory {
            path: b"/c/live/i/quotes".to_vec(),
            reason: "denied".to_string(),
        }
    );
    assert_eq!(error.message(), "failed to read data directory /c/live/i/quotes");
    assert_eq!(error.reason(), Some("denied".to_string()));
}

#[test]
fn names_the_identifier_directory_that_cannot_be_read() {
    let entry = Ok(DirectoryEntry {
        name: b"BTCUSD".to_vec(),
        is_dir: true,
        files: Err("denied".to_string()),
    });

    let error =
        collect_closed_feather_files(b"/c", "i", &types(&["quotes"]), &vec![listing("quotes", vec![entry])]).unwrap_err();

    assert_eq!(
        error,
        ConversionError::ReadIdentifierDirectory {
            path: b"/c/live/i/quotes/BTCUSD".to_vec(),
            reason: "denied".to_string(),
        }
    );
    assert_eq!(
        error.message(),
        "failed to read identifier directory /c/live/i/quotes/BTCUSD"
    );
}

#[test]
fn first_error_decides() {
    let listings = vec![
        listing("quotes", vec![Err("broken entry".to_string()), Err("later".to_string())]),
        DataTypeListing {
            data_type: "trades".to_string(),
            directory: Some(Err("denied".to_string())),
        },
    ];

    let error = collect_closed_feather_files(b"/c", "i", &types(&["quotes", "trades"]), &listings).unwrap_err();

    assert_eq!(error, ConversionError::ReadEntry { reason: "broken entry".to_string() });
    assert_eq!(error.message(), "broken entry");
    assert_eq!(error.reason(), None);
}

#[test]
fn files_outside_the_catalog_are_an_error() {
    // An absolute data type leaves the catalog.
    let listings = vec![listing("/elsewhere", vec![directory("A", &["1.feather", "2.feather"])])];

    let error = collect_closed_feather_files(b"/c", "i", &types(&["/elsewhere"]), &listings).unwrap_err();

    assert_eq!(
        error,
        ConversionError::NotUnderCatalog {
            file_path: b"/elsewhere/A/1.feather".to_vec(),
            catalog_path: b"/c".to_vec(),
        }
    );
    assert_eq!(error.message(), "failed to make /elsewhere/A/1.feather relative to /c");
    assert_eq!(
        error.reason(),
        Some(Path::new("/elsewhere/A/1.feather").strip_prefix("/c").unwrap_err().to_string())
    );
}

#[test]
fn object_paths_have_forward_slashes() {
    assert_eq!(
        local_path_to_object_path(b"/c", br"/c/live\i/quotes").unwrap(),
        "live/i/quotes"
    );
    assert_eq!(local_path_to_object_path(b"/c", b"/c/x//y/./z/").unwrap(), "x//y/./z");
    assert_eq!(local_path_to_object_path(b"/c", b"/c").unwrap(), "");
    assert!(local_path_to_object_path(b"/c", b"/cc/x").is_err());
    assert_eq!(forward_slashes(r"a\b\\c"), "a/b//c");
}

#[test]
fn bytes_that_are_not_text_are_replaced() {
    assert_eq!(local_path_to_object_path(b"/c", b"/c/a\xffb").unwrap(), "a\u{fffd}b");
    assert_eq!(display("caf\u{e9}".as_bytes()), "caf\u{e9}");
    assert_eq!(display(b"\xf0\x9f"), "\u{fffd}");
}

#[test]
fn live_directories_lie_below_the_catalog() {
    assert_eq!(live_data_directory(b"/c", "i", "quotes"), b"/c/live/i/quotes".to_vec());
    assert_eq!(live_data_directory(b"", "i", "quotes"), b"live/i/quotes".to_vec());
}

const PATHS: [&str; 22] = [
    "", "/", ".", "..", "./", "a", "a/", "a//b", "/a", "/a/", "//a", "/./a", "./a", "a/.", "a/./b",
    "../a", "a/..", "/a/b/c", "a/b/c", "./a/b/", "/.", "a b/c.d",
];

#[test]
fn prefixes_are_stripped_as_the_standard_library_does() {
    for path in PATHS {
        for base in PATHS {
            let expected = Path::new(path)
                .strip_prefix(base)
                .ok()
                .map(|rest| rest.to_str().unwrap().as_bytes().to_vec());
            assert_eq!(strip_prefix(path.as_bytes(), base.as_bytes()), expected, "{path:?} {base:?}");
        }
    }
}

#[test]
fn paths_are_joined_as_the_standard_library_does() {
    for base in PATHS {
        for child in PATHS {
            let expected = Path::new(base).join(child).to_str().unwrap().as_bytes().to_vec();
            assert_eq!(join(base.as_bytes(), child.as_bytes()), expected, "{base:?} {child:?}");
        }
    }
}

#[test]
fn feather_extensions_are_those_of_the_standard_library() {
    for name in [
        "a.feather", "a.FEATHER", ".feather", "..feather", "feather", "a.b.feather", "a.feather.gz",
        "a.feather.", "xfeather", "a.Feather", "b_.feather",
    ] {
        let expected = Path::new(name).extension().is_some_and(|ext| ext == "feather");
        assert_eq!(is_feather_name(name.as_bytes()), expected, "{name:?}");
    }
}

#[test]
fn files_of_a_directory_are_ordered_as_their_paths() {
    let names = ["b.feather", "B.feather", "a-1.feather", "a.1.feather", "a1.feather", "\u{e9}.feather", "aa.feather"];
    let mut paths: Vec<PathBuf> = names.iter().map(|name| Path::new("/c/live/i/quotes/X").join(name)).collect();
    paths.sort();
    paths.pop();

    let files =
        collect_closed_feather_files(b"/c", "i", &types(&["quotes"]), &vec![listing("quotes", vec![directory("X", &names)])])
            .unwrap();

    let expected: Vec<Vec<u8>> = paths.iter().map(|path| path.to_str().unwrap().as_bytes().to_vec()).collect();
    let found: Vec<Vec<u8>> = files.iter().map(|file| file.file_path.clone()).collect();
    assert_eq!(found, expected);
}

#[test]
fn the_order_and_the_repetition_of_listings_do_not_matter() {
    let of = |name: &str| listing(name, vec![directory("A", &["1.feather", "2.feather"])]);
    let data_types = types(&["quotes", "trades"]);
    let expected = vec!["live/i/quotes/A/1.feather", "live/i/trades/A/1.feather"];

    for listings in [
        vec![of("quotes"), of("trades")],
        vec![of("trades"), of("bars"), of("quotes"), of("trades")],
    ] {
        let files = collect_closed_feather_files(b"/c", "i", &data_types, &listings).unwrap();
        assert_eq!(object_paths(&files), expected);
    }
}

#[test]
fn a_new_file_closes_the_former_latest() {
    let closed = |names: &[&str]| -> Vec<String> {
        let listings = vec![listing("quotes", vec![directory("A", names)])];
        let files = collect_closed_feather_files(b"/c", "i", &types(&["quotes"]), &listings).unwrap();
        files.into_iter().map(|file| file.object_path).collect()
    };

    assert_eq!(closed(&["notes.txt"]), Vec::<String>::new());
    assert_eq!(closed(&["notes.txt", "1.feather"]), Vec::<String>::new());
    assert_eq!(closed(&["2.feather", "1.feather"]), vec!["live/i/quotes/A/1.feather"]);
    assert_eq!(
        closed(&["2.feather", "3.feather", "1.feather"]),
        vec!["live/i/quotes/A/1.feather", "live/i/quotes/A/2.feather"]
    );
}

#[test]
fn object_paths_lead_back_to_their_files() {
    for (catalog, file) in [
        ("/c", "/c/a/b"),
        ("/c/", "/c//a/./b/"),
        ("", "/a"),
        ("", "./a/b"),
        (".", "./a"),
        ("/", "/./a"),
        ("c/./d", "c/d/x/../y"),
        ("/c", "/c"),
        ("/", "//."),
    ] {
        let object_path = local_path_to_object_path(catalog.as_bytes(), file.as_bytes()).unwrap();
        assert_eq!(Path::new(catalog).join(&object_path), PathBuf::from(file), "{catalog} {file}");
        let joined = join(catalog.as_bytes(), object_path.as_bytes());
        assert_eq!(joined, Path::new(catalog).join(&object_path).to_str().unwrap().as_bytes());
    }
}

#[test]
fn instances_and_data_types_may_be_paths() {
    for (instance, data_type, expected) in [
        ("a/b", "quotes", "live/a/b/quotes/A/1.feather"),
        ("", "quotes", "live/quotes/A/1.feather"),
        ("..", "./x/quotes/", "live/../x/quotes/A/1.feather"),
        ("/c/elsewhere", "quotes", "elsewhere/quotes/A/1.feather"),
    ] {
        let listings = vec![listing(data_type, vec![directory("A", &["1.feather", "2.feather"])])];
        let files = collect_closed_feather_files(b"/c", instance, &types(&[data_type]), &listings).unwrap();

        let path = Path::new("/c").join("live").join(instance).join(data_type).join("A/1.feather");
        assert_eq!(files[0].file_path, path.to_str().unwrap().as_bytes());
        assert_eq!(Path::new(&files[0].object_path), path.strip_prefix("/c").unwrap());
        assert_eq!(Path::new(&files[0].object_path), Path::new(expected));
    }
}

#[test]
fn names_that_could_not_be_read_close_nothing() {
    let mut entry = directory("A", &["1.feather"]);
    if let Ok(DirectoryEntry { files: Ok(files), .. }) = &mut entry {
        files.push(Err("denied".to_string()));
    }

    let files =
        collect_closed_feather_files(b"/c", "i", &types(&["quotes"]), &vec![listing("quotes", vec![entry])])
            .unwrap();

    assert!(files.is_empty());
}
