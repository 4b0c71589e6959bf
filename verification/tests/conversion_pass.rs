use collector::conversion::ClosedFeatherFile;
use collector::conversion::ConversionError;
use collector::conversion::DataTypeListing;
use collector::conversion::DirectoryEntry;
use collector::conversion_pass::convert_closed_feather_files;
use collector::conversion_pass::task_step;
use collector::conversion_pass::ConversionPass;
use collector::conversion_pass::PassRequest;
use collector::conversion_pass::TaskAction;
use collector::conversion_pass::TaskEvent;
use collector::conversion_pass::CONVERSION_INTERVAL_SECS;
use collector::names::NameSet;

fn quotes() -> NameSet {
    let mut data_types = NameSet::new();
    data_types.insert("quotes".to_string());
    data_types
}

fn file(n: u8) -> ClosedFeatherFile {
    ClosedFeatherFile {
        data_type: "quotes".to_string(),
        file_path: format!("/c/live/instance/quotes/BTCUSD/BTCUSD_{n}.feather").into_bytes(),
        object_path: format!("live/instance/quotes/BTCUSD/BTCUSD_{n}.feather"),
    }
}

fn convert(n: u8) -> PassRequest {
    PassRequest::Convert {
        data_type: "quotes".to_string(),
        object_path: format!("live/instance/quotes/BTCUSD/BTCUSD_{n}.feather"),
        file_path: format!("/c/live/instance/quotes/BTCUSD/BTCUSD_{n}.feather").into_bytes(),
        use_event_time: false,
    }
}

fn delete(n: u8) -> PassRequest {
    PassRequest::Delete {
        file_path: format!("/c/live/instance/quotes/BTCUSD/BTCUSD_{n}.feather").into_bytes(),
    }
}

fn run(files: Vec<ClosedFeatherFile>, outcomes: &[bool]) -> Vec<PassRequest> {
    let mut pass = ConversionPass::new(files);
    let mut requests = Vec::new();
    for outcome in outcomes {
        requests.push(pass.request());
        pass.record(*outcome);
    }
    requests.push(pass.request());
    requests
}

#[test]
fn converted_files_are_deleted_by_their_path() {
    assert_eq!(
        run(vec![file(1), file(2)], &[true, true, true, true]),
        vec![convert(1), delete(1), convert(2), delete(2), PassRequest::Finish]
    );
}

#[test]
fn files_that_cannot_be_converted_stay() {
    assert_eq!(
        run(vec![file(1), file(2)], &[false, true, true]),
        vec![convert(1), convert(2), delete(2), PassRequest::Finish]
    );
}

#[test]
fn a_failed_deletion_does_not_end_the_pass() {
    assert_eq!(
        run(vec![file(1), file(2)], &[true, false, false]),
        vec![convert(1), delete(1), convert(2), PassRequest::Finish]
    );
}

#[test]
fn a_pass_without_files_is_finished() {
    assert_eq!(run(Vec::new(), &[]), vec![PassRequest::Finish]);
    assert_eq!(run(Vec::new(), &[true]), vec![PassRequest::Finish, PassRequest::Finish]);
}

#[test]
fn the_task_runs_a_pass_after_every_tick() {
    assert_eq!(CONVERSION_INTERVAL_SECS, 60);
    assert_eq!(
        task_step(&TaskEvent::Started),
        TaskAction::AwaitTick { warning: None }
    );
    assert_eq!(task_step(&TaskEvent::Tick), TaskAction::RunPass);
    assert_eq!(
        task_step(&TaskEvent::PassSucceeded),
        TaskAction::AwaitTick { warning: None }
    );
}

#[test]
fn the_task_goes_on_after_failures() {
    assert_eq!(
        task_step(&TaskEvent::PassFailed { detail: "denied".to_string() }),
        TaskAction::AwaitTick {
            warning: Some("stream conversion pass failed: denied".to_string()),
        }
    );
    assert_eq!(
        task_step(&TaskEvent::JoinFailed { detail: "panicked".to_string() }),
        TaskAction::AwaitTick {
            warning: Some("stream conversion task join failed: panicked".to_string()),
        }
    );
}

#[test]
fn a_pass_begins_with_the_first_closed_file() {
    let names = ["BTCUSD_2.feather", "BTCUSD_1.feather"];
    let listings = vec![DataTypeListing {
        data_type: "quotes".to_string(),
        directory: Some(Ok(vec![Ok(DirectoryEntry {
            name: b"BTCUSD".to_vec(),
            is_dir: true,
            files: Ok(names.iter().map(|name| Ok(name.as_bytes().to_vec())).collect()),
        })])),
    }];

    let mut pass = convert_closed_feather_files(b"/c", "instance", &quotes(), &listings).unwrap();

    assert_eq!(pass.request(), convert(1));
    pass.record(true);
    assert_eq!(pass.request(), delete(1));
    pass.record(true);
    assert_eq!(pass.request(), PassRequest::Finish);
}

#[test]
fn a_pass_does_not_begin_when_files_cannot_be_listed() {
    let listings = vec![DataTypeListing {
        data_type: "quotes".to_string(),
        directory: Some(Err("denied".to_string())),
    }];

    let error = convert_closed_feather_files(b"/c", "instance", &quotes(), &listings).unwrap_err();

    assert_eq!(
        error,
        ConversionError::ReadDataDirectory {
            path: b"/c/live/instance/quotes".to_vec(),
            reason: "denied".to_string(),
        }
    );
}

fn list(names: &[String]) -> Vec<DataTypeListing> {
    vec![DataTypeListing {
        data_type: "quotes".to_string(),
        directory: Some(Ok(vec![Ok(DirectoryEntry {
            name: b"BTCUSD".to_vec(),
            is_dir: true,
            files: Ok(names.iter().map(|name| Ok(name.as_bytes().to_vec())).collect()),
        })])),
    }]
}

/// Runs a pass over the files with these names, in which the conversion and the
/// deletion of what `converts` and `deletes` name succeed. The names that are
/// left come back, with the names that were converted or tried.
fn pass_over(
    names: Vec<String>,
    converts: impl Fn(&str) -> bool,
    deletes: impl Fn(&str) -> bool,
) -> (Vec<String>, Vec<String>) {
    let mut pass = convert_closed_feather_files(b"/c", "instance", &quotes(), &list(&names)).unwrap();
    let mut left = names;
    let mut tried = Vec::new();
    let name_of = |path: &[u8]| {
        let path = String::from_utf8(path.to_vec()).unwrap();
        path.strip_prefix("/c/live/instance/quotes/BTCUSD/").unwrap().to_string()
    };
    loop {
        match pass.request() {
            PassRequest::Convert { file_path, .. } => {
                let name = name_of(&file_path);
                pass.record(converts(&name));
                tried.push(name);
            }
            PassRequest::Delete { file_path } => {
                let name = name_of(&file_path);
                let deleted = deletes(&name);
                if deleted {
                    left.retain(|other| *other != name);
                }
                pass.record(deleted);
            }
            PassRequest::Finish => return (left, tried),
        }
    }
}

fn some_names() -> Vec<String> {
    ["3.feather", "notes.txt", "1.feather", "4.feather", "2.feather"]
        .iter()
        .map(|name| name.to_string())
        .collect()
}

#[test]
fn a_pass_keeps_the_latest_file_and_what_is_no_feather_file() {
    let (left, tried) = pass_over(some_names(), |_| true, |_| true);

    assert_eq!(left, vec!["notes.txt", "4.feather"]);
    assert_eq!(tried, vec!["1.feather", "2.feather", "3.feather"]);
}

#[test]
fn a_second_pass_has_nothing_to_do() {
    let (left, _) = pass_over(some_names(), |_| true, |_| true);

    assert_eq!(pass_over(left.clone(), |_| true, |_| true), (left, Vec::new()));
}

#[test]
fn what_stayed_is_converted_again_once() {
    let (left, _) = pass_over(some_names(), |name| name != "2.feather", |name| name != "3.feather");

    assert_eq!(left, vec!["3.feather", "notes.txt", "4.feather", "2.feather"]);
    let (left, tried) = pass_over(left, |_| true, |_| true);
    assert_eq!(left, vec!["notes.txt", "4.feather"]);
    assert_eq!(tried, vec!["2.feather", "3.feather"]);
}

#[test]
fn files_of_other_data_types_are_left_alone() {
    let mut trades = NameSet::new();
    trades.insert("trades".to_string());

    let pass = convert_closed_feather_files(b"/c", "instance", &trades, &list(&some_names())).unwrap();

    assert_eq!(pass.request(), PassRequest::Finish);
}
