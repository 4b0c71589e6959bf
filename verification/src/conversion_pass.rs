//! The steps of a conversion pass, and of the task that repeats it.
//!
//! A pass converts the closed files one after the other. A file that was
//! converted is deleted; one that could not be converted stays, and the pass
//! goes on with the next.
use vstd::prelude::*;
use vstd::slice::slice_to_vec;
use vstd::string::StringExecFns;

use crate::conversion::collect_closed_feather_files;
use crate::conversion::file_views;
use crate::conversion::findings;
use crate::conversion::ClosedFeatherFile;
use crate::conversion::ClosedFeatherFileView;
use crate::conversion::ConversionError;
use crate::conversion::ConversionErrorView;
use crate::conversion::DataTypeListing;
use crate::names::NameSet;
use crate::results::all_or_first_error;

verus! {

/// Seconds from the start of one conversion pass to the next.
pub const CONVERSION_INTERVAL_SECS: u64 = 60;

/// What a pass does next.
#[derive(Debug, Clone, Copy, PartialEq, Eq, Structural)]
pub enum PassAction {
    /// Convert the file with this index.
    Convert { index: usize },
    /// Delete the converted file with this index.
    Delete { index: usize },
    /// Nothing is left to do.
    Finish,
}

/// The action that starts work on the file `index` of `count`.
pub open spec fn action_at(count: int, index: int) -> PassAction {
    if index < count {
        PassAction::Convert { index: index as usize }
    } else {
        PassAction::Finish
    }
}

/// The action that follows `action`, which succeeded or not, in a pass over
/// `count` files.
pub open spec fn action_after(count: int, action: PassAction, succeeded: bool) -> PassAction {
    match action {
        PassAction::Convert { index } => if succeeded {
            PassAction::Delete { index }
        } else {
            action_at(count, index + 1)
        },
        PassAction::Delete { index } => action_at(count, index + 1),
        PassAction::Finish => PassAction::Finish,
    }
}

/// Whether an action speaks of one of `count` files.
pub open spec fn is_action_of(count: int, action: PassAction) -> bool {
    match action {
        PassAction::Convert { index } => index < count,
        PassAction::Delete { index } => index < count,
        PassAction::Finish => true,
    }
}

/// How far a pass has come: two steps for each file.
pub open spec fn progress(count: int, action: PassAction) -> int {
    match action {
        PassAction::Convert { index } => 2 * index,
        PassAction::Delete { index } => 2 * index + 1,
        PassAction::Finish => 2 * count,
    }
}

/// The first action of a pass over `count` files.
fn first_action(count: usize) -> (action: PassAction)
    ensures
        action == action_at(count as int, 0),
        is_action_of(count as int, action),
{
    if count == 0 {
        PassAction::Finish
    } else {
        PassAction::Convert { index: 0 }
    }
}

/// The action that follows `action` in a pass over `count` files.
fn next_action(count: usize, action: PassAction, succeeded: bool) -> (next: PassAction)
    requires
        is_action_of(count as int, action),
    ensures
        next == action_after(count as int, action, succeeded),
        is_action_of(count as int, next),
        action is Finish || progress(count as int, action) < progress(count as int, next),
{
    let done: usize = match action {
        PassAction::Convert { index } => {
            if succeeded {
                return PassAction::Delete { index };
            }
            index
        },
        PassAction::Delete { index } => index,
        PassAction::Finish => {
            return PassAction::Finish;
        },
    };
    if done + 1 < count {
        PassAction::Convert { index: done + 1 }
    } else {
        PassAction::Finish
    }
}

/// What a pass asks for.
#[derive(Debug, Clone, PartialEq, Eq)]
pub enum PassRequest {
    /// Convert the file with this object path, and this path in the file
    /// system, into data of this type.
    Convert {
        data_type: String,
        object_path: String,
        file_path: Vec<u8>,
        use_event_time: bool,
    },
    /// Delete the file with this path.
    Delete { file_path: Vec<u8> },
    /// Nothing is left to do.
    Finish,
}

pub enum PassRequestView {
    Convert {
        data_type: Seq<char>,
        object_path: Seq<char>,
        file_path: Seq<u8>,
        use_event_time: bool,
    },
    Delete { file_path: Seq<u8> },
    Finish,
}

impl View for PassRequest {
    type V = PassRequestView;

    open spec fn view(&self) -> PassRequestView {
        match self {
            PassRequest::Convert { data_type, object_path, file_path, use_event_time } =>
                PassRequestView::Convert {
                    data_type: data_type@,
                    object_path: object_path@,
                    file_path: file_path@,
                    use_event_time: *use_event_time,
                },
            PassRequest::Delete { file_path } => PassRequestView::Delete { file_path: file_path@ },
            PassRequest::Finish => PassRequestView::Finish,
        }
    }
}

/// What an action asks for: the type and the paths of the file go to the
/// conversion, its path in the file system to the deletion.
pub open spec fn request_of(
    files: Seq<ClosedFeatherFileView>,
    action: PassAction,
) -> PassRequestView {
    match action {
        PassAction::Convert { index } => PassRequestView::Convert {
            data_type: files[index as int].data_type,
            object_path: files[index as int].object_path,
            file_path: files[index as int].file_path,
            use_event_time: false,
        },
        PassAction::Delete { index } => PassRequestView::Delete {
            file_path: files[index as int].file_path,
        },
        PassAction::Finish => PassRequestView::Finish,
    }
}

/// A conversion pass over closed files.
#[derive(Debug)]
pub struct ConversionPass {
    files: Vec<ClosedFeatherFile>,
    action: PassAction,
}

impl ConversionPass {
    /// The files of the pass.
    pub closed spec fn files(&self) -> Seq<ClosedFeatherFileView> {
        file_views(self.files@)
    }

    /// What the pass does next.
    pub closed spec fn action(&self) -> PassAction {
        self.action
    }

    #[verifier::type_invariant]
    spec fn well_formed(&self) -> bool {
        is_action_of(self.files@.len() as int, self.action)
    }

    /// A pass over `files` that has not begun.
    pub fn new(files: Vec<ClosedFeatherFile>) -> (pass: Self)
        ensures
            pass.files() == file_views(files@),
            pass.action() == action_at(files@.len() as int, 0),
    {
        let action = first_action(files.len());
        ConversionPass { files, action }
    }

    /// What the pass asks for now.
    pub fn request(&self) -> (request: PassRequest)
        ensures
            request@ == request_of(self.files(), self.action()),
            is_action_of(self.files().len() as int, self.action()),
    {
        proof {
            use_type_invariant(self);
        }
        match self.action {
            PassAction::Convert { index } => PassRequest::Convert {
                data_type: self.files[index].data_type.clone(),
                object_path: self.files[index].object_path.clone(),
                file_path: slice_to_vec(self.files[index].file_path.as_slice()),
                use_event_time: false,
            },
            PassAction::Delete { index } => PassRequest::Delete {
                file_path: slice_to_vec(self.files[index].file_path.as_slice()),
            },
            PassAction::Finish => PassRequest::Finish,
        }
    }

    /// Goes on after what the pass asked for succeeded or failed.
    pub fn record(&mut self, succeeded: bool)
        ensures
            final(self).files() == old(self).files(),
            final(self).action() == action_after(
                old(self).files().len() as int,
                old(self).action(),
                succeeded,
            ),
            old(self).action() is Finish || progress(
                old(self).files().len() as int,
                old(self).action(),
            ) < progress(old(self).files().len() as int, final(self).action()),
    {
        proof {
            use_type_invariant(&*self);
        }
        let action = next_action(self.files.len(), self.action, succeeded);
        self.action = action;
    }
}

/// Begins the conversion of the closed files of the data types: a pass over
/// exactly the files that are collected, or why they could not be collected.
pub fn convert_closed_feather_files(
    catalog_path: &[u8],
    instance_id: &str,
    data_types: &NameSet,
    listings: &Vec<DataTypeListing>,
) -> (result: Result<ConversionPass, ConversionError>)
    ensures
        match result {
            Ok(pass) => {
                &&& all_or_first_error(
                    findings(catalog_path@, instance_id@, data_types@, listings@),
                ) == Ok::<_, ConversionErrorView>(pass.files())
                &&& pass.action() == action_at(pass.files().len() as int, 0)
            },
            Err(error) => all_or_first_error(
                findings(catalog_path@, instance_id@, data_types@, listings@),
            ) == Err::<Seq<ClosedFeatherFileView>, _>(error@),
        },
{
    match collect_closed_feather_files(catalog_path, instance_id, data_types, listings) {
        Ok(files) => Ok(ConversionPass::new(files)),
        Err(error) => Err(error),
    }
}

/// The actions of a pass over `count` files from `action` on. `converts` says
/// which files can be converted, `deletes` which can be deleted.
pub open spec fn actions_from(
    count: int,
    action: PassAction,
    converts: spec_fn(int) -> bool,
    deletes: spec_fn(int) -> bool,
) -> Seq<PassAction>
    decreases 2 * count - progress(count, action),
    when is_action_of(count, action) && count <= usize::MAX
{
    match action {
        PassAction::Finish => Seq::empty(),
        PassAction::Convert { index } => seq![action] + actions_from(
            count,
            action_after(count, action, converts(index as int)),
            converts,
            deletes,
        ),
        PassAction::Delete { index } => seq![action] + actions_from(
            count,
            action_after(count, action, deletes(index as int)),
            converts,
            deletes,
        ),
    }
}

/// What is done with the file `index`: it is converted, and then deleted if
/// that succeeded.
pub open spec fn actions_on_file(index: int, converts: spec_fn(int) -> bool) -> Seq<PassAction> {
    if converts(index) {
        seq![
            PassAction::Convert { index: index as usize },
            PassAction::Delete { index: index as usize },
        ]
    } else {
        seq![PassAction::Convert { index: index as usize }]
    }
}

/// What is done with the files from `index` to `count`, one after the other.
pub open spec fn actions_on_files(
    index: int,
    count: int,
    converts: spec_fn(int) -> bool,
) -> Seq<PassAction>
    decreases count - index,
{
    if index >= count {
        Seq::empty()
    } else {
        actions_on_file(index, converts) + actions_on_files(index + 1, count, converts)
    }
}

/// Whatever fails, a pass converts every file once, in order, and deletes
/// exactly the files that were converted, each before it goes on to the next.
pub proof fn law_pass_converts_all_and_deletes_the_converted(
    count: usize,
    converts: spec_fn(int) -> bool,
    deletes: spec_fn(int) -> bool,
)
    ensures
        actions_from(count as int, action_at(count as int, 0), converts, deletes)
            == actions_on_files(0, count as int, converts),
{
    lemma_actions_from(count as int, 0, converts, deletes);
}

proof fn lemma_actions_from(
    count: int,
    index: int,
    converts: spec_fn(int) -> bool,
    deletes: spec_fn(int) -> bool,
)
    requires
        0 <= index <= count <= usize::MAX,
    ensures
        actions_from(count, action_at(count, index), converts, deletes) == actions_on_files(
            index,
            count,
            converts,
        ),
    decreases count - index,
{
    if index < count {
        lemma_actions_from(count, index + 1, converts, deletes);
        let convert = PassAction::Convert { index: index as usize };
        let delete = PassAction::Delete { index: index as usize };
        let rest = actions_on_files(index + 1, count, converts);
        assert(actions_from(count, delete, converts, deletes) =~= seq![delete] + rest);
        assert(actions_from(count, convert, converts, deletes) =~= actions_on_file(index, converts)
            + rest);
    }
}

/// A file is deleted only right after its conversion succeeded.
pub proof fn law_delete_follows_conversion(count: usize, action: PassAction, succeeded: bool)
    requires
        is_action_of(count as int, action),
    ensures
        action_after(count as int, action, succeeded) matches PassAction::Delete { index } ==> {
            &&& action == PassAction::Convert { index }
            &&& succeeded
        },
{
}

/// What happened to the task that repeats the conversion pass.
#[derive(Debug)]
pub enum TaskEvent {
    /// The task was started.
    Started,
    /// The interval is over.
    Tick,
    /// The pass came to its end.
    PassSucceeded,
    /// The pass could not list the closed files, for this reason.
    PassFailed { detail: String },
    /// The pass was broken off, for this reason.
    JoinFailed { detail: String },
}

/// What the task does next.
#[derive(Debug, PartialEq, Eq)]
pub enum TaskAction {
    /// Run a conversion pass.
    RunPass,
    /// Wait for the end of the interval, after this warning.
    AwaitTick { warning: Option<String> },
}

/// The text of a warning.
pub open spec fn is_warning(warning: Option<String>, expected: Option<Seq<char>>) -> bool {
    match warning {
        Some(warning) => expected == Some(warning@),
        None => expected is None,
    }
}

/// What a task warns of after `event`.
pub open spec fn warning_of(event: TaskEvent) -> Option<Seq<char>> {
    match event {
        TaskEvent::Started => None,
        TaskEvent::Tick => None,
        TaskEvent::PassSucceeded => None,
        TaskEvent::PassFailed { detail } => Some("stream conversion pass failed: "@ + detail@),
        TaskEvent::JoinFailed { detail } => Some("stream conversion task join failed: "@ + detail@),
    }
}

/// The next action of the task: a pass after every tick, and at the start and
/// after every pass, failed or not, the wait for the next tick.
pub fn task_step(event: &TaskEvent) -> (action: TaskAction)
    ensures
        match action {
            TaskAction::RunPass => event is Tick,
            TaskAction::AwaitTick { warning } => !(event is Tick) && is_warning(
                warning,
                warning_of(*event),
            ),
        },
{
    match event {
        TaskEvent::Tick => TaskAction::RunPass,
        TaskEvent::Started => TaskAction::AwaitTick { warning: None },
        TaskEvent::PassSucceeded => TaskAction::AwaitTick { warning: None },
        TaskEvent::PassFailed { detail } => TaskAction::AwaitTick {
            warning: Some("stream conversion pass failed: ".to_owned().concat(detail.as_str())),
        },
        TaskEvent::JoinFailed { detail } => TaskAction::AwaitTick {
            warning: Some("stream conversion task join failed: ".to_owned().concat(detail.as_str())),
        },
    }
}

} // verus!
