//! The order of the bridge's stages.
//!
//! The bridge itself touches nothing. It is told what happened and answers
//! with what to do next: connect, obtain the descriptor, read and write the
//! status file if one was asked for, start the child, and leave with a code.
//! The first failure ends the run: nothing is written or started after it.

use crate::descriptor::Platform;
use crate::dropfile::{
    byte_lines, check_dropfile_name, dropfile_filename, is_dropfile_name,
    lemma_rewrite_keeps_lines, lowercase, rewrite_dropfile, rewritten_bytes, DropfileError,
    DOOR32_SYS_FILENAME,
};
use crate::launch::{launch_arguments, launch_tokens, ExitOutcome, EXIT_FAILURE};
use crate::text::{
    decimal, decimal_bytes, decimal_string, lemma_split_join, signed_decimal,
    signed_decimal_string, split_on,
};
use vstd::prelude::*;
use vstd::string::StringExecFns;

verus! {

/// What one run of the bridge was asked to do.
#[derive(Clone, Debug, PartialEq, Eq)]
pub struct Request {
    /// The local port to connect to.
    pub port: i32,
    /// The path of the status file to read, or the empty string for none.
    pub dropfile: String,
    /// The last component of that path, if it names a file.
    pub dropfile_name: Option<String>,
    /// The directory that the path lies in, if it has one.
    pub dropfile_parent: Option<String>,
    /// The directory for the new status file, or the empty string for the
    /// directory of the old one.
    pub out: String,
    /// The launch template.
    pub target: String,
    /// The kind of platform.
    pub platform: Platform,
}

/// Where a run stands. From the moment the descriptor is known, the stage
/// holds it.
#[derive(Clone, Copy, Debug, PartialEq, Eq, Structural)]
pub enum Stage {
    /// Nothing has been done.
    Idle,
    /// The connection is being opened.
    Connecting,
    /// The descriptor is being obtained.
    Acquiring,
    /// The old status file is being read.
    Reading { descriptor: u64 },
    /// The new status file is being written.
    Writing { descriptor: u64 },
    /// The child runs.
    Running { descriptor: u64 },
    /// The run is over.
    Finished,
}

/// Why a run ended without a child's own exit code.
#[derive(Clone, Debug, PartialEq, Eq)]
pub enum Failure {
    /// The port could not be reached.
    Connection { diagnostic: String },
    /// No inheritable descriptor could be had.
    Duplication { diagnostic: String },
    /// The status file was refused.
    Dropfile { error: DropfileError },
    /// The old status file could not be read.
    Read { diagnostic: String },
    /// The new status file could not be written.
    Write { diagnostic: String },
    /// The child could not be started.
    Spawn { diagnostic: String },
    /// A signal ended the child.
    SignalTermination,
    /// The bridge was told of something it was not waiting for.
    OutOfTurn,
}

/// What happened outside.
#[derive(Clone, Debug, PartialEq, Eq)]
pub enum Event {
    /// The run begins.
    Start,
    /// The connection is open.
    Connected,
    /// The connection could not be opened.
    ConnectFailed { diagnostic: String },
    /// The descriptor value of the connection.
    Acquired { descriptor: u64 },
    /// No descriptor value could be obtained.
    AcquireFailed { diagnostic: String },
    /// The bytes of the old status file.
    DropfileRead { contents: Vec<u8> },
    /// The new status file is in place.
    DropfileWritten,
    /// The place for the new status file is no directory.
    NotADirectory,
    /// Reading or writing the status file failed.
    IoFailed { diagnostic: String },
    /// The child ended.
    ChildEnded { outcome: ExitOutcome },
    /// The child could not be started.
    SpawnFailed { diagnostic: String },
}

/// What to do next.
#[derive(Clone, Debug, PartialEq, Eq)]
pub enum Action {
    /// Open a connection to this address.
    Connect { address: String },
    /// Obtain the inheritable descriptor of the connection.
    Acquire,
    /// Read the status file at this path.
    ReadDropfile { path: String },
    /// Write these bytes to a file of this name in this directory, which
    /// must exist.
    WriteDropfile { directory: String, file_name: String, contents: Vec<u8> },
    /// Start this program with these arguments and wait for it.
    Launch { program: String, arguments: Vec<String> },
    /// Leave with this code.
    Exit { code: i32, failure: Option<Failure> },
}

/// The address of a local port.
pub open spec fn address_of(port: i32) -> Seq<char> {
    "localhost:"@ + signed_decimal(port as int)
}

/// The address to connect to for a port: always the local host.
pub fn connect_address(port: i32) -> (address: String)
    ensures
        address@ == address_of(port),
{
    let number = signed_decimal_string(port);
    String::from_str("localhost:").concat(number.as_str())
}

impl Stage {
    /// The descriptor value that the stage holds, if it is known.
    pub open spec fn descriptor(self) -> Option<u64> {
        match self {
            Stage::Reading { descriptor } => Some(descriptor),
            Stage::Writing { descriptor } => Some(descriptor),
            Stage::Running { descriptor } => Some(descriptor),
            _ => None,
        }
    }
}

impl Request {
    /// Whether a status file was asked for.
    pub open spec fn wants_dropfile(self) -> bool {
        self.dropfile@.len() > 0
    }

    /// Whether the path of the status file ends in the right file name.
    pub open spec fn names_dropfile(self) -> bool {
        self.dropfile_name is Some && is_dropfile_name(self.dropfile_name.unwrap()@)
    }

    /// The directory for the new status file, if there is one.
    pub open spec fn directory(self) -> Option<String> {
        if self.out@.len() > 0 {
            Some(self.out)
        } else {
            self.dropfile_parent
        }
    }

    /// The name of the new status file.
    pub open spec fn new_file_name(self) -> Seq<char> {
        match self.platform {
            Platform::HandleBased => lowercase(DOOR32_SYS_FILENAME@),
            Platform::DescriptorBased => DOOR32_SYS_FILENAME@,
        }
    }
}

impl Failure {
    /// The line that tells the operator of the failure.
    pub open spec fn message_text(self, request: Request) -> Seq<char> {
        match self {
            Failure::Connection { diagnostic } => "Failed to connect: "@ + diagnostic@,
            Failure::Duplication { diagnostic } => "Failed to duplicate handle: "@ + diagnostic@,
            Failure::Dropfile { error: DropfileError::NotAFile } => "Failed to read dropfile at "@
                + request.dropfile@ + ": the path does not name a file"@,
            Failure::Dropfile { error: DropfileError::NameMismatch } => 
                "Failed to read dropfile at "@ + request.dropfile@ + ": the file is not DOOR32.SYS"@,
            Failure::Dropfile { error: DropfileError::NotADirectory } => match request.directory() {
                Some(directory) => "Not a directory: "@ + directory@,
                None => "Not a directory: "@,
            },
            Failure::Dropfile { error: DropfileError::Encoding { line } } => 
                "Failed to convert to CP437: line "@ + decimal(line as nat),
            Failure::Read { diagnostic } => "Failed to read dropfile at "@ + request.dropfile@
                + ": "@ + diagnostic@,
            Failure::Write { diagnostic } => "Failed to write dropfile: "@ + diagnostic@,
            Failure::Spawn { diagnostic } => "Execute failed: "@ + diagnostic@,
            Failure::SignalTermination => "Process terminated by signal"@,
            Failure::OutOfTurn => "Event out of turn"@,
        }
    }

    /// The line that tells the operator of the failure, with the system's
    /// diagnostic where there is one.
    pub fn message(&self, request: &Request) -> (text: String)
        ensures
            text@ == self.message_text(*request),
    {
        match self {
            Failure::Connection { diagnostic } => String::from_str("Failed to connect: ").concat(
                diagnostic.as_str(),
            ),
            Failure::Duplication { diagnostic } => String::from_str(
                "Failed to duplicate handle: ",
            ).concat(diagnostic.as_str()),
            Failure::Dropfile { error } => match error {
                DropfileError::NotAFile => String::from_str("Failed to read dropfile at ").concat(
                    request.dropfile.as_str(),
                ).concat(": the path does not name a file"),
                DropfileError::NameMismatch => String::from_str(
                    "Failed to read dropfile at ",
                ).concat(request.dropfile.as_str()).concat(": the file is not DOOR32.SYS"),
                DropfileError::NotADirectory => {
                    let text = String::from_str("Not a directory: ");
                    if !request.out.as_str().is_empty() {
                        text.concat(request.out.as_str())
                    } else {
                        match &request.dropfile_parent {
                            Some(parent) => text.concat(parent.as_str()),
                            None => text,
                        }
                    }
                },
                DropfileError::Encoding { line } => {
                    let number = decimal_string(*line as u64);
                    String::from_str("Failed to convert to CP437: line ").concat(number.as_str())
                },
            },
            Failure::Read { diagnostic } => String::from_str("Failed to read dropfile at ").concat(
                request.dropfile.as_str(),
            ).concat(": ").concat(diagnostic.as_str()),
            Failure::Write { diagnostic } => String::from_str("Failed to write dropfile: ").concat(
                diagnostic.as_str(),
            ),
            Failure::Spawn { diagnostic } => String::from_str("Execute failed: ").concat(
                diagnostic.as_str(),
            ),
            Failure::SignalTermination => String::from_str("Process terminated by signal"),
            Failure::OutOfTurn => String::from_str("Event out of turn"),
        }
    }
}

/// An ending without a child's code.
pub open spec fn fails_with(action: Action, failure: Failure) -> bool {
    action == (Action::Exit { code: EXIT_FAILURE, failure: Some(failure) })
}

/// Whether the action starts the child of this request with this descriptor.
pub open spec fn launches(action: Action, request: Request, descriptor: u64) -> bool {
    let tokens = launch_tokens(request.target@, descriptor as nat);
    action matches Action::Launch { program, arguments } && program@ == tokens[0]
        && arguments.deep_view() == tokens.skip(1)
}

/// Whether `next` and `action` are the bridge's answer to `event` at `stage`.
pub open spec fn answers(
    request: Request,
    stage: Stage,
    event: Event,
    next: Stage,
    action: Action,
) -> bool {
    match (stage, event) {
        (Stage::Idle, Event::Start) => {
            &&& next == Stage::Connecting
            &&& action matches Action::Connect { address } && address@ == address_of(request.port)
        },
        (Stage::Connecting, Event::Connected) => {
            &&& next == Stage::Acquiring
            &&& action == Action::Acquire
        },
        (Stage::Connecting, Event::ConnectFailed { diagnostic }) => {
            &&& next == Stage::Finished
            &&& fails_with(action, Failure::Connection { diagnostic })
        },
        (Stage::Acquiring, Event::Acquired { descriptor }) => {
            if !request.wants_dropfile() {
                &&& next == Stage::Running { descriptor }
                &&& launches(action, request, descriptor)
            } else if request.dropfile_name is None {
                &&& next == Stage::Finished
                &&& fails_with(action, Failure::Dropfile { error: DropfileError::NotAFile })
            } else if !request.names_dropfile() {
                &&& next == Stage::Finished
                &&& fails_with(action, Failure::Dropfile { error: DropfileError::NameMismatch })
            } else {
                &&& next == Stage::Reading { descriptor }
                &&& action == Action::ReadDropfile { path: request.dropfile }
            }
        },
        (Stage::Acquiring, Event::AcquireFailed { diagnostic }) => {
            &&& next == Stage::Finished
            &&& fails_with(action, Failure::Duplication { diagnostic })
        },
        (Stage::Reading { descriptor }, Event::DropfileRead { contents }) => {
            match request.directory() {
                Some(wanted) => {
                    &&& next == Stage::Writing { descriptor }
                    &&& action matches Action::WriteDropfile { directory, file_name, contents: bytes }
                        && directory == wanted && file_name@ == request.new_file_name() && bytes@
                        == rewritten_bytes(contents@, descriptor as nat)
                },
                None => {
                    &&& next == Stage::Finished
                    &&& fails_with(action, Failure::Dropfile { error: DropfileError::NotAFile })
                },
            }
        },
        (Stage::Reading { descriptor }, Event::IoFailed { diagnostic }) => {
            &&& next == Stage::Finished
            &&& fails_with(action, Failure::Read { diagnostic })
        },
        (Stage::Writing { descriptor }, Event::DropfileWritten) => {
            &&& next == Stage::Running { descriptor }
            &&& launches(action, request, descriptor)
        },
        (Stage::Writing { descriptor }, Event::NotADirectory) => {
            &&& next == Stage::Finished
            &&& fails_with(action, Failure::Dropfile { error: DropfileError::NotADirectory })
        },
        (Stage::Writing { descriptor }, Event::IoFailed { diagnostic }) => {
            &&& next == Stage::Finished
            &&& fails_with(action, Failure::Write { diagnostic })
        },
        (Stage::Running { descriptor }, Event::ChildEnded { outcome }) => {
            &&& next == Stage::Finished
            &&& action == (Action::Exit {
                code: outcome.code(),
                failure: match outcome {
                    ExitOutcome::ExitedWithCode(_) => None,
                    ExitOutcome::TerminatedBySignal => Some(Failure::SignalTermination),
                },
            })
        },
        (Stage::Running { descriptor }, Event::SpawnFailed { diagnostic }) => {
            &&& next == Stage::Finished
            &&& fails_with(action, Failure::Spawn { diagnostic })
        },
        _ => {
            &&& next == Stage::Finished
            &&& fails_with(action, Failure::OutOfTurn)
        },
    }
}

/// A run as it was observed: the stage before each event, the events, and the
/// action that answered each. It begins idle and every answer is the bridge's.
pub open spec fn is_run(
    request: Request,
    stages: Seq<Stage>,
    events: Seq<Event>,
    actions: Seq<Action>,
) -> bool {
    &&& stages.len() == events.len() + 1
    &&& actions.len() == events.len()
    &&& stages[0] == Stage::Idle
    &&& forall|i: int|
        0 <= i < events.len() ==> answers(
            request,
            #[trigger] stages[i],
            events[i],
            stages[i + 1],
            actions[i],
        )
}

/// An answer ends the run exactly when it is an exit, and a run that is over
/// answers everything with a failing exit.
pub proof fn lemma_exit_ends(
    request: Request,
    stage: Stage,
    event: Event,
    next: Stage,
    action: Action,
)
    requires
        answers(request, stage, event, next, action),
    ensures
        action is Exit <==> next == Stage::Finished,
        stage == Stage::Finished ==> fails_with(action, Failure::OutOfTurn),
{
}

/// Nothing follows the end: after an exit, a run issues nothing but exits.
/// So a run whose connection failed never reads or writes a status file and
/// never starts a child.
pub proof fn lemma_nothing_after_exit(
    request: Request,
    stages: Seq<Stage>,
    events: Seq<Event>,
    actions: Seq<Action>,
    i: int,
    j: int,
)
    requires
        is_run(request, stages, events, actions),
        0 <= i < j < events.len(),
        actions[i] is Exit,
    ensures
        fails_with(actions[j], Failure::OutOfTurn),
        stages[j] == Stage::Finished,
    decreases j - i,
{
    assert(answers(request, stages[i], events[i], stages[i + 1], actions[i]));
    if j == i + 1 {
        assert(answers(request, stages[j], events[j], stages[j + 1], actions[j]));
    } else {
        lemma_nothing_after_exit(request, stages, events, actions, i, j - 1);
        assert(answers(request, stages[j - 1], events[j - 1], stages[j], actions[j - 1]));
        assert(answers(request, stages[j], events[j], stages[j + 1], actions[j]));
    }
}

/// A run has one descriptor value: whatever stage holds one holds the same.
pub proof fn lemma_one_descriptor(
    request: Request,
    stages: Seq<Stage>,
    events: Seq<Event>,
    actions: Seq<Action>,
    i: int,
    j: int,
)
    requires
        is_run(request, stages, events, actions),
        0 <= i <= j < stages.len(),
        stages[i].descriptor() is Some,
        stages[j].descriptor() is Some,
    ensures
        stages[i].descriptor() == stages[j].descriptor(),
    decreases j - i,
{
    if i < j {
        assert(answers(request, stages[j - 1], events[j - 1], stages[j], actions[j - 1]));
        if stages[j - 1].descriptor() is None {
            lemma_descriptor_begins(request, stages, events, actions, j - 1, i);
        } else {
            lemma_one_descriptor(request, stages, events, actions, i, j - 1);
        }
    }
}

/// Before the descriptor is known, no stage holds one.
proof fn lemma_descriptor_begins(
    request: Request,
    stages: Seq<Stage>,
    events: Seq<Event>,
    actions: Seq<Action>,
    k: int,
    i: int,
)
    requires
        is_run(request, stages, events, actions),
        0 <= i <= k < stages.len() - 1,
        stages[k].descriptor() is None,
        stages[k + 1].descriptor() is Some,
    ensures
        stages[i].descriptor() is None,
    decreases k - i,
{
    assert(answers(request, stages[k], events[k], stages[k + 1], actions[k]));
    assert(stages[k] == Stage::Acquiring);
    if i < k {
        lemma_acquiring_comes_first(request, stages, events, actions, k, i);
    }
}

/// Every stage before the one that obtains the descriptor is an earlier one.
proof fn lemma_acquiring_comes_first(
    request: Request,
    stages: Seq<Stage>,
    events: Seq<Event>,
    actions: Seq<Action>,
    k: int,
    i: int,
)
    requires
        is_run(request, stages, events, actions),
        0 <= i < k < stages.len(),
        stages[k] == Stage::Acquiring || stages[k] == Stage::Connecting || stages[k]
            == Stage::Idle,
    ensures
        stages[i] == Stage::Connecting || stages[i] == Stage::Idle,
    decreases k - i,
{
    assert(answers(request, stages[k - 1], events[k - 1], stages[k], actions[k - 1]));
    if i < k - 1 {
        lemma_acquiring_comes_first(request, stages, events, actions, k - 1, i);
    }
}

/// What a run writes and what it launches carry one number: the second line
/// of a status file that the run writes is the decimal numeral of the
/// descriptor value, and the arguments of a child that the run starts are the
/// template's tokens with the same value in them.
pub proof fn lemma_same_value_everywhere(
    request: Request,
    stages: Seq<Stage>,
    events: Seq<Event>,
    actions: Seq<Action>,
    i: int,
    j: int,
)
    requires
        is_run(request, stages, events, actions),
        0 <= i < events.len(),
        0 <= j < events.len(),
        actions[i] is WriteDropfile,
        actions[j] is Launch,
    ensures
        stages[i + 1].descriptor() is Some,
        stages[i + 1].descriptor() == stages[j + 1].descriptor(),
        byte_lines(actions[i]->WriteDropfile_contents@)[1] == decimal_bytes(
            stages[i + 1].descriptor().unwrap() as nat,
        ),
        launches(actions[j], request, stages[j + 1].descriptor().unwrap()),
{
    assert(answers(request, stages[i], events[i], stages[i + 1], actions[i]));
    assert(answers(request, stages[j], events[j], stages[j + 1], actions[j]));
    if i <= j {
        lemma_one_descriptor(request, stages, events, actions, i + 1, j + 1);
    } else {
        lemma_one_descriptor(request, stages, events, actions, j + 1, i + 1);
    }
    let descriptor = stages[i + 1].descriptor().unwrap();
    match events[i] {
        Event::DropfileRead { contents } => {
            lemma_rewrite_keeps_lines(contents@, descriptor as nat);
        },
        _ => {},
    }
}

/// Without a status file in the request, a run never reads or writes one:
/// the descriptor goes straight to the child.
pub proof fn lemma_no_dropfile_no_record(
    request: Request,
    stages: Seq<Stage>,
    events: Seq<Event>,
    actions: Seq<Action>,
    i: int,
)
    requires
        is_run(request, stages, events, actions),
        !request.wants_dropfile(),
        0 <= i < events.len(),
    ensures
        !(actions[i] is ReadDropfile),
        !(actions[i] is WriteDropfile),
        !(stages[i] is Reading),
        !(stages[i] is Writing),
        stages[i] == Stage::Acquiring && events[i] is Acquired ==> actions[i] is Launch,
    decreases i,
{
    assert(answers(request, stages[i], events[i], stages[i + 1], actions[i]));
    if i > 0 {
        lemma_no_dropfile_no_record(request, stages, events, actions, i - 1);
        assert(answers(request, stages[i - 1], events[i - 1], stages[i], actions[i - 1]));
    }
}

/// One run of the bridge.
pub struct Bridge {
    request: Request,
    stage: Stage,
}

fn give_up(reason: Failure) -> (action: Action)
    ensures
        fails_with(action, reason),
{
    Action::Exit { code: EXIT_FAILURE, failure: Some(reason) }
}

fn launch(request: &Request, descriptor: u64) -> (action: Action)
    ensures
        launches(action, *request, descriptor),
{
    let mut tokens = launch_arguments(request.target.as_str(), descriptor);
    proof {
        lemma_split_join(request.target@, ' ');
    }
    let ghost all = tokens.deep_view();
    let ghost before = tokens@;
    assert(all.len() == before.len());
    assert(all.len() == split_on(request.target@, ' ').len());
    let program = tokens.remove(0);
    proof {
        assert(all[0] == before[0]@);
        assert forall|i: int| 0 <= i < tokens@.len() implies tokens.deep_view()[i] == all.skip(
            1,
        )[i] by {
            assert(tokens@[i] == before[i + 1]);
            assert(all[i + 1] == before[i + 1]@);
        }
        assert(tokens.deep_view() =~= all.skip(1));
    }
    Action::Launch { program, arguments: tokens }
}

impl Bridge {
    /// The request of the run.
    pub closed spec fn request(&self) -> Request {
        self.request
    }

    /// The stage that the run is at.
    pub closed spec fn stage(&self) -> Stage {
        self.stage
    }

    /// A run that has not begun.
    pub fn new(request: Request) -> (bridge: Bridge)
        ensures
            bridge.request() == request,
            bridge.stage() == Stage::Idle,
    {
        Bridge { request, stage: Stage::Idle }
    }

    /// The stage that the run is at.
    pub fn current_stage(&self) -> (stage: Stage)
        ensures
            stage == self.stage(),
    {
        self.stage
    }

    /// Takes what happened and says what to do next.
    pub fn step(&mut self, event: Event) -> (action: Action)
        ensures
            final(self).request() == old(self).request(),
            answers(old(self).request(), old(self).stage(), event, final(self).stage(), action),
    {
        let stage = self.stage;
        self.stage = Stage::Finished;
        match (stage, event) {
            (Stage::Idle, Event::Start) => {
                self.stage = Stage::Connecting;
                Action::Connect { address: connect_address(self.request.port) }
            },
            (Stage::Connecting, Event::Connected) => {
                self.stage = Stage::Acquiring;
                Action::Acquire
            },
            (Stage::Connecting, Event::ConnectFailed { diagnostic }) => give_up(
                Failure::Connection { diagnostic },
            ),
            (Stage::Acquiring, Event::Acquired { descriptor }) => {
                if self.request.dropfile.as_str().is_empty() {
                    self.stage = Stage::Running { descriptor };
                    launch(&self.request, descriptor)
                } else {
                    let name: Option<&str> = match &self.request.dropfile_name {
                        Some(name) => Some(name.as_str()),
                        None => None,
                    };
                    match check_dropfile_name(name) {
                        Ok(()) => {
                            self.stage = Stage::Reading { descriptor };
                            Action::ReadDropfile { path: self.request.dropfile.clone() }
                        },
                        Err(error) => give_up(Failure::Dropfile { error }),
                    }
                }
            },
            (Stage::Acquiring, Event::AcquireFailed { diagnostic }) => give_up(
                Failure::Duplication { diagnostic },
            ),
            (Stage::Reading { descriptor }, Event::DropfileRead { contents }) => {
                let wanted: Option<String> = if self.request.out.as_str().is_empty() {
                    self.request.dropfile_parent.clone()
                } else {
                    Some(self.request.out.clone())
                };
                match wanted {
                    Some(directory) => {
                        self.stage = Stage::Writing { descriptor };
                        Action::WriteDropfile {
                            directory,
                            file_name: dropfile_filename(
                                DOOR32_SYS_FILENAME,
                                self.request.platform,
                            ),
                            contents: rewrite_dropfile(contents, descriptor),
                        }
                    },
                    None => give_up(Failure::Dropfile { error: DropfileError::NotAFile }),
                }
            },
            (Stage::Reading { descriptor }, Event::IoFailed { diagnostic }) => give_up(
                Failure::Read { diagnostic },
            ),
            (Stage::Writing { descriptor }, Event::DropfileWritten) => {
                self.stage = Stage::Running { descriptor };
                launch(&self.request, descriptor)
            },
            (Stage::Writing { descriptor }, Event::NotADirectory) => give_up(
                Failure::Dropfile { error: DropfileError::NotADirectory },
            ),
            (Stage::Writing { descriptor }, Event::IoFailed { diagnostic }) => give_up(
                Failure::Write { diagnostic },
            ),
            (Stage::Running { descriptor }, Event::ChildEnded { outcome }) => {
                let reason: Option<Failure> = match outcome {
                    ExitOutcome::ExitedWithCode(_) => None,
                    ExitOutcome::TerminatedBySignal => Some(Failure::SignalTermination),
                };
                Action::Exit { code: outcome.exit_code(), failure: reason }
            },
            (Stage::Running { descriptor }, Event::SpawnFailed { diagnostic }) => give_up(
                Failure::Spawn { diagnostic },
            ),
            _ => give_up(Failure::OutOfTurn),
        }
    }
}

} // verus!
