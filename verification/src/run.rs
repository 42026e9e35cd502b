//! One test, from its text to the verdict.
//!
//! A [`TestRun`] decides what is to be done next; whoever drives it does that and tells it what
//! came of it.

use vstd::prelude::*;

use crate::command::{
    binary_file, compiler_args, compiler_arguments, law_command_line, Arg, CompileType, PieceView,
};
use crate::error::{Error, ErrorView};
use crate::fingerprint::{
    bare_name, Fingerprint, FingerprintFile, FingerprintFileView, FingerprintView,
};
use crate::locked::{
    is_lock, law_lock_needs_graph_and_project, lock_error, locked_version, LockedDeps,
    LockedDepsView,
};
use crate::metadata::{
    law_newest_edition_is_named, newest_edition, newest_edition_name, Edition, Metadata,
    MetadataView,
};
use crate::path::{FilePath, FilePathView, StepView};
use crate::select::{
    fingerprints_in, get_rlib_dependencies, is_choice, is_selection,
    law_best_build_of_each_library_is_linked, law_builds_that_exist_are_left,
    law_other_versions_are_not_selected, lemma_present_are_some, present_of, retain_present,
};

verus! {

/// What is to be done next.
#[derive(Debug)]
pub enum Action {
    /// Make a directory of its own, whose name begins with `prefix`, and write `text` to the file
    /// `file_name` in it.
    Prepare { prefix: String, file_name: String, text: String },
    /// Find out what is known of the project with this manifest.
    ReadMetadata(FilePath),
    /// Look at every file below this directory.
    Scan(FilePath),
    /// Find out which of these files exist.
    Probe(Vec<FilePath>),
    /// Run the compiler.
    Compile { program: String, args: Vec<Arg> },
    /// Run the test, in a directory.
    Run { binary: FilePath, dir: FilePath },
    /// Nothing: the test has passed.
    Pass,
    /// Nothing: the test has failed.
    Fail(Failure),
}

/// Why a test has failed.
#[derive(Debug, PartialEq, Eq)]
pub enum Failure {
    /// The manifest could not be read.
    Manifest(String),
    /// No package is of an edition with a known name.
    Edition,
    /// The dependencies could not be worked out.
    Dependencies(Error),
    /// The compiler or the test ended with an error.
    Command,
}

/// What came of an action.
#[derive(Debug)]
pub enum Event {
    /// The directory is there; the environment names this compiler.
    Prepared { scratch: FilePath, rustc: Option<String> },
    /// What is known of the project, with the text of the path of its manifest.
    Metadata { manifest: String, read: Result<Metadata, String> },
    /// The files that were found.
    Scanned(Vec<FingerprintFile>),
    /// Which of the files exist.
    Probed(Vec<bool>),
    /// The command has ended, with success or without.
    Exited(bool),
}

/// What a test waits for.
#[derive(Debug)]
pub enum Stage {
    Preparing,
    ReadingManifest { scratch: FilePath, rustc: String },
    ReadingLock { scratch: FilePath, rustc: String, edition: String },
    ReadingOtherLock { scratch: FilePath, rustc: String, edition: String },
    Scanning { scratch: FilePath, rustc: String, edition: String, lock: LockedDeps },
    Probing { scratch: FilePath, rustc: String, edition: String, found: Vec<Fingerprint> },
    Compiling { scratch: FilePath },
    Running,
    Over,
}

/// A test on its way.
#[derive(Debug)]
pub struct TestRun {
    pub compile_type: CompileType,
    pub root_dir: FilePath,
    pub target_dir: FilePath,
    pub target_triple: String,
    pub stage: Stage,
}

/// What is to be done next, as a mathematical value.
pub enum ActionView {
    Prepare { prefix: Seq<char>, file_name: Seq<char>, text: Seq<char> },
    ReadMetadata(FilePathView),
    Scan(FilePathView),
    Probe(Seq<FilePathView>),
    Compile { program: Seq<char>, args: Seq<Seq<PieceView>> },
    Run { binary: FilePathView, dir: FilePathView },
    Pass,
    Fail(FailureView),
}

/// Why a test has failed, as a mathematical value.
pub enum FailureView {
    Manifest(Seq<char>),
    Edition,
    Dependencies(ErrorView),
    Command,
}

/// What came of an action, as a mathematical value.
pub enum EventView {
    Prepared { scratch: FilePathView, rustc: Option<Seq<char>> },
    Metadata { manifest: Seq<char>, read: Result<MetadataView, Seq<char>> },
    Scanned(Seq<FingerprintFileView>),
    Probed(Seq<bool>),
    Exited(bool),
}

/// What a test waits for, as a mathematical value.
pub enum StageView {
    Preparing,
    ReadingManifest { scratch: FilePathView, rustc: Seq<char> },
    ReadingLock { scratch: FilePathView, rustc: Seq<char>, edition: Seq<char> },
    ReadingOtherLock { scratch: FilePathView, rustc: Seq<char>, edition: Seq<char> },
    Scanning {
        scratch: FilePathView,
        rustc: Seq<char>,
        edition: Seq<char>,
        lock: LockedDepsView,
    },
    Probing {
        scratch: FilePathView,
        rustc: Seq<char>,
        edition: Seq<char>,
        found: Seq<FingerprintView>,
    },
    Compiling { scratch: FilePathView },
    Running,
    Over,
}

/// A test on its way, as a mathematical value.
pub struct TestRunView {
    pub compile_type: CompileType,
    pub root_dir: FilePathView,
    pub target_dir: FilePathView,
    pub target_triple: Seq<char>,
    pub stage: StageView,
}

impl DeepView for Failure {
    type V = FailureView;

    open spec fn deep_view(&self) -> FailureView {
        match *self {
            Failure::Manifest(message) => FailureView::Manifest(message@),
            Failure::Edition => FailureView::Edition,
            Failure::Dependencies(error) => FailureView::Dependencies(error.deep_view()),
            Failure::Command => FailureView::Command,
        }
    }
}

impl DeepView for Action {
    type V = ActionView;

    open spec fn deep_view(&self) -> ActionView {
        match *self {
            Action::Prepare { prefix, file_name, text } => ActionView::Prepare {
                prefix: prefix@,
                file_name: file_name@,
                text: text@,
            },
            Action::ReadMetadata(path) => ActionView::ReadMetadata(path.deep_view()),
            Action::Scan(path) => ActionView::Scan(path.deep_view()),
            Action::Probe(paths) => ActionView::Probe(paths.deep_view()),
            Action::Compile { program, args } => ActionView::Compile {
                program: program@,
                args: args.deep_view(),
            },
            Action::Run { binary, dir } => ActionView::Run {
                binary: binary.deep_view(),
                dir: dir.deep_view(),
            },
            Action::Pass => ActionView::Pass,
            Action::Fail(failure) => ActionView::Fail(failure.deep_view()),
        }
    }
}

impl DeepView for Event {
    type V = EventView;

    open spec fn deep_view(&self) -> EventView {
        match *self {
            Event::Prepared { scratch, rustc } => EventView::Prepared {
                scratch: scratch.deep_view(),
                rustc: rustc.deep_view(),
            },
            Event::Metadata { manifest, read } => EventView::Metadata {
                manifest: manifest@,
                read: match read {
                    Ok(metadata) => Ok(metadata.deep_view()),
                    Err(message) => Err(message@),
                },
            },
            Event::Scanned(files) => EventView::Scanned(files.deep_view()),
            Event::Probed(present) => EventView::Probed(present@),
            Event::Exited(success) => EventView::Exited(success),
        }
    }
}

impl DeepView for Stage {
    type V = StageView;

    open spec fn deep_view(&self) -> StageView {
        match *self {
            Stage::Preparing => StageView::Preparing,
            Stage::ReadingManifest { scratch, rustc } => StageView::ReadingManifest {
                scratch: scratch.deep_view(),
                rustc: rustc@,
            },
            Stage::ReadingLock { scratch, rustc, edition } => StageView::ReadingLock {
                scratch: scratch.deep_view(),
                rustc: rustc@,
                edition: edition@,
            },
            Stage::ReadingOtherLock { scratch, rustc, edition } => StageView::ReadingOtherLock {
                scratch: scratch.deep_view(),
                rustc: rustc@,
                edition: edition@,
            },
            Stage::Scanning { scratch, rustc, edition, lock } => StageView::Scanning {
                scratch: scratch.deep_view(),
                rustc: rustc@,
                edition: edition@,
                lock: lock.deep_view(),
            },
            Stage::Probing { scratch, rustc, edition, found } => StageView::Probing {
                scratch: scratch.deep_view(),
                rustc: rustc@,
                edition: edition@,
                found: found.deep_view(),
            },
            Stage::Compiling { scratch } => StageView::Compiling { scratch: scratch.deep_view() },
            Stage::Running => StageView::Running,
            Stage::Over => StageView::Over,
        }
    }
}

impl DeepView for TestRun {
    type V = TestRunView;

    open spec fn deep_view(&self) -> TestRunView {
        TestRunView {
            compile_type: self.compile_type,
            root_dir: self.root_dir.deep_view(),
            target_dir: self.target_dir.deep_view(),
            target_triple: self.target_triple@,
            stage: self.stage.deep_view(),
        }
    }
}

/// The manifest of the project in a directory.
pub open spec fn manifest_in(dir: FilePathView) -> FilePathView {
    dir.into("Cargo.toml"@)
}

/// Where the files are that the libraries were built to, files of one build being three levels
/// below it.
pub open spec fn target_of(out_dir: FilePathView) -> FilePathView {
    out_dir.up().up().up()
}

/// Where else the manifest of the project may be: two levels above what is built.
pub open spec fn other_root(target_dir: FilePathView) -> FilePathView {
    target_dir.up().up()
}

/// The files of some builds.
pub open spec fn files_of(builds: Seq<FingerprintView>) -> Seq<FilePathView> {
    builds.map_values(|build: FingerprintView| build.rlib)
}

/// Why the locked packages of a project cannot be worked out.
pub open spec fn lock_failure(
    manifest: Seq<char>,
    read: Result<MetadataView, Seq<char>>,
) -> Option<ErrorView> {
    match read {
        Ok(metadata) => lock_error(metadata, manifest),
        Err(message) => Some(ErrorView::Metadata(message)),
    }
}

impl TestRunView {
    /// A test at its beginning.
    pub open spec fn start(
        compile_type: CompileType,
        root_dir: Seq<char>,
        out_dir: Seq<char>,
        target_triple: Seq<char>,
    ) -> TestRunView {
        TestRunView {
            compile_type,
            root_dir: FilePathView::of(root_dir),
            target_dir: target_of(FilePathView::of(out_dir)),
            target_triple,
            stage: StageView::Preparing,
        }
    }

    /// The same test at another stage.
    pub open spec fn at(self, stage: StageView) -> TestRunView {
        TestRunView { stage, ..self }
    }

    /// The test waits for such an event.
    pub open spec fn awaits(self, event: EventView) -> bool {
        match (self.stage, event) {
            (StageView::Preparing, EventView::Prepared { .. }) => true,
            (StageView::ReadingManifest { .. }, EventView::Metadata { .. }) => true,
            (StageView::ReadingLock { .. }, EventView::Metadata { .. }) => true,
            (StageView::ReadingOtherLock { .. }, EventView::Metadata { .. }) => true,
            (StageView::Scanning { .. }, EventView::Scanned(_)) => true,
            (StageView::Probing { .. }, EventView::Probed(_)) => true,
            (StageView::Compiling { .. }, EventView::Exited(_)) => true,
            (StageView::Running, EventView::Exited(_)) => true,
            _ => false,
        }
    }

    /// The lock is worked out: the test goes on to look for the libraries.
    pub open spec fn scans(
        self,
        scratch: FilePathView,
        rustc: Seq<char>,
        edition: Seq<char>,
        manifest: Seq<char>,
        read: Result<MetadataView, Seq<char>>,
        after: TestRunView,
        action: ActionView,
    ) -> bool {
        &&& after.stage matches StageView::Scanning { lock, .. } && is_lock(
            read->Ok_0,
            manifest,
            lock,
        ) && after == self.at(StageView::Scanning { scratch, rustc, edition, lock })
        &&& action == ActionView::Scan(self.target_dir.into(".fingerprint/"@))
    }

    /// On this event the test goes on to `after` and asks for `action`.
    pub open spec fn moves(self, event: EventView, after: TestRunView, action: ActionView) -> bool {
        match (self.stage, event) {
            (StageView::Preparing, EventView::Prepared { scratch, rustc }) => {
                let rustc = match rustc {
                    Some(program) => program,
                    None => "rustc"@,
                };
                &&& after == self.at(StageView::ReadingManifest { scratch, rustc })
                &&& action == ActionView::ReadMetadata(manifest_in(self.root_dir))
            },
            (
                StageView::ReadingManifest { scratch, rustc },
                EventView::Metadata { manifest, read },
            ) => match read {
                Err(message) => {
                    &&& after == self.at(StageView::Over)
                    &&& action == ActionView::Fail(FailureView::Manifest(message))
                },
                Ok(metadata) => match newest_edition_name(metadata.packages) {
                    None => {
                        &&& after == self.at(StageView::Over)
                        &&& action == ActionView::Fail(FailureView::Edition)
                    },
                    Some(edition) => {
                        &&& after == self.at(StageView::ReadingLock { scratch, rustc, edition })
                        &&& action == ActionView::ReadMetadata(manifest_in(self.root_dir))
                    },
                },
            },
            (
                StageView::ReadingLock { scratch, rustc, edition },
                EventView::Metadata { manifest, read },
            ) => if lock_failure(manifest, read) is Some {
                &&& after == self.at(StageView::ReadingOtherLock { scratch, rustc, edition })
                &&& action == ActionView::ReadMetadata(manifest_in(other_root(self.target_dir)))
            } else {
                self.scans(scratch, rustc, edition, manifest, read, after, action)
            },
            (
                StageView::ReadingOtherLock { scratch, rustc, edition },
                EventView::Metadata { manifest, read },
            ) => match lock_failure(manifest, read) {
                Some(error) => {
                    &&& after == self.at(StageView::Over)
                    &&& action == ActionView::Fail(FailureView::Dependencies(error))
                },
                None => self.scans(scratch, rustc, edition, manifest, read, after, action),
            },
            (
                StageView::Scanning { scratch, rustc, edition, lock },
                EventView::Scanned(files),
            ) => {
                &&& after.stage matches StageView::Probing { found, .. } && is_selection(
                    lock.dependencies,
                    fingerprints_in(files),
                    found,
                ) && after == self.at(StageView::Probing { scratch, rustc, edition, found })
                    && action == ActionView::Probe(files_of(found))
            },
            (
                StageView::Probing { scratch, rustc, edition, found },
                EventView::Probed(present),
            ) => {
                &&& after == self.at(StageView::Compiling { scratch })
                &&& action == ActionView::Compile {
                    program: rustc,
                    args: compiler_args(
                        scratch,
                        edition,
                        self.target_dir,
                        self.target_triple,
                        present_of(found, present),
                        self.compile_type,
                    ),
                }
            },
            (StageView::Compiling { scratch }, EventView::Exited(success)) => if !success {
                &&& after == self.at(StageView::Over)
                &&& action == ActionView::Fail(FailureView::Command)
            } else if self.compile_type == CompileType::Check {
                &&& after == self.at(StageView::Over)
                &&& action == ActionView::Pass
            } else {
                &&& after == self.at(StageView::Running)
                &&& action == ActionView::Run { binary: binary_file(scratch), dir: scratch }
            },
            (StageView::Running, EventView::Exited(success)) => {
                &&& after == self.at(StageView::Over)
                &&& action == if success {
                    ActionView::Pass
                } else {
                    ActionView::Fail(FailureView::Command)
                }
            },
            _ => false,
        }
    }
}

/// Begins a test; the first thing to do is to write it to a file.
fn handle_test(
    root_dir: &str,
    out_dir: &str,
    target_triple: &str,
    test_text: &str,
    compile_type: CompileType,
) -> (begun: (TestRun, Action))
    ensures
        begun.0.deep_view() == TestRunView::start(
            compile_type,
            root_dir@,
            out_dir@,
            target_triple@,
        ),
        begun.1.deep_view() == (ActionView::Prepare {
            prefix: "rust-skeptic"@,
            file_name: "test.rs"@,
            text: test_text@,
        }),
{
    let mut target_dir = FilePath::new(out_dir);
    target_dir.pop();
    target_dir.pop();
    target_dir.pop();
    let run = TestRun {
        compile_type,
        root_dir: FilePath::new(root_dir),
        target_dir,
        target_triple: target_triple.to_owned(),
        stage: Stage::Preparing,
    };
    let action = Action::Prepare {
        prefix: "rust-skeptic".to_owned(),
        file_name: "test.rs".to_owned(),
        text: test_text.to_owned(),
    };
    (run, action)
}

/// Begins a test that is compiled but not run: of the project in `root_dir`, with the libraries
/// that were built three levels above `out_dir`.
pub fn compile_test(
    root_dir: &str,
    out_dir: &str,
    target_triple: &str,
    test_text: &str,
) -> (begun: (TestRun, Action))
    ensures
        begun.0.deep_view() == TestRunView::start(
            CompileType::Check,
            root_dir@,
            out_dir@,
            target_triple@,
        ),
        begun.1.deep_view() == (ActionView::Prepare {
            prefix: "rust-skeptic"@,
            file_name: "test.rs"@,
            text: test_text@,
        }),
{
    handle_test(root_dir, out_dir, target_triple, test_text, CompileType::Check)
}

/// Begins a test that is compiled and run: of the project in `root_dir`, with the libraries that
/// were built three levels above `out_dir`.
pub fn run_test(
    root_dir: &str,
    out_dir: &str,
    target_triple: &str,
    test_text: &str,
) -> (begun: (TestRun, Action))
    ensures
        begun.0.deep_view() == TestRunView::start(
            CompileType::Full,
            root_dir@,
            out_dir@,
            target_triple@,
        ),
        begun.1.deep_view() == (ActionView::Prepare {
            prefix: "rust-skeptic"@,
            file_name: "test.rs"@,
            text: test_text@,
        }),
{
    handle_test(root_dir, out_dir, target_triple, test_text, CompileType::Full)
}

/// The files of some builds.
fn rlibs(builds: &Vec<Fingerprint>) -> (files: Vec<FilePath>)
    ensures
        files.deep_view() == files_of(builds.deep_view()),
{
    let ghost all = builds.deep_view();
    let mut files: Vec<FilePath> = Vec::new();
    let mut i: usize = 0;
    while i < builds.len()
        invariant
            i <= builds@.len(),
            all == builds.deep_view(),
            files@.len() == i,
            forall|k: int| 0 <= k < i ==> (#[trigger] files@[k]).deep_view() == all[k].rlib,
        decreases builds@.len() - i,
    {
        files.push(builds[i].rlib.clone());
        i += 1;
    }
    assert(files.deep_view() == files_of(all));
    files
}

impl TestRun {
    /// Where the test goes on an event, and what is to be done then; `None`, and the test stays
    /// where it is, if it does not wait for such an event.
    pub fn step(self, event: Event) -> (next: (TestRun, Option<Action>))
        ensures
            next.1 is Some <==> self.deep_view().awaits(event.deep_view()),
            next.1 matches Some(action) ==> self.deep_view().moves(
                event.deep_view(),
                next.0.deep_view(),
                action.deep_view(),
            ),
            next.1 is None ==> next.0.deep_view() == self.deep_view(),
    {
        let TestRun { compile_type, root_dir, target_dir, target_triple, stage } = self;
        let (stage, action) = match (stage, event) {
            (Stage::Preparing, Event::Prepared { scratch, rustc }) => {
                let rustc = match rustc {
                    Some(program) => program,
                    None => "rustc".to_owned(),
                };
                let manifest = root_dir.join("Cargo.toml");
                (Stage::ReadingManifest { scratch, rustc }, Some(Action::ReadMetadata(manifest)))
            },
            (Stage::ReadingManifest { scratch, rustc }, Event::Metadata { manifest, read }) => {
                match read {
                    Err(message) => (
                        Stage::Over,
                        Some(Action::Fail(Failure::Manifest(message))),
                    ),
                    Ok(metadata) => match newest_edition(&metadata.packages) {
                        None => (Stage::Over, Some(Action::Fail(Failure::Edition))),
                        Some(name) => {
                            let edition = name.to_owned();
                            let path = root_dir.join("Cargo.toml");
                            (
                                Stage::ReadingLock { scratch, rustc, edition },
                                Some(Action::ReadMetadata(path)),
                            )
                        },
                    },
                }
            },
            (
                Stage::ReadingLock { scratch, rustc, edition },
                Event::Metadata { manifest, read },
            ) => match LockedDeps::from_path(&manifest, read) {
                Ok(lock) => (
                    Stage::Scanning { scratch, rustc, edition, lock },
                    Some(Action::Scan(target_dir.join(".fingerprint/"))),
                ),
                Err(_) => {
                    let mut other = target_dir.clone();
                    other.pop();
                    other.pop();
                    let path = other.join("Cargo.toml");
                    (
                        Stage::ReadingOtherLock { scratch, rustc, edition },
                        Some(Action::ReadMetadata(path)),
                    )
                },
            },
            (
                Stage::ReadingOtherLock { scratch, rustc, edition },
                Event::Metadata { manifest, read },
            ) => match LockedDeps::from_path(&manifest, read) {
                Ok(lock) => (
                    Stage::Scanning { scratch, rustc, edition, lock },
                    Some(Action::Scan(target_dir.join(".fingerprint/"))),
                ),
                Err(error) => (Stage::Over, Some(Action::Fail(Failure::Dependencies(error)))),
            },
            (Stage::Scanning { scratch, rustc, edition, lock }, Event::Scanned(files)) => {
                let found = get_rlib_dependencies(&lock, &files);
                let paths = rlibs(&found);
                (Stage::Probing { scratch, rustc, edition, found }, Some(Action::Probe(paths)))
            },
            (Stage::Probing { scratch, rustc, edition, found }, Event::Probed(present)) => {
                let libraries = retain_present(&found, &present);
                let args = compiler_arguments(
                    &scratch,
                    &edition,
                    &target_dir,
                    &target_triple,
                    &libraries,
                    compile_type,
                );
                (
                    Stage::Compiling { scratch },
                    Some(Action::Compile { program: rustc, args }),
                )
            },
            (Stage::Compiling { scratch }, Event::Exited(success)) => {
                if !success {
                    (Stage::Over, Some(Action::Fail(Failure::Command)))
                } else {
                    match compile_type {
                        CompileType::Check => (Stage::Over, Some(Action::Pass)),
                        CompileType::Full => {
                            let binary = scratch.join("out.exe");
                            (Stage::Running, Some(Action::Run { binary, dir: scratch }))
                        },
                    }
                }
            },
            (Stage::Running, Event::Exited(success)) => {
                if success {
                    (Stage::Over, Some(Action::Pass))
                } else {
                    (Stage::Over, Some(Action::Fail(Failure::Command)))
                }
            },
            (stage, _) => (stage, None),
        };
        (TestRun { compile_type, root_dir, target_dir, target_triple, stage }, action)
    }
}

/// A test was at `states`, one after the other: `events[i]` took it from one to the next, and it
/// asked for `actions[i]` then.
pub open spec fn is_trace(
    states: Seq<TestRunView>,
    events: Seq<EventView>,
    actions: Seq<ActionView>,
) -> bool {
    &&& states.len() == events.len() + 1
    &&& actions.len() == events.len()
    &&& forall|i: int|
        0 <= i < events.len() ==> states[i].moves(#[trigger] events[i], states[i + 1], actions[i])
}

/// How far a stage is from the first.
pub open spec fn rank(stage: StageView) -> int {
    match stage {
        StageView::Preparing => 0,
        StageView::ReadingManifest { .. } => 1,
        StageView::ReadingLock { .. } => 2,
        StageView::ReadingOtherLock { .. } => 3,
        StageView::Scanning { .. } => 4,
        StageView::Probing { .. } => 5,
        StageView::Compiling { .. } => 6,
        StageView::Running => 7,
        StageView::Over => 8,
    }
}

/// The test has come to a verdict.
pub open spec fn is_verdict(action: ActionView) -> bool {
    action is Pass || action is Fail
}

/// A test keeps what it was begun with, and every event takes it further.
proof fn lemma_trace_goes_on(
    states: Seq<TestRunView>,
    events: Seq<EventView>,
    actions: Seq<ActionView>,
    i: int,
)
    requires
        is_trace(states, events, actions),
        0 <= i < states.len(),
    ensures
        states[i].compile_type == states[0].compile_type,
        rank(states[i].stage) >= i + rank(states[0].stage),
    decreases i,
{
    if i > 0 {
        lemma_trace_goes_on(states, events, actions, i - 1);
        assert(states[i - 1].moves(events[i - 1], states[i - 1 + 1], actions[i - 1]));
    }
}

/// A test that waits for an event goes on when it comes, and only then.
pub proof fn law_only_awaited_events_move(
    before: TestRunView,
    event: EventView,
    after: TestRunView,
    action: ActionView,
)
    requires
        before.moves(event, after, action),
    ensures
        before.awaits(event),
        after == before.at(after.stage),
        rank(before.stage) < rank(after.stage),
{
}

/// A test is over after eight events at most, and with it comes the verdict, and no other event
/// is waited for then.
pub proof fn law_test_comes_to_a_verdict(
    states: Seq<TestRunView>,
    events: Seq<EventView>,
    actions: Seq<ActionView>,
)
    requires
        is_trace(states, events, actions),
        states[0].stage is Preparing,
    ensures
        events.len() <= 8,
        forall|i: int|
            0 <= i < events.len() ==> (is_verdict(#[trigger] actions[i]) <==> states[i
                + 1].stage is Over),
        forall|i: int|
            0 <= i < events.len() && is_verdict(#[trigger] actions[i]) ==> i == events.len() - 1,
        states.last().stage is Over <==> forall|event: EventView| !#[trigger]
            states.last().awaits(event),
{
    lemma_trace_goes_on(states, events, actions, states.len() - 1);
    assert forall|i: int| 0 <= i < events.len() implies (is_verdict(#[trigger] actions[i])
        <==> states[i + 1].stage is Over) by {
        assert(states[i].moves(events[i], states[i + 1], actions[i]));
    }
    assert forall|i: int|
        0 <= i < events.len() && is_verdict(#[trigger] actions[i]) implies i == events.len()
        - 1 by {
        if i < events.len() - 1 {
            assert(states[i + 1].moves(events[i + 1], states[i + 1 + 1], actions[i + 1]));
        }
    }
    let state = states.last();
    let directory = FilePathView::of(Seq::empty());
    let prepared = EventView::Prepared { scratch: directory, rustc: None };
    let metadata = EventView::Metadata { manifest: Seq::empty(), read: Err(Seq::empty()) };
    let scanned = EventView::Scanned(Seq::empty());
    let probed = EventView::Probed(Seq::empty());
    let exited = EventView::Exited(true);
    if !(state.stage is Over) {
        assert(state.awaits(prepared) || state.awaits(metadata) || state.awaits(scanned)
            || state.awaits(probed) || state.awaits(exited));
    }
}

/// A test that is only to be compiled is never run.
pub proof fn law_compiled_test_is_not_run(
    states: Seq<TestRunView>,
    events: Seq<EventView>,
    actions: Seq<ActionView>,
    i: int,
)
    requires
        is_trace(states, events, actions),
        states[0].compile_type == CompileType::Check,
        0 <= i < actions.len(),
    ensures
        !(actions[i] is Run),
{
    lemma_trace_goes_on(states, events, actions, i);
    assert(states[i].moves(events[i], states[i + 1], actions[i]));
}

/// A test is run only right after it was compiled, and only where that went well.
pub proof fn law_test_is_run_only_if_compiled(
    states: Seq<TestRunView>,
    events: Seq<EventView>,
    actions: Seq<ActionView>,
    i: int,
)
    requires
        is_trace(states, events, actions),
        states[0].stage is Preparing,
        0 <= i < actions.len(),
        actions[i] is Run,
    ensures
        i > 0,
        actions[i - 1] is Compile,
        events[i] == EventView::Exited(true),
{
    assert(states[i].moves(events[i], states[i + 1], actions[i]));
    assert(states[i - 1].moves(events[i - 1], states[i - 1 + 1], actions[i - 1]));
}

/// A test that is only to be compiled passes if and only if the compiler ends with success.
pub proof fn law_compiled_test_passes(
    states: Seq<TestRunView>,
    events: Seq<EventView>,
    actions: Seq<ActionView>,
    i: int,
)
    requires
        is_trace(states, events, actions),
        states[0].stage is Preparing,
        states[0].compile_type == CompileType::Check,
        0 <= i < actions.len(),
    ensures
        actions[i] is Pass <==> i > 0 && actions[i - 1] is Compile && events[i]
            == EventView::Exited(true),
{
    lemma_trace_goes_on(states, events, actions, i);
    assert(states[i].moves(events[i], states[i + 1], actions[i]));
    if i > 0 {
        assert(states[i - 1].moves(events[i - 1], states[i - 1 + 1], actions[i - 1]));
    }
}

/// A test that is to be run passes if and only if it was run and it ended with success.
pub proof fn law_run_test_passes(
    states: Seq<TestRunView>,
    events: Seq<EventView>,
    actions: Seq<ActionView>,
    i: int,
)
    requires
        is_trace(states, events, actions),
        states[0].stage is Preparing,
        states[0].compile_type == CompileType::Full,
        0 <= i < actions.len(),
    ensures
        actions[i] is Pass <==> i > 0 && actions[i - 1] is Run && events[i] == EventView::Exited(
            true,
        ),
{
    lemma_trace_goes_on(states, events, actions, i);
    assert(states[i].moves(events[i], states[i + 1], actions[i]));
    if i > 0 {
        lemma_trace_goes_on(states, events, actions, i - 1);
        assert(states[i - 1].moves(events[i - 1], states[i - 1 + 1], actions[i - 1]));
    }
}

/// Each library that a test is linked to is one that a file told of, in the version that the
/// project is locked to, or in one that is not known.
pub proof fn law_linked_libraries_are_locked(
    states: Seq<TestRunView>,
    events: Seq<EventView>,
    actions: Seq<ActionView>,
    i: int,
)
    requires
        is_trace(states, events, actions),
        states[0].stage is Preparing,
        0 <= i < actions.len(),
        actions[i] is Compile,
    ensures
        i > 0,
        states[i - 1].stage is Scanning,
        states[i].stage is Probing,
        events[i - 1] is Scanned,
        events[i] is Probed,
        forall|build: FingerprintView| #[trigger]
            present_of(states[i].stage->Probing_found, events[i]->Probed_0).contains(build)
                ==> is_locked_build(
                states[i - 1].stage->Scanning_lock,
                events[i - 1]->Scanned_0,
                build,
            ),
{
    assert(states[i].moves(events[i], states[i + 1], actions[i]));
    assert(states[i - 1].moves(events[i - 1], states[i - 1 + 1], actions[i - 1]));
    let found = states[i].stage->Probing_found;
    let present = events[i]->Probed_0;
    let lock = states[i - 1].stage->Scanning_lock;
    let files = events[i - 1]->Scanned_0;
    assert forall|build: FingerprintView| #[trigger]
        present_of(found, present).contains(build) implies is_locked_build(lock, files, build) by {
        lemma_present_are_some(found, present, build);
        let k = found.index_of(build);
        law_other_versions_are_not_selected(lock.dependencies, fingerprints_in(files), found, k);
    }
}

/// A file told of this build, and it is not known to be of another version than the locked one.
pub open spec fn is_locked_build(
    lock: LockedDepsView,
    files: Seq<FingerprintFileView>,
    build: FingerprintView,
) -> bool {
    let version = locked_version(lock.dependencies, bare_name(build.libname));
    &&& fingerprints_in(files).contains(build)
    &&& version is Some
    &&& build.version is None || build.version == version
}

/// A test begins with what it is given: the directory of the project as it is, and for the
/// libraries the directory three levels above the one that its own files are in.
pub proof fn law_test_begins_with_what_it_is_given(
    compile_type: CompileType,
    root_dir: Seq<char>,
    out_dir: Seq<char>,
    target_triple: Seq<char>,
)
    ensures
        TestRunView::start(compile_type, root_dir, out_dir, target_triple) == (TestRunView {
            compile_type,
            root_dir: FilePathView { text: root_dir, steps: seq![] },
            target_dir: FilePathView {
                text: out_dir,
                steps: seq![StepView::Up, StepView::Up, StepView::Up],
            },
            target_triple,
            stage: StageView::Preparing,
        }),
{
    assert(target_of(FilePathView::of(out_dir)).steps == seq![
        StepView::Up,
        StepView::Up,
        StepView::Up,
    ]);
}

/// A test waits for what answers the action that it asked for last, whatever the answer is, and
/// for nothing else; a verdict needs no answer.
pub proof fn law_answer_to_the_action_is_awaited(
    states: Seq<TestRunView>,
    events: Seq<EventView>,
    actions: Seq<ActionView>,
    i: int,
    event: EventView,
)
    requires
        is_trace(states, events, actions),
        states[0].stage is Preparing,
        0 <= i < actions.len(),
    ensures
        states[0].awaits(event) <==> event is Prepared,
        states[i + 1].awaits(event) <==> match actions[i] {
            ActionView::Prepare { .. } => event is Prepared,
            ActionView::ReadMetadata(_) => event is Metadata,
            ActionView::Scan(_) => event is Scanned,
            ActionView::Probe(_) => event is Probed,
            ActionView::Compile { .. } => event is Exited,
            ActionView::Run { .. } => event is Exited,
            ActionView::Pass => false,
            ActionView::Fail(_) => false,
        },
{
    assert(states[i].moves(events[i], states[i + 1], actions[i]));
}

/// What a test keeps of what it was told at the beginning: its directory and its compiler.
spec fn holds_tools(events: Seq<EventView>, scratch: FilePathView, rustc: Seq<char>) -> bool {
    events[0] matches EventView::Prepared { scratch: given, rustc: named } && scratch == given
        && rustc == match named {
        Some(program) => program,
        None => "rustc"@,
    }
}

/// What a test keeps of the first that it learnt of its project: the edition.
spec fn holds_edition(events: Seq<EventView>, edition: Seq<char>) -> bool {
    events[1] matches EventView::Metadata { read: Ok(metadata), .. } && newest_edition_name(
        metadata.packages,
    ) == Some(edition)
}

/// The lock is that of the project that the test learnt of last.
spec fn holds_lock(events: Seq<EventView>, i: int, lock: LockedDepsView) -> bool {
    events[i - 1] matches EventView::Metadata { manifest, read: Ok(metadata) } && lock_error(
        metadata,
        manifest,
    ) is None && is_lock(metadata, manifest, lock)
}

/// What a test knows after so many events.
spec fn remembers(
    start: TestRunView,
    events: Seq<EventView>,
    i: int,
    state: TestRunView,
) -> bool {
    &&& state == start.at(state.stage)
    &&& i >= 1 ==> events[0] is Prepared
    &&& match state.stage {
        StageView::Preparing => i == 0,
        StageView::ReadingManifest { scratch, rustc } => i == 1 && holds_tools(
            events,
            scratch,
            rustc,
        ),
        StageView::ReadingLock { scratch, rustc, edition } => i == 2 && holds_tools(
            events,
            scratch,
            rustc,
        ) && holds_edition(events, edition),
        StageView::ReadingOtherLock { scratch, rustc, edition } => i == 3 && holds_tools(
            events,
            scratch,
            rustc,
        ) && holds_edition(events, edition),
        StageView::Scanning { scratch, rustc, edition, lock } => 3 <= i <= 4 && holds_tools(
            events,
            scratch,
            rustc,
        ) && holds_edition(events, edition) && holds_lock(events, i, lock),
        StageView::Probing { scratch, rustc, edition, found } => 4 <= i <= 5 && holds_tools(
            events,
            scratch,
            rustc,
        ) && holds_edition(events, edition),
        StageView::Compiling { scratch } => 5 <= i <= 6 && (events[0] matches EventView::Prepared {
            scratch: given,
            ..
        } && scratch == given),
        StageView::Running => 6 <= i <= 7,
        StageView::Over => i >= 2,
    }
}

proof fn lemma_trace_remembers(
    states: Seq<TestRunView>,
    events: Seq<EventView>,
    actions: Seq<ActionView>,
    i: int,
)
    requires
        is_trace(states, events, actions),
        states[0].stage is Preparing,
        0 <= i < states.len(),
    ensures
        remembers(states[0], events, i, states[i]),
    decreases i,
{
    if i > 0 {
        lemma_trace_remembers(states, events, actions, i - 1);
        assert(states[i - 1].moves(events[i - 1], states[i - 1 + 1], actions[i - 1]));
    }
}

/// The manifest that is read is that of the project. Where it cannot be read, or where no package
/// is of an edition with a name, the test fails and says so; otherwise it is read again, for the
/// dependencies.
pub proof fn law_manifest_of_the_project_is_read(
    states: Seq<TestRunView>,
    events: Seq<EventView>,
    actions: Seq<ActionView>,
)
    requires
        is_trace(states, events, actions),
        states[0].stage is Preparing,
    ensures
        ({
            let root = states[0].root_dir;
            let manifest = FilePathView {
                text: root.text,
                steps: root.steps.push(StepView::Into("Cargo.toml"@)),
            };
            &&& events.len() > 0 ==> events[0] is Prepared && actions[0]
                == ActionView::ReadMetadata(manifest)
            &&& events.len() > 1 ==> (events[1] matches EventView::Metadata { read, .. }
                && match read {
                Err(message) => actions[1] == ActionView::Fail(FailureView::Manifest(message)),
                Ok(metadata) => if forall|i: int|
                    0 <= i < metadata.packages.len() ==> (#[trigger] metadata.packages[i]).edition
                        == Edition::Other {
                    actions[1] == ActionView::Fail(FailureView::Edition)
                } else {
                    actions[1] == ActionView::ReadMetadata(manifest)
                },
            })
        }),
{
    if events.len() > 0 {
        assert(states[0].moves(events[0], states[1], actions[0]));
    }
    if events.len() > 1 {
        lemma_trace_remembers(states, events, actions, 1);
        assert(states[1].moves(events[1], states[2], actions[1]));
        if let EventView::Metadata { read: Ok(metadata), .. } = events[1] {
            let packages = metadata.packages;
            law_newest_edition_is_named(packages);
            if exists|i: int|
                0 <= i < packages.len() && (#[trigger] packages[i]).edition != Edition::Other {
                let i = choose|i: int|
                    0 <= i < packages.len() && (#[trigger] packages[i]).edition != Edition::Other;
                assert(newest_edition_name(packages) is Some);
            }
        }
    }
}

/// The locked packages can be worked out from what was read.
pub open spec fn is_lockable(manifest: Seq<char>, read: Result<MetadataView, Seq<char>>) -> bool {
    read matches Ok(metadata) && metadata.resolve is Some && exists|r: int|
        0 <= r < metadata.packages.len() && (#[trigger] metadata.packages[r]).manifest_path
            == manifest
}

proof fn lemma_lockable(manifest: Seq<char>, read: Result<MetadataView, Seq<char>>)
    ensures
        lock_failure(manifest, read) is None <==> is_lockable(manifest, read),
        read matches Err(message) ==> lock_failure(manifest, read) == Some(
            ErrorView::Metadata(message),
        ),
        read matches Ok(metadata) ==> metadata.resolve is None ==> lock_failure(manifest, read)
            == Some(ErrorView::Msg("Missing dependency metadata"@)),
        read matches Ok(metadata) ==> metadata.resolve is Some && !is_lockable(manifest, read)
            ==> lock_failure(manifest, read) == Some(ErrorView::Msg("Root package not found"@)),
{
    if let Ok(metadata) = read {
        law_lock_needs_graph_and_project(metadata, manifest);
        if is_lockable(manifest, read) {
            let r = choose|r: int|
                0 <= r < metadata.packages.len() && (#[trigger] metadata.packages[r]).manifest_path
                    == manifest;
            assert(metadata.packages[r].manifest_path == manifest);
        }
    }
}

/// The locked packages are worked out from the manifest of the project, or else from the one two
/// levels above what was built; from either the test goes on to look through the fingerprints,
/// and where neither will do, it fails with what is wrong with the second.
pub proof fn law_lock_is_looked_for_in_two_places(
    states: Seq<TestRunView>,
    events: Seq<EventView>,
    actions: Seq<ActionView>,
)
    requires
        is_trace(states, events, actions),
        states[0].stage is Preparing,
    ensures
        ({
            let target = states[0].target_dir;
            let scan = ActionView::Scan(
                FilePathView {
                    text: target.text,
                    steps: target.steps.push(StepView::Into(".fingerprint/"@)),
                },
            );
            let other = ActionView::ReadMetadata(
                FilePathView {
                    text: target.text,
                    steps: target.steps + seq![
                        StepView::Up,
                        StepView::Up,
                        StepView::Into("Cargo.toml"@),
                    ],
                },
            );
            &&& events.len() > 2 ==> (events[2] matches EventView::Metadata { manifest, read }
                && actions[2] == if is_lockable(manifest, read) {
                scan
            } else {
                other
            })
            &&& events.len() > 3 && actions[2] == other ==> (
            events[3] matches EventView::Metadata { manifest, read } && if is_lockable(
                manifest,
                read,
            ) {
                actions[3] == scan
            } else {
                actions[3] == ActionView::Fail(
                    FailureView::Dependencies(
                        match read {
                            Err(message) => ErrorView::Metadata(message),
                            Ok(metadata) => if metadata.resolve is None {
                                ErrorView::Msg("Missing dependency metadata"@)
                            } else {
                                ErrorView::Msg("Root package not found"@)
                            },
                        },
                    ),
                )
            })
        }),
{
    let target = states[0].target_dir;
    if events.len() > 2 {
        lemma_trace_remembers(states, events, actions, 2);
        assert(states[2].moves(events[2], states[3], actions[2]));
        if let EventView::Metadata { manifest, read } = events[2] {
            lemma_lockable(manifest, read);
        }
        assert(manifest_in(other_root(target)).steps == target.steps + seq![
            StepView::Up,
            StepView::Up,
            StepView::Into("Cargo.toml"@),
        ]);
    }
    if events.len() > 3 && actions[2] is ReadMetadata {
        lemma_trace_remembers(states, events, actions, 3);
        assert(states[3].moves(events[3], states[4], actions[3]));
        if let EventView::Metadata { manifest, read } = events[3] {
            lemma_lockable(manifest, read);
        }
    }
}

/// A search for fingerprints is followed by a look at the files of the builds that are chosen
/// from what was found, for the project that was read last: one file for each build.
pub proof fn law_files_of_the_chosen_builds_are_probed(
    states: Seq<TestRunView>,
    events: Seq<EventView>,
    actions: Seq<ActionView>,
    i: int,
)
    requires
        is_trace(states, events, actions),
        states[0].stage is Preparing,
        0 < i < actions.len(),
    ensures
        actions[i - 1] is Scan <==> actions[i] is Probe,
        actions[i] matches ActionView::Probe(paths) ==> ({
            let lock = states[i].stage->Scanning_lock;
            let found = states[i + 1].stage->Probing_found;
            &&& states[i].stage is Scanning
            &&& states[i + 1].stage is Probing
            &&& events[i - 1] matches EventView::Metadata { manifest, read: Ok(metadata) }
                && lock_error(metadata, manifest) is None && is_lock(metadata, manifest, lock)
            &&& events[i] matches EventView::Scanned(files) && is_choice(
                lock.dependencies,
                files,
                found,
            )
            &&& paths.len() == found.len()
            &&& forall|k: int| 0 <= k < found.len() ==> #[trigger] paths[k] == found[k].rlib
        }),
{
    lemma_trace_remembers(states, events, actions, i);
    assert(states[i].moves(events[i], states[i + 1], actions[i]));
    assert(states[i - 1].moves(events[i - 1], states[i - 1 + 1], actions[i - 1]));
    if actions[i] is Probe {
        law_best_build_of_each_library_is_linked(
            states[i].stage->Scanning_lock.dependencies,
            events[i]->Scanned_0,
            states[i + 1].stage->Probing_found,
        );
    }
}

/// Whatever a test is compiled for, the compiler is told of each chosen build whose file exists,
/// by `--extern` with its name and file, in their order, and of no other: `at` says which build
/// each is. It is the compiler that the environment names, and it is called for the newest
/// edition of the packages, for the directories and for the target of the test.
pub proof fn law_compiler_is_told_of_what_exists(
    states: Seq<TestRunView>,
    events: Seq<EventView>,
    actions: Seq<ActionView>,
    i: int,
) -> (at: Seq<int>)
    requires
        is_trace(states, events, actions),
        states[0].stage is Preparing,
        0 < i < actions.len(),
    ensures
        actions[i - 1] is Probe <==> actions[i] is Compile,
        actions[i] matches ActionView::Compile { program, args } ==> ({
            let found = states[i].stage->Probing_found;
            let edition = newest_edition_name(
                events[1]->Metadata_read->Ok_0.packages,
            );
            let e: int = if edition == Some("2015"@) {
                9
            } else {
                10
            };
            &&& states[i].stage is Probing
            &&& events[1] matches EventView::Metadata { read: Ok(_), .. }
            &&& edition is Some
            &&& events[i] matches EventView::Probed(present) && (forall|k: int|
                0 <= k < at.len() ==> 0 <= #[trigger] at[k] < found.len() && at[k] < present.len()
                    && present[at[k]]) && (forall|m: int|
                0 <= m < found.len() && m < present.len() && #[trigger] present[m] ==> at.contains(
                    m,
                ))
            &&& forall|k: int, m: int| 0 <= k < m < at.len() ==> #[trigger] at[k] < #[trigger] at[m]
            &&& forall|k: int|
                0 <= k < at.len() ==> args[e + 2 * k] == seq![PieceView::Text("--extern"@)]
                    && args[e + 2 * k + 1] == seq![
                    PieceView::Text(found[#[trigger] at[k]].libname + "="@),
                    PieceView::Path(found[at[k]].rlib),
                ]
            &&& args.len() == e + 2 * at.len() + if states[0].compile_type == CompileType::Full {
                2int
            } else {
                1int
            }
            &&& edition != Some("2015"@) ==> args[3] == seq![
                PieceView::Text("--edition="@ + edition->0),
            ]
            &&& events[0] matches EventView::Prepared { scratch, rustc } && program == (
            match rustc {
                Some(named) => named,
                None => "rustc"@,
            }) && args == compiler_args(
                scratch,
                edition->0,
                states[0].target_dir,
                states[0].target_triple,
                Seq::new(at.len(), |k: int| found[at[k]]),
                states[0].compile_type,
            )
        }),
{
    lemma_trace_remembers(states, events, actions, i);
    assert(states[i].moves(events[i], states[i + 1], actions[i]));
    assert(states[i - 1].moves(events[i - 1], states[i - 1 + 1], actions[i - 1]));
    if let ActionView::Compile { program, args } = actions[i] {
        let found = states[i].stage->Probing_found;
        let present = events[i]->Probed_0;
        let at = law_builds_that_exist_are_left(found, present);
        let linked = present_of(found, present);
        assert(linked == Seq::new(at.len(), |k: int| found[at[k]]));
        let edition = states[i].stage->Probing_edition;
        law_command_line(
            states[i].stage->Probing_scratch,
            edition,
            states[0].target_dir,
            states[0].target_triple,
            linked,
            states[0].compile_type,
        );
        assert forall|k: int| 0 <= k < at.len() implies linked[k] == found[#[trigger] at[k]] by {}
        at
    } else {
        Seq::empty()
    }
}

/// A test that is to be run is run as soon as it was compiled with success: the program that the
/// compiler made, in the directory of the test.
pub proof fn law_compiled_program_is_run(
    states: Seq<TestRunView>,
    events: Seq<EventView>,
    actions: Seq<ActionView>,
    i: int,
)
    requires
        is_trace(states, events, actions),
        states[0].stage is Preparing,
        0 < i < actions.len(),
    ensures
        actions[i] is Run <==> actions[i - 1] is Compile && events[i] == EventView::Exited(true)
            && states[0].compile_type == CompileType::Full,
        actions[i] matches ActionView::Run { binary, dir } ==> (
        events[0] matches EventView::Prepared { scratch, .. } && dir == scratch && binary == (
        FilePathView {
            text: scratch.text,
            steps: scratch.steps.push(StepView::Into("out.exe"@)),
        })),
{
    lemma_trace_remembers(states, events, actions, i);
    lemma_trace_remembers(states, events, actions, i - 1);
    assert(states[i].moves(events[i], states[i + 1], actions[i]));
    assert(states[i - 1].moves(events[i - 1], states[i - 1 + 1], actions[i - 1]));
}

/// A command that ends without success fails the test, and nothing else fails it so.
pub proof fn law_failed_command_fails_the_test(
    states: Seq<TestRunView>,
    events: Seq<EventView>,
    actions: Seq<ActionView>,
    i: int,
)
    requires
        is_trace(states, events, actions),
        0 <= i < actions.len(),
    ensures
        actions[i] == ActionView::Fail(FailureView::Command) <==> events[i] == EventView::Exited(
            false,
        ),
{
    assert(states[i].moves(events[i], states[i + 1], actions[i]));
}

/// What a test asks for stands for what it is, and so does why it failed.
pub proof fn law_action_stands_for_what_it_asks(
    text: String,
    other: String,
    third: String,
    path: FilePath,
    dir: FilePath,
    paths: Vec<FilePath>,
    args: Vec<Arg>,
    failure: Failure,
    error: Error,
)
    ensures
        (Action::Prepare { prefix: text, file_name: other, text: third }).deep_view() == (
        ActionView::Prepare { prefix: text@, file_name: other@, text: third@ }),
        Action::ReadMetadata(path).deep_view() == ActionView::ReadMetadata(path.deep_view()),
        Action::Scan(path).deep_view() == ActionView::Scan(path.deep_view()),
        Action::Probe(paths).deep_view() == ActionView::Probe(paths.deep_view()),
        (Action::Compile { program: text, args }).deep_view() == (ActionView::Compile {
            program: text@,
            args: args.deep_view(),
        }),
        (Action::Run { binary: path, dir }).deep_view() == (ActionView::Run {
            binary: path.deep_view(),
            dir: dir.deep_view(),
        }),
        Action::Pass.deep_view() == ActionView::Pass,
        Action::Fail(failure).deep_view() == ActionView::Fail(failure.deep_view()),
        Failure::Manifest(text).deep_view() == FailureView::Manifest(text@),
        Failure::Edition.deep_view() == FailureView::Edition,
        Failure::Dependencies(error).deep_view() == FailureView::Dependencies(error.deep_view()),
        Failure::Command.deep_view() == FailureView::Command,
{
}

/// What a test is told stands for what it is.
pub proof fn law_event_stands_for_what_it_tells(
    scratch: FilePath,
    text: String,
    other: String,
    metadata: Metadata,
    files: Vec<FingerprintFile>,
    present: Vec<bool>,
    success: bool,
)
    ensures
        (Event::Prepared { scratch, rustc: Some(text) }).deep_view() == (EventView::Prepared {
            scratch: scratch.deep_view(),
            rustc: Some(text@),
        }),
        (Event::Prepared { scratch, rustc: None }).deep_view() == (EventView::Prepared {
            scratch: scratch.deep_view(),
            rustc: None,
        }),
        (Event::Metadata { manifest: text, read: Ok(metadata) }).deep_view() == (
        EventView::Metadata { manifest: text@, read: Ok(metadata.deep_view()) }),
        (Event::Metadata { manifest: text, read: Err(other) }).deep_view() == (
        EventView::Metadata { manifest: text@, read: Err(other@) }),
        Event::Scanned(files).deep_view() == EventView::Scanned(files.deep_view()),
        Event::Probed(present).deep_view() == EventView::Probed(present@),
        Event::Exited(success).deep_view() == EventView::Exited(success),
{
}

/// A test stands for what it was begun with and for what it waits for.
pub proof fn law_test_stands_for_what_it_holds(run: TestRun)
    ensures
        run.deep_view().compile_type == run.compile_type,
        run.deep_view().root_dir == run.root_dir.deep_view(),
        run.deep_view().target_dir == run.target_dir.deep_view(),
        run.deep_view().target_triple == run.target_triple@,
        run.stage is Preparing <==> run.deep_view().stage is Preparing,
        run.stage is ReadingManifest <==> run.deep_view().stage is ReadingManifest,
        run.stage is ReadingLock <==> run.deep_view().stage is ReadingLock,
        run.stage is ReadingOtherLock <==> run.deep_view().stage is ReadingOtherLock,
        run.stage is Scanning <==> run.deep_view().stage is Scanning,
        run.stage is Probing <==> run.deep_view().stage is Probing,
        run.stage is Compiling <==> run.deep_view().stage is Compiling,
        run.stage is Running <==> run.deep_view().stage is Running,
        run.stage is Over <==> run.deep_view().stage is Over,
{
}

} // verus!
