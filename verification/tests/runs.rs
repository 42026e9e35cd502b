use skeptic::command::{Arg, Piece};
use skeptic::error::Error;
use skeptic::fingerprint::FingerprintFile;
use skeptic::metadata::{Edition, Metadata, Node, Package};
use skeptic::path::FilePath;
use skeptic::run::{Action, Event, Failure, TestRun};
use skeptic::{compile_test, run_test};

fn small_project(edition: Edition) -> Metadata {
    let package = |name: &str, version: &str| Package {
        name: name.to_string(),
        version: version.to_string(),
        id: name.to_string(),
        manifest_path: format!("/w/{}/Cargo.toml", name),
        edition,
    };
    Metadata {
        packages: vec![package("p", "0.1.0"), package("my-dep", "1.2.3")],
        resolve: Some(vec![
            Node { id: "p".to_string(), dependencies: vec!["my-dep".to_string()] },
            Node { id: "my-dep".to_string(), dependencies: vec![] },
        ]),
    }
}

fn my_dep_file() -> FingerprintFile {
    FingerprintFile {
        path: FilePath::new("/o/debug/.fingerprint/my-dep-77/lib.json"),
        dir_stem: Some("my-dep-77".to_string()),
        extension: Some("json".to_string()),
        rlib_present: vec![true, false, false],
        dll_present: vec![false],
        content: Ok("version: 1.2.3".to_string()),
        modified: Ok(1),
    }
}

fn text_argument(text: &str) -> Arg {
    Arg { pieces: vec![Piece::Text(text.to_string())] }
}

fn path_argument(path: FilePath) -> Arg {
    Arg { pieces: vec![Piece::Path(path)] }
}

fn prepared() -> Event {
    Event::Prepared { scratch: FilePath::new("/tmp/s"), rustc: None }
}

fn known(edition: Edition) -> Event {
    Event::Metadata { manifest: "/w/p/Cargo.toml".to_string(), read: Ok(small_project(edition)) }
}

fn unknown(message: &str) -> Event {
    Event::Metadata {
        manifest: "/w/p/Cargo.toml".to_string(),
        read: Err(message.to_string()),
    }
}

fn target() -> FilePath {
    let mut target = FilePath::new("/o/debug/build/x/out");
    target.pop();
    target.pop();
    target.pop();
    target
}

fn library() -> FilePath {
    let mut library = FilePath::new("/o/debug/.fingerprint/my-dep-77/lib.json");
    library.pop();
    library.pop();
    library.pop();
    library.push("deps/libmy_dep-77".to_string());
    library.set_extension("rlib".to_string());
    library
}

/// Drives a test that was begun and says what is to be done last.
fn drive(begun: (TestRun, Action), events: Vec<Event>) -> (TestRun, Action) {
    let (mut run, mut action) = begun;
    for event in events {
        let (next, asked) = run.step(event);
        run = next;
        action = asked.expect("the event is awaited");
    }
    (run, action)
}

fn begin_check() -> (TestRun, Action) {
    compile_test("/w/p", "/o/debug/build/x/out", "x86_64-unknown-linux-gnu", "fn main() {}")
}

fn begin_run() -> (TestRun, Action) {
    run_test("/w/p", "/o/debug/build/x/out", "x86_64-unknown-linux-gnu", "fn main() {}")
}

#[test]
fn test_begins_with_its_file() {
    for begun in [begin_check(), begin_run()] {
        match begun.1 {
            Action::Prepare { prefix, file_name, text } => {
                assert_eq!(prefix, "rust-skeptic");
                assert_eq!(file_name, "test.rs");
                assert_eq!(text, "fn main() {}");
            }
            other => panic!("unexpected {:?}", other),
        }
    }
}

#[test]
fn manifest_is_read_twice_and_then_elsewhere() {
    let (run, action) = drive(begin_check(), vec![prepared()]);
    let manifest = FilePath::new("/w/p").join("Cargo.toml");
    assert!(matches!(action, Action::ReadMetadata(path) if path == manifest));
    let (run, action) = drive((run, Action::Pass), vec![known(Edition::E2021)]);
    assert!(matches!(action, Action::ReadMetadata(path) if path == manifest));
    let (run, action) = drive((run, Action::Pass), vec![unknown("gone")]);
    let mut other = target();
    other.pop();
    other.pop();
    other.push("Cargo.toml".to_string());
    assert!(matches!(action, Action::ReadMetadata(path) if path == other));
    let (_, action) = drive((run, Action::Pass), vec![known(Edition::E2021)]);
    assert!(matches!(action, Action::Scan(path) if path == target().join(".fingerprint/")));
}

#[test]
fn libraries_are_probed_and_linked() {
    let (run, action) = drive(
        begin_run(),
        vec![prepared(), known(Edition::E2018), known(Edition::E2018)],
    );
    assert!(matches!(action, Action::Scan(_)));
    let (run, action) = drive((run, action), vec![Event::Scanned(vec![my_dep_file()])]);
    match action {
        Action::Probe(paths) => assert_eq!(paths, vec![library()]),
        other => panic!("unexpected {:?}", other),
    }
    let (run, asked) = run.step(Event::Probed(vec![true]));
    match asked {
        Some(Action::Compile { program, args }) => {
            assert_eq!(program, "rustc");
            assert_eq!(
                args,
                vec![
                    path_argument(FilePath::new("/tmp/s").join("test.rs")),
                    text_argument("--verbose"),
                    text_argument("--crate-type=bin"),
                    text_argument("--edition=2018"),
                    text_argument("-L"),
                    path_argument(target()),
                    text_argument("-L"),
                    path_argument(target().join("deps")),
                    text_argument("--target"),
                    text_argument("x86_64-unknown-linux-gnu"),
                    text_argument("--extern"),
                    Arg {
                        pieces: vec![
                            Piece::Text("my_dep=".to_string()),
                            Piece::Path(library()),
                        ]
                    },
                    text_argument("-o"),
                    path_argument(FilePath::new("/tmp/s").join("out.exe")),
                ]
            );
        }
        other => panic!("unexpected {:?}", other),
    }
    let (run, asked) = run.step(Event::Exited(true));
    match asked {
        Some(Action::Run { binary, dir }) => {
            assert_eq!(binary, FilePath::new("/tmp/s").join("out.exe"));
            assert_eq!(dir, FilePath::new("/tmp/s"));
        }
        other => panic!("unexpected {:?}", other),
    }
    let (run, asked) = run.step(Event::Exited(true));
    assert!(matches!(asked, Some(Action::Pass)));
    let (_, asked) = run.step(Event::Exited(true));
    assert!(asked.is_none());
}

#[test]
fn check_asks_for_no_program() {
    let (run, action) = drive(
        begin_check(),
        vec![
            Event::Prepared {
                scratch: FilePath::new("/tmp/s"),
                rustc: Some("/opt/rustc".to_string()),
            },
            known(Edition::E2015),
            known(Edition::E2015),
            Event::Scanned(vec![my_dep_file()]),
            Event::Probed(vec![false]),
        ],
    );
    match action {
        Action::Compile { program, args } => {
            assert_eq!(program, "/opt/rustc");
            assert_eq!(args.len(), 10);
            assert_eq!(args[3], text_argument("-L"));
            let binary = || Piece::Path(FilePath::new("/tmp/s").join("out.exe"));
            assert_eq!(
                args[9],
                Arg {
                    pieces: vec![
                        Piece::Text("--emit=dep-info=".to_string()),
                        binary(),
                        Piece::Text(".d,metadata=".to_string()),
                        binary(),
                        Piece::Text(".m".to_string()),
                    ]
                }
            );
        }
        other => panic!("unexpected {:?}", other),
    }
    let (_, asked) = run.step(Event::Exited(true));
    assert!(matches!(asked, Some(Action::Pass)));
}

fn failure_of(events: Vec<Event>) -> Failure {
    match drive(begin_run(), events).1 {
        Action::Fail(failure) => failure,
        other => panic!("unexpected {:?}", other),
    }
}

fn up_to_compiling() -> Vec<Event> {
    vec![
        prepared(),
        known(Edition::E2021),
        known(Edition::E2021),
        Event::Scanned(vec![]),
        Event::Probed(vec![]),
    ]
}

#[test]
fn failures_are_told_apart() {
    assert_eq!(
        failure_of(vec![prepared(), unknown("gone")]),
        Failure::Manifest("gone".to_string())
    );
    assert_eq!(failure_of(vec![prepared(), known(Edition::Other)]), Failure::Edition);
    assert_eq!(
        failure_of(vec![prepared(), known(Edition::E2021), unknown("a"), unknown("b")]),
        Failure::Dependencies(Error::Metadata("b".to_string()))
    );
    let mut events = up_to_compiling();
    events.push(Event::Exited(false));
    assert_eq!(failure_of(events), Failure::Command);
    let mut events = up_to_compiling();
    events.push(Event::Exited(true));
    events.push(Event::Exited(false));
    assert_eq!(failure_of(events), Failure::Command);
}

#[test]
fn events_out_of_turn_change_nothing() {
    let (run, _) = begin_run();
    let (run, asked) = run.step(Event::Exited(true));
    assert!(asked.is_none());
    let (_, asked) = run.step(prepared());
    assert!(asked.is_some());
}
