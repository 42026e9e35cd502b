use std::time::{SystemTime, UNIX_EPOCH};

use skeptic::error::Error;
use skeptic::fingerprint::{guess_ext, Fingerprint, FingerprintFile};
use skeptic::locked::LockedDeps;
use skeptic::path::{FilePath, Step};
use skeptic::select::{get_rlib_dependencies, retain_present};
use skeptic::version::extract_version_from_fingerprint;

fn nanos_now() -> i128 {
    SystemTime::now().duration_since(UNIX_EPOCH).unwrap().as_nanos() as i128
}

#[test]
fn test_fingerprint_name_and_version() {
    let fingerprint = Fingerprint {
        libname: "test_lib-1.0.0".to_string(),
        version: Some("1.0.0".to_string()),
        rlib: FilePath::new("/path/to/test_lib.rlib"),
        mtime: nanos_now(),
    };

    assert_eq!(fingerprint.name(), "test_lib");
    assert_eq!(fingerprint.version(), Some("1.0.0".to_string()));
}

#[test]
fn test_fingerprint_name_without_version() {
    let fingerprint = Fingerprint {
        libname: "test_lib".to_string(),
        version: None,
        rlib: FilePath::new("/path/to/test_lib.rlib"),
        mtime: nanos_now(),
    };

    assert_eq!(fingerprint.name(), "test_lib");
    assert_eq!(fingerprint.version(), None);
}

#[test]
fn test_fingerprint_name_with_complex_version() {
    let fingerprint = Fingerprint {
        libname: "complex_lib-1.2.3_beta".to_string(),
        version: Some("1.2.3-beta".to_string()),
        rlib: FilePath::new("/path/to/complex_lib.rlib"),
        mtime: nanos_now(),
    };

    assert_eq!(fingerprint.name(), "complex_lib");
    assert_eq!(fingerprint.version(), Some("1.2.3-beta".to_string()));
}

#[test]
fn name_ends_at_the_first_hyphen() {
    let fingerprint = Fingerprint {
        libname: "wasi-0.11.0+wasi-snapshot-preview1".to_string(),
        version: None,
        rlib: FilePath::new("/path/to/wasi.rlib"),
        mtime: 0,
    };
    assert_eq!(fingerprint.name(), "wasi");
}

/// A file `lib-<dir>.json` in the directory `dir` of fingerprints.
fn json_in(dir: &str, content: &str, mtime: i128) -> FingerprintFile {
    FingerprintFile {
        path: FilePath::new(&format!("/t/debug/.fingerprint/{}/lib.json", dir)),
        dir_stem: Some(dir.to_string()),
        extension: Some("json".to_string()),
        rlib_present: vec![true, false, false],
        dll_present: vec![false],
        content: Ok(content.to_string()),
        modified: Ok(mtime),
    }
}

fn step_into(name: &str) -> Step {
    Step::Into(name.to_string())
}

fn step_ext(name: &str) -> Step {
    Step::Extension(name.to_string())
}

#[test]
fn file_is_read_as_fingerprint() {
    let file = json_in("ppv-lite86-0123abcd", "name: x\nversion: 0.2.17\n", 7);
    let fingerprint = Fingerprint::from_path(&file).unwrap();
    assert_eq!(fingerprint.libname, "ppv_lite86");
    assert_eq!(fingerprint.version, Some("0.2.17".to_string()));
    assert_eq!(fingerprint.mtime, 7);
    assert_eq!(fingerprint.name(), "ppv_lite86");
    assert_eq!(fingerprint.rlib.text, "/t/debug/.fingerprint/ppv-lite86-0123abcd/lib.json");
    assert_eq!(
        fingerprint.rlib.steps,
        vec![
            Step::Up,
            Step::Up,
            Step::Up,
            step_into("deps/libppv_lite86-0123abcd"),
            step_ext("rlib"),
        ]
    );
}

#[test]
fn directory_without_hyphen_is_all_hash() {
    let file = json_in("rand", "", 0);
    let fingerprint = Fingerprint::from_path(&file).unwrap();
    assert_eq!(fingerprint.libname, "");
    assert_eq!(fingerprint.rlib.steps[3], step_into("deps/lib-rand"));
}

#[test]
fn libraries_are_tried_in_order() {
    let path = FilePath::new("f.json");
    let tried = Fingerprint::libraries(&path, "a-b-c");
    assert_eq!(tried.len(), 3);
    for (i, ext) in ["rlib", "so", "dylib"].iter().enumerate() {
        assert_eq!(tried[i].steps[3], step_into("deps/liba_b-c"));
        assert_eq!(tried[i].steps.last(), Some(&step_ext(ext)));
        assert_eq!(tried[i].steps.len(), 5 + i);
    }
    let tried = Fingerprint::dynamic_libraries(&path, "a-b-c");
    assert_eq!(tried.len(), 1);
    assert_eq!(
        tried[0].steps,
        vec![Step::Up, Step::Up, Step::Up, step_into("deps/a_b-c"), step_ext("dll")]
    );
}

#[test]
fn the_first_library_that_exists_is_taken() {
    let mut file = json_in("a-b", "", 0);
    file.rlib_present = vec![false, true, true];
    file.dll_present = vec![true];
    let rlib = Fingerprint::from_path(&file).unwrap().rlib;
    assert_eq!(rlib.steps.last(), Some(&step_ext("so")));
    file.rlib_present = vec![false, false, false];
    let rlib = Fingerprint::from_path(&file).unwrap().rlib;
    assert_eq!(rlib.steps[3..], [step_into("deps/a-b"), step_ext("dll")]);
}

#[test]
fn files_that_are_no_fingerprints() {
    let mut file = json_in("a-b", "", 0);
    file.dir_stem = None;
    assert_eq!(Fingerprint::from_path(&file).unwrap_err(), Error::Fingerprint);

    let mut file = json_in("a-b", "", 0);
    file.extension = Some("timestamp".to_string());
    assert_eq!(Fingerprint::from_path(&file).unwrap_err(), Error::Fingerprint);
    file.extension = None;
    assert_eq!(Fingerprint::from_path(&file).unwrap_err(), Error::Fingerprint);

    let mut file = json_in("a-b", "", 0);
    file.rlib_present = vec![false, false, false];
    assert_eq!(Fingerprint::from_path(&file).unwrap_err(), Error::Fingerprint);

    let mut file = json_in("a-b", "", 0);
    file.content = Err("no such file".to_string());
    file.modified = Err("no such time".to_string());
    assert_eq!(
        Fingerprint::from_path(&file).unwrap_err(),
        Error::Io("no such file".to_string())
    );
    file.content = Ok(String::new());
    assert_eq!(
        Fingerprint::from_path(&file).unwrap_err(),
        Error::Io("no such time".to_string())
    );
}

#[test]
fn extension_is_guessed() {
    let exts = vec!["x".to_string(), "y".to_string()];
    let found = guess_ext(FilePath::new("p"), &exts, &vec![false, true]).unwrap();
    assert_eq!(found.text, "p");
    assert_eq!(found.steps, vec![step_ext("x"), step_ext("y")]);
    assert_eq!(
        guess_ext(FilePath::new("p"), &exts, &vec![false, false]).unwrap_err(),
        Error::Fingerprint
    );
    assert_eq!(
        guess_ext(FilePath::new("p"), &Vec::new(), &vec![true]).unwrap_err(),
        Error::Fingerprint
    );
}

fn told(content: &str) -> Option<String> {
    extract_version_from_fingerprint(content)
}

#[test]
fn labelled_version_is_told() {
    assert_eq!(told("version: 1.2.3"), Some("1.2.3".to_string()));
    assert_eq!(told("a\n  version:\t0.1.0-beta \r\nb"), Some("0.1.0-beta".to_string()));
    assert_eq!(told("version:1version:2"), Some("1".to_string()));
    assert_eq!(told("version: some words "), Some("some words".to_string()));
    assert_eq!(told("version:\u{3000}x\u{85}"), Some("x".to_string()));
}

#[test]
fn numbered_word_is_told() {
    assert_eq!(told("rand 0.8.5 built"), Some("0.8.5".to_string()));
    assert_eq!(told("v1.2.3 1.2 1.2.3.4 4.5.6"), Some("4.5.6".to_string()));
    assert_eq!(told(".."), Some("..".to_string()));
    assert_eq!(told("1.2.3\r"), Some("1.2.3".to_string()));
}

#[test]
fn empty_label_falls_back_to_the_words_of_its_line() {
    assert_eq!(told("7.8.9 version: "), Some("7.8.9".to_string()));
    assert_eq!(told("version:version: 1.0.0"), Some("1.0.0".to_string()));
    assert_eq!(told("version:\nversion: 2"), Some("2".to_string()));
}

#[test]
fn earlier_lines_go_first() {
    assert_eq!(told("1.1.1\nversion: 2"), Some("1.1.1".to_string()));
    assert_eq!(told("nothing\n\n3.3.3"), Some("3.3.3".to_string()));
}

#[test]
fn no_version_is_told() {
    assert_eq!(told(""), None);
    assert_eq!(told("{\"rustc\":123,\"version\":\"1.2\"}"), None);
    assert_eq!(told("version:"), None);
    assert_eq!(told("1.2.x"), None);
}

fn lock_of(pairs: &[(&str, &str)]) -> LockedDeps {
    LockedDeps {
        dependencies: pairs.iter().map(|(n, v)| (n.to_string(), v.to_string())).collect(),
        direct: Vec::new(),
    }
}

fn selected_mtimes(lock: &LockedDeps, files: Vec<FingerprintFile>) -> Vec<(String, i128)> {
    get_rlib_dependencies(lock, &files).into_iter().map(|f| (f.libname, f.mtime)).collect()
}

#[test]
fn locked_version_is_selected() {
    let lock = lock_of(&[("rand", "0.8.5"), ("libc", "0.2.1")]);
    let files = vec![
        json_in("rand-1", "version: 0.7.3", 90),
        json_in("rand-2", "version: 0.8.5", 10),
        json_in("libc-3", "version: 0.2.1", 5),
        json_in("rand-4", "version: 0.7.3", 99),
        json_in("serde-5", "version: 1.0.0", 1),
    ];
    assert_eq!(
        selected_mtimes(&lock, files),
        vec![("rand".to_string(), 10), ("libc".to_string(), 5)]
    );
}

#[test]
fn freshest_build_is_selected() {
    let lock = lock_of(&[("rand", "0.8.5")]);
    let files = vec![
        json_in("rand-1", "version: 0.8.5", 10),
        json_in("rand-2", "version: 0.8.5", 30),
        json_in("rand-3", "version: 0.8.5", 20),
        json_in("rand-4", "version: 0.8.5", 30),
    ];
    let selected = get_rlib_dependencies(&lock, &files);
    assert_eq!(selected.len(), 1);
    assert_eq!(selected[0].mtime, 30);
    assert_eq!(selected[0].rlib.steps[3], step_into("deps/librand-2"));
}

#[test]
fn unknown_version_does_not_displace() {
    let lock = lock_of(&[("rand", "0.8.5")]);
    let files = vec![json_in("rand-1", "version: 0.8.5", 10), json_in("rand-2", "", 99)];
    assert_eq!(selected_mtimes(&lock, files), vec![("rand".to_string(), 10)]);
    let files = vec![json_in("rand-2", "", 50), json_in("rand-1", "version: 0.8.5", 10)];
    assert_eq!(selected_mtimes(&lock, files), vec![("rand".to_string(), 50)]);
    let files = vec![json_in("rand-2", "", 5), json_in("rand-1", "version: 0.8.5", 10)];
    assert_eq!(selected_mtimes(&lock, files), vec![("rand".to_string(), 10)]);
    let files = vec![json_in("rand-2", "", 5), json_in("rand-1", "", 10)];
    assert_eq!(selected_mtimes(&lock, files), vec![("rand".to_string(), 5)]);
}

#[test]
fn files_that_are_none_are_passed_over() {
    let lock = lock_of(&[("rand", "0.8.5")]);
    let mut broken = json_in("rand-1", "version: 0.8.5", 99);
    broken.content = Err("gone".to_string());
    let files = vec![broken, json_in("rand-2", "version: 0.8.5", 1)];
    assert_eq!(selected_mtimes(&lock, files), vec![("rand".to_string(), 1)]);
}

#[test]
fn builds_that_are_gone_are_left_out() {
    let lock = lock_of(&[("a", "1"), ("b", "1"), ("c", "1")]);
    let files = vec![json_in("a-1", "", 1), json_in("b-1", "", 2), json_in("c-1", "", 3)];
    let selected = get_rlib_dependencies(&lock, &files);
    let kept = retain_present(&selected, &vec![true, false, true]);
    let names: Vec<String> = kept.iter().map(|f| f.name()).collect();
    assert_eq!(names, vec!["a", "c"]);
    assert_eq!(retain_present(&selected, &vec![true]).len(), 1);
}
