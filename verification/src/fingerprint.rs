//! Fingerprints: what the build leaves behind for each library that it made.

use vstd::prelude::*;

use crate::error::{outcome, Error, ErrorView};
use crate::path::{FilePath, FilePathView, StepView};
use crate::text::{
    chars_of, first_place, joined, last_place, lemma_first_place, lemma_last_place, replace_char,
    replaced, text_of,
};
use crate::version::{extract_version_from_fingerprint, version_in};

verus! {

/// A library that was built.
#[derive(Debug)]
pub struct Fingerprint {
    pub libname: String,
    /// The version, where it is known.
    pub version: Option<String>,
    pub rlib: FilePath,
    /// When the fingerprint was written, in nanoseconds from the Unix epoch.
    pub mtime: i128,
}

/// A library that was built, as a mathematical value.
pub struct FingerprintView {
    pub libname: Seq<char>,
    pub version: Option<Seq<char>>,
    pub rlib: FilePathView,
    pub mtime: i128,
}

impl DeepView for Fingerprint {
    type V = FingerprintView;

    open spec fn deep_view(&self) -> FingerprintView {
        FingerprintView {
            libname: self.libname@,
            version: self.version.deep_view(),
            rlib: self.rlib.deep_view(),
            mtime: self.mtime,
        }
    }
}

impl Clone for Fingerprint {
    fn clone(&self) -> (res: Fingerprint)
        ensures
            res.deep_view() == self.deep_view(),
    {
        Fingerprint {
            libname: self.libname.clone(),
            version: match &self.version {
                Some(version) => Some(version.clone()),
                None => None,
            },
            rlib: self.rlib.clone(),
            mtime: self.mtime,
        }
    }
}

/// A file that may be a fingerprint, with what was found out about it.
#[derive(Debug)]
pub struct FingerprintFile {
    pub path: FilePath,
    /// The name, without its extension, of the directory that the file is in.
    pub dir_stem: Option<String>,
    pub extension: Option<String>,
    /// Whether the libraries that the file may speak of exist, in the order of
    /// [`Fingerprint::libraries`].
    pub rlib_present: Vec<bool>,
    /// The same of [`Fingerprint::dynamic_libraries`].
    pub dll_present: Vec<bool>,
    pub content: Result<String, String>,
    pub modified: Result<i128, String>,
}

/// A file that may be a fingerprint, as a mathematical value.
pub struct FingerprintFileView {
    pub path: FilePathView,
    pub dir_stem: Option<Seq<char>>,
    pub extension: Option<Seq<char>>,
    pub rlib_present: Seq<bool>,
    pub dll_present: Seq<bool>,
    pub content: Result<Seq<char>, Seq<char>>,
    pub modified: Result<i128, Seq<char>>,
}

impl DeepView for FingerprintFile {
    type V = FingerprintFileView;

    open spec fn deep_view(&self) -> FingerprintFileView {
        FingerprintFileView {
            path: self.path.deep_view(),
            dir_stem: self.dir_stem.deep_view(),
            extension: self.extension.deep_view(),
            rlib_present: self.rlib_present@,
            dll_present: self.dll_present@,
            content: match self.content {
                Ok(text) => Ok(text@),
                Err(message) => Err(message@),
            },
            modified: match self.modified {
                Ok(time) => Ok(time),
                Err(message) => Err(message@),
            },
        }
    }
}

/// The name of a library without the version that may follow it behind a `-`.
pub open spec fn bare_name(libname: Seq<char>) -> Seq<char> {
    libname.take(first_place(libname, '-'))
}

/// The name of the library that a directory of fingerprints is for: what stands before the last
/// `-`, with `_` for `-`.
pub open spec fn libname_of(stem: Seq<char>) -> Seq<char> {
    let p = last_place(stem, '-');
    replaced(
        if p < 0 {
            seq![]
        } else {
            stem.take(p)
        },
        '-',
        '_',
    )
}

/// The hash that tells the builds of a library apart: what stands behind the last `-`.
pub open spec fn hash_of(stem: Seq<char>) -> Seq<char> {
    stem.skip(last_place(stem, '-') + 1)
}

/// The directory that the build writes to, from a file in a directory of fingerprints.
pub open spec fn build_dir(file: FilePathView) -> FilePathView {
    file.up().up().up()
}

/// Where the library is, but for its extension.
pub open spec fn library_path(file: FilePathView, stem: Seq<char>) -> FilePathView {
    build_dir(file).into("deps/lib"@ + libname_of(stem) + "-"@ + hash_of(stem))
}

/// Where the library is on platforms that put no `lib` before its name, but for its extension.
pub open spec fn dynamic_library_path(file: FilePathView, stem: Seq<char>) -> FilePathView {
    build_dir(file).into("deps/"@ + libname_of(stem) + "-"@ + hash_of(stem))
}

/// The extensions of a library.
pub open spec fn library_extensions() -> Seq<Seq<char>> {
    seq!["rlib"@, "so"@, "dylib"@]
}

/// The extensions of a library without `lib` before its name.
pub open spec fn dynamic_library_extensions() -> Seq<Seq<char>> {
    seq!["dll"@]
}

/// A path that took on the first extensions one after the other.
pub open spec fn extended(path: FilePathView, exts: Seq<Seq<char>>) -> FilePathView
    decreases exts.len(),
{
    if exts.len() == 0 {
        path
    } else {
        extended(path, exts.drop_last()).with_extension(exts.last())
    }
}

/// The paths that come about where a path takes on extensions one after the other.
pub open spec fn all_extended(path: FilePathView, exts: Seq<Seq<char>>) -> Seq<FilePathView> {
    Seq::new(exts.len(), |k: int| extended(path, exts.take(k + 1)))
}

/// The first of some paths that exists.
pub open spec fn first_present(paths: Seq<FilePathView>, present: Seq<bool>) -> Option<FilePathView>
    decreases paths.len(),
{
    if paths.len() == 0 || present.len() == 0 {
        None
    } else if present[0] {
        Some(paths[0])
    } else {
        first_present(paths.drop_first(), present.drop_first())
    }
}

/// Where the library of a file in a directory of fingerprints is.
pub open spec fn find_library(file: FingerprintFileView, stem: Seq<char>) -> Option<FilePathView> {
    match first_present(
        all_extended(library_path(file.path, stem), library_extensions()),
        file.rlib_present,
    ) {
        Some(path) => Some(path),
        None => first_present(
            all_extended(dynamic_library_path(file.path, stem), dynamic_library_extensions()),
            file.dll_present,
        ),
    }
}

/// The fingerprint that a file is, or why it is none.
pub open spec fn fingerprint_of(file: FingerprintFileView) -> Result<FingerprintView, ErrorView> {
    if file.dir_stem is None || file.extension != Some("json"@) {
        Err(ErrorView::Fingerprint)
    } else {
        let stem = file.dir_stem->0;
        match (find_library(file, stem), file.content, file.modified) {
            (None, _, _) => Err(ErrorView::Fingerprint),
            (_, Err(message), _) => Err(ErrorView::Io(message)),
            (_, _, Err(message)) => Err(ErrorView::Io(message)),
            (Some(rlib), Ok(content), Ok(mtime)) => Ok(
                FingerprintView {
                    libname: libname_of(stem),
                    version: version_in(content),
                    rlib,
                    mtime,
                },
            ),
        }
    }
}

/// The extensions of a library.
fn library_extension_list() -> (list: Vec<String>)
    ensures
        list.deep_view() == library_extensions(),
{
    let list: Vec<String> = vec!["rlib".to_owned(), "so".to_owned(), "dylib".to_owned()];
    assert(list.deep_view() == library_extensions());
    list
}

/// The extensions of a library without `lib` before its name.
fn dynamic_library_extension_list() -> (list: Vec<String>)
    ensures
        list.deep_view() == dynamic_library_extensions(),
{
    let list: Vec<String> = vec!["dll".to_owned()];
    assert(list.deep_view() == dynamic_library_extensions());
    list
}

/// The paths that come about where a path takes on extensions one after the other.
fn extensions_of(path: &FilePath, exts: &Vec<String>) -> (paths: Vec<FilePath>)
    ensures
        paths.deep_view() == all_extended(path.deep_view(), exts.deep_view()),
{
    let ghost all = exts.deep_view();
    let mut current = path.clone();
    let mut paths: Vec<FilePath> = Vec::new();
    let mut i: usize = 0;
    assert(all.take(0).len() == 0);
    while i < exts.len()
        invariant
            i <= exts@.len(),
            all == exts.deep_view(),
            current.deep_view() == extended(path.deep_view(), all.take(i as int)),
            paths@.len() == i,
            forall|k: int|
                0 <= k < i ==> (#[trigger] paths@[k]).deep_view() == extended(
                    path.deep_view(),
                    all.take(k + 1),
                ),
        decreases exts@.len() - i,
    {
        assert(all.take(i + 1).drop_last() == all.take(i as int));
        current.set_extension(exts[i].clone());
        paths.push(current.clone());
        i += 1;
    }
    assert(paths.deep_view() == all_extended(path.deep_view(), all));
    paths
}

/// The first of the paths, that a path becomes where it takes on extensions one after the other,
/// that exists; `present` says which of them do.
pub fn guess_ext(path: FilePath, exts: &Vec<String>, present: &Vec<bool>) -> (res: Result<
    FilePath,
    Error,
>)
    ensures
        outcome(res) == match first_present(
            all_extended(path.deep_view(), exts.deep_view()),
            present@,
        ) {
            Some(found) => Ok(found),
            None => Err(ErrorView::Fingerprint),
        },
{
    let ghost all = exts.deep_view();
    let ghost start = path.deep_view();
    let ghost paths = all_extended(start, all);
    let mut current = path;
    let mut i: usize = 0;
    assert(all.take(0).len() == 0);
    assert(paths.skip(0) == paths);
    assert(present@.skip(0) == present@);
    while i < exts.len() && i < present.len()
        invariant
            i <= exts@.len(),
            i <= present@.len(),
            all == exts.deep_view(),
            start == path.deep_view(),
            paths == all_extended(start, all),
            current.deep_view() == extended(start, all.take(i as int)),
            first_present(paths, present@) == first_present(
                paths.skip(i as int),
                present@.skip(i as int),
            ),
        decreases exts@.len() - i,
    {
        assert(all.take(i + 1).drop_last() == all.take(i as int));
        assert(paths.skip(i as int).drop_first() == paths.skip(i + 1));
        assert(present@.skip(i as int).drop_first() == present@.skip(i + 1));
        current.set_extension(exts[i].clone());
        assert(paths[i as int] == current.deep_view());
        if present[i] {
            return Ok(current);
        }
        i += 1;
    }
    Err(Error::Fingerprint)
}

/// The library name and the hash in the name of a directory of fingerprints.
fn split_stem(stem: &str) -> (parts: (String, String))
    ensures
        parts.0@ == libname_of(stem@),
        parts.1@ == hash_of(stem@),
{
    let chars = chars_of(stem);
    let mut k: usize = chars.len();
    while k > 0 && chars[k - 1] != '-'
        invariant
            k <= chars@.len(),
            forall|j: int| k <= j < chars@.len() ==> chars@[j] != '-',
        ensures
            k <= chars@.len(),
            forall|j: int| k <= j < chars@.len() ==> chars@[j] != '-',
            k > 0 ==> chars@[k - 1] == '-',
        decreases k,
    {
        k -= 1;
    }
    proof {
        lemma_last_place(stem@, '-', k - 1);
    }
    let hash = text_of(&chars, k, chars.len());
    let before = text_of(
        &chars,
        0,
        if k > 0 {
            k - 1
        } else {
            0
        },
    );
    let libname = replace_char(before.as_str(), '-', '_');
    proof {
        assert(hash@ == hash_of(stem@));
        assert(libname@ == libname_of(stem@));
    }
    (libname, hash)
}

/// `before` and the name of a library, with the hash of its build.
fn built_name(before: &str, libname: &str, hash: &str) -> (name: String)
    ensures
        name@ == before@ + libname@ + "-"@ + hash@,
{
    let name = joined(before, libname);
    let name = joined(name.as_str(), "-");
    joined(name.as_str(), hash)
}

impl Fingerprint {
    /// Where the library of a directory of fingerprints is, but for its extension: with `lib`
    /// before its name, and without.
    fn library_paths(file: &FilePath, libname: &str, hash: &str) -> (paths: (FilePath, FilePath))
        ensures
            paths.0.deep_view() == build_dir(file.deep_view()).into(
                "deps/lib"@ + libname@ + "-"@ + hash@,
            ),
            paths.1.deep_view() == build_dir(file.deep_view()).into(
                "deps/"@ + libname@ + "-"@ + hash@,
            ),
    {
        let mut rlib = file.clone();
        rlib.pop();
        rlib.pop();
        rlib.pop();
        let mut dll = rlib.clone();
        rlib.push(built_name("deps/lib", libname, hash));
        dll.push(built_name("deps/", libname, hash));
        (rlib, dll)
    }

    /// The libraries that a file in the directory `dir_stem` may be the fingerprint of.
    pub fn libraries(path: &FilePath, dir_stem: &str) -> (paths: Vec<FilePath>)
        ensures
            paths.deep_view() == all_extended(
                library_path(path.deep_view(), dir_stem@),
                library_extensions(),
            ),
    {
        let (libname, hash) = split_stem(dir_stem);
        let (rlib, _) = Fingerprint::library_paths(path, libname.as_str(), hash.as_str());
        extensions_of(&rlib, &library_extension_list())
    }

    /// The same on platforms that put no `lib` before the name of a library.
    pub fn dynamic_libraries(path: &FilePath, dir_stem: &str) -> (paths: Vec<FilePath>)
        ensures
            paths.deep_view() == all_extended(
                dynamic_library_path(path.deep_view(), dir_stem@),
                dynamic_library_extensions(),
            ),
    {
        let (libname, hash) = split_stem(dir_stem);
        let (_, dll) = Fingerprint::library_paths(path, libname.as_str(), hash.as_str());
        extensions_of(&dll, &dynamic_library_extension_list())
    }

    /// The fingerprint that a file is.
    pub fn from_path(file: &FingerprintFile) -> (res: Result<Fingerprint, Error>)
        ensures
            outcome(res) == fingerprint_of(file.deep_view()),
    {
        let stem = match &file.dir_stem {
            Some(stem) => stem,
            None => {
                return Err(Error::Fingerprint);
            },
        };
        let is_json = match &file.extension {
            Some(extension) => *extension == "json".to_owned(),
            None => false,
        };
        if !is_json {
            return Err(Error::Fingerprint);
        }
        let (libname, hash) = split_stem(stem.as_str());
        let (rlib, dll) = Fingerprint::library_paths(
            &file.path,
            libname.as_str(),
            hash.as_str(),
        );
        let rlib = match guess_ext(rlib, &library_extension_list(), &file.rlib_present) {
            Ok(rlib) => rlib,
            Err(_) => match guess_ext(dll, &dynamic_library_extension_list(), &file.dll_present) {
                Ok(rlib) => rlib,
                Err(error) => {
                    return Err(error);
                },
            },
        };
        let version = match &file.content {
            Ok(content) => extract_version_from_fingerprint(content.as_str()),
            Err(message) => {
                return Err(Error::Io(message.clone()));
            },
        };
        let mtime = match &file.modified {
            Ok(mtime) => *mtime,
            Err(message) => {
                return Err(Error::Io(message.clone()));
            },
        };
        Ok(Fingerprint { libname, version, rlib, mtime })
    }

    /// The name of the library without the version that may follow it.
    pub fn name(&self) -> (name: String)
        ensures
            name@ == bare_name(self.libname@),
    {
        let chars = chars_of(self.libname.as_str());
        let mut i: usize = 0;
        while i < chars.len() && chars[i] != '-'
            invariant
                i <= chars@.len(),
                forall|j: int| 0 <= j < i ==> chars@[j] != '-',
            ensures
                i <= chars@.len(),
                forall|j: int| 0 <= j < i ==> chars@[j] != '-',
                i < chars@.len() ==> chars@[i as int] == '-',
            decreases chars@.len() - i,
        {
            i += 1;
        }
        proof {
            lemma_first_place(chars@, '-', i as int);
            assert(chars@.subrange(0, i as int) == chars@.take(i as int));
        }
        text_of(&chars, 0, i)
    }

    /// The version, where it is known.
    pub fn version(&self) -> (version: Option<String>)
        ensures
            version.deep_view() == self.version.deep_view(),
    {
        match &self.version {
            Some(version) => Some(version.clone()),
            None => None,
        }
    }
}

/// A library that a file tells of has no version in its name.
pub proof fn law_scanned_name_is_libname(file: FingerprintFileView)
    requires
        fingerprint_of(file) is Ok,
    ensures
        bare_name(fingerprint_of(file)->Ok_0.libname) == fingerprint_of(file)->Ok_0.libname,
{
    let libname = fingerprint_of(file)->Ok_0.libname;
    assert forall|j: int| 0 <= j < libname.len() implies libname[j] != '-' by {}
    lemma_first_place(libname, '-', libname.len() as int);
}

/// A name without `-` is the whole name of its library, and so it is with a `-` and anything else
/// behind it.
pub proof fn law_name_ends_at_the_first_hyphen(name: Seq<char>, version: Seq<char>)
    requires
        forall|i: int| 0 <= i < name.len() ==> #[trigger] name[i] != '-',
    ensures
        bare_name(name) == name,
        bare_name(name + seq!['-'] + version) == name,
{
    let n = name.len() as int;
    let long = name + seq!['-'] + version;
    assert(long[n] == '-');
    lemma_first_place(name, '-', n);
    lemma_first_place(long, '-', n);
    assert(long.take(n) == name);
    assert(name.take(n) == name);
}

/// The name of a directory of fingerprints is a library name, with `_` for each `-`, then a `-`,
/// then a hash without any; or it is only the hash.
pub open spec fn is_named_for(stem: Seq<char>, libname: Seq<char>, hash: Seq<char>) -> bool {
    let n = libname.len() as int;
    &&& forall|i: int| 0 <= i < hash.len() ==> #[trigger] hash[i] != '-'
    &&& if stem.len() == hash.len() {
        stem == hash && n == 0
    } else {
        &&& stem.len() == n + 1 + hash.len()
        &&& stem[n] == '-'
        &&& stem.skip(n + 1) == hash
        &&& forall|i: int|
            0 <= i < n ==> #[trigger] libname[i] == if stem[i] == '-' {
                '_'
            } else {
                stem[i]
            }
    }
}

/// The name and the hash of a directory are taken apart at the last `-`.
pub proof fn law_directory_tells_name_and_hash(
    stem: Seq<char>,
    libname: Seq<char>,
    hash: Seq<char>,
)
    requires
        is_named_for(stem, libname, hash),
    ensures
        libname_of(stem) == libname,
        hash_of(stem) == hash,
{
    let n = libname.len() as int;
    if stem.len() == hash.len() {
        lemma_last_place(stem, '-', -1);
        assert(stem.skip(0) == stem);
        assert(libname_of(stem) == libname);
    } else {
        assert forall|j: int| n < j < stem.len() implies stem[j] != '-' by {
            assert(stem.skip(n + 1)[j - n - 1] == stem[j]);
            assert(hash[j - n - 1] != '-');
        }
        lemma_last_place(stem, '-', n);
        assert(libname_of(stem) == libname);
    }
}

/// What a path becomes where it takes on extensions: each stands behind those before it.
proof fn lemma_extended(path: FilePathView, exts: Seq<Seq<char>>)
    ensures
        extended(path, exts).text == path.text,
        extended(path, exts).steps == path.steps + Seq::new(
            exts.len(),
            |j: int| StepView::Extension(exts[j]),
        ),
    decreases exts.len(),
{
    if exts.len() == 0 {
        assert(extended(path, exts).steps == path.steps + Seq::new(
            exts.len(),
            |j: int| StepView::Extension(exts[j]),
        ));
    } else {
        lemma_extended(path, exts.drop_last());
        assert(extended(path, exts).steps == path.steps + Seq::new(
            exts.len(),
            |j: int| StepView::Extension(exts[j]),
        ));
    }
}

/// The paths that are tried are one for each extension, in their order: the path with that
/// extension and those before it put on.
pub proof fn law_extensions_are_tried_in_order(path: FilePathView, exts: Seq<Seq<char>>, k: int)
    requires
        0 <= k < exts.len(),
    ensures
        all_extended(path, exts).len() == exts.len(),
        all_extended(path, exts)[k] == (FilePathView {
            text: path.text,
            steps: path.steps + Seq::new(
                (k + 1) as nat,
                |j: int| StepView::Extension(exts[j]),
            ),
        }),
{
    lemma_extended(path, exts.take(k + 1));
    assert(Seq::new((k + 1) as nat, |j: int| StepView::Extension(exts.take(k + 1)[j]))
        == Seq::new((k + 1) as nat, |j: int| StepView::Extension(exts[j])));
}

/// Of some paths the first that exists is taken; where none exists, none is.
pub proof fn law_first_path_that_exists_is_taken(paths: Seq<FilePathView>, present: Seq<bool>)
    ensures
        first_present(paths, present) matches Some(path) ==> exists|k: int|
            0 <= k < paths.len() && k < present.len() && #[trigger] present[k] && path == paths[k]
                && forall|j: int| 0 <= j < k ==> !#[trigger] present[j],
        first_present(paths, present) is None ==> forall|j: int|
            0 <= j < paths.len() && j < present.len() ==> !#[trigger] present[j],
    decreases paths.len(),
{
    if paths.len() > 0 && present.len() > 0 {
        if present[0] {
            assert(first_present(paths, present) == Some(paths[0]));
        } else {
            let later = present.drop_first();
            law_first_path_that_exists_is_taken(paths.drop_first(), later);
            if first_present(paths, present) is Some {
                let path = first_present(paths, present)->0;
                let k = choose|k: int|
                    0 <= k < paths.drop_first().len() && k < later.len() && #[trigger] later[k]
                        && path == paths.drop_first()[k] && forall|j: int|
                        0 <= j < k ==> !#[trigger] later[j];
                assert(present[k + 1] && path == paths[k + 1]);
                assert forall|j: int| 0 <= j < k + 1 implies !#[trigger] present[j] by {
                    if j > 0 {
                        assert(!later[j - 1]);
                    }
                }
            } else {
                assert forall|j: int|
                    0 <= j < paths.len() && j < present.len() implies !#[trigger] present[j] by {
                    if j > 0 {
                        assert(!later[j - 1]);
                    }
                }
            }
        }
    }
}

/// A path whose place is the first that exists is the one taken.
proof fn lemma_first_present_is(paths: Seq<FilePathView>, present: Seq<bool>, k: int)
    requires
        0 <= k < paths.len(),
        k < present.len(),
        present[k],
        forall|j: int| 0 <= j < k ==> !#[trigger] present[j],
    ensures
        first_present(paths, present) == Some(paths[k]),
{
    law_first_path_that_exists_is_taken(paths, present);
    if first_present(paths, present) is None {
        assert(!present[k]);
    } else {
        let m = choose|m: int|
            0 <= m < paths.len() && m < present.len() && #[trigger] present[m]
                && first_present(paths, present)->0 == paths[m] && forall|j: int|
                0 <= j < m ==> !#[trigger] present[j];
        if m < k {
            assert(!present[m]);
        }
        if k < m {
            assert(!present[k]);
        }
    }
}

/// The library as the file of a fingerprint tells of it: three levels up, in `deps`, under its name
/// and hash, with the extensions that were tried.
pub open spec fn library_file(
    file: FilePathView,
    name: Seq<char>,
    tried: Seq<StepView>,
) -> FilePathView {
    FilePathView {
        text: file.text,
        steps: file.steps + seq![StepView::Up, StepView::Up, StepView::Up, StepView::Into(name)]
            + tried,
    }
}

/// A `.json` file whose library exists, in whatever form, is a fingerprint: of the library that
/// its directory is named for, of the version that its content tells of, and of its own time. A
/// `.rlib` goes before a `.so`, and that before a `.dylib`.
pub proof fn law_file_of_a_library_is_a_fingerprint(
    file: FingerprintFileView,
    libname: Seq<char>,
    hash: Seq<char>,
    content: Seq<char>,
    mtime: i128,
    k: int,
)
    requires
        file.dir_stem is Some,
        is_named_for(file.dir_stem->0, libname, hash),
        file.extension == Some("json"@),
        file.content == Ok::<Seq<char>, Seq<char>>(content),
        file.modified == Ok::<i128, Seq<char>>(mtime),
        0 <= k < 3,
        k < file.rlib_present.len(),
        file.rlib_present[k],
        forall|j: int| 0 <= j < k ==> !#[trigger] file.rlib_present[j],
    ensures
        fingerprint_of(file) == Ok::<FingerprintView, ErrorView>(
            FingerprintView {
                libname,
                version: version_in(content),
                rlib: library_file(
                    file.path,
                    "deps/lib"@ + libname + "-"@ + hash,
                    seq![
                        StepView::Extension("rlib"@),
                        StepView::Extension("so"@),
                        StepView::Extension("dylib"@),
                    ].take(k + 1),
                ),
                mtime,
            },
        ),
{
    let stem = file.dir_stem->0;
    law_directory_tells_name_and_hash(stem, libname, hash);
    let path = library_path(file.path, stem);
    let exts = library_extensions();
    law_extensions_are_tried_in_order(path, exts, k);
    lemma_first_present_is(all_extended(path, exts), file.rlib_present, k);
    let tried = seq![
        StepView::Extension("rlib"@),
        StepView::Extension("so"@),
        StepView::Extension("dylib"@),
    ].take(k + 1);
    assert(tried == Seq::new((k + 1) as nat, |j: int| StepView::Extension(exts[j])));
    assert(all_extended(path, exts)[k].steps == library_file(
        file.path,
        "deps/lib"@ + libname + "-"@ + hash,
        tried,
    ).steps);
}

/// So is a `.json` file whose library exists only as a `.dll`, without `lib` before its name.
pub proof fn law_file_of_a_dll_is_a_fingerprint(
    file: FingerprintFileView,
    libname: Seq<char>,
    hash: Seq<char>,
    content: Seq<char>,
    mtime: i128,
)
    requires
        file.dir_stem is Some,
        is_named_for(file.dir_stem->0, libname, hash),
        file.extension == Some("json"@),
        file.content == Ok::<Seq<char>, Seq<char>>(content),
        file.modified == Ok::<i128, Seq<char>>(mtime),
        forall|j: int|
            0 <= j < 3 && j < file.rlib_present.len() ==> !#[trigger] file.rlib_present[j],
        file.dll_present.len() > 0,
        file.dll_present[0],
    ensures
        fingerprint_of(file) == Ok::<FingerprintView, ErrorView>(
            FingerprintView {
                libname,
                version: version_in(content),
                rlib: library_file(
                    file.path,
                    "deps/"@ + libname + "-"@ + hash,
                    seq![StepView::Extension("dll"@)],
                ),
                mtime,
            },
        ),
{
    let stem = file.dir_stem->0;
    law_directory_tells_name_and_hash(stem, libname, hash);
    let rlib = all_extended(library_path(file.path, stem), library_extensions());
    law_first_path_that_exists_is_taken(rlib, file.rlib_present);
    let path = dynamic_library_path(file.path, stem);
    let exts = dynamic_library_extensions();
    law_extensions_are_tried_in_order(path, exts, 0);
    lemma_first_present_is(all_extended(path, exts), file.dll_present, 0);
    let tried = seq![StepView::Extension("dll"@)];
    assert(tried == Seq::new(1, |j: int| StepView::Extension(exts[j])));
    assert(all_extended(path, exts)[0].steps == library_file(
        file.path,
        "deps/"@ + libname + "-"@ + hash,
        tried,
    ).steps);
}

/// Every other file is none: one without a directory name, one that is not `.json`, one whose
/// library exists in no form, and one that cannot be read or has no time.
pub proof fn law_other_files_are_no_fingerprints(file: FingerprintFileView)
    ensures
        file.dir_stem is None || file.extension != Some("json"@) || ((forall|j: int|
            0 <= j < 3 && j < file.rlib_present.len() ==> !#[trigger] file.rlib_present[j]) && !(
        file.dll_present.len() > 0 && file.dll_present[0])) <==> fingerprint_of(file) == Err::<
            FingerprintView,
            ErrorView,
        >(ErrorView::Fingerprint),
        fingerprint_of(file) is Ok ==> file.content is Ok && file.modified is Ok,
        fingerprint_of(file) matches Err(ErrorView::Io(message)) ==> file.content == Err::<
            Seq<char>,
            Seq<char>,
        >(message) || (file.content is Ok && file.modified == Err::<i128, Seq<char>>(message)),
        fingerprint_of(file) matches Err(error) ==> error is Fingerprint || error is Io,
{
    if file.dir_stem is Some {
        let stem = file.dir_stem->0;
        law_first_path_that_exists_is_taken(
            all_extended(library_path(file.path, stem), library_extensions()),
            file.rlib_present,
        );
        law_first_path_that_exists_is_taken(
            all_extended(dynamic_library_path(file.path, stem), dynamic_library_extensions()),
            file.dll_present,
        );
    }
}

/// A fingerprint, and a file that may be one, stand for all that they hold.
pub proof fn law_fingerprint_stands_for_all_it_holds(build: Fingerprint, file: FingerprintFile)
    ensures
        build.deep_view().libname == build.libname@,
        build.version is None <==> build.deep_view().version is None,
        build.version matches Some(version) ==> build.deep_view().version == Some(version@),
        build.deep_view().rlib == build.rlib.deep_view(),
        build.deep_view().mtime == build.mtime,
        file.deep_view().path == file.path.deep_view(),
        file.dir_stem is None <==> file.deep_view().dir_stem is None,
        file.dir_stem matches Some(stem) ==> file.deep_view().dir_stem == Some(stem@),
        file.extension is None <==> file.deep_view().extension is None,
        file.extension matches Some(name) ==> file.deep_view().extension == Some(name@),
        file.deep_view().rlib_present == file.rlib_present@,
        file.deep_view().dll_present == file.dll_present@,
        file.content matches Ok(text) ==> file.deep_view().content == Ok::<Seq<char>, Seq<char>>(
            text@,
        ),
        file.content matches Err(message) ==> file.deep_view().content == Err::<
            Seq<char>,
            Seq<char>,
        >(message@),
        file.modified matches Ok(time) ==> file.deep_view().modified == Ok::<i128, Seq<char>>(time),
        file.modified matches Err(message) ==> file.deep_view().modified == Err::<
            i128,
            Seq<char>,
        >(message@),
{
}

} // verus!
