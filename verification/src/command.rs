//! The command line that the compiler is called with.

use vstd::prelude::*;

use crate::fingerprint::{Fingerprint, FingerprintView};
use crate::path::{FilePath, FilePathView, StepView};
use crate::text::joined;

verus! {

/// How far a test goes.
#[derive(Clone, Copy, Debug, PartialEq, Eq, Structural)]
pub enum CompileType {
    /// The test is compiled and run.
    Full,
    /// The test is only checked by the compiler.
    Check,
}

/// A piece of an argument.
#[derive(Debug, PartialEq, Eq)]
pub enum Piece {
    Text(String),
    Path(FilePath),
}

/// An argument of a command: its pieces, one behind the other.
#[derive(Debug, PartialEq, Eq)]
pub struct Arg {
    pub pieces: Vec<Piece>,
}

/// A piece of an argument as a mathematical value.
pub enum PieceView {
    Text(Seq<char>),
    Path(FilePathView),
}

impl DeepView for Piece {
    type V = PieceView;

    open spec fn deep_view(&self) -> PieceView {
        match *self {
            Piece::Text(text) => PieceView::Text(text@),
            Piece::Path(path) => PieceView::Path(path.deep_view()),
        }
    }
}

impl DeepView for Arg {
    type V = Seq<PieceView>;

    open spec fn deep_view(&self) -> Seq<PieceView> {
        self.pieces.deep_view()
    }
}

/// An argument that is a text.
pub open spec fn text_arg(text: Seq<char>) -> Seq<PieceView> {
    seq![PieceView::Text(text)]
}

/// An argument that is a path.
pub open spec fn path_arg(path: FilePathView) -> Seq<PieceView> {
    seq![PieceView::Path(path)]
}

/// The arguments that tell the compiler where the libraries are: for each, its name and its file.
pub open spec fn library_args(libraries: Seq<FingerprintView>) -> Seq<Seq<PieceView>>
    decreases libraries.len(),
{
    if libraries.len() == 0 {
        seq![]
    } else {
        library_args(libraries.drop_last()) + seq![
            text_arg("--extern"@),
            seq![
                PieceView::Text(libraries.last().libname + "="@),
                PieceView::Path(libraries.last().rlib),
            ],
        ]
    }
}

/// The file that a test is written to.
pub open spec fn test_file(scratch: FilePathView) -> FilePathView {
    scratch.into("test.rs"@)
}

/// The file that a test is compiled to.
pub open spec fn binary_file(scratch: FilePathView) -> FilePathView {
    scratch.into("out.exe"@)
}

/// The arguments that say what the compiler is to make: the program, or only what it knows of it.
pub open spec fn output_args(scratch: FilePathView, compile_type: CompileType) -> Seq<
    Seq<PieceView>,
> {
    match compile_type {
        CompileType::Full => seq![text_arg("-o"@), path_arg(binary_file(scratch))],
        CompileType::Check => seq![
            seq![
                PieceView::Text("--emit=dep-info="@),
                PieceView::Path(binary_file(scratch)),
                PieceView::Text(".d,metadata="@),
                PieceView::Path(binary_file(scratch)),
                PieceView::Text(".m"@),
            ],
        ],
    }
}

/// The argument for the edition; the oldest one needs none.
pub open spec fn edition_args(edition: Seq<char>) -> Seq<Seq<PieceView>> {
    if edition == "2015"@ {
        seq![]
    } else {
        seq![text_arg("--edition="@ + edition)]
    }
}

/// All arguments of the compiler.
pub open spec fn compiler_args(
    scratch: FilePathView,
    edition: Seq<char>,
    target_dir: FilePathView,
    target_triple: Seq<char>,
    libraries: Seq<FingerprintView>,
    compile_type: CompileType,
) -> Seq<Seq<PieceView>> {
    seq![path_arg(test_file(scratch)), text_arg("--verbose"@), text_arg("--crate-type=bin"@)]
        + edition_args(edition) + seq![
        text_arg("-L"@),
        path_arg(target_dir),
        text_arg("-L"@),
        path_arg(target_dir.into("deps"@)),
        text_arg("--target"@),
        text_arg(target_triple),
    ] + library_args(libraries) + output_args(scratch, compile_type)
}

/// Puts one more argument behind the others.
fn put(args: &mut Vec<Arg>, arg: Arg)
    ensures
        final(args).deep_view() == old(args).deep_view().push(arg.deep_view()),
{
    let ghost before = args.deep_view();
    let ghost view = arg.deep_view();
    args.push(arg);
    assert(args.deep_view() == before.push(view));
}

impl Arg {
    /// An argument that is a text.
    pub fn text(text: String) -> (arg: Arg)
        ensures
            arg.deep_view() == text_arg(text@),
    {
        let arg = Arg { pieces: vec![Piece::Text(text)] };
        assert(arg.deep_view() == text_arg(text@));
        arg
    }

    /// An argument that is a path.
    pub fn path(path: FilePath) -> (arg: Arg)
        ensures
            arg.deep_view() == path_arg(path.deep_view()),
    {
        let arg = Arg { pieces: vec![Piece::Path(path)] };
        assert(arg.deep_view() == path_arg(path.deep_view()));
        arg
    }
}

/// Puts the arguments for the libraries behind the others.
fn put_libraries(args: &mut Vec<Arg>, libraries: &Vec<Fingerprint>)
    ensures
        final(args).deep_view() == old(args).deep_view() + library_args(libraries.deep_view()),
{
    let ghost start = args.deep_view();
    let ghost all = libraries.deep_view();
    let mut i: usize = 0;
    assert(args.deep_view() == start + library_args(all.take(0)));
    while i < libraries.len()
        invariant
            i <= libraries@.len(),
            all == libraries.deep_view(),
            args.deep_view() == start + library_args(all.take(i as int)),
        decreases libraries@.len() - i,
    {
        let ghost before = args.deep_view();
        assert(all.take(i + 1).drop_last() == all.take(i as int));
        let name = joined(libraries[i].libname.as_str(), "=");
        let file = libraries[i].rlib.clone();
        let named = Arg { pieces: vec![Piece::Text(name), Piece::Path(file)] };
        let ghost named_view = seq![
            PieceView::Text(all[i as int].libname + "="@),
            PieceView::Path(all[i as int].rlib),
        ];
        assert(named.deep_view() == named_view);
        put(args, Arg::text("--extern".to_owned()));
        put(args, named);
        assert(args.deep_view() == start + library_args(all.take(i + 1)));
        i += 1;
    }
    assert(all.take(i as int) == all);
}

/// The command line of the compiler for a test in the directory `scratch`.
pub fn compiler_arguments(
    scratch: &FilePath,
    edition: &String,
    target_dir: &FilePath,
    target_triple: &String,
    libraries: &Vec<Fingerprint>,
    compile_type: CompileType,
) -> (args: Vec<Arg>)
    ensures
        args.deep_view() == compiler_args(
            scratch.deep_view(),
            edition@,
            target_dir.deep_view(),
            target_triple@,
            libraries.deep_view(),
            compile_type,
        ),
        edition@ != "2015"@ ==> args@.len() > 3 && args@[3].deep_view() == seq![
            PieceView::Text("--edition="@ + edition@),
        ],
{
    let mut args: Vec<Arg> = Vec::new();
    put(&mut args, Arg::path(scratch.join("test.rs")));
    put(&mut args, Arg::text("--verbose".to_owned()));
    put(&mut args, Arg::text("--crate-type=bin".to_owned()));
    assert(args.deep_view() == seq![
        path_arg(test_file(scratch.deep_view())),
        text_arg("--verbose"@),
        text_arg("--crate-type=bin"@),
    ]);
    let ghost first = args.deep_view();
    if *edition != "2015".to_owned() {
        put(&mut args, Arg::text(joined("--edition=", edition.as_str())));
    }
    assert(args.deep_view() == first + edition_args(edition@));
    let ghost second = args.deep_view();
    put(&mut args, Arg::text("-L".to_owned()));
    put(&mut args, Arg::path(target_dir.clone()));
    put(&mut args, Arg::text("-L".to_owned()));
    put(&mut args, Arg::path(target_dir.join("deps")));
    put(&mut args, Arg::text("--target".to_owned()));
    put(&mut args, Arg::text(target_triple.clone()));
    assert(args.deep_view() == second + seq![
        text_arg("-L"@),
        path_arg(target_dir.deep_view()),
        text_arg("-L"@),
        path_arg(target_dir.deep_view().into("deps"@)),
        text_arg("--target"@),
        text_arg(target_triple@),
    ]);
    put_libraries(&mut args, libraries);
    let ghost third = args.deep_view();
    let binary = scratch.join("out.exe");
    match compile_type {
        CompileType::Full => {
            put(&mut args, Arg::text("-o".to_owned()));
            put(&mut args, Arg::path(binary));
        },
        CompileType::Check => {
            let emit = Arg {
                pieces: vec![
                    Piece::Text("--emit=dep-info=".to_owned()),
                    Piece::Path(binary.clone()),
                    Piece::Text(".d,metadata=".to_owned()),
                    Piece::Path(binary),
                    Piece::Text(".m".to_owned()),
                ],
            };
            assert(emit.deep_view() == output_args(scratch.deep_view(), compile_type)[0]);
            put(&mut args, emit);
        },
    }
    assert(args.deep_view() == third + output_args(scratch.deep_view(), compile_type));
    assert(edition@ != "2015"@ ==> args.deep_view()[3] == text_arg("--edition="@ + edition@));
    args
}

/// The arguments of the libraries are two for each, in their order.
proof fn lemma_library_args(libraries: Seq<FingerprintView>, k: int)
    requires
        0 <= k < libraries.len(),
    ensures
        library_args(libraries).len() == 2 * libraries.len(),
        library_args(libraries)[2 * k] == seq![PieceView::Text("--extern"@)],
        library_args(libraries)[2 * k + 1] == seq![
            PieceView::Text(libraries[k].libname + "="@),
            PieceView::Path(libraries[k].rlib),
        ],
    decreases libraries.len(),
{
    let shorter = libraries.drop_last();
    if shorter.len() == 0 {
        assert(library_args(shorter).len() == 0);
    } else if k < shorter.len() {
        lemma_library_args(shorter, k);
        assert(shorter[k] == libraries[k]);
    } else {
        lemma_library_args(shorter, 0);
    }
}

/// The compiler is called with the file of the test, then the edition unless that is 2015, then
/// the directories and the target, then each library by name and file, and last what it is to
/// make, and with nothing else.
pub proof fn law_command_line(
    scratch: FilePathView,
    edition: Seq<char>,
    target_dir: FilePathView,
    target_triple: Seq<char>,
    libraries: Seq<FingerprintView>,
    compile_type: CompileType,
)
    ensures
        ({
            let args = compiler_args(
                scratch,
                edition,
                target_dir,
                target_triple,
                libraries,
                compile_type,
            );
            let e: int = if edition == "2015"@ {
                0
            } else {
                1
            };
            let n = 9 + e + 2 * libraries.len();
            let binary = FilePathView {
                text: scratch.text,
                steps: scratch.steps.push(StepView::Into("out.exe"@)),
            };
            &&& args[0] == seq![
                PieceView::Path(
                    FilePathView {
                        text: scratch.text,
                        steps: scratch.steps.push(StepView::Into("test.rs"@)),
                    },
                ),
            ]
            &&& args[1] == seq![PieceView::Text("--verbose"@)]
            &&& args[2] == seq![PieceView::Text("--crate-type=bin"@)]
            &&& edition != "2015"@ ==> args[3] == seq![PieceView::Text("--edition="@ + edition)]
            &&& args[3 + e] == seq![PieceView::Text("-L"@)]
            &&& args[4 + e] == seq![PieceView::Path(target_dir)]
            &&& args[5 + e] == seq![PieceView::Text("-L"@)]
            &&& args[6 + e] == seq![
                PieceView::Path(
                    FilePathView {
                        text: target_dir.text,
                        steps: target_dir.steps.push(StepView::Into("deps"@)),
                    },
                ),
            ]
            &&& args[7 + e] == seq![PieceView::Text("--target"@)]
            &&& args[8 + e] == seq![PieceView::Text(target_triple)]
            &&& forall|k: int|
                #![trigger libraries[k]]
                0 <= k < libraries.len() ==> args[9 + e + 2 * k] == seq![
                    PieceView::Text("--extern"@),
                ] && args[10 + e + 2 * k] == seq![
                    PieceView::Text(libraries[k].libname + "="@),
                    PieceView::Path(libraries[k].rlib),
                ]
            &&& compile_type == CompileType::Full ==> args.len() == n + 2 && args[n] == seq![
                PieceView::Text("-o"@),
            ] && args[n + 1] == seq![PieceView::Path(binary)]
            &&& compile_type == CompileType::Check ==> args.len() == n + 1 && args[n] == seq![
                PieceView::Text("--emit=dep-info="@),
                PieceView::Path(binary),
                PieceView::Text(".d,metadata="@),
                PieceView::Path(binary),
                PieceView::Text(".m"@),
            ]
        }),
{
    let args = compiler_args(
        scratch,
        edition,
        target_dir,
        target_triple,
        libraries,
        compile_type,
    );
    let e = edition_args(edition).len() as int;
    if libraries.len() > 0 {
        lemma_library_args(libraries, 0);
    } else {
        assert(library_args(libraries).len() == 0);
    }
    assert forall|k: int|
        #![trigger libraries[k]]
        0 <= k < libraries.len() implies args[9 + e + 2 * k] == seq![PieceView::Text("--extern"@)]
        && args[10 + e + 2 * k] == seq![
        PieceView::Text(libraries[k].libname + "="@),
        PieceView::Path(libraries[k].rlib),
    ] by {
        lemma_library_args(libraries, k);
        assert(args[9 + e + 2 * k] == library_args(libraries)[2 * k]);
        assert(args[10 + e + 2 * k] == library_args(libraries)[2 * k + 1]);
    }
}

/// The edition is passed on as it is called: another edition gives another command line, and only
/// the edition 2015 is not mentioned.
pub proof fn law_edition_is_passed_on(
    scratch: FilePathView,
    edition: Seq<char>,
    other: Seq<char>,
    target_dir: FilePathView,
    target_triple: Seq<char>,
    libraries: Seq<FingerprintView>,
    compile_type: CompileType,
)
    requires
        edition != other,
    ensures
        compiler_args(scratch, edition, target_dir, target_triple, libraries, compile_type)
            != compiler_args(scratch, other, target_dir, target_triple, libraries, compile_type),
        edition != "2015"@ ==> compiler_args(
            scratch,
            edition,
            target_dir,
            target_triple,
            libraries,
            compile_type,
        )[3] == seq![PieceView::Text("--edition="@ + edition)],
{
    law_command_line(scratch, edition, target_dir, target_triple, libraries, compile_type);
    law_command_line(scratch, other, target_dir, target_triple, libraries, compile_type);
    let a = compiler_args(scratch, edition, target_dir, target_triple, libraries, compile_type);
    let b = compiler_args(scratch, other, target_dir, target_triple, libraries, compile_type);
    if a == b && edition != "2015"@ && other != "2015"@ {
        let head = "--edition="@;
        assert(a[3][0] == PieceView::Text(head + edition));
        assert(b[3][0] == PieceView::Text(head + other));
        assert((head + edition).skip(head.len() as int) == edition);
        assert((head + other).skip(head.len() as int) == other);
    }
}

/// An argument stands for its pieces, in their order, each for what it is.
pub proof fn law_argument_stands_for_its_pieces(arg: Arg, text: String, path: FilePath)
    ensures
        arg.deep_view() == arg.pieces@.map_values(|piece: Piece| piece.deep_view()),
        Piece::Text(text).deep_view() == PieceView::Text(text@),
        Piece::Path(path).deep_view() == PieceView::Path(path.deep_view()),
{
    assert(arg.deep_view() == arg.pieces@.map_values(|piece: Piece| piece.deep_view()));
}

} // verus!
