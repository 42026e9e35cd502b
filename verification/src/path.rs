//! Paths, as the texts that they came as and what was done to them since.

use vstd::prelude::*;

verus! {

/// A change of a path.
#[derive(Debug, PartialEq, Eq)]
pub enum Step {
    /// To the directory that the path is in; a path without one stays as it is.
    Up,
    /// To what a relative path means from there.
    Into(String),
    /// To the file of that name with another extension.
    Extension(String),
}

/// A path: a text, and the changes that were made to the path it spells, in their order. What the
/// text and the changes come to is for the platform to say.
#[derive(Debug, PartialEq, Eq)]
pub struct FilePath {
    pub text: String,
    pub steps: Vec<Step>,
}

/// A change of a path as a mathematical value.
pub enum StepView {
    Up,
    Into(Seq<char>),
    Extension(Seq<char>),
}

/// A path as a mathematical value.
pub struct FilePathView {
    pub text: Seq<char>,
    pub steps: Seq<StepView>,
}

impl DeepView for Step {
    type V = StepView;

    open spec fn deep_view(&self) -> StepView {
        match *self {
            Step::Up => StepView::Up,
            Step::Into(name) => StepView::Into(name@),
            Step::Extension(name) => StepView::Extension(name@),
        }
    }
}

impl DeepView for FilePath {
    type V = FilePathView;

    open spec fn deep_view(&self) -> FilePathView {
        FilePathView { text: self.text@, steps: self.steps.deep_view() }
    }
}

impl FilePathView {
    /// The path that a text spells.
    pub open spec fn of(text: Seq<char>) -> FilePathView {
        FilePathView { text, steps: seq![] }
    }

    /// The path after one change more.
    pub open spec fn then_step(self, step: StepView) -> FilePathView {
        FilePathView { text: self.text, steps: self.steps.push(step) }
    }

    /// The directory that the path is in.
    pub open spec fn up(self) -> FilePathView {
        self.then_step(StepView::Up)
    }

    /// What a relative path means from here.
    pub open spec fn into(self, name: Seq<char>) -> FilePathView {
        self.then_step(StepView::Into(name))
    }

    /// The file of this name with another extension.
    pub open spec fn with_extension(self, name: Seq<char>) -> FilePathView {
        self.then_step(StepView::Extension(name))
    }
}

impl Clone for Step {
    fn clone(&self) -> (res: Step)
        ensures
            res.deep_view() == self.deep_view(),
    {
        match self {
            Step::Up => Step::Up,
            Step::Into(name) => Step::Into(name.clone()),
            Step::Extension(name) => Step::Extension(name.clone()),
        }
    }
}

impl Clone for FilePath {
    fn clone(&self) -> (res: FilePath)
        ensures
            res.deep_view() == self.deep_view(),
    {
        let mut steps: Vec<Step> = Vec::new();
        let mut i: usize = 0;
        while i < self.steps.len()
            invariant
                i <= self.steps@.len(),
                steps.deep_view() == self.steps.deep_view().take(i as int),
            decreases self.steps@.len() - i,
        {
            let ghost before = steps.deep_view();
            let step = self.steps[i].clone();
            let ghost view = step.deep_view();
            steps.push(step);
            assert(steps.deep_view() == before.push(view));
            i += 1;
        }
        assert(steps.deep_view() == self.steps.deep_view());
        FilePath { text: self.text.clone(), steps }
    }
}

impl FilePath {
    /// The path that a text spells.
    pub fn new(text: &str) -> (path: FilePath)
        ensures
            path.deep_view() == FilePathView::of(text@),
    {
        let path = FilePath { text: text.to_owned(), steps: Vec::new() };
        assert(path.steps.deep_view() == Seq::<StepView>::empty());
        path
    }

    /// Makes one change.
    fn change(&mut self, step: Step)
        ensures
            final(self).deep_view() == old(self).deep_view().then_step(step.deep_view()),
    {
        let ghost view = step.deep_view();
        let ghost before = self.steps.deep_view();
        self.steps.push(step);
        assert(self.steps.deep_view() == before.push(view));
    }

    /// Goes to the directory that the path is in.
    pub fn pop(&mut self)
        ensures
            final(self).deep_view() == old(self).deep_view().up(),
    {
        self.change(Step::Up);
    }

    /// Goes to what a relative path means from here.
    pub fn push(&mut self, name: String)
        ensures
            final(self).deep_view() == old(self).deep_view().into(name@),
    {
        self.change(Step::Into(name));
    }

    /// Goes to the file of this name with another extension.
    pub fn set_extension(&mut self, name: String)
        ensures
            final(self).deep_view() == old(self).deep_view().with_extension(name@),
    {
        self.change(Step::Extension(name));
    }

    /// What a relative path means from here.
    pub fn join(&self, name: &str) -> (path: FilePath)
        ensures
            path.deep_view() == self.deep_view().into(name@),
    {
        let mut path = self.clone();
        path.push(name.to_owned());
        path
    }
}

/// A change of a path leaves its text and the changes before it as they are and stands behind
/// them; a path that a text spells has none.
pub proof fn law_changes_are_kept_in_order(path: FilePathView, name: Seq<char>)
    ensures
        path.up() == (FilePathView { text: path.text, steps: path.steps.push(StepView::Up) }),
        path.into(name) == (FilePathView {
            text: path.text,
            steps: path.steps.push(StepView::Into(name)),
        }),
        path.with_extension(name) == (FilePathView {
            text: path.text,
            steps: path.steps.push(StepView::Extension(name)),
        }),
        FilePathView::of(name).text == name,
        FilePathView::of(name).steps.len() == 0,
{
}

/// A path stands for its text and for its changes, each for what it is, and for nothing else.
pub proof fn law_path_stands_for_its_text_and_changes(path: FilePath, name: String)
    ensures
        path.deep_view().text == path.text@,
        path.deep_view().steps.len() == path.steps@.len(),
        forall|i: int|
            0 <= i < path.steps@.len() ==> #[trigger] path.deep_view().steps[i]
                == path.steps@[i].deep_view(),
        Step::Up.deep_view() == StepView::Up,
        Step::Into(name).deep_view() == StepView::Into(name@),
        Step::Extension(name).deep_view() == StepView::Extension(name@),
{
}

} // verus!
