//! Finding the `.luaurc` file that counts for a script: the nearest one, going
//! up from the script's directory.
//!
//! The search decides which file to read next; reading it is up to the caller.
use vstd::prelude::*;
use crate::aliases::AliasTable;
use crate::error::ErrorView;
use crate::error::ResolveError;
use crate::path::parent_of;
use crate::path::LogicalPath;
use crate::path::Part;
use crate::path::PartView;

verus! {

/// The aliases of a `.luaurc` file, and the directory that holds it.
#[derive(Debug)]
pub struct Luaurc {
    pub aliases: AliasTable,
    pub dir: LogicalPath,
}

/// The model of a [`Luaurc`].
#[verifier::ext_equal]
pub struct LuaurcView {
    pub aliases: Map<Seq<char>, Seq<char>>,
    pub dir: Seq<PartView>,
}

impl View for Luaurc {
    type V = LuaurcView;

    open spec fn view(&self) -> LuaurcView {
        LuaurcView { aliases: self.aliases@, dir: self.dir@ }
    }
}

/// What came of reading a candidate.
#[derive(Debug)]
pub enum ReadOutcome {
    /// It was read, and gave these aliases.
    Parsed(AliasTable),
    /// There is no such file.
    NotFound,
    /// It could not be read for another reason.
    Unreadable,
    /// It was read, but is not a `.luaurc`.
    Malformed,
}

/// The model of a [`ReadOutcome`].
#[verifier::ext_equal]
pub enum OutcomeView {
    Parsed(Map<Seq<char>, Seq<char>>),
    NotFound,
    Unreadable,
    Malformed,
}

impl View for ReadOutcome {
    type V = OutcomeView;

    open spec fn view(&self) -> OutcomeView {
        match *self {
            ReadOutcome::Parsed(aliases) => OutcomeView::Parsed(aliases@),
            ReadOutcome::NotFound => OutcomeView::NotFound,
            ReadOutcome::Unreadable => OutcomeView::Unreadable,
            ReadOutcome::Malformed => OutcomeView::Malformed,
        }
    }
}

/// A search that is under way: the directory whose `.luaurc` is to be read.
#[derive(Debug)]
pub struct LuaurcSearch {
    pub current: LogicalPath,
}

/// How a search goes on once a candidate was tried.
#[derive(Debug)]
pub enum SearchStep {
    /// This is the file.
    Found(Luaurc),
    /// The next candidate is to be read.
    Continue(LuaurcSearch),
    /// There is no directory left.
    Exhausted,
    /// The search failed.
    Failed(ResolveError),
}

/// The model of a [`SearchStep`].
#[verifier::ext_equal]
pub enum StepView {
    Found(LuaurcView),
    Continue(Seq<PartView>),
    Exhausted,
    Failed(ErrorView),
}

impl View for SearchStep {
    type V = StepView;

    open spec fn view(&self) -> StepView {
        match *self {
            SearchStep::Found(luaurc) => StepView::Found(luaurc@),
            SearchStep::Continue(search) => StepView::Continue(search.current@),
            SearchStep::Exhausted => StepView::Exhausted,
            SearchStep::Failed(error) => StepView::Failed(error@),
        }
    }
}

/// The `.luaurc` file of a directory.
pub open spec fn candidate_in(dir: Seq<PartView>) -> Seq<PartView> {
    dir.push(PartView::Normal(".luaurc"@))
}

/// How a search at `dir` goes on: a file that was read ends it, a missing one
/// sends it to the parent directory, anything else is an error.
pub open spec fn search_step(dir: Seq<PartView>, outcome: OutcomeView) -> StepView {
    match outcome {
        OutcomeView::Parsed(aliases) => StepView::Found(LuaurcView { aliases, dir }),
        OutcomeView::NotFound => match parent_of(dir) {
            Some(parent) => StepView::Continue(parent),
            None => StepView::Exhausted,
        },
        OutcomeView::Unreadable => StepView::Failed(ErrorView::LuaurcUnreadable(candidate_in(dir))),
        OutcomeView::Malformed => StepView::Failed(ErrorView::LuaurcMalformed(candidate_in(dir))),
    }
}

impl LuaurcSearch {
    /// Starts a search for a script, in the directory that holds it.
    pub fn for_script(file_path: &LogicalPath) -> (res: Result<LuaurcSearch, ResolveError>)
        ensures
            (match res {
                Ok(search) => parent_of(file_path@) == Some(search.current@),
                Err(error) => parent_of(file_path@) is None && error is NoParentDirectory,
            }),
            res is Err <==> file_path@.len() == 0 || file_path@.last() == PartView::RootDir,
            res is Ok ==> res->Ok_0.current@ == file_path@.drop_last(),
    {
        match file_path.parent() {
            Some(dir) => Ok(LuaurcSearch { current: dir }),
            None => Err(ResolveError::NoParentDirectory),
        }
    }

    /// The file to read next.
    pub fn candidate(&self) -> (res: LogicalPath)
        ensures
            res@ == candidate_in(self.current@),
            res@ == self.current@ + seq![PartView::Normal(".luaurc"@)],
    {
        let mut path = self.current.copy();
        path.push(Part::Normal(".luaurc".to_owned()));
        assert(path@ =~= self.current@ + seq![PartView::Normal(".luaurc"@)]);
        path
    }

    /// Goes on with what came of reading the candidate.
    pub fn step(self, outcome: ReadOutcome) -> (res: SearchStep)
        ensures
            res@ == search_step(self.current@, outcome@),
    {
        match outcome {
            ReadOutcome::Parsed(aliases) => SearchStep::Found(
                Luaurc { aliases, dir: self.current },
            ),
            ReadOutcome::NotFound => match self.current.parent() {
                Some(parent) => SearchStep::Continue(LuaurcSearch { current: parent }),
                None => SearchStep::Exhausted,
            },
            ReadOutcome::Unreadable => {
                SearchStep::Failed(ResolveError::LuaurcUnreadable(self.candidate()))
            },
            ReadOutcome::Malformed => {
                SearchStep::Failed(ResolveError::LuaurcMalformed(self.candidate()))
            },
        }
    }
}

} // verus!
