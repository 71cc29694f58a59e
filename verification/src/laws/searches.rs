//! Laws of the search for a `.luaurc` file.
use vstd::prelude::*;
use crate::error::ErrorView;
use crate::laws::scripts::without_root;
use crate::path::is_rooted;
use crate::path::parent_of;
use crate::path::PartView;
use crate::search::candidate_in;
use crate::search::search_step;
use crate::search::LuaurcView;
use crate::search::OutcomeView;
use crate::search::StepView;

verus! {

/// The `.luaurc` file of a directory.
pub open spec fn luaurc_of(dir: Seq<PartView>) -> Seq<PartView> {
    dir + seq![PartView::Normal(seq!['.', 'l', 'u', 'a', 'u', 'r', 'c'])]
}

/// How a search ends.
#[verifier::ext_equal]
pub enum SearchEnd {
    Found(LuaurcView),
    Nothing,
    Failed(ErrorView),
}

/// How a search that has come to `dir` ends if reading a file gives what
/// `answer` says.
pub open spec fn search_end(
    dir: Seq<PartView>,
    answer: spec_fn(Seq<PartView>) -> OutcomeView,
) -> SearchEnd
    decreases dir.len(),
{
    match search_step(dir, answer(luaurc_of(dir))) {
        StepView::Found(luaurc) => SearchEnd::Found(luaurc),
        StepView::Continue(next) => if next.len() < dir.len() {
            search_end(next, answer)
        } else {
            SearchEnd::Nothing
        },
        StepView::Exhausted => SearchEnd::Nothing,
        StepView::Failed(error) => SearchEnd::Failed(error),
    }
}

/// The directory `up` levels above `dir`, if there is one.
pub open spec fn ancestor(dir: Seq<PartView>, up: nat) -> Option<Seq<PartView>>
    decreases up,
{
    if up == 0 {
        Some(dir)
    } else {
        match parent_of(dir) {
            Some(parent) => ancestor(parent, (up - 1) as nat),
            None => None,
        }
    }
}

/// There is no `.luaurc` file in the first `levels` directories, going up from
/// `dir`.
pub open spec fn missing_below(
    dir: Seq<PartView>,
    answer: spec_fn(Seq<PartView>) -> OutcomeView,
    levels: nat,
) -> bool {
    forall|k: nat|
        k < levels ==> (#[trigger] ancestor(dir, k) matches Some(above) ==> answer(
            candidate_in(above),
        ) is NotFound)
}

/// There is no `.luaurc` file in the directories that one comes to from `dir`
/// by following `down`, but for `dir` itself.
pub open spec fn missing_on_the_way(
    dir: Seq<PartView>,
    down: Seq<PartView>,
    answer: spec_fn(Seq<PartView>) -> OutcomeView,
) -> bool {
    forall|k: int|
        0 < k <= down.len() ==> answer(luaurc_of(dir + #[trigger] down.take(k))) is NotFound
}

/// The file to read for a directory stands in it and is called `.luaurc`, at
/// any depth.
pub proof fn candidates_stand_in_their_directory(dir: Seq<PartView>)
    ensures
        candidate_in(dir) == luaurc_of(dir),
        candidate_in(dir).drop_last() == dir,
        candidate_in(dir).last() == PartView::Normal(seq!['.', 'l', 'u', 'a', 'u', 'r', 'c']),
{
    reveal_strlit(".luaurc");
    assert(".luaurc"@ =~= seq!['.', 'l', 'u', 'a', 'u', 'r', 'c']);
    assert(candidate_in(dir) =~= luaurc_of(dir));
    assert(candidate_in(dir).drop_last() =~= dir);
}

/// A missing file sends a search up by one component, and to nothing from the
/// root and from the empty path.
pub proof fn missing_files_send_up(dir: Seq<PartView>, part: PartView)
    requires
        !(part is RootDir),
    ensures
        search_step(dir.push(part), OutcomeView::NotFound) == StepView::Continue(dir),
        search_step(dir.push(PartView::RootDir), OutcomeView::NotFound) == StepView::Exhausted,
        search_step(seq![], OutcomeView::NotFound) == StepView::Exhausted,
{
    assert(dir.push(part).drop_last() =~= dir);
}

/// A file that is there ends a search: with its aliases and the directory that
/// holds it, or with an error that names the file.
pub proof fn files_end_a_search(dir: Seq<PartView>, aliases: Map<Seq<char>, Seq<char>>)
    ensures
        search_step(dir, OutcomeView::Parsed(aliases)) == StepView::Found(
            LuaurcView { aliases, dir },
        ),
        search_step(dir, OutcomeView::Unreadable) == StepView::Failed(
            ErrorView::LuaurcUnreadable(luaurc_of(dir)),
        ),
        search_step(dir, OutcomeView::Malformed) == StepView::Failed(
            ErrorView::LuaurcMalformed(luaurc_of(dir)),
        ),
{
    candidates_stand_in_their_directory(dir);
}

/// A search goes on only to a shorter path, so it comes to an end.
pub proof fn searches_end(dir: Seq<PartView>, outcome: OutcomeView)
    ensures
        search_step(dir, outcome) matches StepView::Continue(next) ==> next.len() < dir.len(),
{
}

/// A search that starts anywhere below `dir`, with no file on the way, comes to
/// the one in `dir`, and ends there if it is there, with its aliases or with
/// its error.
pub proof fn searches_go_up_to_a_file(
    dir: Seq<PartView>,
    down: Seq<PartView>,
    answer: spec_fn(Seq<PartView>) -> OutcomeView,
)
    requires
        without_root(down),
        missing_on_the_way(dir, down, answer),
    ensures
        (match answer(luaurc_of(dir)) {
            OutcomeView::Parsed(aliases) => search_end(dir + down, answer) == SearchEnd::Found(
                LuaurcView { aliases, dir },
            ),
            OutcomeView::Unreadable => search_end(dir + down, answer) == SearchEnd::Failed(
                ErrorView::LuaurcUnreadable(luaurc_of(dir)),
            ),
            OutcomeView::Malformed => search_end(dir + down, answer) == SearchEnd::Failed(
                ErrorView::LuaurcMalformed(luaurc_of(dir)),
            ),
            OutcomeView::NotFound => search_end(dir + down, answer) == search_end(dir, answer),
        }),
    decreases down.len(),
{
    if down.len() == 0 {
        assert(dir + down =~= dir);
        candidates_stand_in_their_directory(dir);
    } else {
        let n = down.len() as int;
        let init = down.drop_last();
        assert(down.take(n) =~= down);
        assert(answer(luaurc_of(dir + down.take(n))) is NotFound);
        assert(without_root(init)) by {
            assert forall|i: int| 0 <= i < init.len() implies !((#[trigger] init[i]) is RootDir) by {
                assert(init[i] == down[i]);
            }
        }
        assert forall|k: int| 0 < k <= init.len() implies answer(
            luaurc_of(dir + #[trigger] init.take(k)),
        ) is NotFound by {
            assert(init.take(k) =~= down.take(k));
        }
        searches_go_up_to_a_file(dir, init, answer);
        assert(!(down[n - 1] is RootDir));
        missing_files_send_up(dir + init, down[n - 1]);
        assert((dir + init).push(down[n - 1]) =~= dir + down);
    }
}

/// Where all files up to the root, or up to the end of a path without one, are
/// missing, the search finds nothing.
pub proof fn searches_stop_at_the_root(
    top: Seq<PartView>,
    down: Seq<PartView>,
    answer: spec_fn(Seq<PartView>) -> OutcomeView,
)
    requires
        top == seq![PartView::RootDir] || top == Seq::<PartView>::empty(),
        without_root(down),
        missing_on_the_way(top, down, answer),
        answer(luaurc_of(top)) is NotFound,
    ensures
        search_end(top + down, answer) == SearchEnd::Nothing,
{
    let nothing = Seq::<PartView>::empty();
    searches_go_up_to_a_file(top, down, answer);
    missing_files_send_up(nothing, PartView::CurDir);
    assert(nothing.push(PartView::RootDir) =~= seq![PartView::RootDir]);
}

/// The nearest `.luaurc` file that is there decides: a search looks at the
/// directories going up from where it starts, and ends at the first file that
/// is not missing, with its aliases or with its error.
pub proof fn nearest_file_decides(
    dir: Seq<PartView>,
    answer: spec_fn(Seq<PartView>) -> OutcomeView,
    up: nat,
)
    requires
        ancestor(dir, up) is Some,
        missing_below(dir, answer, up),
        !(answer(candidate_in(ancestor(dir, up)->0)) is NotFound),
    ensures
        (match answer(candidate_in(ancestor(dir, up)->0)) {
            OutcomeView::Parsed(aliases) => search_end(dir, answer) == SearchEnd::Found(
                LuaurcView { aliases, dir: ancestor(dir, up)->0 },
            ),
            OutcomeView::Unreadable => search_end(dir, answer) == SearchEnd::Failed(
                ErrorView::LuaurcUnreadable(candidate_in(ancestor(dir, up)->0)),
            ),
            OutcomeView::Malformed => search_end(dir, answer) == SearchEnd::Failed(
                ErrorView::LuaurcMalformed(candidate_in(ancestor(dir, up)->0)),
            ),
            OutcomeView::NotFound => false,
        }),
    decreases up,
{
    candidates_stand_in_their_directory(dir);
    if up > 0 {
        let parent = parent_of(dir)->0;
        assert(ancestor(dir, 0) == Some(dir));
        lemma_missing_above(dir, answer, up);
        nearest_file_decides(parent, answer, (up - 1) as nat);
    }
}

/// Where all files are missing, the search finds nothing.
pub proof fn no_file_means_nothing(
    dir: Seq<PartView>,
    answer: spec_fn(Seq<PartView>) -> OutcomeView,
)
    requires
        missing_below(dir, answer, dir.len() + 1),
    ensures
        search_end(dir, answer) == SearchEnd::Nothing,
    decreases dir.len(),
{
    candidates_stand_in_their_directory(dir);
    assert(ancestor(dir, 0) == Some(dir));
    if parent_of(dir) is Some {
        lemma_missing_above(dir, answer, dir.len() + 1);
        no_file_means_nothing(parent_of(dir)->0, answer);
    }
}

/// The `.luaurc` that a search finds stands in the directory where it starts,
/// or above it, and not above the root.
pub proof fn found_above(
    dir: Seq<PartView>,
    answer: spec_fn(Seq<PartView>) -> OutcomeView,
)
    ensures
        search_end(dir, answer) matches SearchEnd::Found(luaurc) ==> {
            &&& luaurc.dir.is_prefix_of(dir)
            &&& is_rooted(dir) ==> is_rooted(luaurc.dir)
            &&& dir.len() > 0 && dir[0] is RootDir ==> luaurc.dir.len() > 0
            &&& answer(luaurc_of(luaurc.dir)) == OutcomeView::Parsed(luaurc.aliases)
        },
    decreases dir.len(),
{
    if let StepView::Continue(next) = search_step(dir, answer(luaurc_of(dir))) {
        found_above(next, answer);
        if let SearchEnd::Found(luaurc) = search_end(next, answer) {
            assert(luaurc.dir =~= dir.subrange(0, luaurc.dir.len() as int));
        }
    } else {
        assert(dir =~= dir.subrange(0, dir.len() as int));
    }
}

proof fn lemma_missing_above(
    dir: Seq<PartView>,
    answer: spec_fn(Seq<PartView>) -> OutcomeView,
    levels: nat,
)
    requires
        levels > 0,
        parent_of(dir) is Some,
        missing_below(dir, answer, levels),
    ensures
        missing_below(parent_of(dir)->0, answer, (levels - 1) as nat),
{
    let parent = parent_of(dir)->0;
    assert forall|k: nat| k < levels - 1 implies (#[trigger] ancestor(
        parent,
        k,
    ) matches Some(above) ==> answer(candidate_in(above)) is NotFound) by {
        assert(ancestor(dir, k + 1) == ancestor(parent, k));
    }
}

} // verus!
