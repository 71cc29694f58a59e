//! Laws of resolving the requires of a script.
use vstd::prelude::*;
use vstd::utf8::encode_utf8;
use vstd::utf8::encode_utf8_valid_utf8;
use crate::error::ErrorView;
use crate::laws::edits::in_order_follows;
use crate::laws::edits::laid_out;
use crate::laws::edits::new_texts;
use crate::laws::edits::only_the_spans_change;
use crate::laws::edits::pieces_between_the_spans_stay;
use crate::laws::edits::spans_cut_a_text_into_pieces;
use crate::laws::edits::spans_fit;
use crate::laws::names::is_around;
use crate::laws::names::known_aliases_turn_into_paths;
use crate::laws::names::mentions_concern_a_script;
use crate::laws::names::only_mentions_concern_a_script;
use crate::laws::paths::branches_down;
use crate::laws::paths::diff_is_there;
use crate::laws::paths::diff_leads_to_target;
use crate::laws::paths::diff_survives_a_move;
use crate::laws::paths::lemma_walk_all_push_part;
use crate::laws::paths::lexing_around_a_slash;
use crate::laws::paths::lexing_slashed_components;
use crate::laws::paths::names_and_ups;
use crate::laws::paths::parents_lack_the_last_component;
use crate::laws::paths::place_of;
use crate::laws::paths::steps_up;
use crate::laws::paths::the_way_goes_up_and_down;
use crate::laws::paths::walk_all;
use crate::laws::paths::walking_a_joined_path;
use crate::laws::searches::found_above;
use crate::laws::searches::search_end;
use crate::laws::searches::SearchEnd;
use crate::laws::walks::in_block;
use crate::laws::walks::requires_by_alias;
use crate::laws::walks::sites_are_the_alias_calls;
use crate::path::common_len;
use crate::path::diff;
use crate::path::display_text;
use crate::path::is_name;
use crate::path::is_rooted;
use crate::path::joined;
use crate::path::lemma_common_len;
use crate::path::lemma_diff_well_formed;
use crate::path::lemma_joined_well_formed;
use crate::path::lemma_lexed_well_formed;
use crate::path::lex_from;
use crate::path::lexed;
use crate::path::parent_of;
use crate::path::part_of;
use crate::path::part_text;
use crate::path::push_part;
use crate::path::slashed;
use crate::path::way;
use crate::path::well_formed;
use crate::path::PartView;
use crate::replace::are_separate;
use crate::replace::follow_each_other;
use crate::replace::in_order;
use crate::replace::last_first;
use crate::replace::replaced;
use crate::replace::woven;
use crate::replace::ReplacementView;
use crate::resolve::alias_name;
use crate::resolve::alias_require;
use crate::resolve::alias_sub_path;
use crate::resolve::anchored;
use crate::resolve::is_concerned;
use crate::resolve::lemma_replacements_are_separate;
use crate::resolve::relative_require;
use crate::resolve::resolved;
use crate::resolve::sites_replacements;
use crate::resolve::tree_replacements;
use crate::search::LuaurcView;
use crate::search::OutcomeView;
use crate::syntax::BlockTree;
use crate::syntax::CallTree;
use crate::text::find_char;
use crate::text::lemma_find_char;
use crate::text::lemma_find_char_unique;
use crate::visit::block_calls;
use crate::visit::block_sites;
use crate::visit::call_closing;
use crate::visit::call_end;
use crate::visit::call_start;
use crate::visit::calls_lie_apart;
use crate::visit::calls_sites;
use crate::visit::is_alias_text;
use crate::visit::lemma_sites_are_aliases;
use crate::visit::SiteView;

verus! {

/// No component is a root.
pub open spec fn without_root(path: Seq<PartView>) -> bool {
    forall|i: int| 0 <= i < path.len() ==> !((#[trigger] path[i]) is RootDir)
}

/// A text that Luau takes for a relative require: it starts with `./` or
/// `../`, or is `..`.
pub open spec fn is_relative_text(text: Seq<char>) -> bool {
    &&& text.len() >= 2
    &&& text[0] == '.'
    &&& text[1] == '/' || (text[1] == '.' && (text.len() == 2 || text[2] == '/'))
}

/// What the path of a require denotes that leads to `sub_path` in `target`, or
/// to `target` itself.
pub open spec fn target_place(target: Seq<PartView>, sub_path: Option<Seq<char>>) -> Seq<PartView> {
    match sub_path {
        Some(sub) => place_of(lex_from(target, sub)),
        None => place_of(target),
    }
}

proof fn lemma_joined_without_root(path: Seq<PartView>, other: Seq<PartView>)
    requires
        without_root(path),
        without_root(other),
    ensures
        without_root(joined(path, other)),
    decreases other.len(),
{
    if other.len() > 0 {
        let init = other.drop_last();
        assert(without_root(init)) by {
            assert forall|i: int| 0 <= i < init.len() implies !((#[trigger] init[i]) is RootDir) by {
                assert(init[i] == other[i]);
            }
        }
        lemma_joined_without_root(path, init);
        assert(other.last() == other[other.len() - 1]);
        let before = joined(path, init);
        let after = joined(path, other);
        assert forall|i: int| 0 <= i < after.len() implies !((#[trigger] after[i]) is RootDir) by {
            if i < before.len() && after.len() > 1 {
                assert(after[i] == before[i]);
            }
        }
    }
}

proof fn lemma_way_without_root(target: Seq<PartView>, base: Seq<PartView>)
    requires
        without_root(target),
    ensures
        way(target, base) matches Some(parts) ==> without_root(parts),
    decreases base.len(),
{
    if target.len() > 0 && base.len() > 0 && base[0] is CurDir {
        let rest = target.skip(1);
        assert forall|i: int| 0 <= i < rest.len() implies !((#[trigger] rest[i]) is RootDir) by {
            assert(rest[i] == target[i + 1]);
        }
        lemma_way_without_root(rest, base.skip(1));
        assert(!(target[0] is RootDir));
    }
}

/// Between two paths with a root, or two without, the path has no root.
proof fn lemma_diff_without_root(target: Seq<PartView>, base: Seq<PartView>)
    requires
        well_formed(target),
        is_rooted(target) == is_rooted(base),
    ensures
        diff(target, base) matches Some(path) ==> without_root(path),
{
    lemma_common_len(target, base);
    let n = common_len(target, base);
    let rest = target.skip(n);
    assert forall|i: int| 0 <= i < rest.len() implies !((#[trigger] rest[i]) is RootDir) by {
        assert(rest[i] == target[n + i]);
    }
    lemma_way_without_root(rest, base.skip(n));
    if let Some(parts) = way(rest, base.skip(n)) {
        lemma_joined_without_root(seq![], parts);
    }
}

/// Where text leads depends only on where the path before it leads.
proof fn lemma_lexing_keeps_places(
    start: Seq<PartView>,
    path: Seq<PartView>,
    other_start: Seq<PartView>,
    other: Seq<PartView>,
    text: Seq<char>,
)
    requires
        walk_all(start, path) == walk_all(other_start, other),
    ensures
        walk_all(start, lex_from(path, text)) == walk_all(other_start, lex_from(other, text)),
    decreases text.len(),
{
    let end = find_char(text, '/');
    lemma_find_char(text, '/');
    let part = part_of(text.take(end));
    lemma_walk_all_push_part(start, path, part);
    lemma_walk_all_push_part(other_start, other, part);
    if end < text.len() {
        let rest = text.skip(end + 1);
        if end == 0 {
            lemma_lexing_keeps_places(start, path, other_start, other, rest);
        } else {
            lemma_lexing_keeps_places(
                start,
                push_part(path, part),
                other_start,
                push_part(other, part),
                rest,
            );
        }
    }
}

/// The anchored text of a path leads where the path leads.
proof fn lemma_anchored_leads_there(start: Seq<PartView>, path: Seq<PartView>)
    requires
        well_formed(path),
        without_root(path),
    ensures
        walk_all(start, lexed(anchored(path))) == walk_all(start, path),
        anchored(path).len() > 0,
        anchored(path)[0] == '.',
{
    let text = slashed(path);
    let nothing = Seq::<PartView>::empty();
    if path.len() > 0 && path[0] is ParentDir {
        lemma_slashed_front(path);
        assert(text.subrange(0, 2)[0] == '.');
        lexing_slashed_components(nothing, path);
        walking_a_joined_path(start, nothing, path);
    } else {
        let here = seq![PartView::CurDir];
        reveal_strlit("./");
        assert(anchored(path) =~= seq!['.'] + seq!['/'] + text);
        lexing_around_a_slash(nothing, seq!['.'], text);
        lexing_slashed_components(nothing, here);
        assert(slashed(here) == seq!['.']);
        reveal_with_fuel(joined, 2);
        assert(here.drop_last() =~= nothing);
        assert(joined(nothing, here) == here);
        lexing_slashed_components(here, path);
        walking_a_joined_path(start, here, path);
        reveal_with_fuel(walk_all, 2);
        assert(walk_all(start, here) == start);
    }
}

/// The require that takes the place of an alias leads to the same file: who
/// follows it from the script's directory ends up where the alias leads.
///
/// Either both paths have a root or none has one, and what only the script's
/// path has must lead down.
pub proof fn relative_requires_lead_to_the_target(
    script_dir: Seq<PartView>,
    target: Seq<PartView>,
    sub_path: Option<Seq<char>>,
)
    requires
        well_formed(target),
        branches_down(target, script_dir),
        is_rooted(target) == is_rooted(script_dir),
    ensures
        place_of(joined(script_dir, lexed(relative_require(script_dir, target, sub_path))))
            == target_place(target, sub_path),
{
    diff_is_there(target, script_dir);
    let path = diff(target, script_dir)->0;
    let text = anchored(path);
    let start = place_of(script_dir);
    let nothing = Seq::<PartView>::empty();
    lemma_diff_well_formed(target, script_dir);
    lemma_diff_without_root(target, script_dir);
    diff_leads_to_target(target, script_dir);
    walking_a_joined_path(nothing, script_dir, path);
    lemma_anchored_leads_there(start, path);
    walking_a_joined_path(
        nothing,
        script_dir,
        lexed(relative_require(script_dir, target, sub_path)),
    );
    if let Some(sub) = sub_path {
        reveal_strlit("/");
        assert(text + "/"@ + sub =~= text + seq!['/'] + sub);
        assert((text + seq!['/'] + sub)[0] == text[0]);
        lexing_around_a_slash(nothing, text, sub);
        lemma_lexing_keeps_places(start, lexed(text), nothing, target, sub);
    }
}

/// Seen from an absolute path of names alone, every absolute path branches
/// down: such scripts can require any target.
pub proof fn names_branch_down(target: Seq<PartView>, base: Seq<PartView>)
    requires
        is_rooted(target),
        is_rooted(base),
        forall|i: int| 0 < i < base.len() ==> (#[trigger] base[i]) is Normal,
    ensures
        branches_down(target, base),
{
    lemma_common_len(target, base);
}

/// What an alias require turns into, as a whole: where the alias is known, the
/// new require leads from the script to what the alias stands for, seen from
/// the directory of the `.luaurc`.
pub proof fn resolved_aliases_lead_to_their_targets(
    alias_path: Seq<char>,
    script_dir: Seq<PartView>,
    luaurc: LuaurcView,
)
    requires
        alias_require(alias_path, script_dir, luaurc) is Some,
        well_formed(luaurc.dir),
        ({
            let target = joined(luaurc.dir, lexed(luaurc.aliases[alias_name(alias_path)]));
            branches_down(target, script_dir) && is_rooted(target) == is_rooted(script_dir)
        }),
    ensures
        ({
            let target = joined(luaurc.dir, lexed(luaurc.aliases[alias_name(alias_path)]));
            let sub_path = alias_sub_path(alias_path);
            let require_path = relative_require(script_dir, target, sub_path);
            &&& alias_require(alias_path, script_dir, luaurc) == Some(
                "require(\""@ + require_path + "\")"@,
            )
            &&& place_of(joined(script_dir, lexed(require_path))) == target_place(target, sub_path)
        }),
{
    let text = luaurc.aliases[alias_name(alias_path)];
    lemma_lexed_well_formed(text);
    lemma_joined_well_formed(luaurc.dir, lexed(text));
    relative_requires_lead_to_the_target(
        script_dir,
        joined(luaurc.dir, lexed(text)),
        alias_sub_path(alias_path),
    );
}

proof fn lemma_joined_rooted(path: Seq<PartView>, other: Seq<PartView>)
    requires
        is_rooted(path),
    ensures
        is_rooted(joined(path, other)),
    decreases other.len(),
{
    if other.len() > 0 {
        lemma_joined_rooted(path, other.drop_last());
    }
}

/// From search to require: a script at an absolute path of names, for which a
/// search found a `.luaurc`, gets from every known alias a require that leads
/// to what the alias stands for.
pub proof fn scripts_reach_what_their_aliases_stand_for(
    file_path: Seq<PartView>,
    answer: spec_fn(Seq<PartView>) -> OutcomeView,
    luaurc: LuaurcView,
    alias_path: Seq<char>,
)
    requires
        well_formed(file_path),
        is_rooted(file_path),
        forall|i: int| 0 < i < file_path.len() ==> (#[trigger] file_path[i]) is Normal,
        parent_of(file_path) is Some,
        search_end(parent_of(file_path)->0, answer) == SearchEnd::Found(luaurc),
        alias_require(alias_path, parent_of(file_path)->0, luaurc) is Some,
    ensures
        ({
            let script_dir = parent_of(file_path)->0;
            let target = joined(luaurc.dir, lexed(luaurc.aliases[alias_name(alias_path)]));
            let sub_path = alias_sub_path(alias_path);
            let require_path = relative_require(script_dir, target, sub_path);
            &&& script_dir == file_path.drop_last()
            &&& alias_require(alias_path, script_dir, luaurc) == Some(
                "require(\""@ + require_path + "\")"@,
            )
            &&& place_of(joined(script_dir, lexed(require_path))) == target_place(target, sub_path)
        }),
{
    let script_dir = parent_of(file_path)->0;
    let target = joined(luaurc.dir, lexed(luaurc.aliases[alias_name(alias_path)]));
    assert forall|i: int| 0 <= i < script_dir.len() implies script_dir[i] == file_path[i] by {}
    assert(is_rooted(script_dir));
    found_above(script_dir, answer);
    assert(luaurc.dir =~= script_dir.subrange(0, luaurc.dir.len() as int));
    assert(well_formed(luaurc.dir)) by {
        assert forall|i: int| 0 <= i < luaurc.dir.len() implies match #[trigger] luaurc.dir[i] {
            PartView::RootDir => i == 0,
            PartView::CurDir => i == 0,
            PartView::ParentDir => true,
            PartView::Normal(name) => is_name(name),
        } by {
            assert(luaurc.dir[i] == file_path[i]);
        }
    }
    lemma_joined_rooted(luaurc.dir, lexed(luaurc.aliases[alias_name(alias_path)]));
    assert forall|i: int| 0 < i < script_dir.len() implies (#[trigger] script_dir[i]) is Normal by {
        assert(script_dir[i] == file_path[i]);
    }
    names_branch_down(target, script_dir);
    resolved_aliases_lead_to_their_targets(alias_path, script_dir, luaurc);
}

/// The text of components starts with that of the first one, and then ends or
/// goes on with a slash.
proof fn lemma_slashed_front(path: Seq<PartView>)
    requires
        path.len() > 0,
    ensures
        part_text(path[0]).is_prefix_of(slashed(path)),
        slashed(path).len() > part_text(path[0]).len() ==> slashed(path)[part_text(
            path[0],
        ).len() as int] == '/',
    decreases path.len(),
{
    let first = part_text(path[0]);
    if path.len() == 1 {
        assert(slashed(path) =~= slashed(path).subrange(0, first.len() as int));
    } else {
        let init = path.drop_last();
        assert(init[0] == path[0]);
        lemma_slashed_front(init);
        assert(slashed(path).subrange(0, first.len() as int) =~= slashed(init).subrange(
            0,
            first.len() as int,
        ));
        assert(slashed(path)[first.len() as int] == '/');
    }
}

/// A require that was put in is no alias require, if there is a path to the
/// target.
pub proof fn relative_requires_are_no_aliases(
    script_dir: Seq<PartView>,
    target: Seq<PartView>,
    sub_path: Option<Seq<char>>,
)
    requires
        diff(target, script_dir) is Some,
    ensures
        !is_alias_text(relative_require(script_dir, target, sub_path)),
{
    reveal_strlit("./");
    let path = diff(target, script_dir)->0;
    let text = anchored(path);
    if path.len() > 0 && path[0] is ParentDir {
        lemma_slashed_front(path);
        assert(text.subrange(0, 2)[0] == '.');
    }
    assert(text.len() >= 2 && text[0] == '.');
    assert(relative_require(script_dir, target, sub_path)[0] == text[0]);
}

/// A require that was put in is a relative one, if there is a path to the
/// target.
pub proof fn relative_requires_are_relative(
    script_dir: Seq<PartView>,
    target: Seq<PartView>,
    sub_path: Option<Seq<char>>,
)
    requires
        diff(target, script_dir) is Some,
    ensures
        is_relative_text(relative_require(script_dir, target, sub_path)),
{
    let path = diff(target, script_dir)->0;
    let text = anchored(path);
    reveal_strlit("./");
    reveal_strlit("/");
    if path.len() > 0 && path[0] is ParentDir {
        lemma_slashed_front(path);
        assert(text.subrange(0, 2)[0] == '.' && text.subrange(0, 2)[1] == '.');
    }
    assert(is_relative_text(text));
    let whole = relative_require(script_dir, target, sub_path);
    assert(whole[0] == text[0] && whole[1] == text[1]);
    if text.len() > 2 {
        assert(whole[2] == text[2]);
    }
}

/// `@self` and what is below it stay, whatever the aliases are.
pub proof fn self_requires_stay(
    sub_path: Seq<char>,
    script_dir: Seq<PartView>,
    luaurc: LuaurcView,
)
    ensures
        alias_require("@self"@, script_dir, luaurc) is None,
        alias_require("@self/"@ + sub_path, script_dir, luaurc) is None,
{
    reveal_strlit("self");
    reveal_strlit("@self");
    reveal_strlit("@self/");
    let bare = "@self"@.skip(1);
    assert(bare =~= "self"@);
    lemma_find_char_unique(bare, '/', 4);
    assert(bare.take(4) =~= "self"@);
    let longer = ("@self/"@ + sub_path).skip(1);
    assert(longer[0] == 's' && longer[1] == 'e' && longer[2] == 'l' && longer[3] == 'f');
    assert(longer[4] == '/');
    lemma_find_char_unique(longer, '/', 4);
    assert(longer.take(4) =~= "self"@);
}

/// An alias require is replaced if and only if the alias is known and is not
/// `self`.
pub proof fn known_aliases_are_replaced(
    alias_path: Seq<char>,
    script_dir: Seq<PartView>,
    luaurc: LuaurcView,
)
    ensures
        alias_require(alias_path, script_dir, luaurc) is Some <==> alias_name(alias_path)
            != "self"@ && luaurc.aliases.contains_key(alias_name(alias_path)),
{
}

/// An alias path taken apart and put together again is the same.
pub proof fn alias_paths_come_apart(alias_path: Seq<char>)
    requires
        is_alias_text(alias_path),
    ensures
        !alias_name(alias_path).contains('/'),
        alias_path == (match alias_sub_path(alias_path) {
            Some(sub) => seq!['@'] + alias_name(alias_path) + seq!['/'] + sub,
            None => seq!['@'] + alias_name(alias_path),
        }),
{
    let rest = alias_path.skip(1);
    let end = find_char(rest, '/');
    lemma_find_char(rest, '/');
    assert forall|i: int| 0 <= i < end implies alias_name(alias_path)[i] != '/' by {
        assert(alias_name(alias_path)[i] == rest[i]);
    }
    if end < rest.len() {
        assert(alias_path =~= seq!['@'] + alias_name(alias_path) + seq!['/'] + rest.skip(end + 1));
    } else {
        assert(alias_path =~= seq!['@'] + alias_name(alias_path));
    }
}

/// Only calls that require something by an alias are found: relative requires
/// and requires of instances are left alone.
pub proof fn sites_require_aliases(block: BlockTree, i: int)
    requires
        0 <= i < block_sites(block).len(),
    ensures
        is_alias_text(block_sites(block)[i].content),
{
    lemma_sites_are_aliases(block_calls(block));
}

/// Every call of a known alias that is found is replaced, with its own span.
pub proof fn every_known_alias_is_replaced(
    block: BlockTree,
    script_dir: Seq<PartView>,
    luaurc: LuaurcView,
    i: int,
)
    requires
        0 <= i < block_sites(block).len(),
        alias_require(block_sites(block)[i].content, script_dir, luaurc) is Some,
    ensures
        tree_replacements(block, script_dir, luaurc).contains(
            ReplacementView {
                start: block_sites(block)[i].start,
                end: block_sites(block)[i].end,
                new_text: alias_require(block_sites(block)[i].content, script_dir, luaurc)->0,
            },
        ),
{
    lemma_sites_are_aliases(block_calls(block));
    lemma_sites_replaced(block_sites(block), script_dir, luaurc, i);
}

proof fn lemma_sites_replaced(
    sites: Seq<SiteView>,
    script_dir: Seq<PartView>,
    luaurc: LuaurcView,
    i: int,
)
    requires
        0 <= i < sites.len(),
        is_alias_text(sites[i].content),
        alias_require(sites[i].content, script_dir, luaurc) is Some,
    ensures
        sites_replacements(sites, script_dir, luaurc).contains(
            ReplacementView {
                start: sites[i].start,
                end: sites[i].end,
                new_text: alias_require(sites[i].content, script_dir, luaurc)->0,
            },
        ),
    decreases sites.len(),
{
    let init = sites.drop_last();
    let before = sites_replacements(init, script_dir, luaurc);
    let all = sites_replacements(sites, script_dir, luaurc);
    let wanted = ReplacementView {
        start: sites[i].start,
        end: sites[i].end,
        new_text: alias_require(sites[i].content, script_dir, luaurc)->0,
    };
    if i < init.len() {
        assert(init[i] == sites[i]);
        lemma_sites_replaced(init, script_dir, luaurc, i);
        let j = choose|j: int| 0 <= j < before.len() && before[j] == wanted;
        assert(all[j] == wanted);
    } else {
        assert(all[before.len() as int] == wanted);
    }
}

/// Nothing else is replaced: each replacement is that of a call that was
/// found, and of an alias that is known.
pub proof fn only_known_aliases_are_replaced(
    block: BlockTree,
    script_dir: Seq<PartView>,
    luaurc: LuaurcView,
    j: int,
)
    requires
        0 <= j < tree_replacements(block, script_dir, luaurc).len(),
    ensures
        ({
            let replacement = tree_replacements(block, script_dir, luaurc)[j];
            exists|i: int|
                0 <= i < block_sites(block).len() && (#[trigger] block_sites(block)[i]).start
                    == replacement.start && block_sites(block)[i].end == replacement.end
                    && alias_require(block_sites(block)[i].content, script_dir, luaurc) == Some(
                    replacement.new_text,
                )
        }),
{
    lemma_replaced_sites(block_sites(block), script_dir, luaurc, j);
}

proof fn lemma_replaced_sites(
    sites: Seq<SiteView>,
    script_dir: Seq<PartView>,
    luaurc: LuaurcView,
    j: int,
)
    requires
        0 <= j < sites_replacements(sites, script_dir, luaurc).len(),
    ensures
        ({
            let replacement = sites_replacements(sites, script_dir, luaurc)[j];
            exists|i: int|
                0 <= i < sites.len() && (#[trigger] sites[i]).start == replacement.start
                    && sites[i].end == replacement.end && alias_require(
                    sites[i].content,
                    script_dir,
                    luaurc,
                ) == Some(replacement.new_text)
        }),
    decreases sites.len(),
{
    let init = sites.drop_last();
    let before = sites_replacements(init, script_dir, luaurc);
    let replacement = sites_replacements(sites, script_dir, luaurc)[j];
    if j < before.len() {
        lemma_replaced_sites(init, script_dir, luaurc, j);
        let i = choose|i: int|
            0 <= i < init.len() && (#[trigger] init[i]).start == replacement.start && init[i].end
                == replacement.end && alias_require(init[i].content, script_dir, luaurc) == Some(
                replacement.new_text,
            );
        assert(sites[i] == init[i]);
    } else {
        assert(sites[sites.len() - 1] == sites.last());
    }
}

/// A script without a call to replace comes back as it is.
pub proof fn scripts_without_known_aliases_stay(
    source: Seq<char>,
    file_path: Seq<PartView>,
    luaurc: LuaurcView,
    tree: BlockTree,
)
    requires
        parent_of(file_path) is Some,
        forall|i: int|
            0 <= i < block_sites(tree).len() ==> alias_require(
                (#[trigger] block_sites(tree)[i]).content,
                parent_of(file_path)->0,
                luaurc,
            ) is None,
    ensures
        resolved(source, file_path, Some(luaurc), Ok(tree)) == Ok::<Seq<u8>, ErrorView>(
            encode_utf8(source),
        ),
{
    let script_dir = parent_of(file_path)->0;
    let rs = tree_replacements(tree, script_dir, luaurc);
    if rs.len() > 0 {
        only_known_aliases_are_replaced(tree, script_dir, luaurc, 0);
    }
    assert(last_first(rs) =~= Seq::<ReplacementView>::empty());
    assert(in_order(rs) =~= Seq::<ReplacementView>::empty());
    let bytes = encode_utf8(source);
    assert(bytes.subrange(0, bytes.len() as int) =~= bytes);
}

/// Where the calls of a script lie apart, as those of a parsed script do,
/// nothing but the calls to replace changes: their spans follow each other in
/// the source, what stands between them is kept, and making the replacements
/// one after the other gives the same.
pub proof fn only_the_calls_change(
    source: Seq<char>,
    file_path: Seq<PartView>,
    luaurc: LuaurcView,
    tree: BlockTree,
)
    requires
        parent_of(file_path) is Some,
        is_concerned(source, Some(luaurc)),
        calls_lie_apart(encode_utf8(source), block_calls(tree)),
    ensures
        ({
            let bytes = encode_utf8(source);
            let rs = tree_replacements(tree, parent_of(file_path)->0, luaurc);
            let new = woven(bytes, in_order(rs), 0, bytes.len() as int);
            &&& resolved(source, file_path, Some(luaurc), Ok(tree)) == Ok::<Seq<u8>, ErrorView>(new)
            &&& replaced(bytes, rs) == Some(new)
            &&& in_order(rs).to_multiset() == rs.to_multiset()
            &&& are_separate(bytes, in_order(rs))
            &&& follow_each_other(in_order(rs))
        }),
{
    let bytes = encode_utf8(source);
    let rs = tree_replacements(tree, parent_of(file_path)->0, luaurc);
    encode_utf8_valid_utf8(source);
    lemma_replacements_are_separate(bytes, block_calls(tree), parent_of(file_path)->0, luaurc);
    only_the_spans_change(bytes, rs);
    in_order_follows(bytes, rs);
}

/// The span of a call of a name, or of a method of a name, with arguments in
/// parentheses or a string literal that stands alone, is its text in the
/// source: the name, what stands behind it, and what ends the call, with
/// nothing before or after.
pub proof fn calls_span_their_text(bytes: Seq<u8>, calls: Seq<CallTree>, i: int)
    requires
        calls_lie_apart(bytes, calls),
        0 <= i < calls.len(),
        call_closing(calls[i]) is Some,
    ensures
        call_start(calls[i]) < call_end(calls[i]) <= bytes.len(),
        bytes.subrange(call_start(calls[i]) as int, call_end(calls[i]) as int) == encode_utf8(
            calls[i].head->Name_0.text,
        ) + bytes.subrange(
            calls[i].head->Name_0.end as int,
            call_closing(calls[i])->0.start as int,
        ) + encode_utf8(call_closing(calls[i])->0.text),
{
    let name = calls[i].head->Name_0;
    let close = call_closing(calls[i])->0;
    assert(bytes.subrange(name.start as int, close.end as int) =~= bytes.subrange(
        name.start as int,
        name.end as int,
    ) + bytes.subrange(name.end as int, close.start as int) + bytes.subrange(
        close.start as int,
        close.end as int,
    ));
}

/// Resolving fails only for a script without a directory, and for one that
/// mentions an alias and is not Luau.
pub proof fn only_two_things_fail(
    source: Seq<char>,
    file_path: Seq<PartView>,
    luaurc: Option<LuaurcView>,
    syntax: Result<BlockTree, Seq<char>>,
)
    ensures
        resolved(source, file_path, luaurc, syntax) is Err <==> parent_of(file_path) is None || (
        is_concerned(source, luaurc) && syntax is Err),
{
}

/// What an alias stands for, seen from the directory of the `.luaurc`.
pub open spec fn target_of(alias_path: Seq<char>, luaurc: LuaurcView) -> Seq<PartView> {
    joined(luaurc.dir, lexed(luaurc.aliases[alias_name(alias_path)]))
}

/// What a call requires in a script that was resolved, if it goes back to the
/// site: the text of the site if that was left alone, or else what was put in
/// its place, to a target that there is a path to.
pub open spec fn goes_back_to(
    content: Seq<char>,
    site: SiteView,
    script_dir: Seq<PartView>,
    luaurc: LuaurcView,
) -> bool {
    if alias_require(site.content, script_dir, luaurc) is None {
        content == site.content
    } else {
        let target = target_of(site.content, luaurc);
        &&& diff(target, script_dir) is Some
        &&& content == relative_require(script_dir, target, alias_sub_path(site.content))
    }
}

/// A second pass changes nothing, if every call that it finds goes back to one
/// that the first pass found.
pub proof fn a_second_pass_changes_nothing(
    source: Seq<char>,
    new_source: Seq<char>,
    file_path: Seq<PartView>,
    luaurc: LuaurcView,
    tree: BlockTree,
    new_tree: BlockTree,
)
    requires
        parent_of(file_path) is Some,
        resolved(source, file_path, Some(luaurc), Ok(tree)) == Ok::<Seq<u8>, ErrorView>(
            encode_utf8(new_source),
        ),
        forall|i: int|
            0 <= i < block_sites(new_tree).len() ==> exists|j: int|
                0 <= j < block_sites(tree).len() && goes_back_to(
                    (#[trigger] block_sites(new_tree)[i]).content,
                    #[trigger] block_sites(tree)[j],
                    parent_of(file_path)->0,
                    luaurc,
                ),
    ensures
        resolved(new_source, file_path, Some(luaurc), Ok(new_tree)) == resolved(
            source,
            file_path,
            Some(luaurc),
            Ok(tree),
        ),
{
    let script_dir = parent_of(file_path)->0;
    assert forall|i: int| 0 <= i < block_sites(new_tree).len() implies alias_require(
        (#[trigger] block_sites(new_tree)[i]).content,
        script_dir,
        luaurc,
    ) is None by {
        let content = block_sites(new_tree)[i].content;
        sites_require_aliases(new_tree, i);
        let j = choose|j: int|
            0 <= j < block_sites(tree).len() && goes_back_to(
                content,
                #[trigger] block_sites(tree)[j],
                script_dir,
                luaurc,
            );
        let site = block_sites(tree)[j];
        if alias_require(site.content, script_dir, luaurc) is Some {
            relative_requires_are_no_aliases(
                script_dir,
                target_of(site.content, luaurc),
                alias_sub_path(site.content),
            );
        }
    }
    scripts_without_known_aliases_stay(new_source, file_path, luaurc, new_tree);
}

proof fn lemma_joined_unrooted(path: Seq<PartView>, other: Seq<PartView>)
    requires
        !is_rooted(path),
        without_root(other),
    ensures
        !is_rooted(joined(path, other)),
    decreases other.len(),
{
    if other.len() > 0 {
        let init = other.drop_last();
        assert forall|i: int| 0 <= i < init.len() implies !((#[trigger] init[i]) is RootDir) by {
            assert(init[i] == other[i]);
        }
        lemma_joined_unrooted(path, init);
        assert(other.last() == other[other.len() - 1]);
    }
}

proof fn lemma_joined_behind(home: Seq<PartView>, path: Seq<PartView>, other: Seq<PartView>)
    requires
        without_root(other),
        path.len() > 0 || other.len() == 0 || !(other[0] is CurDir),
    ensures
        joined(home + path, other) == home + joined(path, other),
        path.len() > 0 || other.len() > 0 ==> joined(path, other).len() > 0,
    decreases other.len(),
{
    if other.len() > 0 {
        let init = other.drop_last();
        assert(without_root(init)) by {
            assert forall|i: int| 0 <= i < init.len() implies !((#[trigger] init[i]) is RootDir) by {
                assert(init[i] == other[i]);
            }
        }
        if init.len() > 0 {
            assert(init[0] == other[0]);
        }
        lemma_joined_behind(home, path, init);
        assert(other.last() == other[other.len() - 1]);
        let part = other.last();
        assert((home + joined(path, init)).push(part) =~= home + joined(path, init).push(part));
    }
}

/// A project can be moved as a whole: where the alias stands for a path
/// without a root, and there is a path to it, its requires depend only on how
/// the script and the `.luaurc` stand to each other. A target behind `.` asks
/// for a directory that has a component, since in an empty path the `.` is
/// kept.
pub proof fn requires_survive_a_move(
    home: Seq<PartView>,
    alias_path: Seq<char>,
    script_dir: Seq<PartView>,
    luaurc: LuaurcView,
)
    requires
        is_rooted(luaurc.dir) == is_rooted(script_dir),
        luaurc.aliases.contains_key(alias_name(alias_path)) ==> {
            let target = lexed(luaurc.aliases[alias_name(alias_path)]);
            &&& without_root(target)
            &&& luaurc.dir.len() > 0 || target.len() == 0 || !(target[0] is CurDir)
            &&& diff(joined(luaurc.dir, target), script_dir) is Some
        },
    ensures
        alias_require(
            alias_path,
            home + script_dir,
            (LuaurcView { aliases: luaurc.aliases, dir: home + luaurc.dir }),
        ) == alias_require(alias_path, script_dir, luaurc),
{
    if luaurc.aliases.contains_key(alias_name(alias_path)) {
        let target = lexed(luaurc.aliases[alias_name(alias_path)]);
        lemma_joined_behind(home, luaurc.dir, target);
        if is_rooted(luaurc.dir) {
            lemma_joined_rooted(luaurc.dir, target);
        } else {
            lemma_joined_unrooted(luaurc.dir, target);
        }
        diff_survives_a_move(home, joined(luaurc.dir, target), script_dir);
    }
}

/// A path below the target goes behind the require of the target, with one
/// slash between them.
pub proof fn paths_below_go_behind(
    script_dir: Seq<PartView>,
    target: Seq<PartView>,
    sub_path: Seq<char>,
)
    ensures
        relative_require(script_dir, target, Some(sub_path)) == relative_require(
            script_dir,
            target,
            None,
        ) + seq!['/'] + sub_path,
{
    reveal_strlit("/");
    assert("/"@ =~= seq!['/']);
}

/// A path to the target is written out as it is if it starts with a step up,
/// and behind `./` otherwise; where there is none, the target is written out.
pub proof fn requires_spell_the_path(
    script_dir: Seq<PartView>,
    target: Seq<PartView>,
    path: Seq<PartView>,
)
    ensures
        diff(target, script_dir) == Some(seq![PartView::ParentDir] + path) ==> relative_require(
            script_dir,
            target,
            None,
        ) == slashed(seq![PartView::ParentDir] + path),
        diff(target, script_dir) == Some(path) && (path.len() == 0 || path[0]
            != PartView::ParentDir) ==> relative_require(script_dir, target, None) == seq![
            '.',
            '/',
        ] + slashed(path),
        diff(target, script_dir) == None::<Seq<PartView>> ==> relative_require(
            script_dir,
            target,
            None,
        ) == display_text(target),
{
    reveal_strlit("./");
    assert("./"@ =~= seq!['.', '/']);
}

/// What a script requires to get at a target: from below what the two
/// directories share, as many steps up as lie below, and then the names of the
/// target; from right there, the names behind `./`.
pub proof fn requires_go_up_and_down(
    shared: Seq<PartView>,
    target: Seq<PartView>,
    base: Seq<PartView>,
)
    requires
        names_and_ups(target),
        base.len() > 0 ==> base[0] is Normal,
        target.len() == 0 || base.len() == 0 || target[0] != base[0],
    ensures
        base.len() > 0 ==> relative_require(shared + base, shared + target, None) == slashed(
            steps_up(base.len()) + target,
        ),
        base.len() == 0 && (target.len() == 0 || target[0] is Normal) ==> relative_require(
            shared + base,
            shared + target,
            None,
        ) == seq!['.', '/'] + slashed(target),
{
    the_way_goes_up_and_down(shared, target, base);
    let path = steps_up(base.len()) + target;
    requires_spell_the_path(shared + base, shared + target, path);
    if base.len() > 0 {
        let rest = path.skip(1);
        assert(path =~= seq![PartView::ParentDir] + rest);
        requires_spell_the_path(shared + base, shared + target, rest);
    } else {
        assert(path =~= target);
    }
}

/// The replacements of several sites follow each other, and a site gives one if
/// and only if it starts with `@` and its alias turns into something.
pub proof fn replacements_follow_the_sites(
    a: Seq<SiteView>,
    b: Seq<SiteView>,
    site: SiteView,
    script_dir: Seq<PartView>,
    luaurc: LuaurcView,
)
    ensures
        sites_replacements(a + b, script_dir, luaurc) == sites_replacements(a, script_dir, luaurc)
            + sites_replacements(b, script_dir, luaurc),
        sites_replacements(seq![site], script_dir, luaurc) == (match alias_require(
            site.content,
            script_dir,
            luaurc,
        ) {
            Some(new_text) => if site.content.len() > 0 && site.content[0] == '@' {
                seq![ReplacementView { start: site.start, end: site.end, new_text }]
            } else {
                seq![]
            },
            None => seq![],
        }),
    decreases b.len(),
{
    reveal_with_fuel(sites_replacements, 2);
    assert(seq![site].drop_last() =~= Seq::<SiteView>::empty());
    if b.len() == 0 {
        assert(a + b =~= a);
        assert(sites_replacements(a, script_dir, luaurc) + sites_replacements(b, script_dir, luaurc)
            =~= sites_replacements(a, script_dir, luaurc));
    } else {
        replacements_follow_the_sites(a, b.drop_last(), site, script_dir, luaurc);
        assert((a + b).drop_last() =~= a + b.drop_last());
        assert((a + b).last() == b.last());
        assert(sites_replacements(a + b, script_dir, luaurc) =~= sites_replacements(
            a,
            script_dir,
            luaurc,
        ) + sites_replacements(b, script_dir, luaurc));
    }
}

/// The replacements of a script come in the order of its calls.
pub proof fn replacements_follow_the_calls(
    tree: BlockTree,
    script_dir: Seq<PartView>,
    luaurc: LuaurcView,
)
    ensures
        tree_replacements(tree, script_dir, luaurc) == sites_replacements(
            calls_sites(block_calls(tree)),
            script_dir,
            luaurc,
        ),
{
}

/// A script's replacements are those of the calls that stand in it, require
/// something by an alias, and whose alias turns into something: all of them,
/// and no others.
pub proof fn replacements_are_those_of_the_calls(
    tree: BlockTree,
    script_dir: Seq<PartView>,
    luaurc: LuaurcView,
    r: ReplacementView,
)
    ensures
        tree_replacements(tree, script_dir, luaurc).contains(r) <==> exists|
            call: CallTree,
            content: Seq<char>,
        |
            in_block(call, tree) && (#[trigger] requires_by_alias(call, content, r.start, r.end))
                && alias_require(content, script_dir, luaurc) == Some(r.new_text),
{
    let rs = tree_replacements(tree, script_dir, luaurc);
    let sites = block_sites(tree);
    if rs.contains(r) {
        let j = choose|j: int| 0 <= j < rs.len() && rs[j] == r;
        only_known_aliases_are_replaced(tree, script_dir, luaurc, j);
        let i = choose|i: int|
            0 <= i < sites.len() && (#[trigger] sites[i]).start == r.start && sites[i].end == r.end
                && alias_require(sites[i].content, script_dir, luaurc) == Some(r.new_text);
        assert(sites.contains(sites[i]));
        sites_are_the_alias_calls(tree, sites[i]);
        let call = choose|call: CallTree| #[trigger]
            in_block(call, tree) && requires_by_alias(
                call,
                sites[i].content,
                sites[i].start,
                sites[i].end,
            );
        assert(requires_by_alias(call, sites[i].content, r.start, r.end));
    }
    if exists|call: CallTree, content: Seq<char>|
        in_block(call, tree) && (#[trigger] requires_by_alias(call, content, r.start, r.end))
            && alias_require(content, script_dir, luaurc) == Some(r.new_text) {
        let (call, content) = choose|call: CallTree, content: Seq<char>|
            in_block(call, tree) && (#[trigger] requires_by_alias(call, content, r.start, r.end))
                && alias_require(content, script_dir, luaurc) == Some(r.new_text);
        let site = SiteView { content, start: r.start, end: r.end };
        assert(in_block(call, tree));
        sites_are_the_alias_calls(tree, site);
        let i = choose|i: int| 0 <= i < sites.len() && sites[i] == site;
        every_known_alias_is_replaced(tree, script_dir, luaurc, i);
    }
}

/// Every require of a known alias is replaced, wherever in the script it
/// stands: by a require of the path from the script to what the alias stands
/// for.
pub proof fn every_require_of_a_known_alias_is_replaced(
    tree: BlockTree,
    call: CallTree,
    name: Seq<char>,
    sub_path: Option<Seq<char>>,
    start: usize,
    end: usize,
    script_dir: Seq<PartView>,
    luaurc: LuaurcView,
)
    requires
        in_block(call, tree),
        !name.contains('/'),
        requires_by_alias(
            call,
            match sub_path {
                Some(sub) => seq!['@'] + name + seq!['/'] + sub,
                None => seq!['@'] + name,
            },
            start,
            end,
        ),
        name != seq!['s', 'e', 'l', 'f'],
        luaurc.aliases.contains_key(name),
    ensures
        tree_replacements(tree, script_dir, luaurc).contains(
            ReplacementView {
                start,
                end,
                new_text: seq!['r', 'e', 'q', 'u', 'i', 'r', 'e', '(', '"'] + relative_require(
                    script_dir,
                    joined(luaurc.dir, lexed(luaurc.aliases[name])),
                    sub_path,
                ) + seq!['"', ')'],
            },
        ),
{
    let new_text = seq!['r', 'e', 'q', 'u', 'i', 'r', 'e', '(', '"'] + relative_require(
        script_dir,
        joined(luaurc.dir, lexed(luaurc.aliases[name])),
        sub_path,
    ) + seq!['"', ')'];
    let sub = match sub_path {
        Some(sub) => sub,
        None => seq![],
    };
    known_aliases_turn_into_paths('@', name, sub, script_dir, luaurc);
    let content = match sub_path {
        Some(sub) => seq!['@'] + name + seq!['/'] + sub,
        None => seq!['@'] + name,
    };
    let r = ReplacementView { start, end, new_text };
    assert(alias_require(content, script_dir, luaurc) == Some(r.new_text));
    assert(requires_by_alias(call, content, r.start, r.end));
    replacements_are_those_of_the_calls(tree, script_dir, luaurc, r);
}

/// Resolving fails for a script at the root or at the empty path, whatever it
/// holds.
pub proof fn scripts_need_a_directory(
    path: Seq<PartView>,
    source: Seq<char>,
    luaurc: Option<LuaurcView>,
    syntax: Result<BlockTree, Seq<char>>,
)
    ensures
        resolved(source, seq![], luaurc, syntax) == Err::<Seq<u8>, ErrorView>(
            ErrorView::NoParentDirectory,
        ),
        resolved(source, path.push(PartView::RootDir), luaurc, syntax) == Err::<Seq<u8>, ErrorView>(
            ErrorView::NoParentDirectory,
        ),
{
}

/// A script in a directory comes back as it is, Luau or not, unless there is a
/// `.luaurc` and the script holds `@` and the name of one of its aliases.
pub proof fn scripts_that_mention_nothing_stay(
    script_dir: Seq<PartView>,
    file: PartView,
    source: Seq<char>,
    luaurc: Option<LuaurcView>,
    syntax: Result<BlockTree, Seq<char>>,
)
    requires
        !(file is RootDir),
        luaurc is Some ==> forall|before: Seq<char>, name: Seq<char>, after: Seq<char>|
            luaurc->0.aliases.contains_key(name) ==> !(#[trigger] is_around(
                source,
                before,
                name,
                after,
            )),
    ensures
        resolved(source, script_dir.push(file), luaurc, syntax) == Ok::<Seq<u8>, ErrorView>(
            encode_utf8(source),
        ),
{
    only_mentions_concern_a_script(source, luaurc);
}

/// A script that holds `@` and the name of an alias is parsed, wherever that
/// stands in it: if it is not Luau, resolving fails with the errors, and else
/// its replacements are made, seen from the directory that it is in.
pub proof fn scripts_that_mention_an_alias_are_resolved(
    script_dir: Seq<PartView>,
    file: PartView,
    before: Seq<char>,
    name: Seq<char>,
    after: Seq<char>,
    luaurc: LuaurcView,
    errors: Seq<char>,
    tree: BlockTree,
)
    requires
        !(file is RootDir),
        luaurc.aliases.contains_key(name),
    ensures
        ({
            let source = before + seq!['@'] + name + after;
            let bytes = encode_utf8(source);
            &&& resolved(source, script_dir.push(file), Some(luaurc), Err(errors)) == Err::<
                Seq<u8>,
                ErrorView,
            >(ErrorView::LuauSyntax(errors))
            &&& resolved(source, script_dir.push(file), Some(luaurc), Ok(tree)) == Ok::<
                Seq<u8>,
                ErrorView,
            >(
                woven(
                    bytes,
                    in_order(tree_replacements(tree, script_dir, luaurc)),
                    0,
                    bytes.len() as int,
                ),
            )
        }),
{
    mentions_concern_a_script(before, name, after, luaurc);
    assert(script_dir.push(file).drop_last() =~= script_dir);
}

/// What comes of a script that mentions an alias, piece by piece: the source
/// can be cut at the calls that are replaced, what stands between them is in the
/// result as it was, and between that stand the new requires.
pub proof fn scripts_stay_between_the_calls(
    script_dir: Seq<PartView>,
    file: PartView,
    before: Seq<char>,
    name: Seq<char>,
    after: Seq<char>,
    luaurc: LuaurcView,
    tree: BlockTree,
)
    requires
        !(file is RootDir),
        luaurc.aliases.contains_key(name),
        calls_lie_apart(encode_utf8(before + seq!['@'] + name + after), block_calls(tree)),
    ensures
        ({
            let source = before + seq!['@'] + name + after;
            let rs = in_order(tree_replacements(tree, script_dir, luaurc));
            &&& rs.to_multiset() == tree_replacements(tree, script_dir, luaurc).to_multiset()
            &&& exists|kept: Seq<Seq<u8>>, old: Seq<Seq<u8>>| #[trigger]
                spans_fit(encode_utf8(source), kept, old, rs) && resolved(
                    source,
                    script_dir.push(file),
                    Some(luaurc),
                    Ok(tree),
                ) == Ok::<Seq<u8>, ErrorView>(laid_out(kept, new_texts(rs)))
        }),
{
    let source = before + seq!['@'] + name + after;
    let bytes = encode_utf8(source);
    let all = tree_replacements(tree, script_dir, luaurc);
    let rs = in_order(all);
    scripts_that_mention_an_alias_are_resolved(
        script_dir,
        file,
        before,
        name,
        after,
        luaurc,
        seq![],
        tree,
    );
    lemma_replacements_are_separate(bytes, block_calls(tree), script_dir, luaurc);
    in_order_follows(bytes, all);
    spans_cut_a_text_into_pieces(bytes, rs);
    let (kept, old) = choose|kept: Seq<Seq<u8>>, old: Seq<Seq<u8>>| #[trigger]
        spans_fit(bytes, kept, old, rs);
    pieces_between_the_spans_stay(bytes, kept, old, rs);
}

/// From a script's path to what it requires: a script that lies in a directory
/// of names below the root, for which a search from that directory found a
/// `.luaurc`, gets in place of each require of a known alias one that leads
/// from that directory to what the alias stands for.
pub proof fn scripts_reach_their_aliases_from_their_directory(
    names: Seq<PartView>,
    file: Seq<char>,
    answer: spec_fn(Seq<PartView>) -> OutcomeView,
    luaurc: LuaurcView,
    name: Seq<char>,
    sub_path: Seq<char>,
)
    requires
        forall|i: int|
            0 <= i < names.len() ==> ((#[trigger] names[i]) matches PartView::Normal(n) && n.len()
                > 0 && !n.contains('/') && n != seq!['.'] && n != seq!['.', '.']),
        search_end(seq![PartView::RootDir] + names, answer) == SearchEnd::Found(luaurc),
        !name.contains('/'),
        name != seq!['s', 'e', 'l', 'f'],
        luaurc.aliases.contains_key(name),
    ensures
        ({
            let script_dir = seq![PartView::RootDir] + names;
            let target = joined(luaurc.dir, lexed(luaurc.aliases[name]));
            let bare = relative_require(script_dir, target, None);
            let longer = relative_require(script_dir, target, Some(sub_path));
            let opened = seq!['r', 'e', 'q', 'u', 'i', 'r', 'e', '(', '"'];
            let ended = seq!['"', ')'];
            &&& parent_of(script_dir.push(PartView::Normal(file))) == Some(script_dir)
            &&& alias_require(seq!['@'] + name, script_dir, luaurc) == Some(opened + bare + ended)
            &&& walk_all(place_of(script_dir), lexed(bare)) == place_of(target)
            &&& alias_require(seq!['@'] + name + seq!['/'] + sub_path, script_dir, luaurc) == Some(
                opened + longer + ended,
            )
            &&& walk_all(place_of(script_dir), lexed(longer)) == place_of(
                lex_from(target, sub_path),
            )
        }),
{
    let script_dir = seq![PartView::RootDir] + names;
    let text = luaurc.aliases[name];
    let target = joined(luaurc.dir, lexed(text));
    let nothing = Seq::<PartView>::empty();
    parents_lack_the_last_component(script_dir, file);
    known_aliases_turn_into_paths('@', name, sub_path, script_dir, luaurc);
    found_above(script_dir, answer);
    assert forall|i: int| 0 < i < script_dir.len() implies ((
    #[trigger] script_dir[i]) matches PartView::Normal(n) && is_name(n)) by {
        assert(script_dir[i] == names[i - 1]);
    }
    assert(luaurc.dir =~= script_dir.subrange(0, luaurc.dir.len() as int));
    assert(is_rooted(luaurc.dir));
    assert(well_formed(luaurc.dir)) by {
        assert forall|i: int| 0 <= i < luaurc.dir.len() implies match #[trigger] luaurc.dir[i] {
            PartView::RootDir => i == 0,
            PartView::CurDir => i == 0,
            PartView::ParentDir => true,
            PartView::Normal(name) => is_name(name),
        } by {
            assert(luaurc.dir[i] == script_dir[i]);
        }
    }
    lemma_lexed_well_formed(text);
    lemma_joined_well_formed(luaurc.dir, lexed(text));
    lemma_joined_rooted(luaurc.dir, lexed(text));
    names_branch_down(target, script_dir);
    relative_requires_lead_to_the_target(script_dir, target, None);
    relative_requires_lead_to_the_target(script_dir, target, Some(sub_path));
    walking_a_joined_path(nothing, script_dir, lexed(relative_require(script_dir, target, None)));
    walking_a_joined_path(
        nothing,
        script_dir,
        lexed(relative_require(script_dir, target, Some(sub_path))),
    );
}

} // verus!
