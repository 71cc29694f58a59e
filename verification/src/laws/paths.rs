//! Laws of paths: joining, the text of a path, and the way from one path to
//! another.
use vstd::prelude::*;
use crate::path::common_len;
use crate::path::diff;
use crate::path::display_text;
use crate::path::is_name;
use crate::path::is_rooted;
use crate::path::joined;
use crate::path::lemma_common_len;
use crate::path::lex_from;
use crate::path::lexed;
use crate::path::parent_of;
use crate::path::part_of;
use crate::path::part_text;
use crate::path::push_part;
use crate::path::slashed;
use crate::path::ups;
use crate::path::way;
use crate::path::well_formed;
use crate::path::PartView;
use crate::text::find_char;
use crate::text::lemma_find_char;
use crate::text::lemma_find_char_unique;

verus! {

/// One step in a tree of directories without links: a name leads down, `..`
/// leads up but not above the root, `.` leads nowhere, and a root starts over.
pub open spec fn walk(place: Seq<PartView>, part: PartView) -> Seq<PartView> {
    match part {
        PartView::RootDir => seq![part],
        PartView::CurDir => place,
        PartView::ParentDir => if place.len() > 0 && place.last() is Normal {
            place.drop_last()
        } else if place.len() > 0 && place.last() is RootDir {
            place
        } else {
            place.push(part)
        },
        PartView::Normal(name) => place.push(part),
    }
}

/// Where one ends up who starts at `place` and follows `path`.
pub open spec fn walk_all(place: Seq<PartView>, path: Seq<PartView>) -> Seq<PartView>
    decreases path.len(),
{
    if path.len() == 0 {
        place
    } else {
        walk(walk_all(place, path.drop_last()), path.last())
    }
}

/// The place that a path denotes.
pub open spec fn place_of(path: Seq<PartView>) -> Seq<PartView> {
    walk_all(seq![], path)
}

/// What `base` has beyond what it shares with `target` leads down, one level
/// for each component.
pub open spec fn branches_down(target: Seq<PartView>, base: Seq<PartView>) -> bool {
    forall|i: int| common_len(target, base) <= i < base.len() ==> (#[trigger] base[i]) is Normal
}

proof fn lemma_walk_all_concat(place: Seq<PartView>, a: Seq<PartView>, b: Seq<PartView>)
    ensures
        walk_all(place, a + b) == walk_all(walk_all(place, a), b),
    decreases b.len(),
{
    if b.len() == 0 {
        assert(a + b =~= a);
    } else {
        lemma_walk_all_concat(place, a, b.drop_last());
        assert((a + b).drop_last() =~= a + b.drop_last());
        assert((a + b).last() == b.last());
    }
}

/// Following a path with one more component is following the path, then the
/// component.
pub proof fn lemma_walk_all_push_part(place: Seq<PartView>, path: Seq<PartView>, part: PartView)
    ensures
        walk_all(place, push_part(path, part)) == walk(walk_all(place, path), part),
{
    reveal_with_fuel(walk_all, 2);
    match part {
        PartView::RootDir => {
            assert(seq![part].drop_last() =~= Seq::<PartView>::empty());
        },
        PartView::CurDir => {
            if path.len() == 0 {
                assert(seq![part].drop_last() =~= Seq::<PartView>::empty());
            }
        },
        _ => {
            assert(path.push(part).drop_last() =~= path);
        },
    }
}

/// Following a joined path is following one part after the other.
pub proof fn walking_a_joined_path(place: Seq<PartView>, path: Seq<PartView>, other: Seq<PartView>)
    ensures
        walk_all(place, joined(path, other)) == walk_all(walk_all(place, path), other),
    decreases other.len(),
{
    if other.len() > 0 {
        walking_a_joined_path(place, path, other.drop_last());
        lemma_walk_all_push_part(place, joined(path, other.drop_last()), other.last());
    }
}

proof fn lemma_down_and_up(place: Seq<PartView>, down: Seq<PartView>)
    requires
        forall|i: int| 0 <= i < down.len() ==> (#[trigger] down[i]) is Normal,
    ensures
        walk_all(walk_all(place, down), ups(down.len() as int)) == place,
    decreases down.len(),
{
    if down.len() == 0 {
        assert(ups(0) =~= Seq::<PartView>::empty());
    } else {
        let n = down.len() as int;
        let init = down.drop_last();
        lemma_down_and_up(place, init);
        let one = seq![PartView::ParentDir];
        assert(ups(n) =~= one + ups(n - 1));
        lemma_walk_all_concat(walk_all(place, down), one, ups(n - 1));
        let below = walk_all(place, init);
        assert(walk_all(place, down) == below.push(down.last()));
        assert(one.drop_last() =~= Seq::<PartView>::empty());
        assert(below.push(down.last()).drop_last() =~= below);
        reveal_with_fuel(walk_all, 2);
        assert(walk_all(walk_all(place, down), one) == below);
    }
}

proof fn lemma_walk_from_root(
    place: Seq<PartView>,
    other: Seq<PartView>,
    path: Seq<PartView>,
)
    requires
        is_rooted(path),
    ensures
        walk_all(place, path) == walk_all(other, path),
    decreases path.len(),
{
    reveal_with_fuel(walk_all, 2);
    if path.len() == 1 {
        assert(path.drop_last() =~= Seq::<PartView>::empty());
    } else {
        assert(path.drop_last()[0] == path[0]);
        lemma_walk_from_root(place, other, path.drop_last());
    }
}

/// The path from one path to another, where there is one, leads there: who
/// follows it from where the base is ends up where the target is.
pub proof fn diff_leads_to_target(target: Seq<PartView>, base: Seq<PartView>)
    requires
        diff(target, base) is Some,
        branches_down(target, base),
    ensures
        place_of(joined(base, diff(target, base)->0)) == place_of(target),
{
    lemma_common_len(target, base);
    let n = common_len(target, base);
    let shared = base.take(n);
    let down = base.skip(n);
    let rest = target.skip(n);
    let start = Seq::<PartView>::empty();
    let path = diff(target, base)->0;
    walking_a_joined_path(start, base, path);
    if is_rooted(target) != is_rooted(base) {
        lemma_walk_from_root(place_of(base), start, target);
    } else {
        assert(base =~= shared + down);
        assert(target =~= shared + rest);
        if down.len() > 0 {
            assert(down[0] == base[n]);
        }
        let parts = ups(down.len() as int) + rest;
        assert(way(rest, down) == Some(parts)) by {
            assert(ups(0) + rest =~= rest);
            if rest.len() == 0 {
                assert(ups(down.len() as int) + rest =~= ups(down.len() as int));
            }
        }
        walking_a_joined_path(place_of(base), start, parts);
        lemma_walk_all_concat(place_of(base), ups(down.len() as int), rest);
        lemma_walk_all_concat(start, shared, down);
        lemma_walk_all_concat(start, shared, rest);
        assert forall|i: int| 0 <= i < down.len() implies (#[trigger] down[i]) is Normal by {
            assert(down[i] == base[n + i]);
        }
        lemma_down_and_up(place_of(shared), down);
    }
}

/// There is a path between any two paths that both have a root or both have
/// none, if what only the base has leads down.
pub proof fn diff_is_there(target: Seq<PartView>, base: Seq<PartView>)
    requires
        is_rooted(target) == is_rooted(base),
        branches_down(target, base),
    ensures
        diff(target, base) is Some,
{
    lemma_common_len(target, base);
    let n = common_len(target, base);
    if n < base.len() {
        assert(base.skip(n)[0] == base[n]);
    }
}

/// The path between two paths does not depend on where the two stand together:
/// a tree of directories can be moved as a whole.
pub proof fn diff_survives_a_move(
    home: Seq<PartView>,
    target: Seq<PartView>,
    base: Seq<PartView>,
)
    requires
        is_rooted(target) == is_rooted(base),
    ensures
        diff(home + target, home + base) == diff(target, base),
{
    lemma_common_behind(home, target, base);
    lemma_common_len(target, base);
    let n = common_len(target, base);
    let m = home.len() as int;
    assert((home + target).skip(m + n) =~= target.skip(n));
    assert((home + base).skip(m + n) =~= base.skip(n));
    if m == 0 {
        assert(home + target =~= target);
        assert(home + base =~= base);
    } else {
        assert((home + target)[0] == home[0] && (home + base)[0] == home[0]);
    }
}

proof fn lemma_common_behind(home: Seq<PartView>, target: Seq<PartView>, base: Seq<PartView>)
    ensures
        common_len(home + target, home + base) == home.len() + common_len(target, base),
    decreases home.len(),
{
    if home.len() == 0 {
        assert(home + target =~= target);
        assert(home + base =~= base);
    } else {
        let rest = home.skip(1);
        lemma_common_behind(rest, target, base);
        assert((home + target).skip(1) =~= rest + target);
        assert((home + base).skip(1) =~= rest + base);
    }
}

/// The path from a path to itself is empty.
pub proof fn diff_to_itself(path: Seq<PartView>)
    ensures
        diff(path, path) == Some(Seq::<PartView>::empty()),
{
    lemma_common_len(path, path);
    assert(ups(0) =~= Seq::<PartView>::empty());
    assert(path.skip(path.len() as int) =~= Seq::<PartView>::empty());
}

/// From a path with a root there is no path to one without.
pub proof fn no_diff_out_of_the_root(target: Seq<PartView>, base: Seq<PartView>)
    requires
        !is_rooted(target),
        is_rooted(base),
    ensures
        diff(target, base) is None,
{
}

/// A path that starts at the root stands for itself, wherever it is seen from.
pub proof fn joining_a_rooted_path(path: Seq<PartView>, other: Seq<PartView>)
    requires
        well_formed(other),
        is_rooted(other),
    ensures
        joined(path, other) == other,
    decreases other.len(),
{
    let init = other.drop_last();
    if other.len() == 1 {
        assert(init =~= Seq::<PartView>::empty());
        assert(seq![other[0]] =~= other);
    } else {
        lemma_well_formed_prefix(other);
        assert(init[0] == other[0]);
        joining_a_rooted_path(path, init);
        assert(other.last() == other[other.len() - 1]);
        assert(init.push(other.last()) =~= other);
    }
}

/// A path that starts neither at the root nor with `.` is appended.
pub proof fn joining_a_relative_path(path: Seq<PartView>, other: Seq<PartView>)
    requires
        well_formed(other),
        other.len() > 0 ==> !(other[0] is RootDir) && !(other[0] is CurDir),
    ensures
        joined(path, other) == path + other,
    decreases other.len(),
{
    if other.len() == 0 {
        assert(path + other =~= path);
    } else {
        let init = other.drop_last();
        lemma_well_formed_prefix(other);
        if init.len() > 0 {
            assert(init[0] == other[0]);
        }
        joining_a_relative_path(path, init);
        assert(other.last() == other[other.len() - 1]);
        assert((path + init).push(other.last()) =~= path + other);
    }
}

proof fn lemma_well_formed_prefix(path: Seq<PartView>)
    requires
        well_formed(path),
        path.len() > 0,
    ensures
        well_formed(path.drop_last()),
{
    let init = path.drop_last();
    assert forall|i: int| 0 <= i < init.len() implies match #[trigger] init[i] {
        PartView::RootDir => i == 0,
        PartView::CurDir => i == 0,
        PartView::ParentDir => true,
        PartView::Normal(name) => is_name(name),
    } by {
        assert(init[i] == path[i]);
    }
}

/// Text around a slash is taken one piece after the other.
pub proof fn lexing_around_a_slash(path: Seq<PartView>, a: Seq<char>, b: Seq<char>)
    ensures
        lex_from(path, a + seq!['/'] + b) == lex_from(lex_from(path, a), b),
    decreases a.len(),
{
    let whole = a + seq!['/'] + b;
    let end = find_char(a, '/');
    lemma_find_char(a, '/');
    assert forall|i: int| 0 <= i < end implies whole[i] != '/' by {
        assert(whole[i] == a[i]);
    }
    if end < a.len() {
        assert(whole[end] == a[end]);
        lemma_find_char_unique(whole, '/', end);
        assert(whole.take(end) =~= a.take(end));
        let next = if end == 0 {
            path
        } else {
            push_part(path, part_of(a.take(end)))
        };
        assert(whole.skip(end + 1) =~= a.skip(end + 1) + seq!['/'] + b);
        lexing_around_a_slash(next, a.skip(end + 1), b);
    } else {
        assert(whole[end] == '/');
        lemma_find_char_unique(whole, '/', end);
        assert(whole.take(end) =~= a.take(end));
        assert(whole.skip(end + 1) =~= b);
    }
}

proof fn lemma_lex_one(path: Seq<PartView>, part: PartView)
    requires
        !(part is RootDir),
        part matches PartView::Normal(name) ==> is_name(name),
    ensures
        lex_from(path, part_text(part)) == push_part(path, part),
{
    let text = part_text(part);
    assert forall|i: int| 0 <= i < text.len() implies text[i] != '/' by {
        if part is Normal {
            assert(text.contains(text[i]));
        }
    }
    lemma_find_char_unique(text, '/', text.len() as int);
    assert(text.take(text.len() as int) =~= text);
    assert(seq!['.', '.'].len() == 2 && seq!['.'].len() == 1);
    assert(part_of(text) == part);
}

/// Taking the text of components without a root gives them back.
pub proof fn lexing_slashed_components(start: Seq<PartView>, path: Seq<PartView>)
    requires
        forall|i: int|
            0 <= i < path.len() ==> match #[trigger] path[i] {
                PartView::RootDir => false,
                PartView::CurDir => true,
                PartView::ParentDir => true,
                PartView::Normal(name) => is_name(name),
            },
    ensures
        lex_from(start, slashed(path)) == joined(start, path),
    decreases path.len(),
{
    if path.len() == 0 {
    } else {
        let init = path.drop_last();
        assert forall|i: int| 0 <= i < init.len() implies match #[trigger] init[i] {
            PartView::RootDir => false,
            PartView::CurDir => true,
            PartView::ParentDir => true,
            PartView::Normal(name) => is_name(name),
        } by {
            assert(init[i] == path[i]);
        }
        lexing_slashed_components(start, init);
        assert(path.last() == path[path.len() - 1]);
        if path.len() == 1 {
            assert(init =~= Seq::<PartView>::empty());
            lemma_lex_one(start, path.last());
        } else {
            lexing_around_a_slash(start, slashed(init), part_text(path.last()));
            lemma_lex_one(joined(start, init), path.last());
        }
    }
}

/// The text of a path gives the path back.
pub proof fn display_text_reads_back(path: Seq<PartView>)
    requires
        well_formed(path),
    ensures
        lexed(display_text(path)) == path,
{
    let start = Seq::<PartView>::empty();
    if is_rooted(path) {
        let rest = path.skip(1);
        assert forall|i: int| 0 <= i < rest.len() implies match #[trigger] rest[i] {
            PartView::RootDir => false,
            PartView::CurDir => true,
            PartView::ParentDir => true,
            PartView::Normal(name) => is_name(name),
        } by {
            assert(rest[i] == path[i + 1]);
        }
        assert(well_formed(rest)) by {
            assert forall|i: int| 0 <= i < rest.len() implies match #[trigger] rest[i] {
                PartView::RootDir => i == 0,
                PartView::CurDir => i == 0,
                PartView::ParentDir => true,
                PartView::Normal(name) => is_name(name),
            } by {
                assert(rest[i] == path[i + 1]);
            }
        }
        let root = seq![PartView::RootDir];
        lexing_slashed_components(root, rest);
        if rest.len() > 0 {
            assert(rest[0] == path[1]);
        }
        joining_a_relative_path(root, rest);
        assert(display_text(path).skip(1) =~= slashed(rest));
        assert(root + rest =~= path);
    } else {
        lexing_slashed_components(start, path);
        lemma_slashed_unrooted(path);
        lemma_joined_to_nothing(path);
    }
}

/// Seen from nowhere, a well-formed path is itself.
proof fn lemma_joined_to_nothing(path: Seq<PartView>)
    requires
        well_formed(path),
    ensures
        joined(seq![], path) == path,
    decreases path.len(),
{
    if path.len() > 0 {
        let init = path.drop_last();
        lemma_well_formed_prefix(path);
        lemma_joined_to_nothing(init);
        assert(path.last() == path[path.len() - 1]);
        assert(init.push(path.last()) =~= path);
        if path.len() == 1 {
            assert(seq![path.last()] =~= path);
        }
    }
}

/// The text of components that do not start with a root does not start with a
/// slash.
proof fn lemma_slashed_unrooted(path: Seq<PartView>)
    requires
        !is_rooted(path),
        forall|i: int|
            0 <= i < path.len() ==> ((#[trigger] path[i]) matches PartView::Normal(name) ==> is_name(
                name,
            )),
    ensures
        slashed(path).len() > 0 ==> slashed(path)[0] != '/',
        path.len() > 0 ==> slashed(path).len() > 0,
    decreases path.len(),
{
    if path.len() == 1 {
        if let PartView::Normal(name) = path[0] {
            assert(name.contains(name[0]));
        }
    } else if path.len() > 1 {
        let init = path.drop_last();
        assert(init[0] == path[0]);
        assert forall|i: int| 0 <= i < init.len() implies ((
        #[trigger] init[i]) matches PartView::Normal(name) ==> is_name(name)) by {
            assert(init[i] == path[i]);
        }
        lemma_slashed_unrooted(init);
        assert(slashed(path)[0] == slashed(init)[0]);
    }
}

/// All components are names or steps up.
pub open spec fn names_and_ups(path: Seq<PartView>) -> bool {
    forall|i: int|
        0 <= i < path.len() ==> (#[trigger] path[i]) is Normal || path[i] is ParentDir
}

/// The parent of a path is the path without its last component, whatever that
/// is called; neither the empty path nor the root has one.
pub proof fn parents_lack_the_last_component(path: Seq<PartView>, name: Seq<char>)
    ensures
        parent_of(path.push(PartView::Normal(name))) == Some(path),
        parent_of(path.push(PartView::ParentDir)) == Some(path),
        parent_of(path.push(PartView::CurDir)) == Some(path),
        parent_of(path.push(PartView::RootDir)) == None::<Seq<PartView>>,
        parent_of(seq![]) == None::<Seq<PartView>>,
{
    assert(path.push(PartView::Normal(name)).drop_last() =~= path);
    assert(path.push(PartView::ParentDir).drop_last() =~= path);
    assert(path.push(PartView::CurDir).drop_last() =~= path);
}

/// A name or a step up goes to the end of a path, a root starts over, and a
/// `.` is kept only where nothing stands before it.
pub proof fn components_go_to_the_end(path: Seq<PartView>, name: Seq<char>)
    ensures
        push_part(path, PartView::Normal(name)) == path + seq![PartView::Normal(name)],
        push_part(path, PartView::ParentDir) == path + seq![PartView::ParentDir],
        push_part(path, PartView::RootDir) == seq![PartView::RootDir],
        path.len() > 0 ==> push_part(path, PartView::CurDir) == path,
        push_part(seq![], PartView::CurDir) == seq![PartView::CurDir],
{
    assert(path.push(PartView::Normal(name)) =~= path + seq![PartView::Normal(name)]);
    assert(path.push(PartView::ParentDir) =~= path + seq![PartView::ParentDir]);
}

/// Joining a path is joining what stands before any of its components, and then
/// the rest; and joining one component appends it.
pub proof fn joining_one_after_the_other(
    path: Seq<PartView>,
    a: Seq<PartView>,
    b: Seq<PartView>,
    part: PartView,
)
    ensures
        joined(path, a + b) == joined(joined(path, a), b),
        joined(path, seq![part]) == push_part(path, part),
        joined(path, seq![]) == path,
    decreases b.len(),
{
    reveal_with_fuel(joined, 2);
    assert(seq![part].drop_last() =~= Seq::<PartView>::empty());
    if b.len() == 0 {
        assert(a + b =~= a);
    } else {
        joining_one_after_the_other(path, a, b.drop_last(), part);
        assert((a + b).drop_last() =~= a + b.drop_last());
        assert((a + b).last() == b.last());
    }
}

/// Names and steps up are appended to whatever path they are joined to; behind
/// a root they stand for themselves, and a `.` before them is kept only where
/// they are joined to nothing.
pub proof fn joining_names_and_ups(path: Seq<PartView>, rest: Seq<PartView>)
    requires
        names_and_ups(rest),
    ensures
        joined(path, rest) == path + rest,
        joined(path, seq![PartView::RootDir] + rest) == seq![PartView::RootDir] + rest,
        path.len() > 0 ==> joined(path, seq![PartView::CurDir] + rest) == path + rest,
        joined(seq![], seq![PartView::CurDir] + rest) == seq![PartView::CurDir] + rest,
{
    let nothing = Seq::<PartView>::empty();
    let root = seq![PartView::RootDir];
    let here = seq![PartView::CurDir];
    lemma_joined_appends(path, rest);
    joining_one_after_the_other(path, root, rest, PartView::RootDir);
    lemma_joined_appends(root, rest);
    joining_one_after_the_other(path, here, rest, PartView::CurDir);
    joining_one_after_the_other(nothing, here, rest, PartView::CurDir);
    lemma_joined_appends(here, rest);
}

proof fn lemma_joined_appends(path: Seq<PartView>, rest: Seq<PartView>)
    requires
        names_and_ups(rest),
    ensures
        joined(path, rest) == path + rest,
    decreases rest.len(),
{
    if rest.len() == 0 {
        assert(path + rest =~= path);
    } else {
        let init = rest.drop_last();
        assert forall|i: int| 0 <= i < init.len() implies (#[trigger] init[i]) is Normal
            || init[i] is ParentDir by {
            assert(init[i] == rest[i]);
        }
        lemma_joined_appends(path, init);
        assert(rest.last() == rest[rest.len() - 1]);
        assert((path + init).push(rest.last()) =~= path + rest);
    }
}

/// A piece of text between slashes is one component: `.` and `..` are what they
/// always are, anything else is a name as it stands, and nothing is nothing.
pub proof fn pieces_of_text_are_components(path: Seq<PartView>, piece: Seq<char>)
    requires
        !piece.contains('/'),
        piece.len() > 0,
        piece != seq!['.'],
        piece != seq!['.', '.'],
    ensures
        lex_from(path, piece) == path + seq![PartView::Normal(piece)],
        lex_from(path, seq!['.', '.']) == path + seq![PartView::ParentDir],
        path.len() > 0 ==> lex_from(path, seq!['.']) == path,
        lex_from(seq![], seq!['.']) == seq![PartView::CurDir],
        lex_from(path, seq![]) == path,
{
    assert(is_name(piece));
    lemma_lex_one(path, PartView::Normal(piece));
    lemma_lex_one(path, PartView::ParentDir);
    lemma_lex_one(path, PartView::CurDir);
    lemma_lex_one(seq![], PartView::CurDir);
    components_go_to_the_end(path, piece);
}

/// The text of a path starts at the root if and only if it starts with a slash.
pub proof fn a_leading_slash_is_the_root(text: Seq<char>)
    ensures
        lexed(seq!['/'] + text) == lex_from(seq![PartView::RootDir], text),
        text.len() == 0 || text[0] != '/' ==> lexed(text) == lex_from(seq![], text),
{
    assert((seq!['/'] + text).skip(1) =~= text);
}

/// Between the texts of two lists of components stands one slash, and a single
/// component is written as one expects.
pub proof fn slashes_stand_between(a: Seq<PartView>, b: Seq<PartView>, name: Seq<char>)
    requires
        a.len() > 0,
        b.len() > 0,
    ensures
        slashed(a + b) == slashed(a) + seq!['/'] + slashed(b),
        slashed(seq![PartView::Normal(name)]) == name,
        slashed(seq![PartView::ParentDir]) == seq!['.', '.'],
        slashed(seq![PartView::CurDir]) == seq!['.'],
        slashed(seq![PartView::RootDir]) == seq!['/'],
        slashed(seq![]) == Seq::<char>::empty(),
    decreases b.len(),
{
    assert((a + b).last() == b.last());
    if b.len() == 1 {
        assert((a + b).drop_last() =~= a);
        assert(b.last() == b[0]);
    } else {
        slashes_stand_between(a, b.drop_last(), name);
        assert((a + b).drop_last() =~= a + b.drop_last());
        assert(slashed(a + b) =~= slashed(a) + seq!['/'] + slashed(b));
    }
}

/// The text of a path with a root is that of the rest behind one slash; the
/// text of any other path is that of its components.
pub proof fn the_root_is_a_leading_slash(path: Seq<PartView>)
    ensures
        display_text(seq![PartView::RootDir] + path) == seq!['/'] + slashed(path),
        path.len() == 0 || path[0] != PartView::RootDir ==> display_text(path) == slashed(path),
{
    assert((seq![PartView::RootDir] + path).skip(1) =~= path);
}

/// `n` steps up.
pub open spec fn steps_up(n: nat) -> Seq<PartView> {
    Seq::new(n, |i: int| PartView::ParentDir)
}

proof fn lemma_common_of(shared: Seq<PartView>, t: Seq<PartView>, b: Seq<PartView>)
    requires
        t.len() == 0 || b.len() == 0 || t[0] != b[0],
    ensures
        common_len(shared + t, shared + b) == shared.len(),
        (shared + t).skip(shared.len() as int) == t,
        (shared + b).skip(shared.len() as int) == b,
        shared.len() == 0 ==> shared + t == t && shared + b == b,
{
    lemma_common_behind(shared, t, b);
    lemma_common_len(t, b);
    assert((shared + t).skip(shared.len() as int) =~= t);
    assert((shared + b).skip(shared.len() as int) =~= b);
    if shared.len() == 0 {
        assert(shared + t =~= t);
        assert(shared + b =~= b);
    }
}

/// From below what two paths share, the way goes up one step for each component
/// that only the base has, and down by what only the target has.
pub proof fn the_way_goes_up_and_down(
    shared: Seq<PartView>,
    target: Seq<PartView>,
    base: Seq<PartView>,
)
    requires
        names_and_ups(target),
        base.len() > 0 ==> base[0] is Normal,
        target.len() == 0 || base.len() == 0 || target[0] != base[0],
    ensures
        diff(shared + target, shared + base) == Some(steps_up(base.len()) + target),
{
    lemma_common_of(shared, target, base);
    let parts = steps_up(base.len()) + target;
    assert(ups(base.len() as int) =~= steps_up(base.len()));
    if base.len() == 0 {
        assert(parts =~= target);
        assert(ups(0) =~= Seq::<PartView>::empty());
        if target.len() == 0 {
            assert(target =~= Seq::<PartView>::empty());
        }
    }
    if target.len() == 0 {
        assert(parts =~= steps_up(base.len()));
    }
    if shared.len() > 0 {
        assert((shared + target)[0] == shared[0] && (shared + base)[0] == shared[0]);
    }
    assert forall|i: int| 0 <= i < parts.len() implies (#[trigger] parts[i]) is Normal
        || parts[i] is ParentDir by {
        if i >= base.len() {
            assert(parts[i] == target[i - base.len()]);
        }
    }
    lemma_joined_appends(seq![], parts);
    assert(Seq::<PartView>::empty() + parts =~= parts);
}

/// To an ancestor the way goes up one step for each component below it,
/// whatever the components are; and to what lies below, it is what lies below.
pub proof fn ancestors_are_steps_away(shared: Seq<PartView>, below: Seq<PartView>)
    requires
        shared.len() > 0 || below.len() == 0 || below[0] != PartView::RootDir,
    ensures
        diff(shared, shared + below) == Some(steps_up(below.len())),
        names_and_ups(below) ==> diff(shared + below, shared) == Some(below),
{
    let nothing = Seq::<PartView>::empty();
    lemma_common_of(shared, nothing, below);
    lemma_common_of(shared, below, nothing);
    assert(shared + nothing =~= shared);
    let up = steps_up(below.len());
    assert(ups(below.len() as int) =~= up);
    if shared.len() > 0 {
        assert((shared + below)[0] == shared[0]);
    }
    lemma_joined_appends(nothing, up);
    assert(nothing + up =~= up);
    if names_and_ups(below) {
        lemma_joined_appends(nothing, below);
        assert(nothing + below =~= below);
        if below.len() == 0 {
            assert(below =~= nothing);
        }
    }
}

/// There is no way out of a `..`: where the base leaves what the two share by
/// it, and the target goes on, there is no path.
pub proof fn no_way_out_of_a_step_up(
    shared: Seq<PartView>,
    target: Seq<PartView>,
    base: Seq<PartView>,
)
    requires
        target.len() > 0,
        base.len() > 0,
        base[0] is ParentDir,
        target[0] != base[0],
        shared.len() == 0 ==> !(target[0] is RootDir),
    ensures
        diff(shared + target, shared + base) == None::<Seq<PartView>>,
{
    lemma_common_of(shared, target, base);
    if shared.len() > 0 {
        assert((shared + target)[0] == shared[0] && (shared + base)[0] == shared[0]);
    }
}

/// A root on one side alone: the target stands for itself if it has the root,
/// and otherwise there is no path.
pub proof fn a_root_on_one_side(path: Seq<PartView>, other: Seq<PartView>)
    requires
        other.len() == 0 || other[0] != PartView::RootDir,
    ensures
        diff(seq![PartView::RootDir] + path, other) == Some(seq![PartView::RootDir] + path),
        diff(other, seq![PartView::RootDir] + path) == None::<Seq<PartView>>,
{
}

/// A base that starts with `.`, seen from a target that does not: the first
/// component of the target stays, and the way goes on behind the two.
pub proof fn a_base_behind_a_dot(
    first: PartView,
    target: Seq<PartView>,
    base: Seq<PartView>,
)
    requires
        first is Normal || first is ParentDir,
        names_and_ups(target),
        names_and_ups(base),
    ensures
        diff(seq![first] + target, seq![PartView::CurDir] + base) == (if target.len() == 0 {
            Some(seq![first] + steps_up(base.len()))
        } else if base.len() == 0 {
            Some(seq![first] + target)
        } else if base[0] is ParentDir {
            None
        } else {
            Some(seq![first] + steps_up(base.len()) + target)
        }),
{
    let t = seq![first] + target;
    let b = seq![PartView::CurDir] + base;
    let nothing = Seq::<PartView>::empty();
    lemma_common_of(nothing, t, b);
    assert(t.skip(0) =~= t);
    assert(b.skip(0) =~= b);
    assert(t.skip(1) =~= target);
    assert(b.skip(1) =~= base);
    let up = steps_up(base.len());
    assert(ups(base.len() as int) =~= up);
    assert(way(t, b) == (match way(target, base) {
        Some(rest) => Some(seq![first] + rest),
        None => None,
    }));
    if let Some(rest) = way(target, base) {
        let parts = seq![first] + rest;
        assert forall|i: int| 0 <= i < parts.len() implies (#[trigger] parts[i]) is Normal
            || parts[i] is ParentDir by {
            if i > 0 {
                assert(parts[i] == rest[i - 1]);
                if target.len() > 0 {
                    if base.len() == 0 {
                        assert(rest[i - 1] == target[i - 1]);
                    } else if i - 1 >= base.len() {
                        assert(rest[i - 1] == target[i - 1 - base.len()]);
                    }
                }
            }
        }
        lemma_joined_appends(nothing, parts);
        assert(nothing + parts =~= parts);
    }
    assert(seq![first] + up + target =~= seq![first] + (up + target));
    if base.len() > 0 {
        assert(base[0] is Normal || base[0] is ParentDir);
    }
}

/// A target that starts with `.`, seen from a base that does not: the `.` is
/// left out behind steps up, and kept where nothing stands before it.
pub proof fn a_target_behind_a_dot(target: Seq<PartView>, base: Seq<PartView>)
    requires
        names_and_ups(target),
        base.len() > 0 ==> base[0] is Normal,
    ensures
        diff(seq![PartView::CurDir] + target, base) == (if base.len() == 0 {
            Some(seq![PartView::CurDir] + target)
        } else {
            Some(steps_up(base.len()) + target)
        }),
{
    let here = seq![PartView::CurDir];
    let t = here + target;
    let nothing = Seq::<PartView>::empty();
    let up = steps_up(base.len());
    lemma_common_of(nothing, t, base);
    assert(t.skip(0) =~= t);
    assert(base.skip(0) =~= base);
    assert(ups(base.len() as int) =~= up);
    if base.len() == 0 {
        joining_names_and_ups(nothing, target);
    } else {
        joining_one_after_the_other(nothing, up, t, PartView::CurDir);
        lemma_joined_appends(nothing, up);
        assert(nothing + up =~= up);
        joining_names_and_ups(up, target);
    }
}

} // verus!
