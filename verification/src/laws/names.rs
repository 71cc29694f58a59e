//! Laws of the names of aliases: where they occur, how they are told from what
//! follows them, and what they turn into.
use vstd::prelude::*;
use crate::aliases::mentions_alias;
use crate::path::joined;
use crate::path::lexed;
use crate::path::PartView;
use crate::resolve::alias_name;
use crate::resolve::alias_require;
use crate::resolve::alias_sub_path;
use crate::resolve::is_concerned;
use crate::resolve::relative_require;
use crate::resolve::unknown_names;
use crate::search::LuaurcView;
use crate::text::lemma_find_char_unique;
use crate::text::occurs_at;
use crate::text::occurs_in;
use crate::visit::SiteView;

verus! {

/// The text is `before`, then `@` and the name, then `after`.
pub open spec fn is_around(
    text: Seq<char>,
    before: Seq<char>,
    name: Seq<char>,
    after: Seq<char>,
) -> bool {
    text == before + seq!['@'] + name + after
}

/// A text mentions the aliases of a table if and only if it holds `@` and the
/// name of one of them, wherever that is and whatever stands around it.
pub proof fn mentions_count_anywhere(text: Seq<char>, aliases: Map<Seq<char>, Seq<char>>)
    ensures
        mentions_alias(text, aliases) <==> exists|
            before: Seq<char>,
            name: Seq<char>,
            after: Seq<char>,
        |
            aliases.contains_key(name) && #[trigger] is_around(text, before, name, after),
{
    if mentions_alias(text, aliases) {
        let name = choose|name: Seq<char>| #[trigger]
            aliases.contains_key(name) && occurs_in(seq!['@'] + name, text);
        let needle = seq!['@'] + name;
        let i = choose|i: int| #[trigger] occurs_at(needle, text, i);
        let before = text.take(i);
        let after = text.skip(i + needle.len());
        assert(text =~= before + text.subrange(i, i + needle.len()) + after);
        assert(text =~= before + seq!['@'] + name + after);
        assert(is_around(text, before, name, after));
    }
    if exists|before: Seq<char>, name: Seq<char>, after: Seq<char>|
        aliases.contains_key(name) && #[trigger] is_around(text, before, name, after) {
        let (before, name, after) = choose|
            before: Seq<char>,
            name: Seq<char>,
            after: Seq<char>,
        |
            aliases.contains_key(name) && #[trigger] is_around(text, before, name, after);
        let needle = seq!['@'] + name;
        let i = before.len() as int;
        assert(text.subrange(i, i + needle.len()) =~= needle);
        assert(occurs_at(needle, text, i));
        assert(occurs_in(needle, text));
    }
}

/// A script is concerned as soon as it holds `@` and the name of an alias, on
/// any line and at any index.
pub proof fn mentions_concern_a_script(
    before: Seq<char>,
    name: Seq<char>,
    after: Seq<char>,
    luaurc: LuaurcView,
)
    requires
        luaurc.aliases.contains_key(name),
    ensures
        is_concerned(before + seq!['@'] + name + after, Some(luaurc)),
        mentions_alias(before + seq!['@'] + name + after, luaurc.aliases),
{
    let text = before + seq!['@'] + name + after;
    assert(is_around(text, before, name, after));
    mentions_count_anywhere(text, luaurc.aliases);
}

/// A script is concerned only if there is a `.luaurc` and the script holds `@`
/// and the name of one of its aliases.
pub proof fn only_mentions_concern_a_script(text: Seq<char>, luaurc: Option<LuaurcView>)
    ensures
        is_concerned(text, luaurc) ==> luaurc is Some && exists|
            before: Seq<char>,
            name: Seq<char>,
            after: Seq<char>,
        |
            luaurc->0.aliases.contains_key(name) && #[trigger] is_around(
                text,
                before,
                name,
                after,
            ),
{
    if is_concerned(text, luaurc) {
        mentions_count_anywhere(text, luaurc->0.aliases);
    }
}

/// The name of an alias stands behind the mark that comes first and ends at the
/// first slash, and everything behind that slash is the path below it.
pub proof fn names_end_at_the_slash(mark: char, name: Seq<char>, sub_path: Seq<char>)
    requires
        !name.contains('/'),
    ensures
        alias_name(seq![mark] + name) == name,
        alias_sub_path(seq![mark] + name) == None::<Seq<char>>,
        alias_name(seq![mark] + name + seq!['/'] + sub_path) == name,
        alias_sub_path(seq![mark] + name + seq!['/'] + sub_path) == Some(sub_path),
{
    let n = name.len() as int;
    let bare = (seq![mark] + name).skip(1);
    assert(bare =~= name);
    assert forall|i: int| 0 <= i < n implies bare[i] != '/' by {
        assert(name.contains(name[i]));
    }
    lemma_find_char_unique(bare, '/', n);
    assert(bare.take(n) =~= name);
    let longer = (seq![mark] + name + seq!['/'] + sub_path).skip(1);
    assert(longer =~= name + seq!['/'] + sub_path);
    assert forall|i: int| 0 <= i < n implies longer[i] != '/' by {
        assert(name.contains(name[i]));
    }
    assert(longer[n] == '/');
    lemma_find_char_unique(longer, '/', n);
    assert(longer.take(n) =~= name);
    assert(longer.skip(n + 1) =~= sub_path);
}

/// A known alias other than `self` turns into a require of a string: the path
/// from the script to what the alias stands for, seen from the directory of the
/// `.luaurc`.
pub proof fn known_aliases_turn_into_paths(
    mark: char,
    name: Seq<char>,
    sub_path: Seq<char>,
    script_dir: Seq<PartView>,
    luaurc: LuaurcView,
)
    requires
        !name.contains('/'),
        name != seq!['s', 'e', 'l', 'f'],
        luaurc.aliases.contains_key(name),
    ensures
        ({
            let target = joined(luaurc.dir, lexed(luaurc.aliases[name]));
            let opened = seq!['r', 'e', 'q', 'u', 'i', 'r', 'e', '(', '"'];
            let ended = seq!['"', ')'];
            &&& alias_require(seq![mark] + name, script_dir, luaurc) == Some(
                opened + relative_require(script_dir, target, None) + ended,
            )
            &&& alias_require(seq![mark] + name + seq!['/'] + sub_path, script_dir, luaurc) == Some(
                opened + relative_require(script_dir, target, Some(sub_path)) + ended,
            )
        }),
{
    names_end_at_the_slash(mark, name, sub_path);
    reveal_strlit("self");
    reveal_strlit("require(\"");
    reveal_strlit("\")");
    assert("self"@ =~= seq!['s', 'e', 'l', 'f']);
    assert("require(\""@ =~= seq!['r', 'e', 'q', 'u', 'i', 'r', 'e', '(', '"']);
    assert("\")"@ =~= seq!['"', ')']);
}

/// An alias that is not known turns into nothing, and so does `self`, be it
/// known or not.
pub proof fn other_aliases_turn_into_nothing(
    mark: char,
    name: Seq<char>,
    sub_path: Seq<char>,
    script_dir: Seq<PartView>,
    luaurc: LuaurcView,
)
    requires
        !name.contains('/'),
        name == seq!['s', 'e', 'l', 'f'] || !luaurc.aliases.contains_key(name),
    ensures
        alias_require(seq![mark] + name, script_dir, luaurc) == None::<Seq<char>>,
        alias_require(seq![mark] + name + seq!['/'] + sub_path, script_dir, luaurc) == None::<
            Seq<char>,
        >,
{
    names_end_at_the_slash(mark, name, sub_path);
    reveal_strlit("self");
    assert("self"@ =~= seq!['s', 'e', 'l', 'f']);
}

/// The unknown names of several sites follow each other, and a site gives its
/// name if and only if that is neither known nor `self`.
pub proof fn unknown_names_follow_the_sites(
    a: Seq<SiteView>,
    b: Seq<SiteView>,
    site: SiteView,
    mark: char,
    name: Seq<char>,
    sub_path: Seq<char>,
    aliases: Map<Seq<char>, Seq<char>>,
)
    requires
        !name.contains('/'),
        site.content == seq![mark] + name || site.content == seq![mark] + name + seq!['/']
            + sub_path,
    ensures
        unknown_names(a + b, aliases) == unknown_names(a, aliases) + unknown_names(b, aliases),
        unknown_names(seq![site], aliases) == (if name == seq!['s', 'e', 'l', 'f']
            || aliases.contains_key(name) {
            seq![]
        } else {
            seq![name]
        }),
    decreases b.len(),
{
    if b.len() == 0 {
        names_end_at_the_slash(mark, name, sub_path);
        reveal_strlit("self");
        assert("self"@ =~= seq!['s', 'e', 'l', 'f']);
        reveal_with_fuel(unknown_names, 2);
        let nothing = Seq::<SiteView>::empty();
        assert(seq![site].drop_last() =~= nothing);
        assert(unknown_names(nothing, aliases) =~= Seq::<Seq<char>>::empty());
        assert(unknown_names(nothing, aliases).push(name) =~= seq![name]);
        assert(a + b =~= a);
        assert(unknown_names(a, aliases) + unknown_names(b, aliases) =~= unknown_names(a, aliases));
    } else {
        unknown_names_follow_the_sites(a, b.drop_last(), site, mark, name, sub_path, aliases);
        assert((a + b).drop_last() =~= a + b.drop_last());
        assert((a + b).last() == b.last());
        assert(unknown_names(a + b, aliases) =~= unknown_names(a, aliases) + unknown_names(
            b,
            aliases,
        ));
    }
}

} // verus!
