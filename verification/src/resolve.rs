//! Resolving the alias requires of a script.
use vstd::prelude::*;
use vstd::utf8::encode_utf8;
use vstd::utf8::encode_utf8_valid_utf8;
use crate::aliases::mentions_alias;
use crate::aliases::AliasTable;
use crate::error::ErrorView;
use crate::error::ResolveError;
use crate::laws::edits::in_order_follows;
use crate::laws::edits::in_order_stays;
use crate::laws::edits::only_the_spans_change;
use crate::path::diff;
use crate::path::diff_paths;
use crate::path::display_text;
use crate::path::joined;
use crate::path::lexed;
use crate::path::parent_of;
use crate::path::slashed;
use crate::path::LogicalPath;
use crate::path::Part;
use crate::path::PartView;
use crate::reader::luau_tree;
use crate::reader::parse_luau;
use crate::replace::apply_replacements;
use crate::replace::are_separate;
use crate::replace::follow_each_other;
use crate::replace::in_order;
use crate::replace::is_placed;
use crate::replace::replacement_views;
use crate::replace::sort_in_order;
use crate::replace::woven;
use crate::replace::Replacement;
use crate::replace::ReplacementView;
use crate::search::Luaurc;
use crate::search::LuaurcView;
use crate::syntax::BlockTree;
use crate::syntax::CallTree;
use crate::syntax::LuauBlock;
use crate::text::find_char;
use crate::text::find_slash;
use crate::text::same_text;
use crate::text::starts_with_char;
use crate::visit::block_calls;
use crate::visit::block_sites;
use crate::visit::call_closing;
use crate::visit::call_end;
use crate::visit::call_site;
use crate::visit::call_start;
use crate::visit::calls_lie_apart;
use crate::visit::calls_sites;
use crate::visit::is_alias_text;
use crate::visit::is_literal_call;
use crate::visit::lemma_sites_are_aliases;
use crate::visit::site_views;
use crate::visit::visit_block;
use crate::visit::RequireSite;
use crate::visit::SiteView;

verus! {

/// What resolving the requires of one script takes.
#[derive(Debug)]
pub struct ResolveInfo<'a> {
    /// The path of the script file.
    pub file_path: &'a LogicalPath,
    /// The nearest `.luaurc` file, if there is one.
    pub luaurc: Option<&'a Luaurc>,
}

/// A path as a require wants it: behind `./`, unless it starts with a step up.
pub open spec fn anchored(path: Seq<PartView>) -> Seq<char> {
    if path.len() > 0 && path[0] is ParentDir {
        slashed(path)
    } else {
        "./"@ + slashed(path)
    }
}

/// What a script in `script_dir` has to require to get at `sub_path` in
/// `alias_target`, or at `alias_target` itself. Where there is no way from the
/// one to the other, the target stands for itself.
pub open spec fn relative_require(
    script_dir: Seq<PartView>,
    alias_target: Seq<PartView>,
    sub_path: Option<Seq<char>>,
) -> Seq<char> {
    let to_target = match diff(alias_target, script_dir) {
        Some(path) => anchored(path),
        None => display_text(alias_target),
    };
    match sub_path {
        Some(sub) => to_target + "/"@ + sub,
        None => to_target,
    }
}

/// The name of the alias in `@name` or `@name/sub`.
pub open spec fn alias_name(alias_path: Seq<char>) -> Seq<char> {
    let rest = alias_path.skip(1);
    rest.take(find_char(rest, '/'))
}

/// What stands behind the first slash in `@name/sub`; nothing in `@name`.
pub open spec fn alias_sub_path(alias_path: Seq<char>) -> Option<Seq<char>> {
    let rest = alias_path.skip(1);
    let end = find_char(rest, '/');
    if end < rest.len() {
        Some(rest.skip(end + 1))
    } else {
        None
    }
}

/// What takes the place of a require of `alias_path`: nothing for `@self` and
/// for an alias that is not known.
pub open spec fn alias_require(
    alias_path: Seq<char>,
    script_dir: Seq<PartView>,
    luaurc: LuaurcView,
) -> Option<Seq<char>> {
    let name = alias_name(alias_path);
    if name != "self"@ && luaurc.aliases.contains_key(name) {
        let target = joined(luaurc.dir, lexed(luaurc.aliases[name]));
        Some(
            "require(\""@ + relative_require(script_dir, target, alias_sub_path(alias_path))
                + "\")"@,
        )
    } else {
        None
    }
}

/// The replacement of one site, as a list of at most one.
pub open spec fn site_replacements(
    site: SiteView,
    script_dir: Seq<PartView>,
    luaurc: LuaurcView,
) -> Seq<ReplacementView> {
    match alias_require(site.content, script_dir, luaurc) {
        Some(new_text) => if is_alias_text(site.content) {
            seq![ReplacementView { start: site.start, end: site.end, new_text }]
        } else {
            seq![]
        },
        None => seq![],
    }
}

/// The replacements of a list of sites, in order.
pub open spec fn sites_replacements(
    sites: Seq<SiteView>,
    script_dir: Seq<PartView>,
    luaurc: LuaurcView,
) -> Seq<ReplacementView>
    decreases sites.len(),
{
    if sites.len() == 0 {
        seq![]
    } else {
        sites_replacements(sites.drop_last(), script_dir, luaurc) + site_replacements(
            sites.last(),
            script_dir,
            luaurc,
        )
    }
}

/// The replacements that a script needs.
pub open spec fn tree_replacements(
    tree: BlockTree,
    script_dir: Seq<PartView>,
    luaurc: LuaurcView,
) -> Seq<ReplacementView> {
    sites_replacements(block_sites(tree), script_dir, luaurc)
}

/// The texts of a list of strings.
pub open spec fn text_views(texts: Seq<String>) -> Seq<Seq<char>> {
    Seq::new(texts.len(), |i: int| texts[i]@)
}

/// The names of the aliases that sites require and that nothing is known of,
/// in order.
pub open spec fn unknown_names(
    sites: Seq<SiteView>,
    aliases: Map<Seq<char>, Seq<char>>,
) -> Seq<Seq<char>>
    decreases sites.len(),
{
    if sites.len() == 0 {
        seq![]
    } else {
        let before = unknown_names(sites.drop_last(), aliases);
        let name = alias_name(sites.last().content);
        if name != "self"@ && !aliases.contains_key(name) {
            before.push(name)
        } else {
            before
        }
    }
}

/// There is a `.luaurc`, and the source mentions one of its aliases.
pub open spec fn is_concerned(source: Seq<char>, luaurc: Option<LuaurcView>) -> bool {
    luaurc matches Some(luaurc) && mentions_alias(source, luaurc.aliases)
}

/// The bytes of a script with its requires resolved, given what the source is
/// in Luau: the spans of the calls are replaced, and everything else is as it
/// was. A source that is not concerned stays as it is, Luau or not.
pub open spec fn resolved(
    source: Seq<char>,
    file_path: Seq<PartView>,
    luaurc: Option<LuaurcView>,
    syntax: Result<BlockTree, Seq<char>>,
) -> Result<Seq<u8>, ErrorView> {
    match parent_of(file_path) {
        None => Err(ErrorView::NoParentDirectory),
        Some(script_dir) => if is_concerned(source, luaurc) {
            match syntax {
                Err(errors) => Err(ErrorView::LuauSyntax(errors)),
                Ok(tree) => Ok(
                    woven(
                        encode_utf8(source),
                        in_order(tree_replacements(tree, script_dir, luaurc->0)),
                        0,
                        encode_utf8(source).len() as int,
                    ),
                ),
            }
        } else {
            Ok(encode_utf8(source))
        },
    }
}

impl ResolveInfo<'_> {
    /// The model of [`ResolveInfo::luaurc`].
    pub open spec fn luaurc_view(self) -> Option<LuaurcView> {
        match self.luaurc {
            Some(luaurc) => Some(luaurc@),
            None => None,
        }
    }
}

/// Whether the path starts with a step up.
fn starts_with_step_up(path: &LogicalPath) -> (res: bool)
    ensures
        res == (path@.len() > 0 && path@[0] is ParentDir),
{
    if path.parts.len() == 0 {
        return false;
    }
    assert(path@[0] == path.parts@[0]@);
    match path.parts[0] {
        Part::ParentDir => true,
        _ => false,
    }
}

/// The relative require path from a script's directory to the target of an
/// alias, with an optional path below it.
pub fn compute_relative_require(
    script_dir: &LogicalPath,
    alias_target: &LogicalPath,
    sub_path: Option<&str>,
) -> (res: String)
    ensures
        res@ == relative_require(
            script_dir@,
            alias_target@,
            match sub_path {
                Some(sub) => Some(sub@),
                None => None,
            },
        ),
{
    let mut require_path = match diff_paths(alias_target, script_dir) {
        Some(to_target) => {
            let text = to_target.slashed();
            if starts_with_step_up(&to_target) {
                text
            } else {
                "./".to_owned().concat(text.as_str())
            }
        },
        None => alias_target.display(),
    };
    if let Some(sub) = sub_path {
        require_path.append("/");
        require_path.append(sub);
    }
    require_path
}

/// Takes `@name` or `@name/sub` apart.
fn split_alias_path(alias_path: &str) -> (res: (&str, Option<&str>))
    requires
        alias_path@.len() > 0,
        (alias_path@[0] as u32) < 0x80,
    ensures
        res.0@ == alias_name(alias_path@),
        (match res.1 {
            Some(sub) => alias_sub_path(alias_path@) == Some(sub@),
            None => alias_sub_path(alias_path@) is None,
        }),
{
    let len: usize = alias_path.unicode_len();
    let without_at = alias_path.substring_char(1, len);
    assert(without_at@ =~= alias_path@.skip(1));
    let end: usize = find_slash(without_at);
    let rest_len: usize = without_at.unicode_len();
    let name = without_at.substring_char(0, end);
    assert(name@ =~= alias_name(alias_path@));
    if end < rest_len {
        let sub = without_at.substring_char(end + 1, rest_len);
        assert(sub@ =~= without_at@.skip(end + 1));
        (name, Some(sub))
    } else {
        (name, None)
    }
}

/// The replacement of a require of `alias_path` that spans the given bytes, or
/// `None` if the call is to stay: `@self` means something to the engine
/// itself, and an unknown alias means nothing.
pub fn resolve_alias_require(
    alias_path: &str,
    script_dir: &LogicalPath,
    aliases: &AliasTable,
    luaurc_dir: &LogicalPath,
    call_start: usize,
    call_end: usize,
) -> (res: Option<Replacement>)
    requires
        alias_path@.len() > 0,
        (alias_path@[0] as u32) < 0x80,
    ensures
        (match alias_require(
            alias_path@,
            script_dir@,
            LuaurcView { aliases: aliases@, dir: luaurc_dir@ },
        ) {
            Some(new_text) => res is Some && res->0@ == (ReplacementView {
                start: call_start,
                end: call_end,
                new_text,
            }),
            None => res is None,
        }),
{
    let (name, sub_path) = split_alias_path(alias_path);
    if same_text(name, "self") {
        return None;
    }
    match aliases.get(name) {
        Some(target) => {
            let alias_path = luaurc_dir.join(&LogicalPath::parse(target));
            let require_path = compute_relative_require(script_dir, &alias_path, sub_path);
            let new_text = "require(\"".to_owned().concat(require_path.as_str()).concat("\")");
            Some(Replacement { start: call_start, end: call_end, new_text })
        },
        None => None,
    }
}

/// The replacements that a script with this syntax tree needs.
pub fn replacements_in(
    block: &LuauBlock,
    script_dir: &LogicalPath,
    aliases: &AliasTable,
    luaurc_dir: &LogicalPath,
) -> (res: Vec<Replacement>)
    ensures
        replacement_views(res@) == tree_replacements(
            block.tree(),
            script_dir@,
            LuaurcView { aliases: aliases@, dir: luaurc_dir@ },
        ),
{
    let ghost luaurc = LuaurcView { aliases: aliases@, dir: luaurc_dir@ };
    let mut sites: Vec<RequireSite> = Vec::new();
    visit_block(block, &mut sites);
    let ghost views = site_views(sites@);
    assert(views =~= block_sites(block.tree()));
    let mut replacements: Vec<Replacement> = Vec::new();
    assert(replacement_views(replacements@) =~= sites_replacements(
        views.take(0),
        script_dir@,
        luaurc,
    ));
    for i in 0..sites.len()
        invariant
            luaurc == (LuaurcView { aliases: aliases@, dir: luaurc_dir@ }),
            views == site_views(sites@),
            replacement_views(replacements@) == sites_replacements(
                views.take(i as int),
                script_dir@,
                luaurc,
            ),
    {
        let site = &sites[i];
        let ghost before = replacement_views(replacements@);
        if starts_with_char(site.content.as_str(), '@') {
            if let Some(replacement) = resolve_alias_require(
                site.content.as_str(),
                script_dir,
                aliases,
                luaurc_dir,
                site.start,
                site.end,
            ) {
                replacements.push(replacement);
            }
        }
        proof {
            assert(views.take(i + 1).drop_last() =~= views.take(i as int));
            assert(views.take(i + 1).last() == site@);
            assert(replacement_views(replacements@) =~= before + site_replacements(
                site@,
                script_dir@,
                luaurc,
            ));
        }
    }
    assert(views.take(views.len() as int) =~= views);
    replacements
}

/// The names of the aliases that a script requires and that are not in the
/// table, one for each call in order; `self` is none of them.
pub fn unknown_aliases(block: &LuauBlock, aliases: &AliasTable) -> (res: Vec<String>)
    ensures
        text_views(res@) == unknown_names(block_sites(block.tree()), aliases@),
{
    let mut sites: Vec<RequireSite> = Vec::new();
    visit_block(block, &mut sites);
    let ghost views = site_views(sites@);
    assert(views =~= block_sites(block.tree()));
    proof {
        lemma_sites_are_aliases(block_calls(block.tree()));
    }
    let mut names: Vec<String> = Vec::new();
    assert(text_views(names@) =~= unknown_names(views.take(0), aliases@));
    for i in 0..sites.len()
        invariant
            views == site_views(sites@),
            forall|j: int| 0 <= j < views.len() ==> is_alias_text((#[trigger] views[j]).content),
            text_views(names@) == unknown_names(views.take(i as int), aliases@),
    {
        let ghost before = text_views(names@);
        let content = sites[i].content.as_str();
        assert(views[i as int] == sites@[i as int]@);
        let (name, _) = split_alias_path(content);
        if !same_text(name, "self") && aliases.get(name).is_none() {
            names.push(name.to_owned());
        }
        proof {
            assert(views.take(i + 1).drop_last() =~= views.take(i as int));
            assert(views.take(i + 1).last() == views[i as int]);
            assert(text_views(names@) =~= unknown_names(views.take(i + 1), aliases@));
        }
    }
    assert(views.take(views.len() as int) =~= views);
    names
}

/// Parses a script, and gives the replacements that it needs, in the order in
/// which their spans follow each other.
pub fn find_require_replacements(
    source: &str,
    script_dir: &LogicalPath,
    aliases: &AliasTable,
    luaurc_dir: &LogicalPath,
) -> (res: Result<Vec<Replacement>, ResolveError>)
    ensures
        (match luau_tree(source@) {
            Ok(tree) => res is Ok && replacement_views(res->Ok_0@) == in_order(
                tree_replacements(
                    tree,
                    script_dir@,
                    LuaurcView { aliases: aliases@, dir: luaurc_dir@ },
                ),
            ),
            Err(errors) => res is Err && res->Err_0@ == ErrorView::LuauSyntax(errors),
        }),
        res is Ok ==> {
            &&& are_separate(encode_utf8(source@), replacement_views(res->Ok_0@))
            &&& follow_each_other(replacement_views(res->Ok_0@))
        },
{
    match parse_luau(source) {
        Ok(block) => {
            let replacements = replacements_in(&block, script_dir, aliases, luaurc_dir);
            proof {
                lemma_replacements_are_separate(
                    encode_utf8(source@),
                    block_calls(block.tree()),
                    script_dir@,
                    LuaurcView { aliases: aliases@, dir: luaurc_dir@ },
                );
                in_order_follows(encode_utf8(source@), replacement_views(replacements@));
            }
            Ok(sort_in_order(replacements))
        },
        Err(errors) => Err(ResolveError::LuauSyntax(errors)),
    }
}

/// Resolves the alias requires in Luau source: `require("@alias/path")` becomes
/// a relative require such as `require("../../Packages/path")`. Source that
/// needs no change comes back as it is.
pub fn resolve_requires(source: &str, info: &ResolveInfo) -> (res: Result<String, ResolveError>)
    ensures
        (match res {
            Ok(text) => resolved(
                source@,
                info.file_path@,
                info.luaurc_view(),
                luau_tree(source@),
            ) == Ok::<Seq<u8>, ErrorView>(encode_utf8(text@)),
            Err(error) => resolved(
                source@,
                info.file_path@,
                info.luaurc_view(),
                luau_tree(source@),
            ) == Err::<Seq<u8>, ErrorView>(error@),
        }),
        parent_of(info.file_path@) is Some && !is_concerned(source@, info.luaurc_view())
            ==> res is Ok && res->Ok_0@ == source@,
{
    let file_dir = match info.file_path.parent() {
        Some(dir) => dir,
        None => {
            return Err(ResolveError::NoParentDirectory);
        },
    };
    let luaurc = match info.luaurc {
        Some(luaurc) => luaurc,
        None => {
            return Ok(source.to_owned());
        },
    };
    // Without a mention of an alias there is no need to parse.
    if luaurc.aliases.is_empty() || !luaurc.aliases.any_mentioned_in(source) {
        return Ok(source.to_owned());
    }
    let replacements = match find_require_replacements(
        source,
        &file_dir,
        &luaurc.aliases,
        &luaurc.dir,
    ) {
        Ok(replacements) => replacements,
        Err(error) => {
            return Err(error);
        },
    };
    proof {
        encode_utf8_valid_utf8(source@);
        only_the_spans_change(encode_utf8(source@), replacement_views(replacements@));
        in_order_stays(replacement_views(replacements@));
    }
    Ok(apply_replacements(source, replacements).unwrap())
}

/// The replacement is that of a call of a name with one string literal, one of
/// the calls given.
spec fn replaces_one(r: ReplacementView, calls: Seq<CallTree>) -> bool {
    exists|i: int| #[trigger] replaces(r, calls, i)
}

spec fn replaces(r: ReplacementView, calls: Seq<CallTree>, i: int) -> bool {
    &&& 0 <= i < calls.len()
    &&& is_literal_call(calls[i])
    &&& r.start == call_start(calls[i])
    &&& r.end == call_end(calls[i])
}

proof fn lemma_replacements_of_calls(
    bytes: Seq<u8>,
    calls: Seq<CallTree>,
    script_dir: Seq<PartView>,
    luaurc: LuaurcView,
)
    requires
        calls_lie_apart(bytes, calls),
    ensures
        forall|k: int|
            0 <= k < sites_replacements(calls_sites(calls), script_dir, luaurc).len()
                ==> replaces_one(
                #[trigger] sites_replacements(calls_sites(calls), script_dir, luaurc)[k],
                calls,
            ),
        are_separate(bytes, sites_replacements(calls_sites(calls), script_dir, luaurc)),
    decreases calls.len(),
{
    if calls.len() > 0 {
        let init = calls.drop_last();
        let n = init.len() as int;
        let before = sites_replacements(calls_sites(init), script_dir, luaurc);
        let all = sites_replacements(calls_sites(calls), script_dir, luaurc);
        assert(calls_lie_apart(bytes, init)) by {
            assert forall|i: int| 0 <= i < init.len() implies init[i] == calls[i] by {}
        }
        lemma_replacements_of_calls(bytes, init, script_dir, luaurc);
        assert forall|k: int| 0 <= k < before.len() implies replaces_one(
            #[trigger] before[k],
            calls,
        ) by {
            let i = choose|i: int| #[trigger] replaces(before[k], init, i);
            assert(init[i] == calls[i]);
            assert(replaces(before[k], calls, i));
        }
        match call_site(calls.last()) {
            None => {
                assert(calls_sites(calls) =~= calls_sites(init));
            },
            Some(site) => {
                assert(calls_sites(calls).drop_last() =~= calls_sites(init));
                assert(calls_sites(calls).last() == site);
                assert(calls.last() == calls[n]);
                assert(is_literal_call(calls[n]) && call_closing(calls[n]) is Some);
                if all.len() > before.len() {
                    let new = all.last();
                    assert(all =~= before.push(new));
                    assert(replaces(new, calls, n));
                    assert(is_placed(bytes, new) && new.start < new.end);
                    assert forall|i: int, j: int|
                        0 <= i < all.len() && 0 <= j < all.len() && i != j implies (
                    #[trigger] all[i]).end <= (#[trigger] all[j]).start || all[j].end
                        <= all[i].start by {
                        if i < before.len() && j < before.len() {
                            assert(all[i] == before[i] && all[j] == before[j]);
                        } else {
                            let k = if i < before.len() {
                                i
                            } else {
                                j
                            };
                            assert(all[k] == before[k]);
                            let c = choose|c: int| #[trigger] replaces(before[k], init, c);
                            assert(init[c] == calls[c]);
                            assert(is_literal_call(calls[c]));
                        }
                    }
                    assert forall|k: int| 0 <= k < all.len() implies replaces_one(
                        #[trigger] all[k],
                        calls,
                    ) by {
                        if k < before.len() {
                            assert(all[k] == before[k]);
                        } else {
                            assert(replaces(all[k], calls, n));
                        }
                    }
                    assert forall|i: int| 0 <= i < all.len() implies is_placed(
                        bytes,
                        #[trigger] all[i],
                    ) && all[i].start < all[i].end by {
                        if i < before.len() {
                            assert(all[i] == before[i]);
                        }
                    }
                } else {
                    assert(all =~= before);
                }
            },
        }
    }
}

/// The replacements of calls that lie apart are separate.
pub proof fn lemma_replacements_are_separate(
    bytes: Seq<u8>,
    calls: Seq<CallTree>,
    script_dir: Seq<PartView>,
    luaurc: LuaurcView,
)
    requires
        calls_lie_apart(bytes, calls),
    ensures
        are_separate(bytes, sites_replacements(calls_sites(calls), script_dir, luaurc)),
{
    lemma_replacements_of_calls(bytes, calls, script_dir, luaurc);
}

} // verus!
