//! Whole scripts, with the real parser, in projects that are lists of files.
use luaurc::aliases::AliasTable;
use luaurc::error::ResolveError;
use luaurc::path::LogicalPath;
use luaurc::resolve::compute_relative_require;
use luaurc::resolve::find_require_replacements;
use luaurc::resolve::resolve_requires;
use luaurc::resolve::ResolveInfo;
use luaurc::search::Luaurc;
use luaurc::search::LuaurcSearch;
use luaurc::search::ReadOutcome;
use luaurc::search::SearchStep;

/// The aliases in the text of a `.luaurc` file.
fn read_aliases(text: &str) -> Option<AliasTable> {
    let value: serde_json::Value = serde_json::from_str(text).ok()?;
    let mut table = AliasTable::new();
    if let Some(aliases) = value.as_object()?.get("aliases") {
        for (name, target) in aliases.as_object()? {
            table.insert(name.clone(), target.as_str()?.to_string());
        }
    }
    Some(table)
}

fn find(files: &[(&str, &str)], script: &str) -> Result<Option<Luaurc>, ResolveError> {
    let mut search = LuaurcSearch::for_script(&LogicalPath::parse(script))?;
    loop {
        let wanted = search.candidate().display();
        let outcome = match files.iter().find(|(path, _)| *path == wanted) {
            Some((_, text)) => match read_aliases(text) {
                Some(aliases) => ReadOutcome::Parsed(aliases),
                None => ReadOutcome::Malformed,
            },
            None => ReadOutcome::NotFound,
        };
        match search.step(outcome) {
            SearchStep::Found(luaurc) => return Ok(Some(luaurc)),
            SearchStep::Continue(next) => search = next,
            SearchStep::Exhausted => return Ok(None),
            SearchStep::Failed(error) => return Err(error),
        }
    }
}

fn resolve(source: &str, script: &str, files: &[(&str, &str)]) -> Result<String, ResolveError> {
    let luaurc = find(files, script)?;
    let file_path = LogicalPath::parse(script);
    let info = ResolveInfo { file_path: &file_path, luaurc: luaurc.as_ref() };
    resolve_requires(source, &info)
}

/// Resolves the script at `script`, which is one of the files.
fn resolve_file(script: &str, files: &[(&str, &str)]) -> String {
    let (_, source) = files.iter().find(|(path, _)| *path == script).expect("should find script");
    resolve(source, script, files).unwrap()
}

#[test]
fn relative_path_sibling() {
    let result = compute_relative_require(
        &LogicalPath::parse("/project/Source/Plugin"),
        &LogicalPath::parse("/project/Packages"),
        Some("Fusion"),
    );
    assert_eq!(result, "../../Packages/Fusion");
}

#[test]
fn relative_path_same_level() {
    let result = compute_relative_require(
        &LogicalPath::parse("/project/Source"),
        &LogicalPath::parse("/project/Packages"),
        Some("Fusion"),
    );
    assert_eq!(result, "../Packages/Fusion");
}

#[test]
fn relative_path_bare_alias() {
    let result = compute_relative_require(
        &LogicalPath::parse("/project/Source/Plugin"),
        &LogicalPath::parse("/project/Source/RbxPackageLoader"),
        None,
    );
    assert_eq!(result, "../RbxPackageLoader");
}

#[test]
fn relative_path_child() {
    let result = compute_relative_require(
        &LogicalPath::parse("/project/Source"),
        &LogicalPath::parse("/project/Source/Lib"),
        None,
    );
    assert_eq!(result, "./Lib");
}

#[test]
fn self_alias_left_untouched() {
    let source = r#"local Assets = require("@self/Assets")"#;
    let result = resolve(source, "/project/Source/Plugin/init.plugin.luau", &[]).unwrap();
    assert_eq!(result, source);
}

#[test]
fn resolve_custom_alias() {
    let source = r#"local Fusion = require("@packages/Fusion")"#;
    let files = [("/project/.luaurc", r#"{"aliases": {"packages": "Packages"}}"#)];
    let result = resolve(source, "/project/Source/Plugin/init.plugin.luau", &files).unwrap();
    assert_eq!(result, r#"local Fusion = require("../../Packages/Fusion")"#);
}

#[test]
fn resolve_bare_alias() {
    let source = r#"local Loader = require("@rbxpackageloader")"#;
    let files = [(
        "/project/.luaurc",
        r#"{"aliases": {"rbxpackageloader": "Source/RbxPackageLoader"}}"#,
    )];
    let result = resolve(source, "/project/Source/Plugin/init.plugin.luau", &files).unwrap();
    assert_eq!(result, r#"local Loader = require("../RbxPackageLoader")"#);
}

#[test]
fn leaves_relative_requires_untouched() {
    let source = r#"local Foo = require("./Foo")"#;
    let result = resolve(source, "/project/Source/Bar.luau", &[]).unwrap();
    assert_eq!(result, source);
}

#[test]
fn leaves_wally_requires_untouched() {
    let source = r#"local Promise = require(script.Parent._Index["promise"])"#;
    let result = resolve(source, "/project/Source/init.luau", &[]).unwrap();
    assert_eq!(result, source);
}

#[test]
fn integration_self_alias_left_untouched() {
    let files = [
        (
            "/project/default.project.json",
            r#"{
                            "name": "test",
                            "tree": {
                                "$className": "Folder",
                                "Source": {
                                    "$path": "src"
                                }
                            }
                        }"#,
        ),
        ("/project/.luaurc", r#"{"aliases": {}}"#),
        (
            "/project/src/init.luau",
            r#"local Child = require("@self/Child")
return {}"#,
        ),
        ("/project/src/Child.luau", "return {}"),
    ];
    let source = resolve_file("/project/src/init.luau", &files);
    assert!(
        source.contains(r#"require("@self/Child")"#),
        "@self should be left untouched, got: {source}"
    );
}

#[test]
fn integration_custom_alias() {
    let files = [
        (
            "/project/default.project.json",
            r#"{
                            "name": "test",
                            "tree": {
                                "$className": "Folder",
                                "Packages": {
                                    "$path": "Packages"
                                },
                                "Plugin": {
                                    "$path": "Source/Plugin"
                                }
                            }
                        }"#,
        ),
        ("/project/.luaurc", r#"{"aliases": {"packages": "Packages"}}"#),
        ("/project/Packages/Fusion.luau", "return {}"),
        (
            "/project/Source/Plugin/init.luau",
            r#"local Fusion = require("@packages/Fusion")
return {}"#,
        ),
    ];
    let source = resolve_file("/project/Source/Plugin/init.luau", &files);
    // Plugin is at Source/Plugin/, Packages is at Packages/
    assert!(
        source.contains(r#"require("../../Packages/Fusion")"#),
        "alias should resolve to relative path, got: {source}"
    );
}

#[test]
fn integration_remapped_alias() {
    let files = [
        (
            "/project/default.project.json",
            r#"{
                            "name": "test",
                            "tree": {
                                "$className": "Folder",
                                "Plugin": {
                                    "$path": "Source/Plugin"
                                },
                                "RbxPackageLoader": {
                                    "$path": "Source/RbxPackageLoader"
                                }
                            }
                        }"#,
        ),
        (
            "/project/.luaurc",
            r#"{"aliases": {
                            "rbxpackageloader": "Source/RbxPackageLoader"
                        }}"#,
        ),
        (
            "/project/Source/Plugin/init.luau",
            r#"local Loader = require("@rbxpackageloader")
return {}"#,
        ),
        ("/project/Source/RbxPackageLoader/init.luau", "return {}"),
    ];
    let source = resolve_file("/project/Source/Plugin/init.luau", &files);
    // Plugin at Source/Plugin/, target at Source/RbxPackageLoader/
    assert!(
        source.contains(r#"require("../RbxPackageLoader")"#),
        "remapped alias should resolve to relative path, got: {source}"
    );
}

#[test]
fn integration_relative_and_wally_untouched() {
    let files = [
        (
            "/project/default.project.json",
            r#"{
                            "name": "test",
                            "tree": {
                                "$className": "Folder",
                                "Source": {
                                    "$path": "src"
                                }
                            }
                        }"#,
        ),
        (
            "/project/src/Script.luau",
            r#"local A = require("./Sibling")
local B = require(script.Parent._Index["promise"])
return {}"#,
        ),
    ];
    let source = resolve_file("/project/src/Script.luau", &files);
    assert!(
        source.contains(r#"require("./Sibling")"#),
        "relative require should be untouched, got: {source}"
    );
    assert!(
        source.contains(r#"require(script.Parent._Index["promise"])"#),
        "Wally require should be untouched, got: {source}"
    );
}

#[test]
fn integration_cross_service_alias() {
    let files = [
        (
            "/project/default.project.json",
            r#"{
                            "name": "test",
                            "tree": {
                                "$className": "DataModel",
                                "ReplicatedStorage": {
                                    "$className": "ReplicatedStorage",
                                    "Packages": {
                                        "$path": "Packages"
                                    }
                                },
                                "ServerScriptService": {
                                    "$className": "ServerScriptService",
                                    "Server": {
                                        "$path": "src/server"
                                    }
                                }
                            }
                        }"#,
        ),
        ("/project/.luaurc", r#"{"aliases": {"packages": "Packages"}}"#),
        ("/project/Packages/SharedLib.luau", "return {}"),
        (
            "/project/src/server/Main.server.luau",
            r#"local Lib = require("@packages/SharedLib")"#,
        ),
    ];
    let source = resolve_file("/project/src/server/Main.server.luau", &files);
    // Main at src/server/, Packages at Packages/
    assert!(
        source.contains(r#"require("../../Packages/SharedLib")"#),
        "cross-service alias should resolve to relative path, got: {source}"
    );
}

#[test]
fn integration_multiple_requires() {
    let files = [
        (
            "/project/default.project.json",
            r#"{
                            "name": "test",
                            "tree": {
                                "$className": "Folder",
                                "Packages": {
                                    "$path": "Packages"
                                },
                                "Source": {
                                    "$path": "Source"
                                }
                            }
                        }"#,
        ),
        ("/project/.luaurc", r#"{"aliases": {"packages": "Packages"}}"#),
        ("/project/Packages/Fusion.luau", "return {}"),
        ("/project/Packages/Roact.luau", "return {}"),
        (
            "/project/Source/init.luau",
            r#"local Fusion = require("@packages/Fusion")
local Roact = require("@packages/Roact")
local Child = require("@self/SubModule")
return {}"#,
        ),
    ];
    let source = resolve_file("/project/Source/init.luau", &files);
    assert!(
        source.contains(r#"require("../Packages/Fusion")"#),
        "first alias should resolve, got: {source}"
    );
    assert!(
        source.contains(r#"require("../Packages/Roact")"#),
        "second alias should resolve, got: {source}"
    );
    assert!(
        source.contains(r#"require("@self/SubModule")"#),
        "@self should be left untouched, got: {source}"
    );
}

#[test]
fn integration_bare_alias() {
    let files = [
        (
            "/project/default.project.json",
            r#"{
                            "name": "test",
                            "tree": {
                                "$className": "Folder",
                                "Lib": {
                                    "$path": "lib"
                                },
                                "Source": {
                                    "$path": "src"
                                }
                            }
                        }"#,
        ),
        ("/project/.luaurc", r#"{"aliases": {"lib": "lib"}}"#),
        ("/project/lib/init.luau", "return {}"),
        (
            "/project/src/Main.luau",
            r#"local Lib = require("@lib")
return {}"#,
        ),
    ];
    let source = resolve_file("/project/src/Main.luau", &files);
    // Main at src/, lib at lib/
    assert!(
        source.contains(r#"require("../lib")"#),
        "bare alias should resolve to relative path, got: {source}"
    );
}

/// Resolves a source that stands in `/p/src/a.luau`, with the alias `x` for
/// `/p/lib`.
fn resolve_x(source: &str) -> String {
    let files = [("/p/.luaurc", r#"{"aliases": {"x": "lib"}}"#)];
    resolve(source, "/p/src/a.luau", &files).unwrap()
}

#[test]
fn calls_are_resolved_wherever_they_stand() {
    let source = r#"require("@x/statement")
local a, b = require("@x/first"), (require("@x/second"))
const c = require("@x/const")
a = require("@x/assigned")
a[require("@x/key")] = require("@x/value")
a.b += require("@x/compound")
do require("@x/inner") end
if require("@x/condition") then
    require("@x/yes")
elseif require("@x/other") then
    require("@x/maybe")
elseif c then
    require("@x/perhaps")
else
    require("@x/no")
end
while require("@x/ahead") do require("@x/while") end
repeat require("@x/repeat") until require("@x/until")
for i = require("@x/start"), require("@x/end"), require("@x/step") do require("@x/numeric") end
for k in require("@x/values") do require("@x/generic") end
local function f() return require("@x/body") end
function a.b:c(...) require("@x/method") end
const function g() require("@x/constant") end
type function t() return require("@x/type") end
export type function u() return require("@x/exported") end
local h = function() return function() require("@x/anonymous") end end
print(require("@x/argument"), { require("@x/item"), k = require("@x/named"), [require("@x/index")] = require("@x/field") })
f { require("@x/table") }
a:b(require("@x/of a method")).c[require("@x/bracket")](require("@x/after"))
;(require("@x/head"))()
local o = require("@x/left") .. -require("@x/right") == not require("@x/unary")
local i = if require("@x/if") then require("@x/then") elseif require("@x/elseif") then require("@x/so") else require("@x/else")
local s = `a {require("@x/text")} b {require("@x/more")}`
local v = require("@x/cast") :: any
return require("@x/one"), ((require("@x/two")))"#;
    assert_eq!(resolve_x(source), source.replace("@x/", "../lib/"));
}

#[test]
fn other_texts_stay() {
    let source = r#"local h = require("@x/indexed").member
require("@x/two", 1)
require(("@x/parenthesised"))
require("@x/called")()
require("@x/" .. name)
require { "@x/table" }
other("@x/other")
a.require("@x/method")
a:require("@x/method")
local t: typeof(require("@x/type")) = nil
-- require("@x/comment")
local s = 'require("@x/string")'"#;
    assert_eq!(resolve_x(source), source);
}

#[test]
fn string_and_quote_forms() {
    assert_eq!(resolve_x("local a = require \"@x/a\""), "local a = require(\"../lib/a\")");
    assert_eq!(resolve_x("local a = require '@x/a'"), "local a = require(\"../lib/a\")");
    assert_eq!(resolve_x("local a = require('@x/a')"), "local a = require(\"../lib/a\")");
    assert_eq!(resolve_x("local a = require [[@x/a]]"), "local a = require(\"../lib/a\")");
    assert_eq!(
        resolve_x("local a = require  ( \"@x/a\" ) -- why"),
        "local a = require(\"../lib/a\") -- why"
    );
}

#[test]
fn only_the_spans_of_calls_change() {
    let source = "-- \u{e9}\u{1f600} @x\nlocal s = \"\u{4e16}\" local a = require(\"@x/\u{e9}\")\r\n\treturn a";
    let expected = "-- \u{e9}\u{1f600} @x\nlocal s = \"\u{4e16}\" local a = require(\"../lib/\u{e9}\")\r\n\treturn a";
    assert_eq!(resolve_x(source), expected);
}

#[test]
fn known_and_unknown_aliases_in_one_script() {
    let source = "require(\"@x/a\") require(\"@y/b\") require(\"@self\") require(\"@xx\") require(\"@x\")";
    let expected = "require(\"../lib/a\") require(\"@y/b\") require(\"@self\") require(\"@xx\") require(\"../lib\")";
    assert_eq!(resolve_x(source), expected);
}

#[test]
fn self_stays_even_as_an_alias() {
    let files = [("/p/.luaurc", r#"{"aliases": {"self": "lib", "x": "lib"}}"#)];
    let source = "require(\"@self/a\") require(\"@self\") require(\"@selfish\") require(\"@x\")";
    let result = resolve(source, "/p/src/a.luau", &files).unwrap();
    assert_eq!(result, source.replace("@x", "../lib"));
}

#[test]
fn alias_of_the_empty_name() {
    let files = [("/p/.luaurc", r#"{"aliases": {"": "lib"}}"#)];
    let result = resolve("require(\"@/a\") require(\"@\")", "/p/src/a.luau", &files).unwrap();
    assert_eq!(result, "require(\"../lib/a\") require(\"../lib\")");
}

#[test]
fn sub_paths_are_taken_as_they_are() {
    assert_eq!(resolve_x("require(\"@x/\")"), "require(\"../lib/\")");
    assert_eq!(resolve_x("require(\"@x//a/../b\")"), "require(\"../lib//a/../b\")");
}

#[test]
fn targets_of_all_kinds() {
    let files = [(
        "/p/.luaurc",
        r#"{"aliases": {"a": "./lib/", "b": "../q", "c": "/abs/m", "d": "src", "e": "src/..odd"}}"#,
    )];
    let at = |source: &str| resolve(source, "/p/src/a.luau", &files).unwrap();
    assert_eq!(at("require(\"@a/m\")"), "require(\"../lib/m\")");
    assert_eq!(at("require(\"@b/m\")"), "require(\"../../q/m\")");
    assert_eq!(at("require(\"@c\")"), "require(\"../../abs/m\")");
    assert_eq!(at("require(\"@d\")"), "require(\"./\")");
    assert_eq!(at("require(\"@d/m\")"), "require(\".//m\")");
    assert_eq!(at("require(\"@e\")"), "require(\"./..odd\")");
}

#[test]
fn source_that_mentions_no_alias_is_not_parsed() {
    let broken = "local = = require(\"@y\")";
    assert_eq!(resolve_x(broken), broken);
    let files = [("/p/.luaurc", r#"{"aliases": {}}"#)];
    let broken = "local = = require(\"@x\")";
    assert_eq!(resolve(broken, "/p/src/a.luau", &files).unwrap(), broken);
    assert_eq!(resolve(broken, "/p/src/a.luau", &[]).unwrap(), broken);
}

#[test]
fn source_that_mentions_an_alias_has_to_be_luau() {
    let files = [("/p/.luaurc", r#"{"aliases": {"x": "lib"}}"#)];
    let error = resolve("local = = require(\"@x\")", "/p/src/a.luau", &files).unwrap_err();
    assert!(matches!(error, ResolveError::LuauSyntax(_)));
    let message = error.message();
    assert!(message.starts_with("failed to parse Luau source: ["), "got: {message}");
    // Text that the lexer takes is judged by the parser.
    let errors = full_moon::parse("local = = require(\"@x\")").unwrap_err();
    assert_eq!(message, format!("failed to parse Luau source: {errors:?}"));
}

#[test]
fn source_that_the_lexer_refuses_is_an_error() {
    let files = [("/p/.luaurc", r#"{"aliases": {"x": "lib"}}"#)];
    let sources = [
        "-- @x\nlocal x: number $",
        "-- @x\nlocal x: a.$",
        "-- @x\nlocal x: { [string]: $ }",
        "-- @x\ntype T<A = $",
        "-- @x\n@$",
        "require(\"@x)",
        "require(\"@x\") --[[",
        "local n = 1..2 require(\"@x\")",
    ];
    for source in sources {
        let error = resolve(source, "/p/src/a.luau", &files).unwrap_err();
        let message = error.message();
        let start = "failed to parse Luau source: [TokenizerError(";
        assert!(message.starts_with(start), "{source}: {message}");
    }
    // Without a mention it is not even looked at.
    let source = "local x: number $";
    assert_eq!(resolve(source, "/p/src/a.luau", &files).unwrap(), source);
}

#[test]
fn source_without_any_token_is_an_error() {
    let files = [("/p/.luaurc", r#"{"aliases": {"x": "lib"}}"#)];
    for source in ["#!@x\n--[[", "#!@x\n \t-- c\n--[==[ open", "#!@x\n\n--[[ a ]] --[[ b"] {
        let error = resolve(source, "/p/src/a.luau", &files).unwrap_err();
        assert_eq!(error.message(), "failed to parse Luau source: no tokens", "{source}");
    }
    // Without a mention it is not even looked at.
    let source = "#!\n--[[";
    assert_eq!(resolve(source, "/p/src/a.luau", &files).unwrap(), source);
}

#[test]
fn shebang_lines_are_kept() {
    assert_eq!(resolve_x("#!@x\nrequire('@x/a')"), "#!@x\nrequire(\"../lib/a\")");
    assert_eq!(resolve_x("#!@x"), "#!@x");
    assert_eq!(resolve_x("#!@x\n--[[ c ]]"), "#!@x\n--[[ c ]]");
    // The lexer drops what is wrong right behind the line.
    assert_eq!(resolve_x("#!@x\n$ require('@x/a')"), "#!@x\n$ require(\"../lib/a\")");
    assert_eq!(resolve_x("#!@x\n$"), "#!@x\n$");
}

#[test]
fn spans_lie_apart_in_sloppy_source() {
    // The parser drops some tokens here without an error.
    let sources = [
        "return { f{ require(\"@x/a\"), y :: }",
        "local a = require(\"@x/a\" .. b ^ c :: )",
        "do if a then elseif require(\"@x/a\") then elseif require(\"@x/b\") then type X = end",
        "type X =\nreturn require(\"@x/a\")",
        "return require(\"@x/a\") ::",
    ];
    let mut aliases = AliasTable::new();
    aliases.insert("x".to_string(), "lib".to_string());
    let dir = LogicalPath::parse("/p");
    for source in sources {
        let found = find_require_replacements(source, &dir, &aliases, &dir).expect(source);
        for (i, r) in found.iter().enumerate() {
            let text = &source[r.start..r.end];
            assert!(text.starts_with("require") && text.ends_with(')'), "{source}: {text}");
            for other in &found[..i] {
                assert!(other.end <= r.start, "{source}");
            }
        }
        assert!(resolve(source, "/p/a.luau", &[("/p/.luaurc", r#"{"aliases": {"x": "lib"}}"#)]).is_ok());
    }
}

#[test]
fn mention_without_a_call_changes_nothing() {
    let source = "-- see @x\nreturn { \"@x/y\" }";
    assert_eq!(resolve_x(source), source);
}

#[test]
fn resolving_twice_is_resolving_once() {
    let once = resolve_x("local a = require(\"@x/a\") require(\"@x\") return \"@x\"");
    assert_eq!(once, "local a = require(\"../lib/a\") require(\"../lib\") return \"@x\"");
    assert_eq!(resolve_x(&once), once);
}

#[test]
fn moving_a_project_changes_nothing() {
    let source = "require(\"@x/a\")";
    for home in ["", "/", "/home/", "deep/er/"] {
        let luaurc = format!("{home}p/.luaurc");
        let script = format!("{home}p/src/deep/a.luau");
        let files = [(luaurc.as_str(), r#"{"aliases": {"x": "lib"}}"#)];
        let result = resolve(source, &script, &files).unwrap();
        assert_eq!(result, "require(\"../../lib/a\")");
    }
}

#[test]
fn nearest_luaurc_counts() {
    let files = [
        ("/p/.luaurc", r#"{"aliases": {"x": "far"}}"#),
        ("/p/src/.luaurc", r#"{"aliases": {"x": "near"}}"#),
    ];
    let at = |script: &str| resolve("require(\"@x\")", script, &files).unwrap();
    assert_eq!(at("/p/src/a.luau"), "require(\"./near\")");
    assert_eq!(at("/p/src/deep/a.luau"), "require(\"../near\")");
    assert_eq!(at("/p/a.luau"), "require(\"./far\")");
    assert_eq!(at("/a.luau"), "require(\"@x\")");
}

#[test]
fn empty_nearest_luaurc_hides_those_above() {
    let files = [
        ("/p/.luaurc", r#"{"aliases": {"x": "far"}}"#),
        ("/p/src/.luaurc", r#"{}"#),
    ];
    let source = "require(\"@x\")";
    assert_eq!(resolve(source, "/p/src/a.luau", &files).unwrap(), source);
}

#[test]
fn malformed_luaurc_is_an_error() {
    let files = [("/p/.luaurc", "not json")];
    let error = resolve("return 1", "/p/src/a.luau", &files).unwrap_err();
    assert_eq!(error.message(), "failed to parse /p/.luaurc");
}

#[test]
fn script_without_a_directory_is_an_error() {
    for script in ["/", ""] {
        let error = resolve("return 1", script, &[]).unwrap_err();
        assert_eq!(error.message(), "script file has no parent directory");
        let path = LogicalPath::parse(script);
        let info = ResolveInfo { file_path: &path, luaurc: None };
        let error = resolve_requires("return 1", &info).unwrap_err();
        assert!(matches!(error, ResolveError::NoParentDirectory));
    }
}

#[test]
fn call_in_a_function_body() {
    let mut aliases = AliasTable::new();
    aliases.insert("p".to_string(), "P".to_string());
    let source = "local function f() return require(\"@p/a\") end";
    let script_dir = LogicalPath::parse("/r/s");
    let luaurc_dir = LogicalPath::parse("/r");
    let found = find_require_replacements(source, &script_dir, &aliases, &luaurc_dir).unwrap();
    assert_eq!(found.len(), 1);
    assert_eq!((found[0].start, found[0].end), (26, 41));
    assert_eq!(found[0].new_text, r#"require("../P/a")"#);
}

#[test]
fn target_without_a_way_stands_for_itself() {
    // Out of a `..` there is no way.
    let files = [(".luaurc", r#"{"aliases": {"x": "lib"}}"#)];
    let result = resolve("require(\"@x/a\")", "../src/a.luau", &files).unwrap();
    assert_eq!(result, "require(\"lib/a\")");
}

#[test]
fn replacements_of_a_source() {
    let mut aliases = AliasTable::new();
    aliases.insert("x".to_string(), "lib".to_string());
    let script_dir = LogicalPath::parse("/p/src");
    let luaurc_dir = LogicalPath::parse("/p");
    let source = "local a = require(\"@x/a\")\nreturn require '@x', require(\"@z\")";
    let found = find_require_replacements(source, &script_dir, &aliases, &luaurc_dir).unwrap();
    assert_eq!(found.len(), 2);
    assert_eq!(&source[found[0].start..found[0].end], "require(\"@x/a\")");
    assert_eq!(found[0].new_text, "require(\"../lib/a\")");
    assert_eq!(&source[found[1].start..found[1].end], "require '@x'");
    assert_eq!(found[1].new_text, "require(\"../lib\")");
    let error = find_require_replacements("local =", &script_dir, &aliases, &luaurc_dir);
    assert!(matches!(error, Err(ResolveError::LuauSyntax(_))));
}
