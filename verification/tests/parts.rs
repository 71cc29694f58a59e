//! The parts of the library on their own: paths, aliases, searches, spans and
//! syntax trees.
use luaurc::aliases::AliasTable;
use luaurc::error::ResolveError;
use luaurc::path::diff_paths;
use luaurc::path::LogicalPath;
use luaurc::path::Part;
use luaurc::reader::parse_luau;
use luaurc::replace::apply_replacements;
use luaurc::replace::sort_in_order;
use luaurc::replace::sort_last_first;
use luaurc::replace::Replacement;
use luaurc::resolve::compute_relative_require;
use luaurc::resolve::replacements_in;
use luaurc::resolve::resolve_alias_require;
use luaurc::resolve::unknown_aliases;
use luaurc::search::LuaurcSearch;
use luaurc::search::ReadOutcome;
use luaurc::search::SearchStep;
use luaurc::syntax::LuauArgs;
use luaurc::syntax::LuauBlock;
use luaurc::syntax::LuauCall;
use luaurc::syntax::LuauElseIf;
use luaurc::syntax::LuauExpr;
use luaurc::syntax::LuauHead;
use luaurc::syntax::LuauStmt;
use luaurc::syntax::LuauSuffix;
use luaurc::syntax::LuauToken;
use luaurc::visit::call_byte_end;
use luaurc::visit::call_byte_start;
use luaurc::visit::check_function_call;
use luaurc::visit::extract_string_from_expr;
use luaurc::visit::extract_string_from_token;
use luaurc::visit::func_args_byte_end;
use luaurc::visit::suffix_byte_end;
use luaurc::visit::token_end;
use luaurc::visit::visit_block;
use luaurc::visit::visit_expr;
use luaurc::visit::visit_stmt;

fn path(text: &str) -> LogicalPath {
    LogicalPath::parse(text)
}

fn texts(path: &LogicalPath) -> Vec<&str> {
    path.parts.iter().map(|part| part.text()).collect()
}

fn std_texts(path: &std::path::Path) -> Vec<&str> {
    path.components().map(|part| part.as_os_str().to_str().unwrap()).collect()
}

const PATHS: [&str; 22] = [
    "", "/", "//", ".", "..", "./", "../", "a", "/a", "a/", "a//b", "./a", "a/.", "a/./b",
    "a/../b", "../a", "/..", "/./a", "./.", "..a/b", "a/...", ".luaurc",
];

#[test]
fn paths_are_taken_apart_as_std_does() {
    for text in PATHS {
        assert_eq!(texts(&path(text)), std_texts(std::path::Path::new(text)), "{text}");
    }
}

#[test]
fn parents_are_those_of_std() {
    for text in PATHS {
        let parent = path(text).parent();
        let expected = std::path::Path::new(text).parent();
        assert_eq!(parent.is_some(), expected.is_some(), "{text}");
        if let (Some(parent), Some(expected)) = (parent, expected) {
            assert_eq!(texts(&parent), std_texts(expected), "{text}");
        }
    }
}

#[test]
fn joined_paths_are_those_of_std() {
    for a in PATHS {
        for b in PATHS {
            let joined = path(a).join(&path(b));
            let expected = std::path::Path::new(a).join(b);
            assert_eq!(texts(&joined), std_texts(&expected), "{a} and {b}");
        }
    }
}

#[test]
fn display_texts_read_back() {
    for text in PATHS {
        let taken = path(text);
        assert_eq!(texts(&path(&taken.display())), texts(&taken), "{text}");
    }
    assert_eq!(path("/a//b/").display(), "/a/b");
    assert_eq!(path("/").display(), "/");
    assert_eq!(path("/a").slashed(), "//a");
}

#[test]
fn pushing_components() {
    let mut taken = path("a");
    taken.push(Part::CurDir);
    taken.push(Part::ParentDir);
    taken.push(Part::Normal("b".to_string()));
    assert_eq!(taken.display(), "a/../b");
    assert_eq!(taken.copy().display(), "a/../b");
    taken.push(Part::RootDir);
    assert_eq!(taken.display(), "/");
}

#[test]
fn relative_paths_are_those_of_pathdiff() {
    let more = ["a/b", "./b", "/a/b", "/a/c", "../a/b", "../..", "./b/c", "b/./..", "/a/../b", "a/b/c/.."];
    for target in PATHS.iter().chain(&more) {
        for base in PATHS.iter().chain(&more) {
            let found = diff_paths(&path(target), &path(base));
            let expected = pathdiff::diff_paths(target, base);
            assert_eq!(found.is_some(), expected.is_some(), "{target} from {base}");
            if let (Some(found), Some(expected)) = (found, expected) {
                assert_eq!(texts(&found), std_texts(&expected), "{target} from {base}");
            }
        }
    }
}

#[test]
fn paths_that_are_not_there() {
    assert!(diff_paths(&path("foo"), &path("/bar")).is_none());
    assert!(diff_paths(&path("foo"), &path("../bar")).is_none());
    assert!(diff_paths(&path(""), &path("/")).is_none());
    let text = compute_relative_require(&path("/bar"), &path("foo/x"), Some("m"));
    assert_eq!(text, "foo/x/m");
    assert_eq!(compute_relative_require(&path("/bar"), &path("foo"), None), "foo");
}

#[test]
fn relative_paths() {
    let way = |target: &str, base: &str| diff_paths(&path(target), &path(base)).unwrap().slashed();
    assert_eq!(way("/a/b", "/a/b"), "");
    assert_eq!(way("/a/b/c", "/a/b"), "c");
    assert_eq!(way("/a", "/a/b/c"), "../..");
    assert_eq!(way("/a/x", "/a/b/c"), "../../x");
    assert_eq!(way("x/y", "a"), "../x/y");
    assert_eq!(way("./x", "a"), "../x");
    assert_eq!(way("./x", ""), "./x");
    assert_eq!(way("foo", "."), "foo");
    // A path with a root is its own path from one without.
    assert_eq!(way("/x", "a"), "//x");
}

#[test]
fn relative_paths_lead_to_the_target() {
    for target in ["/a/b/c", "/a", "/x/y", "/", "/a/b/c/d/e"] {
        let base = path("/a/b/c");
        let way = diff_paths(&path(target), &base).unwrap();
        let mut place: Vec<String> = Vec::new();
        for part in base.join(&way).parts {
            match part {
                Part::ParentDir => assert!(place.pop().is_some()),
                Part::Normal(name) => place.push(name),
                Part::RootDir => place.clear(),
                Part::CurDir => panic!("{target}"),
            }
        }
        assert_eq!(format!("/{}", place.join("/")), target);
    }
}

#[test]
fn relative_requires_start_with_dots() {
    let to = |target: &str| compute_relative_require(&path("/p/src"), &path(target), None);
    assert_eq!(to("/p/src/lib"), "./lib");
    assert_eq!(to("/p/src/.hidden"), "./.hidden");
    assert_eq!(to("/p/src"), "./");
    assert_eq!(to("/p"), "..");
    assert_eq!(to("/p/lib"), "../lib");
    assert_eq!(to("/p/src/..lib"), "./..lib");
    assert_eq!(to("/p/src/...lib/a"), "./...lib/a");
    let from_project = compute_relative_require(&path("/project"), &path("/project/..cfg"), None);
    assert_eq!(from_project, "./..cfg");
    let sub = compute_relative_require(&path("/p/src"), &path("/p/src/lib"), Some("a/b"));
    assert_eq!(sub, "./lib/a/b");
}

#[test]
fn absolute_target_of_a_script_without_a_root() {
    let text = compute_relative_require(&path("src"), &path("/lib"), Some("m"));
    assert_eq!(text, ".///lib/m");
}

#[test]
fn alias_table() {
    let mut table = AliasTable::new();
    assert!(table.is_empty());
    assert!(!table.any_mentioned_in("@a @"));
    table.insert("a".to_string(), "one".to_string());
    table.insert("b".to_string(), "two".to_string());
    table.insert("a".to_string(), "three".to_string());
    assert!(!table.is_empty());
    assert_eq!(table.get("a"), Some("three"));
    assert_eq!(table.get("b"), Some("two"));
    assert_eq!(table.get("A"), None);
    assert_eq!(table.get(""), None);
    assert!(table.any_mentioned_in("x @b"));
    assert!(table.any_mentioned_in("@apple"));
    assert!(!table.any_mentioned_in("a b @ a"));
    assert!(!table.any_mentioned_in(""));
}

#[test]
fn alias_requires_on_their_own() {
    let mut table = AliasTable::new();
    table.insert("x".to_string(), "lib".to_string());
    let script_dir = path("/p/src");
    let luaurc_dir = path("/p");
    let at = |text: &str| resolve_alias_require(text, &script_dir, &table, &luaurc_dir, 3, 7);
    let replacement = at("@x/a").unwrap();
    assert_eq!((replacement.start, replacement.end), (3, 7));
    assert_eq!(replacement.new_text, "require(\"../lib/a\")");
    assert_eq!(at("@x").unwrap().new_text, "require(\"../lib\")");
    assert!(at("@self").is_none());
    assert!(at("@self/x").is_none());
    assert!(at("@unknown/x").is_none());
    assert!(at("@").is_none());
}

#[test]
fn search_goes_up_and_ends() {
    let mut search = LuaurcSearch::for_script(&path("/a/b/c.luau")).unwrap();
    let mut tried = Vec::new();
    loop {
        tried.push(search.candidate().display());
        match search.step(ReadOutcome::NotFound) {
            SearchStep::Continue(next) => {
                assert!(next.current.parts.len() + 1 == 4 - tried.len());
                search = next;
            }
            SearchStep::Exhausted => break,
            other => panic!("{other:?}"),
        }
    }
    assert_eq!(tried, ["/a/b/.luaurc", "/a/.luaurc", "/.luaurc"]);
    let search = LuaurcSearch::for_script(&path("c.luau")).unwrap();
    assert_eq!(search.candidate().display(), ".luaurc");
    assert!(matches!(search.step(ReadOutcome::NotFound), SearchStep::Exhausted));
}

#[test]
fn search_ends_at_the_first_file_that_is_there() {
    let start = || LuaurcSearch::for_script(&path("/a/b/c.luau")).unwrap();
    let up = || match start().step(ReadOutcome::NotFound) {
        SearchStep::Continue(next) => next,
        other => panic!("{other:?}"),
    };
    let mut table = AliasTable::new();
    table.insert("x".to_string(), "lib".to_string());
    match up().step(ReadOutcome::Parsed(table)) {
        SearchStep::Found(luaurc) => {
            assert_eq!(luaurc.dir.display(), "/a");
            assert_eq!(luaurc.aliases.get("x"), Some("lib"));
        }
        other => panic!("{other:?}"),
    }
    match up().step(ReadOutcome::Unreadable) {
        SearchStep::Failed(error) => {
            assert!(matches!(error, ResolveError::LuaurcUnreadable(_)));
            assert_eq!(error.message(), "failed to read /a/.luaurc");
        }
        other => panic!("{other:?}"),
    }
    match start().step(ReadOutcome::Malformed) {
        SearchStep::Failed(error) => {
            assert!(matches!(error, ResolveError::LuaurcMalformed(_)));
            assert_eq!(error.message(), "failed to parse /a/b/.luaurc");
        }
        other => panic!("{other:?}"),
    }
    assert!(matches!(
        LuaurcSearch::for_script(&path("/")),
        Err(ResolveError::NoParentDirectory)
    ));
}

fn span(start: usize, end: usize, new_text: &str) -> Replacement {
    Replacement { start, end, new_text: new_text.to_string() }
}

#[test]
fn spans_are_replaced_in_any_order() {
    let source = "aa-bb-cc";
    let expected = "1-22222-";
    let spans = [(0, 2, "1"), (3, 5, "22222"), (6, 8, "")];
    for order in [[0, 1, 2], [0, 2, 1], [1, 0, 2], [1, 2, 0], [2, 0, 1], [2, 1, 0]] {
        let list = order.iter().map(|&i| span(spans[i].0, spans[i].1, spans[i].2)).collect();
        assert_eq!(apply_replacements(source, list).unwrap(), expected);
    }
    assert_eq!(apply_replacements(source, Vec::new()).unwrap(), source);
}

#[test]
fn sorting_keeps_equal_starts_in_order() {
    let sorted = sort_last_first(vec![
        span(1, 1, "a"),
        span(5, 6, "b"),
        span(1, 2, "c"),
        span(3, 3, "d"),
        span(5, 5, "e"),
    ]);
    let names: Vec<&str> = sorted.iter().map(|r| r.new_text.as_str()).collect();
    assert_eq!(names, ["b", "e", "d", "a", "c"]);
}

#[test]
fn sorting_in_order_turns_it_round() {
    let sorted = sort_in_order(vec![span(6, 8, "c"), span(0, 2, "a"), span(3, 5, "b")]);
    let names: Vec<&str> = sorted.iter().map(|r| r.new_text.as_str()).collect();
    assert_eq!(names, ["a", "b", "c"]);
    assert!(sort_in_order(Vec::new()).is_empty());
}

#[test]
fn misplaced_spans_are_refused() {
    assert!(apply_replacements("abc", vec![span(2, 1, "")]).is_none());
    assert!(apply_replacements("abc", vec![span(0, 4, "")]).is_none());
    assert!(apply_replacements("a\u{e9}c", vec![span(2, 3, "")]).is_none());
    assert!(apply_replacements("a\u{e9}c", vec![span(1, 2, "")]).is_none());
    assert_eq!(apply_replacements("a\u{e9}c", vec![span(1, 3, "x")]).unwrap(), "axc");
    assert_eq!(apply_replacements("abc", vec![span(3, 3, "d")]).unwrap(), "abcd");
}

fn token(text: &str, start: usize, end: usize) -> LuauToken {
    LuauToken { text: text.to_string(), literal: None, start, end }
}

fn literal(content: &str, start: usize, end: usize) -> LuauToken {
    LuauToken {
        text: format!("\"{content}\""),
        literal: Some(content.to_string()),
        start,
        end,
    }
}

/// An expression that holds none.
fn nothing() -> LuauExpr {
    LuauExpr::Compound(Vec::new())
}

/// `require("content")`, starting at byte `start`.
fn require_call(content: &str, start: usize) -> LuauCall {
    let end = start + 10 + content.len();
    LuauCall {
        head: LuauHead::Name(token("require", start, start + 7)),
        suffixes: vec![LuauSuffix::AnonymousCall(LuauArgs::Parentheses {
            arguments: vec![LuauExpr::String(literal(content, start + 8, end))],
            close: token(")", end, end + 1),
        })],
    }
}

#[test]
fn offsets_of_calls() {
    let call = require_call("@x", 4);
    assert_eq!(call_byte_start(&call), 4);
    assert_eq!(call_byte_end(&call), 17);
    let bare = LuauCall { head: LuauHead::Other, suffixes: Vec::new() };
    assert_eq!(call_byte_start(&bare), 0);
    assert_eq!(call_byte_end(&bare), 0);
    assert_eq!(token_end(&token("a", 1, 2)), 2);
    assert_eq!(func_args_byte_end(&LuauArgs::String(literal("a", 1, 4))), 4);
    let table = LuauArgs::TableConstructor { fields: Vec::new(), close: token("}", 5, 6) };
    assert_eq!(func_args_byte_end(&table), 6);
    assert_eq!(func_args_byte_end(&LuauArgs::Other), 0);
    let args = LuauArgs::String(literal("a", 1, 4));
    assert_eq!(suffix_byte_end(&LuauSuffix::MethodCall(args)), 4);
    let brackets = LuauSuffix::Brackets { index: nothing(), close: token("]", 7, 8) };
    assert_eq!(suffix_byte_end(&brackets), 8);
    assert_eq!(suffix_byte_end(&LuauSuffix::Dot { name: token("n", 8, 9) }), 9);
    assert_eq!(suffix_byte_end(&LuauSuffix::Other), 0);
}

#[test]
fn strings_of_tokens_and_expressions() {
    assert_eq!(extract_string_from_token(&literal("a", 0, 3)), Some("a".to_string()));
    assert_eq!(extract_string_from_token(&token("a", 0, 1)), None);
    let expr = LuauExpr::String(literal("a", 0, 3));
    assert_eq!(extract_string_from_expr(&expr), Some("a".to_string()));
    assert_eq!(extract_string_from_expr(&LuauExpr::Parentheses(Box::new(expr))), None);
    assert_eq!(extract_string_from_expr(&nothing()), None);
}

#[test]
fn calls_that_count() {
    let count = |call: LuauCall| {
        let mut sites = Vec::new();
        check_function_call(&call, &mut sites);
        sites.len()
    };
    assert_eq!(count(require_call("@x", 0)), 1);
    assert_eq!(count(require_call("x", 0)), 0);
    assert_eq!(count(require_call("", 0)), 0);
    let mut named = require_call("@x", 0);
    named.head = LuauHead::Name(token("print", 0, 5));
    assert_eq!(count(named), 0);
    let mut headless = require_call("@x", 0);
    headless.head = LuauHead::Expression(Box::new(nothing()));
    assert_eq!(count(headless), 0);
    let mut indexed = require_call("@x", 0);
    indexed.suffixes.push(LuauSuffix::Dot { name: token("n", 14, 15) });
    assert_eq!(count(indexed), 0);
    let mut method = require_call("@x", 0);
    method.suffixes = vec![LuauSuffix::MethodCall(LuauArgs::String(literal("@x", 8, 12)))];
    assert_eq!(count(method), 0);
    let mut plain = require_call("@x", 0);
    plain.suffixes = vec![LuauSuffix::AnonymousCall(LuauArgs::String(literal("@x", 8, 12)))];
    assert_eq!(count(plain), 1);
    let mut twice = require_call("@x", 0);
    twice.suffixes = vec![LuauSuffix::AnonymousCall(LuauArgs::Parentheses {
        arguments: vec![
            LuauExpr::String(literal("@x", 8, 12)),
            LuauExpr::String(literal("@x", 14, 18)),
        ],
        close: token(")", 18, 19),
    })];
    assert_eq!(count(twice), 0);
}

#[test]
fn sites_come_in_the_order_of_the_source() {
    let block = LuauBlock {
        stmts: vec![
            LuauStmt::FunctionCall(require_call("@a", 0)),
            LuauStmt::If {
                condition: nothing(),
                block: LuauBlock {
                    stmts: vec![LuauStmt::FunctionCall(require_call("@b", 20))],
                    return_values: None,
                },
                else_ifs: vec![LuauElseIf {
                    condition: nothing(),
                    block: LuauBlock {
                        stmts: Vec::new(),
                        return_values: Some(vec![LuauExpr::FunctionCall(require_call("@c", 40))]),
                    },
                }],
                else_block: Some(LuauBlock {
                    stmts: vec![LuauStmt::Other, LuauStmt::Do(LuauBlock {
                        stmts: vec![LuauStmt::LocalAssignment(vec![
                            nothing(),
                            LuauExpr::FunctionCall(require_call("@d", 60)),
                        ])],
                        return_values: None,
                    })],
                    return_values: None,
                }),
            },
        ],
        return_values: Some(vec![LuauExpr::Parentheses(Box::new(LuauExpr::FunctionCall(
            require_call("@e", 80),
        )))]),
    };
    let mut sites = Vec::new();
    visit_block(&block, &mut sites);
    let found: Vec<(&str, usize, usize)> =
        sites.iter().map(|site| (site.content.as_str(), site.start, site.end)).collect();
    let expected = [("@a", 0, 13), ("@b", 20, 33), ("@c", 40, 53), ("@d", 60, 73), ("@e", 80, 93)];
    assert_eq!(found, expected);
    let condition = LuauExpr::FunctionCall(require_call("@f", 100));
    visit_stmt(&LuauStmt::While { condition, block }, &mut sites);
    assert_eq!(sites.len(), 11);
    assert_eq!(sites[5].content, "@f");
    sites.pop();
    visit_expr(&LuauExpr::String(literal("@x", 0, 4)), &mut sites);
    assert_eq!(sites.len(), 10);
}

#[test]
fn aliases_that_are_not_known() {
    let mut table = AliasTable::new();
    table.insert("a".to_string(), "lib".to_string());
    let source = "require('@b/m') require('@a/m') require('@self') require('@c') require('@b')";
    let block = parse_luau(source).unwrap();
    assert_eq!(unknown_aliases(&block, &table), ["b", "c", "b"]);
    assert!(unknown_aliases(&parse_luau("require('@a')").unwrap(), &table).is_empty());
}

#[test]
fn replacements_of_a_tree() {
    let mut table = AliasTable::new();
    table.insert("a".to_string(), "lib".to_string());
    let block = LuauBlock {
        stmts: vec![
            LuauStmt::FunctionCall(require_call("@a/m", 0)),
            LuauStmt::FunctionCall(require_call("@b/m", 20)),
            LuauStmt::FunctionCall(require_call("@self/m", 40)),
            LuauStmt::FunctionCall(require_call("@a", 60)),
        ],
        return_values: None,
    };
    let found = replacements_in(&block, &path("/p/src"), &table, &path("/p"));
    let views: Vec<(usize, usize, &str)> =
        found.iter().map(|r| (r.start, r.end, r.new_text.as_str())).collect();
    let expected = [(0, 15, "require(\"../lib/m\")"), (60, 73, "require(\"../lib\")")];
    assert_eq!(views, expected);
}

#[test]
fn spans_of_calls_in_a_source() {
    let texts = [
        "f()",
        "f  ( a, g ( b ) )",
        "f 'x'",
        "f[==[\u{4e16}]==]",
        "f:m ( \"\u{e9}\" )",
        "f:m'x'",
        "f(function() return { 1 } end)",
    ];
    for text in texts {
        let source = format!("-- \u{e9}\n  {text}  -- after\n");
        let block = parse_luau(&source).unwrap();
        let LuauStmt::FunctionCall(call) = &block.stmts[0] else { panic!("{block:?}") };
        assert_eq!(&source[call_byte_start(call)..call_byte_end(call)], text);
    }
}

#[test]
fn trees_of_sources() {
    let block = parse_luau("local a, b = f{1}, (g[1]:h'x')\nreturn").unwrap();
    assert_eq!(block.stmts.len(), 1);
    assert!(matches!(&block.return_values, Some(values) if values.is_empty()));
    let LuauStmt::LocalAssignment(values) = &block.stmts[0] else { panic!("{block:?}") };
    assert_eq!(values.len(), 2);
    let LuauExpr::FunctionCall(call) = &values[0] else { panic!("{block:?}") };
    let LuauHead::Name(name) = &call.head else { panic!("{block:?}") };
    assert_eq!((name.text.as_str(), name.start, name.end), ("f", 13, 14));
    let LuauSuffix::AnonymousCall(LuauArgs::TableConstructor { fields, close }) = &call.suffixes[0] else {
        panic!("{block:?}")
    };
    assert_eq!((close.text.as_str(), close.start, close.end), ("}", 16, 17));
    assert_eq!(fields.len(), 1);
    let LuauExpr::Parentheses(inner) = &values[1] else { panic!("{block:?}") };
    let LuauExpr::FunctionCall(call) = &**inner else { panic!("{block:?}") };
    assert_eq!(call.suffixes.len(), 2);
    let LuauSuffix::Brackets { close, .. } = &call.suffixes[0] else { panic!("{block:?}") };
    assert_eq!((close.text.as_str(), close.start, close.end), ("]", 23, 24));
    let LuauSuffix::MethodCall(LuauArgs::String(text)) = &call.suffixes[1] else {
        panic!("{block:?}")
    };
    assert_eq!(text.literal.as_deref(), Some("x"));
    assert_eq!((text.text.as_str(), text.start, text.end), ("'x'", 26, 29));
    let block = parse_luau("(f)(a.b) while x do break end").unwrap();
    let LuauStmt::FunctionCall(call) = &block.stmts[0] else { panic!("{block:?}") };
    assert!(matches!(call.head, LuauHead::Expression(_)));
    assert_eq!(call_byte_start(call), 0);
    assert_eq!(call_byte_end(call), 8);
    let LuauStmt::While { block: inner, .. } = &block.stmts[1] else { panic!("{block:?}") };
    assert!(inner.stmts.is_empty() && inner.return_values.is_none());
    assert!(parse_luau("f(").is_err());
    assert!(parse_luau("f($").is_err());
    let block = parse_luau("a, b.c = 1, {} local function f() end").unwrap();
    let LuauStmt::Assignment { targets, values } = &block.stmts[0] else { panic!("{block:?}") };
    assert_eq!((targets.len(), values.len()), (2, 2));
    assert!(matches!(targets[1], LuauExpr::Index(_)));
    assert!(matches!(block.stmts[1], LuauStmt::Function(_)));
}
