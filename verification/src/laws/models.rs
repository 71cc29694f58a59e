//! Laws of the models: what the mathematical values say of the ones that code
//! builds, part by part, and that nothing gets lost on the way.
use vstd::prelude::*;
use crate::aliases::AliasTable;
use crate::error::error_message;
use crate::error::ErrorView;
use crate::error::ResolveError;
use crate::path::display_text;
use crate::path::part_views;
use crate::path::LogicalPath;
use crate::path::Part;
use crate::path::PartView;
use crate::reader::luau_syntax;
use crate::reader::luau_tokens;
use crate::reader::luau_tree;
use crate::replace::replacement_views;
use crate::replace::Replacement;
use crate::resolve::text_views;
use crate::resolve::ResolveInfo;
use crate::search::Luaurc;
use crate::search::LuaurcSearch;
use crate::search::OutcomeView;
use crate::search::ReadOutcome;
use crate::search::SearchStep;
use crate::search::StepView;
use crate::syntax::else_if_trees;
use crate::syntax::expr_trees;
use crate::syntax::stmt_trees;
use crate::syntax::suffix_trees;
use crate::syntax::ArgsTree;
use crate::syntax::BlockTree;
use crate::syntax::ExprTree;
use crate::syntax::HeadTree;
use crate::syntax::LuauArgs;
use crate::syntax::LuauBlock;
use crate::syntax::LuauCall;
use crate::syntax::LuauElseIf;
use crate::syntax::LuauExpr;
use crate::syntax::LuauHead;
use crate::syntax::LuauStmt;
use crate::syntax::LuauSuffix;
use crate::syntax::LuauToken;
use crate::syntax::StmtTree;
use crate::syntax::SuffixTree;
use crate::visit::site_views;
use crate::visit::RequireSite;

verus! {

/// The components of a path are those of its model, one for one and in order,
/// and a name is its text.
pub proof fn paths_are_their_components(path: LogicalPath, i: int, name: String)
    requires
        0 <= i < path.parts@.len(),
    ensures
        path@.len() == path.parts@.len(),
        path@[i] == path.parts@[i]@,
        part_views(path.parts@) == path@,
        Part::Normal(name)@ == PartView::Normal(name@),
        Part::RootDir@ == PartView::RootDir,
        Part::CurDir@ == PartView::CurDir,
        Part::ParentDir@ == PartView::ParentDir,
{
}

/// A list of sites, of replacements or of texts has as many models as it has
/// elements, and in the same order; and the model of each has what it has.
pub proof fn lists_are_their_elements(
    sites: Seq<RequireSite>,
    replacements: Seq<Replacement>,
    texts: Seq<String>,
    i: int,
)
    ensures
        site_views(sites).len() == sites.len(),
        0 <= i < sites.len() ==> {
            &&& site_views(sites)[i].content == sites[i].content@
            &&& site_views(sites)[i].start == sites[i].start
            &&& site_views(sites)[i].end == sites[i].end
        },
        replacement_views(replacements).len() == replacements.len(),
        0 <= i < replacements.len() ==> {
            &&& replacement_views(replacements)[i].new_text == replacements[i].new_text@
            &&& replacement_views(replacements)[i].start == replacements[i].start
            &&& replacement_views(replacements)[i].end == replacements[i].end
        },
        text_views(texts).len() == texts.len(),
        0 <= i < texts.len() ==> text_views(texts)[i] == texts[i]@,
{
}

/// What a `.luaurc` gives, what came of reading one, how a search goes on and
/// what went wrong are told apart by their models, which have what they have.
pub proof fn searches_are_what_they_hold(
    aliases: AliasTable,
    luaurc: Luaurc,
    search: LuaurcSearch,
    error: ResolveError,
    path: LogicalPath,
    text: String,
)
    ensures
        luaurc@.aliases == luaurc.aliases@,
        luaurc@.dir == luaurc.dir@,
        ReadOutcome::Parsed(aliases)@ == OutcomeView::Parsed(aliases@),
        ReadOutcome::NotFound@ == OutcomeView::NotFound,
        ReadOutcome::Unreadable@ == OutcomeView::Unreadable,
        ReadOutcome::Malformed@ == OutcomeView::Malformed,
        SearchStep::Found(luaurc)@ == StepView::Found(luaurc@),
        SearchStep::Continue(search)@ == StepView::Continue(search.current@),
        SearchStep::Exhausted@ == StepView::Exhausted,
        SearchStep::Failed(error)@ == StepView::Failed(error@),
        ResolveError::NoParentDirectory@ == ErrorView::NoParentDirectory,
        ResolveError::LuaurcUnreadable(path)@ == ErrorView::LuaurcUnreadable(path@),
        ResolveError::LuaurcMalformed(path)@ == ErrorView::LuaurcMalformed(path@),
        ResolveError::LuauSyntax(text)@ == ErrorView::LuauSyntax(text@),
{
}

/// The `.luaurc` of a script that is to be resolved is the one that was given.
pub proof fn the_luaurc_is_the_one_given(info: ResolveInfo)
    ensures
        info.luaurc_view() is Some <==> info.luaurc is Some,
        info.luaurc matches Some(luaurc) ==> info.luaurc_view() == Some(luaurc@),
{
}

/// A list in a syntax tree has as many trees as it has elements, and in the
/// same order.
pub proof fn lists_of_syntax_are_their_elements(
    exprs: Seq<LuauExpr>,
    stmts: Seq<LuauStmt>,
    suffixes: Seq<LuauSuffix>,
    else_ifs: Seq<LuauElseIf>,
    i: int,
)
    ensures
        expr_trees(exprs).len() == exprs.len(),
        0 <= i < exprs.len() ==> expr_trees(exprs)[i] == exprs[i].tree(),
        stmt_trees(stmts).len() == stmts.len(),
        0 <= i < stmts.len() ==> stmt_trees(stmts)[i] == stmts[i].tree(),
        suffix_trees(suffixes).len() == suffixes.len(),
        0 <= i < suffixes.len() ==> suffix_trees(suffixes)[i] == suffixes[i].tree(),
        else_if_trees(else_ifs).len() == else_ifs.len(),
        0 <= i < else_ifs.len() ==> else_if_trees(else_ifs)[i] == else_ifs[i].tree(),
{
}

/// The tree of a token, of arguments, of a suffix, of a head and of a call has
/// every part of it.
pub proof fn calls_are_their_parts(
    token: LuauToken,
    args: LuauArgs,
    suffix: LuauSuffix,
    head: LuauHead,
    call: LuauCall,
)
    ensures
        token@.text == token.text@,
        token@.literal is Some <==> token.literal is Some,
        token.literal matches Some(literal) ==> token@.literal == Some(literal@),
        token@.start == token.start,
        token@.end == token.end,
        (match args {
            LuauArgs::Parentheses { arguments, close } => args.tree() == (ArgsTree::Parentheses {
                arguments: expr_trees(arguments@),
                close: close@,
            }),
            LuauArgs::String(token) => args.tree() == ArgsTree::String(token@),
            LuauArgs::TableConstructor { fields, close } => args.tree() == (
            ArgsTree::TableConstructor { fields: expr_trees(fields@), close: close@ }),
            LuauArgs::Other => args.tree() == ArgsTree::Other,
        }),
        (match suffix {
            LuauSuffix::AnonymousCall(args) => suffix.tree() == SuffixTree::AnonymousCall(
                args.tree(),
            ),
            LuauSuffix::MethodCall(args) => suffix.tree() == SuffixTree::MethodCall(args.tree()),
            LuauSuffix::Brackets { index, close } => suffix.tree() == (SuffixTree::Brackets {
                index: index.tree(),
                close: close@,
            }),
            LuauSuffix::Dot { name } => suffix.tree() == (SuffixTree::Dot { name: name@ }),
            LuauSuffix::Other => suffix.tree() == SuffixTree::Other,
        }),
        (match head {
            LuauHead::Name(token) => head.tree() == HeadTree::Name(token@),
            LuauHead::Expression(inner) => head.tree() == HeadTree::Expression(
                Box::new(inner.tree()),
            ),
            LuauHead::Other => head.tree() == HeadTree::Other,
        }),
        call.tree().head == call.head.tree(),
        call.tree().suffixes == suffix_trees(call.suffixes@),
{
}

/// The tree of an expression, of a statement and of a block has every part of
/// it.
pub proof fn statements_are_their_parts(
    expr: LuauExpr,
    else_if: LuauElseIf,
    stmt: LuauStmt,
    block: LuauBlock,
)
    ensures
        (match expr {
            LuauExpr::FunctionCall(call) => expr.tree() == ExprTree::FunctionCall(call.tree()),
            LuauExpr::Index(call) => expr.tree() == ExprTree::Index(call.tree()),
            LuauExpr::Parentheses(inner) => expr.tree() == ExprTree::Parentheses(
                Box::new(inner.tree()),
            ),
            LuauExpr::String(token) => expr.tree() == ExprTree::String(token@),
            LuauExpr::Function(block) => expr.tree() == ExprTree::Function(block.tree()),
            LuauExpr::Compound(parts) => expr.tree() == ExprTree::Compound(expr_trees(parts@)),
        }),
        else_if.tree().condition == else_if.condition.tree(),
        else_if.tree().block == else_if.block.tree(),
        (match stmt {
            LuauStmt::FunctionCall(call) => stmt.tree() == StmtTree::FunctionCall(call.tree()),
            LuauStmt::LocalAssignment(values) => stmt.tree() == StmtTree::LocalAssignment(
                expr_trees(values@),
            ),
            LuauStmt::Assignment { targets, values } => stmt.tree() == (StmtTree::Assignment {
                targets: expr_trees(targets@),
                values: expr_trees(values@),
            }),
            LuauStmt::Do(block) => stmt.tree() == StmtTree::Do(block.tree()),
            LuauStmt::If { condition, block, else_ifs, else_block } => {
                &&& stmt.tree() matches StmtTree::If {
                    condition: c,
                    block: b,
                    else_ifs: e,
                    else_block: o,
                }
                &&& c == condition.tree()
                &&& b == block.tree()
                &&& e == else_if_trees(else_ifs@)
                &&& o is Some <==> else_block is Some
                &&& else_block matches Some(other) ==> o == Some(other.tree())
            },
            LuauStmt::While { condition, block } => stmt.tree() == (StmtTree::While {
                condition: condition.tree(),
                block: block.tree(),
            }),
            LuauStmt::Repeat { block, until } => stmt.tree() == (StmtTree::Repeat {
                block: block.tree(),
                until: until.tree(),
            }),
            LuauStmt::NumericFor { bounds, block } => stmt.tree() == (StmtTree::NumericFor {
                bounds: expr_trees(bounds@),
                block: block.tree(),
            }),
            LuauStmt::GenericFor { values, block } => stmt.tree() == (StmtTree::GenericFor {
                values: expr_trees(values@),
                block: block.tree(),
            }),
            LuauStmt::Function(block) => stmt.tree() == StmtTree::Function(block.tree()),
            LuauStmt::Other => stmt.tree() == StmtTree::Other,
        }),
        block.tree().stmts == stmt_trees(block.stmts@),
        block.tree().return_values is Some <==> block.return_values is Some,
        block.return_values matches Some(values) ==> block.tree().return_values == Some(
            expr_trees(values@),
        ),
{
}

/// A source is what the parser makes of it, unless the lexer has an error for
/// it, which stands for it, or gives no token, which is an error too.
pub proof fn sources_are_what_the_parser_makes_of_them(source: Seq<char>)
    ensures
        luau_tokens(source) matches Ok(count) && count > 0 ==> luau_tree(source) == luau_syntax(
            source,
        ),
        luau_tokens(source) matches Err(errors) ==> luau_tree(source) == Err::<
            BlockTree,
            Seq<char>,
        >(errors),
        luau_tokens(source) == Ok::<usize, Seq<char>>(0) ==> luau_tree(source) == Err::<
            BlockTree,
            Seq<char>,
        >("no tokens"@),
{
}

/// An error in words ends with the whole path of the file or with all that the
/// parser said, behind words that depend on nothing but the sort of the error.
pub proof fn messages_name_what_went_wrong(path: Seq<PartView>, errors: Seq<char>)
    ensures
        error_message(ErrorView::NoParentDirectory) == "script file has no parent directory"@,
        error_message(ErrorView::LuaurcUnreadable(path)) == "failed to read "@ + display_text(path),
        error_message(ErrorView::LuaurcMalformed(path)) == "failed to parse "@ + display_text(path),
        error_message(ErrorView::LuauSyntax(errors)) == "failed to parse Luau source: "@ + errors,
{
}

} // verus!
