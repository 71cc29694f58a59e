//! Reading Luau source: `full_moon` parses it, and what matters of its tree is
//! read into the types of [`crate::syntax`].
use vstd::prelude::*;
use vstd::utf8::encode_utf8;
use full_moon::ast;
use full_moon::ast::Expression;
use full_moon::ast::Stmt;
use full_moon::tokenizer::Lexer;
use full_moon::tokenizer::LexerResult;
use full_moon::tokenizer::TokenReference;
use full_moon::tokenizer::TokenType;
use crate::syntax::else_if_trees;
use crate::syntax::expr_trees;
use crate::syntax::lemma_args_decreases;
use crate::syntax::lemma_block_decreases;
use crate::syntax::lemma_expr_decreases;
use crate::syntax::lemma_head_decreases;
use crate::syntax::lemma_stmt_decreases;
use crate::syntax::lemma_suffix_decreases;
use crate::syntax::stmt_trees;
use crate::syntax::suffix_trees;
use crate::syntax::ArgsTree;
use crate::syntax::BlockTree;
use crate::syntax::CallTree;
use crate::syntax::ElseIfTree;
use crate::syntax::ExprTree;
use crate::syntax::HeadTree;
use crate::syntax::LuauArgs;
use crate::syntax::LuauBlock;
use crate::syntax::LuauCall;
use crate::syntax::LuauElseIf;
use crate::syntax::LuauExpr;
use crate::syntax::LuauHead;
use crate::syntax::LuauStmt;
use crate::syntax::LuauSuffix;
use crate::syntax::LuauToken;
use crate::syntax::StmtTree;
use crate::syntax::SuffixTree;
use crate::syntax::TokenTree;
use crate::visit::block_calls;
use crate::visit::calls_lie_apart;

verus! {

/// A parsed file, `full_moon::ast::Ast`; its inside is not looked at.
#[verifier::external_type_specification]
#[verifier::external_body]
pub struct ExAst(ast::Ast);

/// A block, `full_moon::ast::Block`; its inside is not looked at.
#[verifier::external_type_specification]
#[verifier::external_body]
pub struct ExBlock(ast::Block);

/// A statement, `full_moon::ast::Stmt`; its inside is not looked at.
#[verifier::external_type_specification]
#[verifier::external_body]
pub struct ExStmt(Stmt);

/// An `if` statement, `full_moon::ast::If`; its inside is not looked at.
#[verifier::external_type_specification]
#[verifier::external_body]
pub struct ExIf(ast::If);

/// An expression, `full_moon::ast::Expression`; its inside is not looked at.
#[verifier::external_type_specification]
#[verifier::external_body]
pub struct ExExpression(Expression);

/// An `if` expression, `full_moon::ast::luau::IfExpression`; its inside is not
/// looked at.
#[verifier::external_type_specification]
#[verifier::external_body]
pub struct ExIfExpression(ast::luau::IfExpression);

/// A table, `full_moon::ast::TableConstructor`; its inside is not looked at.
#[verifier::external_type_specification]
#[verifier::external_body]
pub struct ExTableConstructor(ast::TableConstructor);

/// A field of a table, `full_moon::ast::Field`; its inside is not looked at.
#[verifier::external_type_specification]
#[verifier::external_body]
pub struct ExField(ast::Field);

/// A variable, `full_moon::ast::Var`; its inside is not looked at.
#[verifier::external_type_specification]
#[verifier::external_body]
pub struct ExVar(ast::Var);

/// A call, `full_moon::ast::FunctionCall`; its inside is not looked at.
#[verifier::external_type_specification]
#[verifier::external_body]
pub struct ExFunctionCall(ast::FunctionCall);

/// The head of a call, `full_moon::ast::Prefix`; its inside is not looked at.
#[verifier::external_type_specification]
#[verifier::external_body]
pub struct ExPrefix(ast::Prefix);

/// A suffix of a call, `full_moon::ast::Suffix`; its inside is not looked at.
#[verifier::external_type_specification]
#[verifier::external_body]
pub struct ExSuffix(ast::Suffix);

/// Arguments, `full_moon::ast::FunctionArgs`; its inside is not looked at.
#[verifier::external_type_specification]
#[verifier::external_body]
pub struct ExFunctionArgs(ast::FunctionArgs);

/// A token with its trivia, `full_moon::tokenizer::TokenReference`; its inside
/// is not looked at.
#[verifier::external_type_specification]
#[verifier::external_body]
pub struct ExTokenReference(TokenReference);

/// What the lexer of `full_moon` makes of a source text: how many tokens it
/// hands out, trivia and the end of the text among them, or the `Debug` text of
/// its list of errors.
pub uninterp spec fn luau_tokens(source: Seq<char>) -> Result<usize, Seq<char>>;

/// What `full_moon::parse` makes of a source text: the tree of its main block,
/// or the `Debug` text of the list of errors.
pub uninterp spec fn luau_syntax(source: Seq<char>) -> Result<BlockTree, Seq<char>>;

/// What a parsed file holds.
pub uninterp spec fn ast_contents(parsed: ast::Ast) -> BlockTree;

/// What a block holds.
pub uninterp spec fn block_contents(block: ast::Block) -> BlockTree;

/// What a statement holds.
pub uninterp spec fn stmt_contents(stmt: Stmt) -> StmtTree;

/// What an `if` statement holds.
pub uninterp spec fn if_contents(stmt: ast::If) -> StmtTree;

/// What an expression holds.
pub uninterp spec fn expr_contents(expr: Expression) -> ExprTree;

/// The expressions that an `if` expression is made of.
pub uninterp spec fn if_expression_contents(expr: ast::luau::IfExpression) -> Seq<ExprTree>;

/// What the fields of a table hold.
pub uninterp spec fn table_contents(table: ast::TableConstructor) -> Seq<ExprTree>;

/// What a field of a table holds.
pub uninterp spec fn field_contents(field: ast::Field) -> ExprTree;

/// What a variable holds.
pub uninterp spec fn var_contents(var: ast::Var) -> ExprTree;

/// What a call holds.
pub uninterp spec fn call_contents(call: ast::FunctionCall) -> CallTree;

/// What the head of a call holds.
pub uninterp spec fn prefix_contents(prefix: ast::Prefix) -> HeadTree;

/// What a suffix of a call holds.
pub uninterp spec fn suffix_contents(suffix: ast::Suffix) -> SuffixTree;

/// What the arguments of a call hold.
pub uninterp spec fn args_contents(args: ast::FunctionArgs) -> ArgsTree;

/// What a token holds.
pub uninterp spec fn token_contents(token: TokenReference) -> TokenTree;

/// What a source text is in Luau: the tree of its main block, or the text of
/// the errors of the lexer or, behind it, of the parser. A text of which the
/// lexer hands out nothing at all, not even its end, is no Luau.
pub open spec fn luau_tree(source: Seq<char>) -> Result<BlockTree, Seq<char>> {
    match luau_tokens(source) {
        Ok(count) => if count > 0 {
            luau_syntax(source)
        } else {
            Err("no tokens"@)
        },
        Err(errors) => Err(errors),
    }
}

/// A statement of `full_moon` without a block.
enum PlainNode<'a> {
    FunctionCall(&'a ast::FunctionCall),
    LocalAssignment(Vec<&'a Expression>),
    Assignment { targets: Vec<&'a ast::Var>, values: Vec<&'a Expression> },
}

/// A statement of `full_moon` with blocks that it runs itself.
enum NestedNode<'a> {
    Do(&'a ast::Block),
    If(&'a ast::If),
    While { condition: &'a Expression, block: &'a ast::Block },
    Repeat { block: &'a ast::Block, until: &'a Expression },
    NumericFor { bounds: Vec<&'a Expression>, block: &'a ast::Block },
    GenericFor { values: Vec<&'a Expression>, block: &'a ast::Block },
}

/// The parts of an `if` statement of `full_moon`.
struct IfNode<'a> {
    condition: &'a Expression,
    block: &'a ast::Block,
    else_ifs: Vec<(&'a Expression, &'a ast::Block)>,
    else_block: Option<&'a ast::Block>,
}

/// An expression of `full_moon`, told apart by its form.
enum ExprNode<'a> {
    FunctionCall(&'a ast::FunctionCall),
    Var(&'a ast::Var),
    Parentheses(&'a Expression),
    String(&'a TokenReference),
    Function(&'a ast::Block),
    Table(&'a ast::TableConstructor),
    If(&'a ast::luau::IfExpression),
    Compound(Vec<&'a Expression>),
}

/// A variable of `full_moon`, told apart by its form.
enum VarNode<'a> {
    Index { prefix: &'a ast::Prefix, suffixes: Vec<&'a ast::Suffix> },
    Other,
}

/// The head of a call of `full_moon`, told apart by its form.
enum PrefixNode<'a> {
    Name(&'a TokenReference),
    Expression(&'a Expression),
    Other,
}

/// A suffix of `full_moon`, told apart by its form.
enum SuffixNode<'a> {
    AnonymousCall(&'a ast::FunctionArgs),
    MethodCall(&'a ast::FunctionArgs),
    Brackets { index: &'a Expression, close: &'a TokenReference },
    Dot(&'a TokenReference),
    Other,
}

/// Arguments of `full_moon`, told apart by their form.
enum ArgsNode<'a> {
    Parentheses { arguments: Vec<&'a Expression>, close: &'a TokenReference },
    String(&'a TokenReference),
    TableConstructor { table: &'a ast::TableConstructor, close: &'a TokenReference },
    Other,
}

spec fn stmts_contents(stmts: Seq<&Stmt>) -> Seq<StmtTree> {
    Seq::new(stmts.len(), |i: int| stmt_contents(*stmts[i]))
}

spec fn exprs_contents(exprs: Seq<&Expression>) -> Seq<ExprTree> {
    Seq::new(exprs.len(), |i: int| expr_contents(*exprs[i]))
}

spec fn fields_contents(fields: Seq<&ast::Field>) -> Seq<ExprTree> {
    Seq::new(fields.len(), |i: int| field_contents(*fields[i]))
}

spec fn vars_contents(vars: Seq<&ast::Var>) -> Seq<ExprTree> {
    Seq::new(vars.len(), |i: int| var_contents(*vars[i]))
}

spec fn suffixes_contents(suffixes: Seq<&ast::Suffix>) -> Seq<SuffixTree> {
    Seq::new(suffixes.len(), |i: int| suffix_contents(*suffixes[i]))
}

spec fn else_ifs_contents(else_ifs: Seq<(&Expression, &ast::Block)>) -> Seq<ElseIfTree> {
    Seq::new(
        else_ifs.len(),
        |i: int|
            ElseIfTree {
                condition: expr_contents(*else_ifs[i].0),
                block: block_contents(*else_ifs[i].1),
            },
    )
}

impl PlainNode<'_> {
    spec fn contents(self) -> StmtTree {
        match self {
            PlainNode::FunctionCall(call) => StmtTree::FunctionCall(call_contents(*call)),
            PlainNode::LocalAssignment(values) => StmtTree::LocalAssignment(
                exprs_contents(values@),
            ),
            PlainNode::Assignment { targets, values } => StmtTree::Assignment {
                targets: vars_contents(targets@),
                values: exprs_contents(values@),
            },
        }
    }
}

impl NestedNode<'_> {
    spec fn contents(self) -> StmtTree {
        match self {
            NestedNode::Do(block) => StmtTree::Do(block_contents(*block)),
            NestedNode::If(stmt) => if_contents(*stmt),
            NestedNode::While { condition, block } => StmtTree::While {
                condition: expr_contents(*condition),
                block: block_contents(*block),
            },
            NestedNode::Repeat { block, until } => StmtTree::Repeat {
                block: block_contents(*block),
                until: expr_contents(*until),
            },
            NestedNode::NumericFor { bounds, block } => StmtTree::NumericFor {
                bounds: exprs_contents(bounds@),
                block: block_contents(*block),
            },
            NestedNode::GenericFor { values, block } => StmtTree::GenericFor {
                values: exprs_contents(values@),
                block: block_contents(*block),
            },
        }
    }
}

impl IfNode<'_> {
    spec fn contents(self) -> StmtTree {
        StmtTree::If {
            condition: expr_contents(*self.condition),
            block: block_contents(*self.block),
            else_ifs: else_ifs_contents(self.else_ifs@),
            else_block: match self.else_block {
                Some(block) => Some(block_contents(*block)),
                None => None,
            },
        }
    }
}

impl ExprNode<'_> {
    spec fn contents(self) -> ExprTree {
        match self {
            ExprNode::FunctionCall(call) => ExprTree::FunctionCall(call_contents(*call)),
            ExprNode::Var(var) => var_contents(*var),
            ExprNode::Parentheses(inner) => ExprTree::Parentheses(Box::new(expr_contents(*inner))),
            ExprNode::String(token) => ExprTree::String(token_contents(*token)),
            ExprNode::Function(block) => ExprTree::Function(block_contents(*block)),
            ExprNode::Table(table) => ExprTree::Compound(table_contents(*table)),
            ExprNode::If(expr) => ExprTree::Compound(if_expression_contents(*expr)),
            ExprNode::Compound(parts) => ExprTree::Compound(exprs_contents(parts@)),
        }
    }
}

impl VarNode<'_> {
    spec fn contents(self) -> ExprTree {
        match self {
            VarNode::Index { prefix, suffixes } => ExprTree::Index(
                CallTree {
                    head: prefix_contents(*prefix),
                    suffixes: suffixes_contents(suffixes@),
                },
            ),
            VarNode::Other => ExprTree::Compound(seq![]),
        }
    }
}

impl PrefixNode<'_> {
    spec fn contents(self) -> HeadTree {
        match self {
            PrefixNode::Name(token) => HeadTree::Name(token_contents(*token)),
            PrefixNode::Expression(inner) => HeadTree::Expression(Box::new(expr_contents(*inner))),
            PrefixNode::Other => HeadTree::Other,
        }
    }
}

impl SuffixNode<'_> {
    spec fn contents(self) -> SuffixTree {
        match self {
            SuffixNode::AnonymousCall(args) => SuffixTree::AnonymousCall(args_contents(*args)),
            SuffixNode::MethodCall(args) => SuffixTree::MethodCall(args_contents(*args)),
            SuffixNode::Brackets { index, close } => SuffixTree::Brackets {
                index: expr_contents(*index),
                close: token_contents(*close),
            },
            SuffixNode::Dot(name) => SuffixTree::Dot { name: token_contents(*name) },
            SuffixNode::Other => SuffixTree::Other,
        }
    }
}

impl ArgsNode<'_> {
    spec fn contents(self) -> ArgsTree {
        match self {
            ArgsNode::Parentheses { arguments, close } => ArgsTree::Parentheses {
                arguments: exprs_contents(arguments@),
                close: token_contents(*close),
            },
            ArgsNode::String(token) => ArgsTree::String(token_contents(*token)),
            ArgsNode::TableConstructor { table, close } => ArgsTree::TableConstructor {
                fields: table_contents(*table),
                close: token_contents(*close),
            },
            ArgsNode::Other => ArgsTree::Other,
        }
    }
}

/// A list of nodes has as many trees as it has nodes, and in the same order.
proof fn lists_keep_their_nodes(
    stmts: Seq<&Stmt>,
    exprs: Seq<&Expression>,
    fields: Seq<&ast::Field>,
    vars: Seq<&ast::Var>,
    suffixes: Seq<&ast::Suffix>,
    else_ifs: Seq<(&Expression, &ast::Block)>,
    i: int,
)
    ensures
        stmts_contents(stmts).len() == stmts.len(),
        0 <= i < stmts.len() ==> stmts_contents(stmts)[i] == stmt_contents(*stmts[i]),
        exprs_contents(exprs).len() == exprs.len(),
        0 <= i < exprs.len() ==> exprs_contents(exprs)[i] == expr_contents(*exprs[i]),
        fields_contents(fields).len() == fields.len(),
        0 <= i < fields.len() ==> fields_contents(fields)[i] == field_contents(*fields[i]),
        vars_contents(vars).len() == vars.len(),
        0 <= i < vars.len() ==> vars_contents(vars)[i] == var_contents(*vars[i]),
        suffixes_contents(suffixes).len() == suffixes.len(),
        0 <= i < suffixes.len() ==> suffixes_contents(suffixes)[i] == suffix_contents(*suffixes[i]),
        else_ifs_contents(else_ifs).len() == else_ifs.len(),
        0 <= i < else_ifs.len() ==> {
            &&& else_ifs_contents(else_ifs)[i].condition == expr_contents(*else_ifs[i].0)
            &&& else_ifs_contents(else_ifs)[i].block == block_contents(*else_ifs[i].1)
        },
{
}

/// The tree of a statement has every part of its node, each in its place.
proof fn statements_keep_their_parts(plain: PlainNode, nested: NestedNode, node: IfNode)
    ensures
        (match plain {
            PlainNode::FunctionCall(call) => plain.contents() == StmtTree::FunctionCall(
                call_contents(*call),
            ),
            PlainNode::LocalAssignment(values) => plain.contents() == StmtTree::LocalAssignment(
                exprs_contents(values@),
            ),
            PlainNode::Assignment { targets, values } => plain.contents() == (
            StmtTree::Assignment {
                targets: vars_contents(targets@),
                values: exprs_contents(values@),
            }),
        }),
        (match nested {
            NestedNode::Do(block) => nested.contents() == StmtTree::Do(block_contents(*block)),
            NestedNode::If(stmt) => nested.contents() == if_contents(*stmt),
            NestedNode::While { condition, block } => nested.contents() == (StmtTree::While {
                condition: expr_contents(*condition),
                block: block_contents(*block),
            }),
            NestedNode::Repeat { block, until } => nested.contents() == (StmtTree::Repeat {
                block: block_contents(*block),
                until: expr_contents(*until),
            }),
            NestedNode::NumericFor { bounds, block } => nested.contents() == (
            StmtTree::NumericFor {
                bounds: exprs_contents(bounds@),
                block: block_contents(*block),
            }),
            NestedNode::GenericFor { values, block } => nested.contents() == (
            StmtTree::GenericFor {
                values: exprs_contents(values@),
                block: block_contents(*block),
            }),
        }),
        node.contents() matches StmtTree::If { condition, block, else_ifs, else_block } && {
            &&& condition == expr_contents(*node.condition)
            &&& block == block_contents(*node.block)
            &&& else_ifs == else_ifs_contents(node.else_ifs@)
            &&& else_block is Some <==> node.else_block is Some
            &&& node.else_block matches Some(other) ==> else_block == Some(block_contents(*other))
        },
{
}

/// The tree of an expression has every part of its node, each in its place.
proof fn expressions_keep_their_parts(expr: ExprNode, var: VarNode)
    ensures
        (match expr {
            ExprNode::FunctionCall(call) => expr.contents() == ExprTree::FunctionCall(
                call_contents(*call),
            ),
            ExprNode::Var(var) => expr.contents() == var_contents(*var),
            ExprNode::Parentheses(inner) => expr.contents() == ExprTree::Parentheses(
                Box::new(expr_contents(*inner)),
            ),
            ExprNode::String(token) => expr.contents() == ExprTree::String(token_contents(*token)),
            ExprNode::Function(block) => expr.contents() == ExprTree::Function(
                block_contents(*block),
            ),
            ExprNode::Table(table) => expr.contents() == ExprTree::Compound(table_contents(*table)),
            ExprNode::If(inner) => expr.contents() == ExprTree::Compound(
                if_expression_contents(*inner),
            ),
            ExprNode::Compound(parts) => expr.contents() == ExprTree::Compound(
                exprs_contents(parts@),
            ),
        }),
        (match var {
            VarNode::Index { prefix, suffixes } => {
                &&& var.contents() matches ExprTree::Index(call)
                &&& call.head == prefix_contents(*prefix)
                &&& call.suffixes == suffixes_contents(suffixes@)
            },
            VarNode::Other => var.contents() matches ExprTree::Compound(parts) && parts.len() == 0,
        }),
{
}

/// The tree of a head, of a suffix and of arguments has every part of its node,
/// each in its place.
proof fn calls_keep_their_parts(prefix: PrefixNode, suffix: SuffixNode, args: ArgsNode)
    ensures
        (match prefix {
            PrefixNode::Name(token) => prefix.contents() == HeadTree::Name(token_contents(*token)),
            PrefixNode::Expression(inner) => prefix.contents() == HeadTree::Expression(
                Box::new(expr_contents(*inner)),
            ),
            PrefixNode::Other => prefix.contents() == HeadTree::Other,
        }),
        (match suffix {
            SuffixNode::AnonymousCall(args) => suffix.contents() == SuffixTree::AnonymousCall(
                args_contents(*args),
            ),
            SuffixNode::MethodCall(args) => suffix.contents() == SuffixTree::MethodCall(
                args_contents(*args),
            ),
            SuffixNode::Brackets { index, close } => suffix.contents() == (SuffixTree::Brackets {
                index: expr_contents(*index),
                close: token_contents(*close),
            }),
            SuffixNode::Dot(name) => suffix.contents() == (SuffixTree::Dot {
                name: token_contents(*name),
            }),
            SuffixNode::Other => suffix.contents() == SuffixTree::Other,
        }),
        (match args {
            ArgsNode::Parentheses { arguments, close } => args.contents() == (
            ArgsTree::Parentheses {
                arguments: exprs_contents(arguments@),
                close: token_contents(*close),
            }),
            ArgsNode::String(token) => args.contents() == ArgsTree::String(token_contents(*token)),
            ArgsNode::TableConstructor { table, close } => args.contents() == (
            ArgsTree::TableConstructor {
                fields: table_contents(*table),
                close: token_contents(*close),
            }),
            ArgsNode::Other => args.contents() == ArgsTree::Other,
        }),
{
}

/// Calls `Lexer::new` and `Lexer::collect`, with the Lua versions that
/// `full_moon::parse` takes. What comes of it depends on the source alone: the
/// number of the tokens, or the errors as the `Debug` text of a list of
/// `full_moon::Error`.
#[verifier::external_body]
fn tokenize(source: &str) -> (res: Result<usize, String>)
    ensures
        (match res {
            Ok(count) => luau_tokens(source@) == Ok::<usize, Seq<char>>(count),
            Err(errors) => luau_tokens(source@) == Err::<usize, Seq<char>>(errors@),
        }),
{
    match Lexer::new(source, full_moon::LuaVersion::new()).collect() {
        LexerResult::Ok(tokens) => Ok(tokens.len()),
        LexerResult::Fatal(errors) | LexerResult::Recovered(_, errors) => {
            let errors = errors.into_iter().map(full_moon::Error::TokenizerError);
            Err(format!("{:?}", errors.collect::<Vec<_>>()))
        }
    }
}

/// Calls `full_moon::parse`, whose outcome depends on the source alone. An
/// error comes as the `Debug` text of the list of errors.
///
/// In a tree without an error, the calls of a name lie in the source, and those
/// with one string literal lie apart from each other: the parser takes the
/// lexer's tokens one after the other, each with the byte offsets before and
/// after it, and without the closing parenthesis of a call there is an error.
/// More is not said of where tokens lie. On some sources that are not Luau the
/// parser drops tokens, makes a closing brace up or swaps conditions, and gives
/// no error.
///
/// It panics on some tokens that the lexer has an error for, and where there is
/// no token at all, as with `#!` on the first line and a comment behind it that
/// is left open: both are left out. Of source that is nested so deeply that the
/// stack overflows nothing is said.
#[verifier::external_body]
fn parse(source: &str) -> (res: Result<ast::Ast, String>)
    requires
        luau_tokens(source@) matches Ok(count) && count > 0,
    ensures
        (match res {
            Ok(parsed) => {
                &&& luau_syntax(source@) == Ok::<BlockTree, Seq<char>>(ast_contents(parsed))
                &&& calls_lie_apart(encode_utf8(source@), block_calls(ast_contents(parsed)))
            },
            Err(errors) => luau_syntax(source@) == Err::<BlockTree, Seq<char>>(errors@),
        }),
{
    full_moon::parse(source).map_err(|errors| format!("{errors:?}"))
}

/// Calls `Ast::nodes`: the main block, which holds what the file holds.
#[verifier::external_body]
fn ast_nodes<'a>(parsed: &'a ast::Ast) -> (res: &'a ast::Block)
    ensures
        block_contents(*res) == ast_contents(*parsed),
{
    parsed.nodes()
}

/// Calls `Block::stmts`: the statements in order, but for a final `return`,
/// `break` or `continue`.
#[verifier::external_body]
fn block_stmts<'a>(block: &'a ast::Block) -> (res: Vec<&'a Stmt>)
    ensures
        stmts_contents(res@) == block_contents(*block).stmts,
{
    block.stmts().collect()
}

/// Calls `Block::last_stmt`: the values of the `return` that ends the block,
/// or `None` where something else ends it.
#[verifier::external_body]
fn block_returns<'a>(block: &'a ast::Block) -> (res: Option<Vec<&'a Expression>>)
    ensures
        block_contents(*block).return_values == (match res {
            Some(values) => Some(exprs_contents(values@)),
            None => None,
        }),
{
    match block.last_stmt() {
        Some(ast::LastStmt::Return(last)) => Some(last.returns().iter().collect()),
        _ => None,
    }
}

/// Tells the variants of `Stmt` apart that are a call or an assignment, and
/// takes what `variables`, `lhs`, `expressions` and `rhs` of their payloads
/// give. Any other statement is none of these.
#[verifier::external_body]
fn plain_node<'a>(stmt: &'a Stmt) -> (res: Option<PlainNode<'a>>)
    ensures
        (match res {
            Some(node) => node.contents() == stmt_contents(*stmt),
            None => !(stmt_contents(*stmt) is FunctionCall || stmt_contents(
                *stmt,
            ) is LocalAssignment || stmt_contents(*stmt) is Assignment),
        }),
{
    let (targets, values) = match stmt {
        Stmt::FunctionCall(call) => return Some(PlainNode::FunctionCall(call)),
        Stmt::LocalAssignment(s) => (None, s.expressions().iter().collect()),
        Stmt::ConstAssignment(s) => (None, s.expressions().iter().collect()),
        Stmt::Assignment(s) => {
            (Some(s.variables().iter().collect()), s.expressions().iter().collect())
        }
        Stmt::CompoundAssignment(s) => (Some(vec![s.lhs()]), vec![s.rhs()]),
        _ => return None,
    };
    Some(match targets {
        Some(targets) => PlainNode::Assignment { targets, values },
        None => PlainNode::LocalAssignment(values),
    })
}

/// Tells the variants of `Stmt` apart that run blocks of their own, and takes
/// what the accessors of their payloads give. Any other statement is none of
/// these.
#[verifier::external_body]
fn nested_node<'a>(stmt: &'a Stmt) -> (res: Option<NestedNode<'a>>)
    ensures
        (match res {
            Some(node) => node.contents() == stmt_contents(*stmt),
            None => !(stmt_contents(*stmt) is Do || stmt_contents(*stmt) is If || stmt_contents(
                *stmt,
            ) is While || stmt_contents(*stmt) is Repeat || stmt_contents(*stmt) is NumericFor
                || stmt_contents(*stmt) is GenericFor),
        }),
{
    Some(match stmt {
        Stmt::Do(s) => NestedNode::Do(s.block()),
        Stmt::If(s) => NestedNode::If(s),
        Stmt::While(s) => NestedNode::While { condition: s.condition(), block: s.block() },
        Stmt::Repeat(s) => NestedNode::Repeat { block: s.block(), until: s.until() },
        Stmt::NumericFor(s) => NestedNode::NumericFor {
            bounds: [s.start(), s.end()].into_iter().chain(s.step()).collect(),
            block: s.block() },
        Stmt::GenericFor(s) => NestedNode::GenericFor {
            values: s.expressions().iter().collect(),
            block: s.block() },
        _ => return None,
    })
}

/// Tells the variants of `Stmt` apart that declare a function, and takes the
/// block of its body. Any other statement declares none.
#[verifier::external_body]
fn function_body<'a>(stmt: &'a Stmt) -> (res: Option<&'a ast::Block>)
    ensures
        (match res {
            Some(block) => stmt_contents(*stmt) == StmtTree::Function(block_contents(*block)),
            None => !(stmt_contents(*stmt) is Function),
        }),
{
    match stmt {
        Stmt::LocalFunction(s) => Some(s.body().block()),
        Stmt::ConstFunction(s) => Some(s.body().block()),
        Stmt::FunctionDeclaration(s) => Some(s.body().block()),
        Stmt::TypeFunction(s) => Some(s.function_body().block()),
        Stmt::ExportedTypeFunction(s) => Some(s.type_function().function_body().block()),
        _ => None,
    }
}

/// Calls `If::condition`, `If::block`, `If::else_if` and `If::else_block`: the
/// condition, the first block, the conditions and blocks of the `elseif`s in
/// order, and the block of the `else`, if any.
#[verifier::external_body]
fn if_node<'a>(stmt: &'a ast::If) -> (res: IfNode<'a>)
    ensures
        res.contents() == if_contents(*stmt),
{
    let else_ifs = stmt.else_if().into_iter().flatten();
    IfNode {
        condition: stmt.condition(),
        block: stmt.block(),
        else_ifs: else_ifs.map(|other| (other.condition(), other.block())).collect(),
        else_block: stmt.else_block(),
    }
}

/// Tells the variants of `Expression` apart, and takes the expressions that
/// they are made of, as they follow each other.
#[verifier::external_body]
fn expr_node<'a>(expr: &'a Expression) -> (res: ExprNode<'a>)
    ensures
        res.contents() == expr_contents(*expr),
{
    match expr {
        Expression::FunctionCall(call) => ExprNode::FunctionCall(call),
        Expression::Var(var) => ExprNode::Var(var),
        Expression::Parentheses { expression, .. } => ExprNode::Parentheses(expression),
        Expression::String(token) => ExprNode::String(token),
        Expression::Function(function) => ExprNode::Function(function.body().block()),
        Expression::TableConstructor(table) => ExprNode::Table(table),
        Expression::IfExpression(expr) => ExprNode::If(expr),
        Expression::BinaryOperator { lhs, rhs, .. } => ExprNode::Compound(vec![lhs, rhs]),
        Expression::UnaryOperator { expression, .. }
        | Expression::TypeAssertion { expression, .. } => ExprNode::Compound(vec![expression]),
        Expression::InterpolatedString(s) => ExprNode::Compound(s.expressions().collect()),
        _ => ExprNode::Compound(Vec::new()),
    }
}

/// Calls `IfExpression::condition`, `if_expression`, `else_if_expressions` and
/// `else_expression`: the expressions as they follow each other.
#[verifier::external_body]
fn if_expression_parts<'a>(expr: &'a ast::luau::IfExpression) -> (res: Vec<&'a Expression>)
    ensures
        exprs_contents(res@) == if_expression_contents(*expr),
{
    let mut parts = vec![expr.condition(), expr.if_expression()];
    let else_ifs = expr.else_if_expressions().into_iter().flatten();
    parts.extend(else_ifs.flat_map(|other| [other.condition(), other.expression()]));
    parts.push(expr.else_expression());
    parts
}

/// Calls `TableConstructor::fields`: the fields in order.
#[verifier::external_body]
fn table_fields<'a>(table: &'a ast::TableConstructor) -> (res: Vec<&'a ast::Field>)
    ensures
        fields_contents(res@) == table_contents(*table),
{
    table.fields().iter().collect()
}

/// Tells the variants of `Field` apart: the key, if it is an expression, and
/// the value.
#[verifier::external_body]
fn field_parts<'a>(field: &'a ast::Field) -> (res: Vec<&'a Expression>)
    ensures
        ExprTree::Compound(exprs_contents(res@)) == field_contents(*field),
{
    match field {
        ast::Field::ExpressionKey { key, value, .. } => vec![key, value],
        ast::Field::NameKey { value, .. } => vec![value],
        ast::Field::NoKey(value) => vec![value],
        _ => Vec::new(),
    }
}

/// Tells the variants of `Var` apart, and calls `VarExpression::prefix` and
/// `VarExpression::suffixes`. A plain name holds no expression.
#[verifier::external_body]
fn var_node<'a>(var: &'a ast::Var) -> (res: VarNode<'a>)
    ensures
        res.contents() == var_contents(*var),
{
    match var {
        ast::Var::Expression(index) => VarNode::Index {
            prefix: index.prefix(),
            suffixes: index.suffixes().collect(),
        },
        _ => VarNode::Other,
    }
}

/// Calls `FunctionCall::prefix`: the head of the call.
#[verifier::external_body]
fn call_prefix<'a>(call: &'a ast::FunctionCall) -> (res: &'a ast::Prefix)
    ensures
        prefix_contents(*res) == call_contents(*call).head,
{
    call.prefix()
}

/// Calls `FunctionCall::suffixes`: the suffixes in order.
#[verifier::external_body]
fn call_suffixes<'a>(call: &'a ast::FunctionCall) -> (res: Vec<&'a ast::Suffix>)
    ensures
        suffixes_contents(res@) == call_contents(*call).suffixes,
{
    call.suffixes().collect()
}

/// Tells the variants of `Prefix` apart.
#[verifier::external_body]
fn prefix_node<'a>(prefix: &'a ast::Prefix) -> (res: PrefixNode<'a>)
    ensures
        res.contents() == prefix_contents(*prefix),
{
    match prefix {
        ast::Prefix::Name(token) => PrefixNode::Name(token),
        ast::Prefix::Expression(inner) => PrefixNode::Expression(inner),
        _ => PrefixNode::Other,
    }
}

/// Tells the variants of `Suffix` apart, those of its `Call` and `Index`
/// included; of brackets it takes the closing one.
#[verifier::external_body]
fn suffix_node<'a>(suffix: &'a ast::Suffix) -> (res: SuffixNode<'a>)
    ensures
        res.contents() == suffix_contents(*suffix),
{
    match suffix {
        ast::Suffix::Call(ast::Call::AnonymousCall(args)) => SuffixNode::AnonymousCall(args),
        ast::Suffix::Call(ast::Call::MethodCall(call)) => SuffixNode::MethodCall(call.args()),
        ast::Suffix::Index(ast::Index::Brackets { brackets, expression }) => {
            SuffixNode::Brackets { index: expression, close: brackets.tokens().1 }
        }
        ast::Suffix::Index(ast::Index::Dot { name, .. }) => SuffixNode::Dot(name),
        _ => SuffixNode::Other,
    }
}

/// Tells the variants of `FunctionArgs` apart; of parentheses and braces it
/// takes the closing one.
#[verifier::external_body]
fn args_node<'a>(args: &'a ast::FunctionArgs) -> (res: ArgsNode<'a>)
    ensures
        res.contents() == args_contents(*args),
{
    match args {
        ast::FunctionArgs::Parentheses { parentheses, arguments } => ArgsNode::Parentheses {
            arguments: arguments.iter().collect(),
            close: parentheses.tokens().1,
        },
        ast::FunctionArgs::String(token) => ArgsNode::String(token),
        ast::FunctionArgs::TableConstructor(table) => {
            ArgsNode::TableConstructor { table, close: table.braces().tokens().1 }
        }
        _ => ArgsNode::Other,
    }
}

/// Calls `TokenReference::token`, and takes from the token its text, the
/// contents of a string literal, and the byte offsets of its two ends.
#[verifier::external_body]
fn read_token(token: &TokenReference) -> (res: LuauToken)
    ensures
        res@ == token_contents(*token),
{
    let token = token.token();
    LuauToken {
        text: token.to_string(),
        literal: match token.token_type() {
            TokenType::StringLiteral { literal, .. } => Some(literal.to_string()),
            _ => None,
        },
        start: token.start_position().bytes(),
        end: token.end_position().bytes(),
    }
}

/// Reads the arguments of a call.
fn read_args(args: &ast::FunctionArgs) -> (res: LuauArgs)
    ensures
        res.tree() == args_contents(*args),
    decreases args_contents(*args), 0int,
{
    proof {
        lemma_args_decreases(args_contents(*args));
    }
    match args_node(args) {
        ArgsNode::Parentheses { arguments, close } => LuauArgs::Parentheses {
            arguments: read_exprs(&arguments),
            close: read_token(close),
        },
        ArgsNode::String(token) => LuauArgs::String(read_token(token)),
        ArgsNode::TableConstructor { table, close } => LuauArgs::TableConstructor {
            fields: read_table(table),
            close: read_token(close),
        },
        ArgsNode::Other => LuauArgs::Other,
    }
}

/// Reads a suffix of a call.
fn read_suffix(suffix: &ast::Suffix) -> (res: LuauSuffix)
    ensures
        res.tree() == suffix_contents(*suffix),
    decreases suffix_contents(*suffix), 0int,
{
    proof {
        lemma_suffix_decreases(suffix_contents(*suffix));
    }
    match suffix_node(suffix) {
        SuffixNode::AnonymousCall(args) => LuauSuffix::AnonymousCall(read_args(args)),
        SuffixNode::MethodCall(args) => LuauSuffix::MethodCall(read_args(args)),
        SuffixNode::Brackets { index, close } => LuauSuffix::Brackets {
            index: read_expr(index),
            close: read_token(close),
        },
        SuffixNode::Dot(name) => LuauSuffix::Dot { name: read_token(name) },
        SuffixNode::Other => LuauSuffix::Other,
    }
}

/// Reads a list of suffixes.
fn read_suffixes(nodes: &Vec<&ast::Suffix>) -> (res: Vec<LuauSuffix>)
    ensures
        suffix_trees(res@) == suffixes_contents(nodes@),
    decreases suffixes_contents(nodes@), 1int,
{
    let mut suffixes: Vec<LuauSuffix> = Vec::new();
    for i in 0..nodes.len()
        invariant
            suffixes@.len() == i,
            forall|j: int|
                0 <= j < i ==> (#[trigger] suffixes@[j]).tree() == suffix_contents(*nodes@[j]),
    {
        assert(suffix_contents(*nodes@[i as int]) == suffixes_contents(nodes@)[i as int]);
        suffixes.push(read_suffix(nodes[i]));
    }
    assert(suffix_trees(suffixes@) =~= suffixes_contents(nodes@));
    suffixes
}

/// Reads the head of a call.
fn read_head(prefix: &ast::Prefix) -> (res: LuauHead)
    ensures
        res.tree() == prefix_contents(*prefix),
    decreases prefix_contents(*prefix), 0int,
{
    proof {
        lemma_head_decreases(prefix_contents(*prefix));
    }
    match prefix_node(prefix) {
        PrefixNode::Name(token) => LuauHead::Name(read_token(token)),
        PrefixNode::Expression(inner) => LuauHead::Expression(Box::new(read_expr(inner))),
        PrefixNode::Other => LuauHead::Other,
    }
}

/// Reads a head and what follows it.
fn read_chain(prefix: &ast::Prefix, suffixes: &Vec<&ast::Suffix>) -> (res: LuauCall)
    ensures
        res.tree() == (CallTree {
            head: prefix_contents(*prefix),
            suffixes: suffixes_contents(suffixes@),
        }),
    decreases
            (CallTree {
                head: prefix_contents(*prefix),
                suffixes: suffixes_contents(suffixes@),
            }), 0int,
{
    proof {
        let tree = CallTree {
            head: prefix_contents(*prefix),
            suffixes: suffixes_contents(suffixes@),
        };
        assert(decreases_to!(tree => tree.head));
        assert(decreases_to!(tree => tree.suffixes));
    }
    LuauCall { head: read_head(prefix), suffixes: read_suffixes(suffixes) }
}

/// Reads a call.
fn read_call(call: &ast::FunctionCall) -> (res: LuauCall)
    ensures
        res.tree() == call_contents(*call),
    decreases call_contents(*call), 1int,
{
    let suffixes = call_suffixes(call);
    read_chain(call_prefix(call), &suffixes)
}

/// Reads a variable.
fn read_var(var: &ast::Var) -> (res: LuauExpr)
    ensures
        res.tree() == var_contents(*var),
    decreases var_contents(*var), 0int,
{
    proof {
        lemma_expr_decreases(var_contents(*var));
    }
    match var_node(var) {
        VarNode::Index { prefix, suffixes } => LuauExpr::Index(read_chain(prefix, &suffixes)),
        VarNode::Other => {
            let none: Vec<LuauExpr> = Vec::new();
            assert(expr_trees(none@) =~= Seq::<ExprTree>::empty());
            LuauExpr::Compound(none)
        },
    }
}

/// Reads a list of variables.
fn read_vars(nodes: &Vec<&ast::Var>) -> (res: Vec<LuauExpr>)
    ensures
        expr_trees(res@) == vars_contents(nodes@),
    decreases vars_contents(nodes@), 1int,
{
    let mut exprs: Vec<LuauExpr> = Vec::new();
    for i in 0..nodes.len()
        invariant
            exprs@.len() == i,
            forall|j: int| 0 <= j < i ==> (#[trigger] exprs@[j]).tree() == var_contents(*nodes@[j]),
    {
        assert(var_contents(*nodes@[i as int]) == vars_contents(nodes@)[i as int]);
        exprs.push(read_var(nodes[i]));
    }
    assert(expr_trees(exprs@) =~= vars_contents(nodes@));
    exprs
}

/// Reads the fields of a table.
fn read_table(table: &ast::TableConstructor) -> (res: Vec<LuauExpr>)
    ensures
        expr_trees(res@) == table_contents(*table),
    decreases table_contents(*table), 1int,
{
    let nodes = table_fields(table);
    let mut exprs: Vec<LuauExpr> = Vec::new();
    for i in 0..nodes.len()
        invariant
            fields_contents(nodes@) == table_contents(*table),
            exprs@.len() == i,
            forall|j: int|
                0 <= j < i ==> (#[trigger] exprs@[j]).tree() == field_contents(*nodes@[j]),
    {
        let parts = field_parts(nodes[i]);
        proof {
            let field = field_contents(*nodes@[i as int]);
            assert(field == fields_contents(nodes@)[i as int]);
            lemma_expr_decreases(field);
        }
        exprs.push(LuauExpr::Compound(read_exprs(&parts)));
    }
    assert(expr_trees(exprs@) =~= fields_contents(nodes@));
    exprs
}

/// Reads a list of expressions.
fn read_exprs(nodes: &Vec<&Expression>) -> (res: Vec<LuauExpr>)
    ensures
        expr_trees(res@) == exprs_contents(nodes@),
    decreases exprs_contents(nodes@), 1int,
{
    let mut exprs: Vec<LuauExpr> = Vec::new();
    for i in 0..nodes.len()
        invariant
            exprs@.len() == i,
            forall|j: int| 0 <= j < i ==> (#[trigger] exprs@[j]).tree() == expr_contents(*nodes@[j]),
    {
        assert(expr_contents(*nodes@[i as int]) == exprs_contents(nodes@)[i as int]);
        exprs.push(read_expr(nodes[i]));
    }
    assert(expr_trees(exprs@) =~= exprs_contents(nodes@));
    exprs
}

/// Reads an expression.
fn read_expr(expr: &Expression) -> (res: LuauExpr)
    ensures
        res.tree() == expr_contents(*expr),
    decreases expr_contents(*expr), 1int,
{
    proof {
        lemma_expr_decreases(expr_contents(*expr));
    }
    match expr_node(expr) {
        ExprNode::FunctionCall(call) => LuauExpr::FunctionCall(read_call(call)),
        ExprNode::Var(var) => read_var(var),
        ExprNode::Parentheses(inner) => LuauExpr::Parentheses(Box::new(read_expr(inner))),
        ExprNode::String(token) => LuauExpr::String(read_token(token)),
        ExprNode::Function(block) => LuauExpr::Function(read_block(block)),
        ExprNode::Table(table) => LuauExpr::Compound(read_table(table)),
        ExprNode::If(inner) => {
            let parts = if_expression_parts(inner);
            LuauExpr::Compound(read_exprs(&parts))
        },
        ExprNode::Compound(parts) => LuauExpr::Compound(read_exprs(&parts)),
    }
}

/// Reads a list of `elseif`s.
fn read_else_ifs(nodes: &Vec<(&Expression, &ast::Block)>) -> (res: Vec<LuauElseIf>)
    ensures
        else_if_trees(res@) == else_ifs_contents(nodes@),
    decreases else_ifs_contents(nodes@), 1int,
{
    let mut else_ifs: Vec<LuauElseIf> = Vec::new();
    for i in 0..nodes.len()
        invariant
            else_ifs@.len() == i,
            forall|j: int|
                0 <= j < i ==> (#[trigger] else_ifs@[j]).tree() == else_ifs_contents(nodes@)[j],
    {
        proof {
            let tree = else_ifs_contents(nodes@)[i as int];
            assert(decreases_to!(else_ifs_contents(nodes@) => tree));
            assert(decreases_to!(tree => tree.condition));
            assert(decreases_to!(tree => tree.block));
        }
        let (condition, block) = nodes[i];
        else_ifs.push(LuauElseIf { condition: read_expr(condition), block: read_block(block) });
    }
    assert(else_if_trees(else_ifs@) =~= else_ifs_contents(nodes@));
    else_ifs
}

/// Reads a statement.
fn read_stmt(stmt: &Stmt) -> (res: LuauStmt)
    ensures
        res.tree() == stmt_contents(*stmt),
    decreases stmt_contents(*stmt), 1int,
{
    proof {
        lemma_stmt_decreases(stmt_contents(*stmt));
    }
    if let Some(node) = plain_node(stmt) {
        return match node {
            PlainNode::FunctionCall(call) => LuauStmt::FunctionCall(read_call(call)),
            PlainNode::LocalAssignment(values) => LuauStmt::LocalAssignment(read_exprs(&values)),
            PlainNode::Assignment { targets, values } => LuauStmt::Assignment {
                targets: read_vars(&targets),
                values: read_exprs(&values),
            },
        };
    }
    if let Some(node) = nested_node(stmt) {
        return match node {
            NestedNode::Do(block) => LuauStmt::Do(read_block(block)),
            NestedNode::If(inner) => {
                let node = if_node(inner);
                LuauStmt::If {
                    condition: read_expr(node.condition),
                    block: read_block(node.block),
                    else_ifs: read_else_ifs(&node.else_ifs),
                    else_block: match node.else_block {
                        Some(block) => Some(read_block(block)),
                        None => None,
                    },
                }
            },
            NestedNode::While { condition, block } => LuauStmt::While {
                condition: read_expr(condition),
                block: read_block(block),
            },
            NestedNode::Repeat { block, until } => LuauStmt::Repeat {
                block: read_block(block),
                until: read_expr(until),
            },
            NestedNode::NumericFor { bounds, block } => LuauStmt::NumericFor {
                bounds: read_exprs(&bounds),
                block: read_block(block),
            },
            NestedNode::GenericFor { values, block } => LuauStmt::GenericFor {
                values: read_exprs(&values),
                block: read_block(block),
            },
        };
    }
    match function_body(stmt) {
        Some(block) => LuauStmt::Function(read_block(block)),
        None => LuauStmt::Other,
    }
}

/// Reads a block.
fn read_block(block: &ast::Block) -> (res: LuauBlock)
    ensures
        res.tree() == block_contents(*block),
    decreases block_contents(*block), 0int,
{
    let nodes = block_stmts(block);
    let mut stmts: Vec<LuauStmt> = Vec::new();
    for i in 0..nodes.len()
        invariant
            stmts_contents(nodes@) == block_contents(*block).stmts,
            stmts@.len() == i,
            forall|j: int| 0 <= j < i ==> (#[trigger] stmts@[j]).tree() == stmt_contents(*nodes@[j]),
    {
        assert(stmt_contents(*nodes@[i as int]) == stmts_contents(nodes@)[i as int]);
        stmts.push(read_stmt(nodes[i]));
    }
    proof {
        lemma_block_decreases(block_contents(*block));
    }
    let return_values = match block_returns(block) {
        Some(values) => Some(read_exprs(&values)),
        None => None,
    };
    assert(stmt_trees(stmts@) =~= stmts_contents(nodes@));
    LuauBlock { stmts, return_values }
}

/// Parses Luau source and reads its main block, or gives the text of the
/// errors that the lexer or the parser found.
pub fn parse_luau(source: &str) -> (res: Result<LuauBlock, String>)
    ensures
        (match res {
            Ok(block) => {
                &&& luau_tree(source@) == Ok::<BlockTree, Seq<char>>(block.tree())
                &&& calls_lie_apart(encode_utf8(source@), block_calls(block.tree()))
            },
            Err(errors) => luau_tree(source@) == Err::<BlockTree, Seq<char>>(errors@),
        }),
{
    match tokenize(source) {
        Ok(count) => {
            if count == 0 {
                return Err("no tokens".to_owned());
            }
            match parse(source) {
                Ok(parsed) => Ok(read_block(ast_nodes(&parsed))),
                Err(errors) => Err(errors),
            }
        },
        Err(errors) => Err(errors),
    }
}

} // verus!
