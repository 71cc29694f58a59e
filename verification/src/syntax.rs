//! The part of a Luau syntax tree that decides where a script requires a
//! module: statements, the expressions they hold, and the calls among those.
//! Types are left out.
//!
//! Each type comes twice: as the value that code builds and walks, and as the
//! mathematical tree (`..Tree`) that contracts speak of.
use vstd::prelude::*;

verus! {

/// A token: its text, the contents of its string literal if it is one, and the
/// byte offsets at which it starts and ends in the source.
#[derive(Debug)]
pub struct LuauToken {
    pub text: String,
    pub literal: Option<String>,
    pub start: usize,
    pub end: usize,
}

/// The model of a [`LuauToken`].
#[verifier::ext_equal]
pub struct TokenTree {
    pub text: Seq<char>,
    pub literal: Option<Seq<char>>,
    pub start: usize,
    pub end: usize,
}

/// The arguments of a call.
#[derive(Debug)]
pub enum LuauArgs {
    /// `(a, b)`, with the closing parenthesis.
    Parentheses { arguments: Vec<LuauExpr>, close: LuauToken },
    /// A string literal that stands alone, as in `require "x"`.
    String(LuauToken),
    /// A table that stands alone, as in `f { 1 }`, with its closing brace.
    TableConstructor { fields: Vec<LuauExpr>, close: LuauToken },
    /// Any other form.
    Other,
}

/// The model of [`LuauArgs`].
#[verifier::ext_equal]
pub enum ArgsTree {
    Parentheses { arguments: Seq<ExprTree>, close: TokenTree },
    String(TokenTree),
    TableConstructor { fields: Seq<ExprTree>, close: TokenTree },
    Other,
}

/// What follows the head of a call, one step at a time.
#[derive(Debug)]
pub enum LuauSuffix {
    /// A call of what stands before it: `(..)`.
    AnonymousCall(LuauArgs),
    /// A method call: `:name(..)`.
    MethodCall(LuauArgs),
    /// An index in brackets, `[..]`, with the closing bracket.
    Brackets { index: LuauExpr, close: LuauToken },
    /// An index by name: `.name`.
    Dot { name: LuauToken },
    /// Any other form.
    Other,
}

/// The model of a [`LuauSuffix`].
#[verifier::ext_equal]
pub enum SuffixTree {
    AnonymousCall(ArgsTree),
    MethodCall(ArgsTree),
    Brackets { index: ExprTree, close: TokenTree },
    Dot { name: TokenTree },
    Other,
}

/// What a call or an index starts with.
#[derive(Debug)]
pub enum LuauHead {
    /// A plain name.
    Name(LuauToken),
    /// An expression in parentheses.
    Expression(Box<LuauExpr>),
    /// Any other form.
    Other,
}

/// The model of a [`LuauHead`].
#[verifier::ext_equal]
pub enum HeadTree {
    Name(TokenTree),
    Expression(Box<ExprTree>),
    Other,
}

/// A call, or an index of something: what it starts with, and what follows.
#[derive(Debug)]
pub struct LuauCall {
    pub head: LuauHead,
    pub suffixes: Vec<LuauSuffix>,
}

/// The model of a [`LuauCall`].
#[verifier::ext_equal]
pub struct CallTree {
    pub head: HeadTree,
    pub suffixes: Seq<SuffixTree>,
}

/// An expression.
#[derive(Debug)]
pub enum LuauExpr {
    FunctionCall(LuauCall),
    /// An index of something, as in `a.b` or `f(x)[1]`.
    Index(LuauCall),
    /// An expression in parentheses.
    Parentheses(Box<LuauExpr>),
    /// A string literal.
    String(LuauToken),
    /// A function, by its body.
    Function(LuauBlock),
    /// Any other form, by the expressions that it is made of.
    Compound(Vec<LuauExpr>),
}

/// The model of an [`LuauExpr`].
#[verifier::ext_equal]
pub enum ExprTree {
    FunctionCall(CallTree),
    Index(CallTree),
    Parentheses(Box<ExprTree>),
    String(TokenTree),
    Function(BlockTree),
    Compound(Seq<ExprTree>),
}

/// An `elseif`.
#[derive(Debug)]
pub struct LuauElseIf {
    pub condition: LuauExpr,
    pub block: LuauBlock,
}

/// The model of a [`LuauElseIf`].
#[verifier::ext_equal]
pub struct ElseIfTree {
    pub condition: ExprTree,
    pub block: BlockTree,
}

/// A statement.
#[derive(Debug)]
pub enum LuauStmt {
    FunctionCall(LuauCall),
    /// `local a, b = x, y` or `const a, b = x, y`: the values.
    LocalAssignment(Vec<LuauExpr>),
    /// `a, b = x, y` or `a += x`.
    Assignment { targets: Vec<LuauExpr>, values: Vec<LuauExpr> },
    Do(LuauBlock),
    /// An `if`, its `elseif`s in order, and its `else`.
    If {
        condition: LuauExpr,
        block: LuauBlock,
        else_ifs: Vec<LuauElseIf>,
        else_block: Option<LuauBlock>,
    },
    While { condition: LuauExpr, block: LuauBlock },
    Repeat { block: LuauBlock, until: LuauExpr },
    /// A loop over numbers: where it starts, where it ends, and its step if
    /// there is one.
    NumericFor { bounds: Vec<LuauExpr>, block: LuauBlock },
    GenericFor { values: Vec<LuauExpr>, block: LuauBlock },
    /// The declaration of a function of any sort, by its body.
    Function(LuauBlock),
    /// Any other form; none of them holds an expression outside a type.
    Other,
}

/// The model of a [`LuauStmt`].
#[verifier::ext_equal]
pub enum StmtTree {
    FunctionCall(CallTree),
    LocalAssignment(Seq<ExprTree>),
    Assignment { targets: Seq<ExprTree>, values: Seq<ExprTree> },
    Do(BlockTree),
    If {
        condition: ExprTree,
        block: BlockTree,
        else_ifs: Seq<ElseIfTree>,
        else_block: Option<BlockTree>,
    },
    While { condition: ExprTree, block: BlockTree },
    Repeat { block: BlockTree, until: ExprTree },
    NumericFor { bounds: Seq<ExprTree>, block: BlockTree },
    GenericFor { values: Seq<ExprTree>, block: BlockTree },
    Function(BlockTree),
    Other,
}

/// A block: its statements, and the values of the `return` that ends it, if
/// one does.
#[derive(Debug)]
pub struct LuauBlock {
    pub stmts: Vec<LuauStmt>,
    pub return_values: Option<Vec<LuauExpr>>,
}

/// The model of a [`LuauBlock`].
#[verifier::ext_equal]
pub struct BlockTree {
    pub stmts: Seq<StmtTree>,
    pub return_values: Option<Seq<ExprTree>>,
}

impl View for LuauToken {
    type V = TokenTree;

    open spec fn view(&self) -> TokenTree {
        TokenTree {
            text: self.text@,
            literal: match self.literal {
                Some(literal) => Some(literal@),
                None => None,
            },
            start: self.start,
            end: self.end,
        }
    }
}

impl LuauArgs {
    pub open spec fn tree(self) -> ArgsTree
        decreases self,
    {
        match self {
            LuauArgs::Parentheses { arguments, close } => ArgsTree::Parentheses {
                arguments: expr_trees(arguments@),
                close: close@,
            },
            LuauArgs::String(token) => ArgsTree::String(token@),
            LuauArgs::TableConstructor { fields, close } => ArgsTree::TableConstructor {
                fields: expr_trees(fields@),
                close: close@,
            },
            LuauArgs::Other => ArgsTree::Other,
        }
    }
}

impl LuauSuffix {
    pub open spec fn tree(self) -> SuffixTree
        decreases self,
    {
        match self {
            LuauSuffix::AnonymousCall(args) => SuffixTree::AnonymousCall(args.tree()),
            LuauSuffix::MethodCall(args) => SuffixTree::MethodCall(args.tree()),
            LuauSuffix::Brackets { index, close } => SuffixTree::Brackets {
                index: index.tree(),
                close: close@,
            },
            LuauSuffix::Dot { name } => SuffixTree::Dot { name: name@ },
            LuauSuffix::Other => SuffixTree::Other,
        }
    }
}

impl LuauHead {
    pub open spec fn tree(self) -> HeadTree
        decreases self,
    {
        match self {
            LuauHead::Name(token) => HeadTree::Name(token@),
            LuauHead::Expression(inner) => HeadTree::Expression(Box::new(inner.tree())),
            LuauHead::Other => HeadTree::Other,
        }
    }
}

impl LuauCall {
    pub open spec fn tree(self) -> CallTree
        decreases self,
    {
        CallTree { head: self.head.tree(), suffixes: suffix_trees(self.suffixes@) }
    }
}

impl LuauExpr {
    pub open spec fn tree(self) -> ExprTree
        decreases self,
    {
        match self {
            LuauExpr::FunctionCall(call) => ExprTree::FunctionCall(call.tree()),
            LuauExpr::Index(call) => ExprTree::Index(call.tree()),
            LuauExpr::Parentheses(inner) => ExprTree::Parentheses(Box::new(inner.tree())),
            LuauExpr::String(token) => ExprTree::String(token@),
            LuauExpr::Function(block) => ExprTree::Function(block.tree()),
            LuauExpr::Compound(parts) => ExprTree::Compound(expr_trees(parts@)),
        }
    }
}

impl LuauElseIf {
    pub open spec fn tree(self) -> ElseIfTree
        decreases self,
    {
        ElseIfTree { condition: self.condition.tree(), block: self.block.tree() }
    }
}

impl LuauStmt {
    pub open spec fn tree(self) -> StmtTree
        decreases self,
    {
        match self {
            LuauStmt::FunctionCall(call) => StmtTree::FunctionCall(call.tree()),
            LuauStmt::LocalAssignment(values) => StmtTree::LocalAssignment(expr_trees(values@)),
            LuauStmt::Assignment { targets, values } => StmtTree::Assignment {
                targets: expr_trees(targets@),
                values: expr_trees(values@),
            },
            LuauStmt::Do(block) => StmtTree::Do(block.tree()),
            LuauStmt::If { condition, block, else_ifs, else_block } => StmtTree::If {
                condition: condition.tree(),
                block: block.tree(),
                else_ifs: else_if_trees(else_ifs@),
                else_block: match else_block {
                    Some(block) => Some(block.tree()),
                    None => None,
                },
            },
            LuauStmt::While { condition, block } => StmtTree::While {
                condition: condition.tree(),
                block: block.tree(),
            },
            LuauStmt::Repeat { block, until } => StmtTree::Repeat {
                block: block.tree(),
                until: until.tree(),
            },
            LuauStmt::NumericFor { bounds, block } => StmtTree::NumericFor {
                bounds: expr_trees(bounds@),
                block: block.tree(),
            },
            LuauStmt::GenericFor { values, block } => StmtTree::GenericFor {
                values: expr_trees(values@),
                block: block.tree(),
            },
            LuauStmt::Function(block) => StmtTree::Function(block.tree()),
            LuauStmt::Other => StmtTree::Other,
        }
    }
}

impl LuauBlock {
    pub open spec fn tree(self) -> BlockTree
        decreases self,
    {
        BlockTree {
            stmts: stmt_trees(self.stmts@),
            return_values: match self.return_values {
                Some(values) => Some(expr_trees(values@)),
                None => None,
            },
        }
    }
}

/// The trees of a list of suffixes.
pub open spec fn suffix_trees(suffixes: Seq<LuauSuffix>) -> Seq<SuffixTree>
    decreases suffixes,
{
    Seq::new(
        suffixes.len(),
        |i: int|
            if 0 <= i < suffixes.len() {
                suffixes[i].tree()
            } else {
                arbitrary()
            },
    )
}

/// The trees of a list of expressions.
pub open spec fn expr_trees(exprs: Seq<LuauExpr>) -> Seq<ExprTree>
    decreases exprs,
{
    Seq::new(
        exprs.len(),
        |i: int|
            if 0 <= i < exprs.len() {
                exprs[i].tree()
            } else {
                arbitrary()
            },
    )
}

/// The trees of a list of statements.
pub open spec fn stmt_trees(stmts: Seq<LuauStmt>) -> Seq<StmtTree>
    decreases stmts,
{
    Seq::new(
        stmts.len(),
        |i: int|
            if 0 <= i < stmts.len() {
                stmts[i].tree()
            } else {
                arbitrary()
            },
    )
}

/// The trees of a list of `elseif`s.
pub open spec fn else_if_trees(else_ifs: Seq<LuauElseIf>) -> Seq<ElseIfTree>
    decreases else_ifs,
{
    Seq::new(
        else_ifs.len(),
        |i: int|
            if 0 <= i < else_ifs.len() {
                else_ifs[i].tree()
            } else {
                arbitrary()
            },
    )
}

/// A statement is larger than what it holds.
pub proof fn lemma_stmt_decreases(tree: StmtTree)
    ensures
        (match tree {
            StmtTree::FunctionCall(call) => decreases_to!(tree => call),
            StmtTree::LocalAssignment(values) => decreases_to!(tree => values),
            StmtTree::Assignment { targets, values } => {
                &&& decreases_to!(tree => targets)
                &&& decreases_to!(tree => values)
            },
            StmtTree::Do(block) => decreases_to!(tree => block),
            StmtTree::If { condition, block, else_ifs, else_block } => {
                &&& decreases_to!(tree => condition)
                &&& decreases_to!(tree => block)
                &&& decreases_to!(tree => else_ifs)
                &&& else_block is Some ==> decreases_to!(tree => else_block->0)
            },
            StmtTree::While { condition, block } => {
                &&& decreases_to!(tree => condition)
                &&& decreases_to!(tree => block)
            },
            StmtTree::Repeat { block, until } => {
                &&& decreases_to!(tree => block)
                &&& decreases_to!(tree => until)
            },
            StmtTree::NumericFor { bounds, block } => {
                &&& decreases_to!(tree => bounds)
                &&& decreases_to!(tree => block)
            },
            StmtTree::GenericFor { values, block } => {
                &&& decreases_to!(tree => values)
                &&& decreases_to!(tree => block)
            },
            StmtTree::Function(block) => decreases_to!(tree => block),
            StmtTree::Other => true,
        }),
{
}

/// A block is larger than the values that it returns.
pub proof fn lemma_block_decreases(tree: BlockTree)
    ensures
        tree.return_values is Some ==> decreases_to!(tree => tree.return_values->0),
{
}

/// An expression is larger than what it holds.
pub proof fn lemma_expr_decreases(tree: ExprTree)
    ensures
        (match tree {
            ExprTree::FunctionCall(call) => decreases_to!(tree => call),
            ExprTree::Index(call) => decreases_to!(tree => call),
            ExprTree::Parentheses(inner) => decreases_to!(tree => *inner),
            ExprTree::String(token) => true,
            ExprTree::Function(block) => decreases_to!(tree => block),
            ExprTree::Compound(parts) => decreases_to!(tree => parts),
        }),
{
}

/// A head is larger than the expression that it holds.
pub proof fn lemma_head_decreases(tree: HeadTree)
    ensures
        (match tree {
            HeadTree::Expression(inner) => decreases_to!(tree => *inner),
            _ => true,
        }),
{
}

/// A suffix is larger than what it holds.
pub proof fn lemma_suffix_decreases(tree: SuffixTree)
    ensures
        (match tree {
            SuffixTree::AnonymousCall(args) => decreases_to!(tree => args),
            SuffixTree::MethodCall(args) => decreases_to!(tree => args),
            SuffixTree::Brackets { index, close } => decreases_to!(tree => index),
            _ => true,
        }),
{
}

/// Arguments are larger than the expressions that they hold.
pub proof fn lemma_args_decreases(tree: ArgsTree)
    ensures
        (match tree {
            ArgsTree::Parentheses { arguments, close } => decreases_to!(tree => arguments),
            ArgsTree::TableConstructor { fields, close } => decreases_to!(tree => fields),
            _ => true,
        }),
{
}

} // verus!
