//! Laws of finding calls: which calls there are in a script, said by where a
//! call can stand, and which of them require something by an alias.
use vstd::prelude::*;
use crate::syntax::ArgsTree;
use crate::syntax::BlockTree;
use crate::syntax::CallTree;
use crate::syntax::ElseIfTree;
use crate::syntax::ExprTree;
use crate::syntax::HeadTree;
use crate::syntax::StmtTree;
use crate::syntax::SuffixTree;
use crate::syntax::TokenTree;
use crate::visit::args_calls;
use crate::visit::args_end;
use crate::visit::block_calls;
use crate::visit::block_sites;
use crate::visit::call_end;
use crate::visit::call_site;
use crate::visit::call_start;
use crate::visit::calls_sites;
use crate::visit::else_ifs_calls;
use crate::visit::expr_calls;
use crate::visit::expr_string;
use crate::visit::exprs_calls;
use crate::visit::inner_calls;
use crate::visit::lemma_calls_sites_concat;
use crate::visit::stmt_calls;
use crate::visit::stmts_calls;
use crate::visit::suffix_calls;
use crate::visit::suffix_end;
use crate::visit::suffixes_calls;
use crate::visit::SiteView;

verus! {

/// The call stands in the arguments.
pub open spec fn in_args(call: CallTree, args: ArgsTree) -> bool
    decreases args, 0int,
{
    match args {
        ArgsTree::Parentheses { arguments, close } => in_some(call, arguments),
        ArgsTree::TableConstructor { fields, close } => in_some(call, fields),
        _ => false,
    }
}

/// The call stands in the suffix.
pub open spec fn in_suffix(call: CallTree, suffix: SuffixTree) -> bool
    decreases suffix, 0int,
{
    match suffix {
        SuffixTree::AnonymousCall(args) => in_args(call, args),
        SuffixTree::MethodCall(args) => in_args(call, args),
        SuffixTree::Brackets { index, close } => in_expr(call, index),
        _ => false,
    }
}

/// The call stands inside another call or an index: in its head, or in one of
/// its suffixes.
pub open spec fn in_chain(call: CallTree, chain: CallTree) -> bool
    decreases chain, 0int,
{
    ||| chain.head matches HeadTree::Expression(inner) && in_expr(call, *inner)
    ||| exists|i: int|
        0 <= i < chain.suffixes.len() && in_suffix(call, #[trigger] chain.suffixes[i])
}

/// The call stands in the expression, or is it.
pub open spec fn in_expr(call: CallTree, expr: ExprTree) -> bool
    decreases expr, 0int,
{
    match expr {
        ExprTree::FunctionCall(chain) => call == chain || in_chain(call, chain),
        ExprTree::Index(chain) => in_chain(call, chain),
        ExprTree::Parentheses(inner) => in_expr(call, *inner),
        ExprTree::String(token) => false,
        ExprTree::Function(block) => in_block(call, block),
        ExprTree::Compound(parts) => in_some(call, parts),
    }
}

/// The call stands in one of the expressions.
pub open spec fn in_some(call: CallTree, exprs: Seq<ExprTree>) -> bool
    decreases exprs, 1int,
{
    exists|i: int| 0 <= i < exprs.len() && in_expr(call, #[trigger] exprs[i])
}

/// The call stands in the condition or the block of one of the `elseif`s.
pub open spec fn in_else_ifs(call: CallTree, else_ifs: Seq<ElseIfTree>) -> bool
    decreases else_ifs, 1int,
{
    exists|i: int|
        0 <= i < else_ifs.len() && (in_expr(call, (#[trigger] else_ifs[i]).condition) || in_block(
            call,
            else_ifs[i].block,
        ))
}

/// The call stands in the statement, or is it.
pub open spec fn in_stmt(call: CallTree, stmt: StmtTree) -> bool
    decreases stmt, 0int,
{
    match stmt {
        StmtTree::FunctionCall(chain) => call == chain || in_chain(call, chain),
        StmtTree::LocalAssignment(values) => in_some(call, values),
        StmtTree::Assignment { targets, values } => in_some(call, targets) || in_some(call, values),
        StmtTree::Do(block) => in_block(call, block),
        StmtTree::If { condition, block, else_ifs, else_block } => {
            ||| in_expr(call, condition)
            ||| in_block(call, block)
            ||| in_else_ifs(call, else_ifs)
            ||| else_block matches Some(other) && in_block(call, other)
        },
        StmtTree::While { condition, block } => in_expr(call, condition) || in_block(call, block),
        StmtTree::Repeat { block, until } => in_block(call, block) || in_expr(call, until),
        StmtTree::NumericFor { bounds, block } => in_some(call, bounds) || in_block(call, block),
        StmtTree::GenericFor { values, block } => in_some(call, values) || in_block(call, block),
        StmtTree::Function(block) => in_block(call, block),
        StmtTree::Other => false,
    }
}

/// The call stands in the block: in one of its statements, or in one of the
/// values that it returns.
pub open spec fn in_block(call: CallTree, block: BlockTree) -> bool
    decreases block, 0int,
{
    ||| exists|i: int| 0 <= i < block.stmts.len() && in_stmt(call, #[trigger] block.stmts[i])
    ||| block.return_values matches Some(values) && in_some(call, values)
}

/// A call is among those of two lists together if and only if it is among those
/// of one.
proof fn lemma_either(a: Seq<CallTree>, b: Seq<CallTree>, call: CallTree)
    ensures
        (a + b).contains(call) <==> a.contains(call) || b.contains(call),
{
    if a.contains(call) {
        let i = choose|i: int| 0 <= i < a.len() && a[i] == call;
        assert((a + b)[i] == call);
    }
    if b.contains(call) {
        let i = choose|i: int| 0 <= i < b.len() && b[i] == call;
        assert((a + b)[a.len() + i] == call);
    }
}

proof fn lemma_one(chain: CallTree, call: CallTree)
    ensures
        seq![chain].contains(call) <==> call == chain,
{
    assert(seq![chain][0] == chain);
}

proof fn lemma_args(call: CallTree, args: ArgsTree)
    ensures
        args_calls(args).contains(call) <==> in_args(call, args),
    decreases args, 0int,
{
    match args {
        ArgsTree::Parentheses { arguments, close } => lemma_some(call, arguments),
        ArgsTree::TableConstructor { fields, close } => lemma_some(call, fields),
        _ => {},
    }
}

proof fn lemma_suffix(call: CallTree, suffix: SuffixTree)
    ensures
        suffix_calls(suffix).contains(call) <==> in_suffix(call, suffix),
    decreases suffix, 0int,
{
    match suffix {
        SuffixTree::AnonymousCall(args) => lemma_args(call, args),
        SuffixTree::MethodCall(args) => lemma_args(call, args),
        SuffixTree::Brackets { index, close } => lemma_expr(call, index),
        _ => {},
    }
}

proof fn lemma_suffixes(call: CallTree, suffixes: Seq<SuffixTree>)
    ensures
        suffixes_calls(suffixes).contains(call) <==> exists|i: int|
            0 <= i < suffixes.len() && in_suffix(call, #[trigger] suffixes[i]),
    decreases suffixes, 1int,
{
    if suffixes.len() > 0 {
        let init = suffixes.drop_last();
        let n = init.len() as int;
        lemma_suffixes(call, init);
        lemma_suffix(call, suffixes.last());
        lemma_either(suffixes_calls(init), suffix_calls(suffixes.last()), call);
        assert(suffixes[n] == suffixes.last());
        assert forall|i: int| 0 <= i < n implies init[i] == suffixes[i] by {}
        if exists|i: int| 0 <= i < init.len() && in_suffix(call, #[trigger] init[i]) {
            let i = choose|i: int| 0 <= i < init.len() && in_suffix(call, #[trigger] init[i]);
            assert(in_suffix(call, suffixes[i]));
        }
        if exists|i: int| 0 <= i < suffixes.len() && in_suffix(call, #[trigger] suffixes[i]) {
            let i = choose|i: int|
                0 <= i < suffixes.len() && in_suffix(call, #[trigger] suffixes[i]);
            if i < n {
                assert(in_suffix(call, init[i]));
            }
        }
    }
}

proof fn lemma_chain(call: CallTree, chain: CallTree)
    ensures
        inner_calls(chain).contains(call) <==> in_chain(call, chain),
    decreases chain, 0int,
{
    let head_calls = match chain.head {
        HeadTree::Expression(inner) => expr_calls(*inner),
        _ => seq![],
    };
    if let HeadTree::Expression(inner) = chain.head {
        lemma_expr(call, *inner);
    }
    lemma_suffixes(call, chain.suffixes);
    lemma_either(head_calls, suffixes_calls(chain.suffixes), call);
}

proof fn lemma_expr(call: CallTree, expr: ExprTree)
    ensures
        expr_calls(expr).contains(call) <==> in_expr(call, expr),
    decreases expr, 0int,
{
    match expr {
        ExprTree::FunctionCall(chain) => {
            lemma_chain(call, chain);
            lemma_one(chain, call);
            lemma_either(seq![chain], inner_calls(chain), call);
        },
        ExprTree::Index(chain) => lemma_chain(call, chain),
        ExprTree::Parentheses(inner) => lemma_expr(call, *inner),
        ExprTree::String(token) => {},
        ExprTree::Function(block) => lemma_block(call, block),
        ExprTree::Compound(parts) => lemma_some(call, parts),
    }
}

proof fn lemma_some(call: CallTree, exprs: Seq<ExprTree>)
    ensures
        exprs_calls(exprs).contains(call) <==> in_some(call, exprs),
    decreases exprs, 1int,
{
    if exprs.len() > 0 {
        let init = exprs.drop_last();
        let n = init.len() as int;
        lemma_some(call, init);
        lemma_expr(call, exprs.last());
        lemma_either(exprs_calls(init), expr_calls(exprs.last()), call);
        assert(exprs[n] == exprs.last());
        if in_some(call, init) {
            let i = choose|i: int| 0 <= i < init.len() && in_expr(call, #[trigger] init[i]);
            assert(in_expr(call, exprs[i]));
        }
        if in_some(call, exprs) {
            let i = choose|i: int| 0 <= i < exprs.len() && in_expr(call, #[trigger] exprs[i]);
            if i < n {
                assert(in_expr(call, init[i]));
            }
        }
    }
}

proof fn lemma_else_ifs(call: CallTree, else_ifs: Seq<ElseIfTree>)
    ensures
        else_ifs_calls(else_ifs).contains(call) <==> in_else_ifs(call, else_ifs),
    decreases else_ifs, 1int,
{
    if else_ifs.len() > 0 {
        let init = else_ifs.drop_last();
        let last = else_ifs.last();
        let n = init.len() as int;
        lemma_else_ifs(call, init);
        assert(decreases_to!(else_ifs => last));
        assert(decreases_to!(last => last.condition));
        assert(decreases_to!(last => last.block));
        lemma_expr(call, last.condition);
        lemma_block(call, last.block);
        lemma_either(else_ifs_calls(init), expr_calls(last.condition), call);
        lemma_either(
            else_ifs_calls(init) + expr_calls(last.condition),
            block_calls(last.block),
            call,
        );
        assert(else_ifs[n] == last);
        if in_else_ifs(call, init) {
            let i = choose|i: int|
                0 <= i < init.len() && (in_expr(call, (#[trigger] init[i]).condition) || in_block(
                    call,
                    init[i].block,
                ));
            assert(else_ifs[i] == init[i]);
        }
        if in_else_ifs(call, else_ifs) {
            let i = choose|i: int|
                0 <= i < else_ifs.len() && (in_expr(call, (#[trigger] else_ifs[i]).condition)
                    || in_block(call, else_ifs[i].block));
            if i < n {
                assert(else_ifs[i] == init[i]);
            }
        }
    }
}

proof fn lemma_stmt(call: CallTree, stmt: StmtTree)
    ensures
        stmt_calls(stmt).contains(call) <==> in_stmt(call, stmt),
    decreases stmt, 0int,
{
    match stmt {
        StmtTree::FunctionCall(chain) => {
            lemma_chain(call, chain);
            lemma_one(chain, call);
            lemma_either(seq![chain], inner_calls(chain), call);
        },
        StmtTree::LocalAssignment(values) => lemma_some(call, values),
        StmtTree::Assignment { targets, values } => {
            lemma_some(call, targets);
            lemma_some(call, values);
            lemma_either(exprs_calls(targets), exprs_calls(values), call);
        },
        StmtTree::Do(block) => lemma_block(call, block),
        StmtTree::If { condition, block, else_ifs, else_block } => {
            lemma_expr(call, condition);
            lemma_block(call, block);
            lemma_else_ifs(call, else_ifs);
            let first = expr_calls(condition);
            let second = block_calls(block);
            let third = else_ifs_calls(else_ifs);
            let fourth = match else_block {
                Some(other) => block_calls(other),
                None => seq![],
            };
            if let Some(other) = else_block {
                lemma_block(call, other);
            }
            lemma_either(first, second, call);
            lemma_either(first + second, third, call);
            lemma_either(first + second + third, fourth, call);
        },
        StmtTree::While { condition, block } => {
            lemma_expr(call, condition);
            lemma_block(call, block);
            lemma_either(expr_calls(condition), block_calls(block), call);
        },
        StmtTree::Repeat { block, until } => {
            lemma_block(call, block);
            lemma_expr(call, until);
            lemma_either(block_calls(block), expr_calls(until), call);
        },
        StmtTree::NumericFor { bounds, block } => {
            lemma_some(call, bounds);
            lemma_block(call, block);
            lemma_either(exprs_calls(bounds), block_calls(block), call);
        },
        StmtTree::GenericFor { values, block } => {
            lemma_some(call, values);
            lemma_block(call, block);
            lemma_either(exprs_calls(values), block_calls(block), call);
        },
        StmtTree::Function(block) => lemma_block(call, block),
        StmtTree::Other => {},
    }
}

proof fn lemma_stmts(call: CallTree, stmts: Seq<StmtTree>)
    ensures
        stmts_calls(stmts).contains(call) <==> exists|i: int|
            0 <= i < stmts.len() && in_stmt(call, #[trigger] stmts[i]),
    decreases stmts, 1int,
{
    if stmts.len() > 0 {
        let init = stmts.drop_last();
        let n = init.len() as int;
        lemma_stmts(call, init);
        lemma_stmt(call, stmts.last());
        lemma_either(stmts_calls(init), stmt_calls(stmts.last()), call);
        assert(stmts[n] == stmts.last());
        if exists|i: int| 0 <= i < init.len() && in_stmt(call, #[trigger] init[i]) {
            let i = choose|i: int| 0 <= i < init.len() && in_stmt(call, #[trigger] init[i]);
            assert(in_stmt(call, stmts[i]));
        }
        if exists|i: int| 0 <= i < stmts.len() && in_stmt(call, #[trigger] stmts[i]) {
            let i = choose|i: int| 0 <= i < stmts.len() && in_stmt(call, #[trigger] stmts[i]);
            if i < n {
                assert(in_stmt(call, init[i]));
            }
        }
    }
}

proof fn lemma_block(call: CallTree, block: BlockTree)
    ensures
        block_calls(block).contains(call) <==> in_block(call, block),
    decreases block, 0int,
{
    lemma_stmts(call, block.stmts);
    let values_calls = match block.return_values {
        Some(values) => exprs_calls(values),
        None => seq![],
    };
    if let Some(values) = block.return_values {
        lemma_some(call, values);
    }
    lemma_either(stmts_calls(block.stmts), values_calls, call);
}

/// The walk through a script finds every call that stands in it, at whatever
/// depth, and nothing else.
pub proof fn the_walk_finds_every_call(call: CallTree, block: BlockTree)
    ensures
        block_calls(block).contains(call) <==> in_block(call, block),
{
    lemma_block(call, block);
}

/// So does the walk through a statement, an expression, or a part of a call.
pub proof fn the_walk_finds_every_call_inside(
    call: CallTree,
    stmt: StmtTree,
    expr: ExprTree,
    suffix: SuffixTree,
    args: ArgsTree,
)
    ensures
        stmt_calls(stmt).contains(call) <==> in_stmt(call, stmt),
        expr_calls(expr).contains(call) <==> in_expr(call, expr),
        suffix_calls(suffix).contains(call) <==> in_suffix(call, suffix),
        args_calls(args).contains(call) <==> in_args(call, args),
{
    lemma_stmt(call, stmt);
    lemma_expr(call, expr);
    lemma_suffix(call, suffix);
    lemma_args(call, args);
}

/// A block without a `return`.
pub open spec fn plain_block(stmts: Seq<StmtTree>) -> BlockTree {
    BlockTree { stmts, return_values: None }
}

proof fn lemma_stmts_concat(a: Seq<StmtTree>, b: Seq<StmtTree>)
    ensures
        stmts_calls(a + b) == stmts_calls(a) + stmts_calls(b),
    decreases b.len(),
{
    if b.len() == 0 {
        assert(a + b =~= a);
        assert(stmts_calls(a) + stmts_calls(b) =~= stmts_calls(a));
    } else {
        lemma_stmts_concat(a, b.drop_last());
        assert((a + b).drop_last() =~= a + b.drop_last());
        assert(stmts_calls(a + b) =~= stmts_calls(a) + stmts_calls(b));
    }
}

proof fn lemma_exprs_concat(a: Seq<ExprTree>, b: Seq<ExprTree>)
    ensures
        exprs_calls(a + b) == exprs_calls(a) + exprs_calls(b),
    decreases b.len(),
{
    if b.len() == 0 {
        assert(a + b =~= a);
        assert(exprs_calls(a) + exprs_calls(b) =~= exprs_calls(a));
    } else {
        lemma_exprs_concat(a, b.drop_last());
        assert((a + b).drop_last() =~= a + b.drop_last());
        assert(exprs_calls(a + b) =~= exprs_calls(a) + exprs_calls(b));
    }
}

proof fn lemma_single_expr(expr: ExprTree)
    ensures
        exprs_calls(seq![expr]) == expr_calls(expr),
{
    reveal_with_fuel(exprs_calls, 2);
    assert(seq![expr].drop_last() =~= Seq::<ExprTree>::empty());
    assert(exprs_calls(seq![expr]) =~= expr_calls(expr));
}

proof fn lemma_single_stmt(stmt: StmtTree)
    ensures
        stmts_calls(seq![stmt]) == stmt_calls(stmt),
        block_calls(plain_block(seq![stmt])) == stmt_calls(stmt),
{
    reveal_with_fuel(stmts_calls, 2);
    assert(seq![stmt].drop_last() =~= Seq::<StmtTree>::empty());
    assert(stmts_calls(seq![stmt]) =~= stmt_calls(stmt));
    assert(block_calls(plain_block(seq![stmt])) =~= stmt_calls(stmt));
}

/// Calls come in the order of the statements, each as often as it stands there,
/// and those of the `return` last.
pub proof fn blocks_come_apart(
    a: Seq<StmtTree>,
    b: Seq<StmtTree>,
    values: Seq<ExprTree>,
    stmt: StmtTree,
)
    ensures
        block_calls(plain_block(seq![])).len() == 0,
        block_calls(plain_block(seq![stmt])) == stmt_calls(stmt),
        block_calls(plain_block(a + b)) == block_calls(plain_block(a)) + block_calls(
            plain_block(b),
        ),
        block_calls(BlockTree { stmts: a, return_values: Some(values) }) == block_calls(
            plain_block(a),
        ) + expr_calls(ExprTree::Compound(values)),
{
    lemma_stmts_concat(a, b);
    lemma_single_stmt(stmt);
    assert(block_calls(plain_block(a)) =~= stmts_calls(a));
    assert(block_calls(plain_block(b)) =~= stmts_calls(b));
    assert(block_calls(plain_block(a + b)) =~= stmts_calls(a + b));
}

/// An `if` has the calls of its condition, then of its block, then of its
/// `else`; and an `elseif` is an `if` in an `else`.
pub proof fn ifs_come_apart(
    condition: ExprTree,
    block: BlockTree,
    else_ifs: Seq<ElseIfTree>,
    last: ElseIfTree,
    else_block: Option<BlockTree>,
    other: BlockTree,
)
    ensures
        stmt_calls(
            StmtTree::If { condition, block, else_ifs: seq![], else_block: None },
        ) == expr_calls(condition) + stmt_calls(StmtTree::Do(block)),
        stmt_calls(
            StmtTree::If { condition, block, else_ifs: seq![], else_block: Some(other) },
        ) == stmt_calls(StmtTree::If { condition, block, else_ifs: seq![], else_block: None })
            + stmt_calls(StmtTree::Do(other)),
        stmt_calls(
            StmtTree::If { condition, block, else_ifs: else_ifs.push(last), else_block },
        ) == stmt_calls(
            StmtTree::If {
                condition,
                block,
                else_ifs,
                else_block: Some(
                    plain_block(
                        seq![
                            StmtTree::If {
                                condition: last.condition,
                                block: last.block,
                                else_ifs: seq![],
                                else_block,
                            },
                        ],
                    ),
                ),
            },
        ),
{
    let inner = StmtTree::If {
        condition: last.condition,
        block: last.block,
        else_ifs: seq![],
        else_block,
    };
    lemma_single_stmt(inner);
    assert(else_ifs.push(last).drop_last() =~= else_ifs);
    let nothing = Seq::<CallTree>::empty();
    assert(else_ifs_calls(seq![]) =~= nothing);
    let first = expr_calls(condition) + block_calls(block);
    assert(first + nothing + nothing =~= first);
    assert(first + nothing + block_calls(other) =~= first + nothing + nothing + block_calls(other));
    let before = else_ifs_calls(else_ifs);
    let mine = expr_calls(last.condition) + block_calls(last.block);
    let rest = match else_block {
        Some(other) => block_calls(other),
        None => seq![],
    };
    assert(first + (before + expr_calls(last.condition) + block_calls(last.block)) + rest
        =~= first + before + (mine + nothing + rest));
}

/// The other statements have the calls of their parts, in the order of the
/// parts.
pub proof fn statements_come_apart(
    expr: ExprTree,
    a: Seq<ExprTree>,
    b: Seq<ExprTree>,
    block: BlockTree,
    chain: CallTree,
)
    ensures
        stmt_calls(StmtTree::Do(block)) == block_calls(block),
        stmt_calls(StmtTree::Function(block)) == block_calls(block),
        stmt_calls(StmtTree::FunctionCall(chain)) == expr_calls(ExprTree::FunctionCall(chain)),
        stmt_calls(StmtTree::LocalAssignment(a)) == expr_calls(ExprTree::Compound(a)),
        stmt_calls(StmtTree::Assignment { targets: a, values: b }) == expr_calls(
            ExprTree::Compound(a + b),
        ),
        stmt_calls(StmtTree::While { condition: expr, block }) == expr_calls(expr) + block_calls(
            block,
        ),
        stmt_calls(StmtTree::Repeat { block, until: expr }) == block_calls(block) + expr_calls(
            expr,
        ),
        stmt_calls(StmtTree::NumericFor { bounds: a, block }) == expr_calls(ExprTree::Compound(a))
            + block_calls(block),
        stmt_calls(StmtTree::GenericFor { values: a, block }) == expr_calls(ExprTree::Compound(a))
            + block_calls(block),
        stmt_calls(StmtTree::Other).len() == 0,
{
    lemma_exprs_concat(a, b);
}

/// A call stands before those inside it; those inside are the calls of its
/// head, then of its suffixes in order; and of several expressions the calls
/// follow each other.
pub proof fn expressions_come_apart(
    chain: CallTree,
    suffix: SuffixTree,
    inner: ExprTree,
    a: Seq<ExprTree>,
    b: Seq<ExprTree>,
    token: TokenTree,
    block: BlockTree,
)
    ensures
        expr_calls(ExprTree::FunctionCall(chain)) == seq![chain] + expr_calls(
            ExprTree::Index(chain),
        ),
        expr_calls(ExprTree::Parentheses(Box::new(inner))) == expr_calls(inner),
        expr_calls(ExprTree::String(token)).len() == 0,
        expr_calls(ExprTree::Function(block)) == block_calls(block),
        expr_calls(ExprTree::Compound(seq![])).len() == 0,
        expr_calls(ExprTree::Compound(seq![inner])) == expr_calls(inner),
        expr_calls(ExprTree::Compound(a + b)) == expr_calls(ExprTree::Compound(a)) + expr_calls(
            ExprTree::Compound(b),
        ),
        expr_calls(
            ExprTree::Index(CallTree { head: HeadTree::Name(token), suffixes: seq![] }),
        ).len() == 0,
        expr_calls(
            ExprTree::Index(
                CallTree { head: HeadTree::Expression(Box::new(inner)), suffixes: seq![] },
            ),
        ) == expr_calls(inner),
        expr_calls(ExprTree::Index(CallTree { head: HeadTree::Other, suffixes: seq![] })).len()
            == 0,
        expr_calls(
            ExprTree::Index(
                CallTree { head: chain.head, suffixes: chain.suffixes.push(suffix) },
            ),
        ) == expr_calls(ExprTree::Index(chain)) + (match suffix {
            SuffixTree::AnonymousCall(ArgsTree::Parentheses { arguments, close }) => expr_calls(
                ExprTree::Compound(arguments),
            ),
            SuffixTree::MethodCall(ArgsTree::Parentheses { arguments, close }) => expr_calls(
                ExprTree::Compound(arguments),
            ),
            SuffixTree::AnonymousCall(ArgsTree::TableConstructor { fields, close }) => expr_calls(
                ExprTree::Compound(fields),
            ),
            SuffixTree::MethodCall(ArgsTree::TableConstructor { fields, close }) => expr_calls(
                ExprTree::Compound(fields),
            ),
            SuffixTree::Brackets { index, close } => expr_calls(index),
            _ => seq![],
        }),
{
    reveal_with_fuel(expr_calls, 3);
    lemma_exprs_concat(a, b);
    lemma_single_expr(inner);
    let nothing = Seq::<SuffixTree>::empty();
    let no_calls = Seq::<CallTree>::empty();
    assert(suffixes_calls(nothing) =~= no_calls);
    assert(expr_calls(inner) + no_calls =~= expr_calls(inner));
    assert(no_calls + no_calls =~= no_calls);
    let longer = CallTree { head: chain.head, suffixes: chain.suffixes.push(suffix) };
    assert(longer.suffixes.drop_last() =~= chain.suffixes);
    assert(longer.suffixes.last() == suffix);
    assert(inner_calls(longer) =~= inner_calls(chain) + suffix_calls(suffix));
}

/// The call is `require` of one string literal, in parentheses or alone, and of
/// nothing more; the literal holds `content`, which starts with `@`; and the
/// call goes from `start` to `end`.
pub open spec fn requires_by_alias(
    call: CallTree,
    content: Seq<char>,
    start: usize,
    end: usize,
) -> bool {
    &&& content.len() > 0 && content[0] == '@'
    &&& call.head matches HeadTree::Name(name) && name.text == "require"@ && name.start == start
    &&& exists|literal: TokenTree, close: TokenTree|
        literal.literal == Some(content) && (#[trigger] passes_alone(call.suffixes, literal, close)
            ) && close.end == end
}

/// The one thing that follows the head is a call with this string literal,
/// which is in parentheses and ended by `close`, or stands alone and ends the
/// call itself.
pub open spec fn passes_alone(
    suffixes: Seq<SuffixTree>,
    literal: TokenTree,
    close: TokenTree,
) -> bool {
    ||| suffixes == seq![
        SuffixTree::AnonymousCall(
            ArgsTree::Parentheses { arguments: seq![ExprTree::String(literal)], close },
        ),
    ]
    ||| close == literal && suffixes == seq![
        SuffixTree::AnonymousCall(ArgsTree::String(literal)),
    ]
}

/// A call is a site if and only if it requires something by an alias, whatever
/// the alias is, and the site is what it requires and where it goes from and
/// to.
pub proof fn alias_calls_are_sites(call: CallTree, site: SiteView)
    ensures
        call_site(call) == Some(site) <==> requires_by_alias(
            call,
            site.content,
            site.start,
            site.end,
        ),
{
    if call_site(call) == Some(site) {
        match call.suffixes[0] {
            SuffixTree::AnonymousCall(ArgsTree::Parentheses { arguments, close }) => {
                let literal = arguments[0]->String_0;
                assert(arguments =~= seq![ExprTree::String(literal)]);
                assert(call.suffixes =~= seq![
                    SuffixTree::AnonymousCall(
                        ArgsTree::Parentheses {
                            arguments: seq![ExprTree::String(literal)],
                            close,
                        },
                    ),
                ]);
                assert(passes_alone(call.suffixes, literal, close));
            },
            SuffixTree::AnonymousCall(ArgsTree::String(token)) => {
                assert(call.suffixes =~= seq![SuffixTree::AnonymousCall(ArgsTree::String(token))]);
                assert(passes_alone(call.suffixes, token, token));
            },
            _ => {},
        }
    }
    if requires_by_alias(call, site.content, site.start, site.end) {
        let (literal, close) = choose|literal: TokenTree, close: TokenTree|
            literal.literal == Some(site.content) && (#[trigger] passes_alone(
                call.suffixes,
                literal,
                close,
            )) && close.end == site.end;
        assert(call.suffixes.len() == 1 && call.suffixes.last() == call.suffixes[0]);
        assert(call_site(call)->0 =~= site);
    }
}

/// The sites of a script are those of the calls that stand in it and require
/// something by an alias: all of them, and no others.
pub proof fn sites_are_the_alias_calls(block: BlockTree, site: SiteView)
    ensures
        block_sites(block).contains(site) <==> exists|call: CallTree| #[trigger]
            in_block(call, block) && requires_by_alias(call, site.content, site.start, site.end),
{
    let calls = block_calls(block);
    lemma_calls_with_site(calls, site);
    if block_sites(block).contains(site) {
        let i = choose|i: int| 0 <= i < calls.len() && call_site(#[trigger] calls[i]) == Some(site);
        the_walk_finds_every_call(calls[i], block);
        alias_calls_are_sites(calls[i], site);
        assert(calls.contains(calls[i]));
        assert(in_block(calls[i], block));
    }
    if exists|call: CallTree| #[trigger]
        in_block(call, block) && requires_by_alias(call, site.content, site.start, site.end) {
        let call = choose|call: CallTree| #[trigger]
            in_block(call, block) && requires_by_alias(call, site.content, site.start, site.end);
        the_walk_finds_every_call(call, block);
        alias_calls_are_sites(call, site);
        let i = choose|i: int| 0 <= i < calls.len() && calls[i] == call;
        assert(call_site(calls[i]) == Some(site));
    }
}

proof fn lemma_calls_with_site(calls: Seq<CallTree>, site: SiteView)
    ensures
        calls_sites(calls).contains(site) <==> exists|i: int|
            0 <= i < calls.len() && call_site(#[trigger] calls[i]) == Some(site),
    decreases calls.len(),
{
    if calls.len() > 0 {
        let init = calls.drop_last();
        let before = calls_sites(init);
        let all = calls_sites(calls);
        lemma_calls_with_site(init, site);
        assert(calls[calls.len() - 1] == calls.last());
        if all.contains(site) {
            let k = choose|k: int| 0 <= k < all.len() && all[k] == site;
            if k < before.len() {
                assert(before[k] == site);
                let i = choose|i: int|
                    0 <= i < init.len() && call_site(#[trigger] init[i]) == Some(site);
                assert(calls[i] == init[i]);
            }
        }
        if exists|i: int| 0 <= i < calls.len() && call_site(#[trigger] calls[i]) == Some(site) {
            let i = choose|i: int|
                0 <= i < calls.len() && call_site(#[trigger] calls[i]) == Some(site);
            if i < init.len() {
                assert(calls[i] == init[i]);
                let k = choose|k: int| 0 <= k < before.len() && before[k] == site;
                assert(all[k] == site);
            } else {
                assert(all[before.len() as int] == site);
            }
        }
    }
}

/// Sites come in the order of the calls, and one call has one site at most.
pub proof fn sites_follow_the_calls(a: Seq<CallTree>, b: Seq<CallTree>, call: CallTree)
    ensures
        calls_sites(a + b) == calls_sites(a) + calls_sites(b),
        calls_sites(seq![call]) == (match call_site(call) {
            Some(site) => seq![site],
            None => seq![],
        }),
{
    lemma_calls_sites_concat(a, b);
    reveal_with_fuel(calls_sites, 2);
    assert(seq![call].drop_last() =~= Seq::<CallTree>::empty());
}

/// A call starts where the name at its head starts; what starts with anything
/// else has no start of its own.
pub proof fn calls_start_at_their_name(
    name: TokenTree,
    inner: ExprTree,
    suffixes: Seq<SuffixTree>,
)
    ensures
        call_start(CallTree { head: HeadTree::Name(name), suffixes }) == name.start,
        call_start(CallTree { head: HeadTree::Expression(Box::new(inner)), suffixes }) == 0,
        call_start(CallTree { head: HeadTree::Other, suffixes }) == 0,
{
}

/// A call ends where the last token of its last suffix ends, whatever stands
/// before.
pub proof fn calls_end_at_their_last_token(
    head: HeadTree,
    suffixes: Seq<SuffixTree>,
    suffix: SuffixTree,
    args: ArgsTree,
    exprs: Seq<ExprTree>,
    index: ExprTree,
    last: TokenTree,
)
    ensures
        call_end(CallTree { head, suffixes: suffixes.push(suffix) }) == suffix_end(suffix),
        call_end(CallTree { head, suffixes: seq![] }) == 0,
        suffix_end(SuffixTree::AnonymousCall(args)) == args_end(args),
        suffix_end(SuffixTree::MethodCall(args)) == args_end(args),
        suffix_end(SuffixTree::Brackets { index, close: last }) == last.end,
        suffix_end(SuffixTree::Dot { name: last }) == last.end,
        suffix_end(SuffixTree::Other) == 0,
        args_end(ArgsTree::Parentheses { arguments: exprs, close: last }) == last.end,
        args_end(ArgsTree::TableConstructor { fields: exprs, close: last }) == last.end,
        args_end(ArgsTree::String(last)) == last.end,
        args_end(ArgsTree::Other) == 0,
{
}

/// A string literal gives what it holds, and no other expression gives a
/// string.
pub proof fn strings_are_literals(token: TokenTree, other: ExprTree)
    requires
        !(other is String),
    ensures
        expr_string(ExprTree::String(token)) == token.literal,
        expr_string(other) == None::<Seq<char>>,
{
}

} // verus!
