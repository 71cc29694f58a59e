//! Finding the `require` calls with an alias in a Luau syntax tree.
//!
//! All calls that a script can make are looked at, wherever they stand:
//! statements, values, conditions, arguments, table fields and function bodies.
//! Types are not. A call counts if it is `require` with one string literal and
//! nothing follows it.
use vstd::prelude::*;
use vstd::utf8::encode_utf8;
use vstd::utf8::is_char_boundary;
use crate::syntax::else_if_trees;
use crate::syntax::expr_trees;
use crate::syntax::stmt_trees;
use crate::syntax::suffix_trees;
use crate::syntax::ArgsTree;
use crate::syntax::BlockTree;
use crate::syntax::CallTree;
use crate::syntax::ElseIfTree;
use crate::syntax::ExprTree;
use crate::syntax::HeadTree;
use crate::syntax::LuauArgs;
use crate::syntax::LuauBlock;
use crate::syntax::LuauCall;
use crate::syntax::LuauElseIf;
use crate::syntax::LuauExpr;
use crate::syntax::LuauHead;
use crate::syntax::LuauStmt;
use crate::syntax::LuauSuffix;
use crate::syntax::LuauToken;
use crate::syntax::StmtTree;
use crate::syntax::SuffixTree;
use crate::syntax::TokenTree;
use crate::text::same_text;
use crate::text::starts_with_char;

verus! {

/// A `require` call with an alias: what it requires, and the byte offsets at
/// which the call starts and ends.
#[derive(Debug)]
pub struct RequireSite {
    pub content: String,
    pub start: usize,
    pub end: usize,
}

/// The model of a [`RequireSite`].
#[verifier::ext_equal]
pub struct SiteView {
    pub content: Seq<char>,
    pub start: usize,
    pub end: usize,
}

impl View for RequireSite {
    type V = SiteView;

    open spec fn view(&self) -> SiteView {
        SiteView { content: self.content@, start: self.start, end: self.end }
    }
}

/// The models of a list of sites.
pub open spec fn site_views(sites: Seq<RequireSite>) -> Seq<SiteView> {
    Seq::new(sites.len(), |i: int| sites[i]@)
}

/// Where arguments end; 0 for a form that is not known.
pub open spec fn args_end(args: ArgsTree) -> usize {
    match args {
        ArgsTree::Parentheses { arguments, close } => close.end,
        ArgsTree::String(token) => token.end,
        ArgsTree::TableConstructor { fields, close } => close.end,
        ArgsTree::Other => 0,
    }
}

/// Where a suffix ends; 0 for a form that is not known.
pub open spec fn suffix_end(suffix: SuffixTree) -> usize {
    match suffix {
        SuffixTree::AnonymousCall(args) => args_end(args),
        SuffixTree::MethodCall(args) => args_end(args),
        SuffixTree::Brackets { index, close } => close.end,
        SuffixTree::Dot { name } => name.end,
        SuffixTree::Other => 0,
    }
}

/// Where a call starts; 0 if it does not start with a name.
pub open spec fn call_start(call: CallTree) -> usize {
    match call.head {
        HeadTree::Name(token) => token.start,
        _ => 0,
    }
}

/// Where a call ends; 0 if nothing follows its head.
pub open spec fn call_end(call: CallTree) -> usize {
    if call.suffixes.len() > 0 {
        suffix_end(call.suffixes.last())
    } else {
        0
    }
}

/// The contents of an expression that is a string literal.
pub open spec fn expr_string(expr: ExprTree) -> Option<Seq<char>> {
    match expr {
        ExprTree::String(token) => token.literal,
        _ => None,
    }
}

/// The one string literal that a suffix passes to what it calls.
pub open spec fn passed_string(suffix: SuffixTree) -> Option<Seq<char>> {
    match suffix {
        SuffixTree::AnonymousCall(ArgsTree::Parentheses { arguments, close }) => if arguments.len()
            == 1 {
            expr_string(arguments[0])
        } else {
            None
        },
        SuffixTree::AnonymousCall(ArgsTree::String(token)) => token.literal,
        _ => None,
    }
}

/// The text names something by an alias: it starts with `@`.
pub open spec fn is_alias_text(text: Seq<char>) -> bool {
    text.len() > 0 && text[0] == '@'
}

/// The site of a call, if the call is `require` with an alias and nothing
/// more.
pub open spec fn call_site(call: CallTree) -> Option<SiteView> {
    if (call.head matches HeadTree::Name(token) && token.text == "require"@) && call.suffixes.len()
        == 1 {
        match passed_string(call.suffixes[0]) {
            Some(content) => if is_alias_text(content) {
                Some(SiteView { content, start: call_start(call), end: call_end(call) })
            } else {
                None
            },
            None => None,
        }
    } else {
        None
    }
}

/// A call's site as a list of at most one.
pub open spec fn call_sites(call: CallTree) -> Seq<SiteView> {
    match call_site(call) {
        Some(site) => seq![site],
        None => seq![],
    }
}

/// The sites of a list of calls, in order.
pub open spec fn calls_sites(calls: Seq<CallTree>) -> Seq<SiteView>
    decreases calls.len(),
{
    if calls.len() == 0 {
        seq![]
    } else {
        calls_sites(calls.drop_last()) + call_sites(calls.last())
    }
}

/// The calls in the arguments of a call.
pub open spec fn args_calls(args: ArgsTree) -> Seq<CallTree>
    decreases args, 0int,
{
    match args {
        ArgsTree::Parentheses { arguments, close } => exprs_calls(arguments),
        ArgsTree::TableConstructor { fields, close } => exprs_calls(fields),
        _ => seq![],
    }
}

/// The calls in a suffix.
pub open spec fn suffix_calls(suffix: SuffixTree) -> Seq<CallTree>
    decreases suffix, 0int,
{
    match suffix {
        SuffixTree::AnonymousCall(args) => args_calls(args),
        SuffixTree::MethodCall(args) => args_calls(args),
        SuffixTree::Brackets { index, close } => expr_calls(index),
        _ => seq![],
    }
}

/// The calls in a list of suffixes, in order.
pub open spec fn suffixes_calls(suffixes: Seq<SuffixTree>) -> Seq<CallTree>
    decreases suffixes, 1int,
{
    if suffixes.len() == 0 {
        seq![]
    } else {
        suffixes_calls(suffixes.drop_last()) + suffix_calls(suffixes.last())
    }
}

/// The calls inside a call or an index: those of its head, then those of its
/// suffixes.
pub open spec fn inner_calls(call: CallTree) -> Seq<CallTree>
    decreases call, 0int,
{
    let head_calls = match call.head {
        HeadTree::Expression(inner) => expr_calls(*inner),
        _ => seq![],
    };
    head_calls + suffixes_calls(call.suffixes)
}

/// The calls in an expression: a call stands before those inside it.
pub open spec fn expr_calls(expr: ExprTree) -> Seq<CallTree>
    decreases expr, 0int,
{
    match expr {
        ExprTree::FunctionCall(call) => seq![call] + inner_calls(call),
        ExprTree::Index(call) => inner_calls(call),
        ExprTree::Parentheses(inner) => expr_calls(*inner),
        ExprTree::String(token) => seq![],
        ExprTree::Function(block) => block_calls(block),
        ExprTree::Compound(parts) => exprs_calls(parts),
    }
}

/// The calls in a list of expressions, in order.
pub open spec fn exprs_calls(exprs: Seq<ExprTree>) -> Seq<CallTree>
    decreases exprs, 1int,
{
    if exprs.len() == 0 {
        seq![]
    } else {
        exprs_calls(exprs.drop_last()) + expr_calls(exprs.last())
    }
}

/// The calls in a list of `elseif`s, in order.
pub open spec fn else_ifs_calls(else_ifs: Seq<ElseIfTree>) -> Seq<CallTree>
    decreases else_ifs, 1int,
{
    if else_ifs.len() == 0 {
        seq![]
    } else {
        else_ifs_calls(else_ifs.drop_last()) + expr_calls(else_ifs.last().condition) + block_calls(
            else_ifs.last().block,
        )
    }
}

/// The calls in a statement, part by part as its parts follow each other.
pub open spec fn stmt_calls(stmt: StmtTree) -> Seq<CallTree>
    decreases stmt, 0int,
{
    match stmt {
        StmtTree::FunctionCall(call) => seq![call] + inner_calls(call),
        StmtTree::LocalAssignment(values) => exprs_calls(values),
        StmtTree::Assignment { targets, values } => exprs_calls(targets) + exprs_calls(values),
        StmtTree::Do(block) => block_calls(block),
        StmtTree::If { condition, block, else_ifs, else_block } => expr_calls(condition)
            + block_calls(block) + else_ifs_calls(else_ifs) + match else_block {
            Some(block) => block_calls(block),
            None => seq![],
        },
        StmtTree::While { condition, block } => expr_calls(condition) + block_calls(block),
        StmtTree::Repeat { block, until } => block_calls(block) + expr_calls(until),
        StmtTree::NumericFor { bounds, block } => exprs_calls(bounds) + block_calls(block),
        StmtTree::GenericFor { values, block } => exprs_calls(values) + block_calls(block),
        StmtTree::Function(block) => block_calls(block),
        StmtTree::Other => seq![],
    }
}

/// The calls in a list of statements, in order.
pub open spec fn stmts_calls(stmts: Seq<StmtTree>) -> Seq<CallTree>
    decreases stmts, 1int,
{
    if stmts.len() == 0 {
        seq![]
    } else {
        stmts_calls(stmts.drop_last()) + stmt_calls(stmts.last())
    }
}

/// The calls in a block: those of its statements, then those of the values it
/// returns.
pub open spec fn block_calls(block: BlockTree) -> Seq<CallTree>
    decreases block, 0int,
{
    stmts_calls(block.stmts) + match block.return_values {
        Some(values) => exprs_calls(values),
        None => seq![],
    }
}

/// The sites in a block.
pub open spec fn block_sites(block: BlockTree) -> Seq<SiteView> {
    calls_sites(block_calls(block))
}

/// A call of a name with one string literal and nothing more.
pub open spec fn is_literal_call(call: CallTree) -> bool {
    call.head is Name && call.suffixes.len() == 1 && passed_string(call.suffixes[0]) is Some
}

/// The token that ends arguments in parentheses, or a string literal that
/// stands alone.
pub open spec fn closing_token(args: ArgsTree) -> Option<TokenTree> {
    match args {
        ArgsTree::Parentheses { arguments, close } => Some(close),
        ArgsTree::String(token) => Some(token),
        _ => None,
    }
}

/// The token that ends a call of a name, or of a method of a name, with
/// arguments in parentheses or a string literal that stands alone, where
/// nothing follows: the closing parenthesis, or the literal.
pub open spec fn call_closing(call: CallTree) -> Option<TokenTree> {
    if call.head is Name && call.suffixes.len() == 1 {
        match call.suffixes[0] {
            SuffixTree::AnonymousCall(args) => closing_token(args),
            SuffixTree::MethodCall(args) => closing_token(args),
            _ => None,
        }
    } else {
        None
    }
}

/// The text of the token stands in the source, between its two offsets.
pub open spec fn token_lies(bytes: Seq<u8>, token: TokenTree) -> bool {
    &&& token.start < token.end <= bytes.len()
    &&& is_char_boundary(bytes, token.start as int)
    &&& is_char_boundary(bytes, token.end as int)
    &&& bytes.subrange(token.start as int, token.end as int) == encode_utf8(token.text)
}

/// Of the calls of a name that end in a parenthesis or a string literal, each
/// lies in the source, its name before what ends it; and of those with one
/// string literal, no two overlap.
pub open spec fn calls_lie_apart(bytes: Seq<u8>, calls: Seq<CallTree>) -> bool {
    &&& forall|i: int|
        0 <= i < calls.len() ==> (call_closing(#[trigger] calls[i]) matches Some(close) ==> {
            &&& token_lies(bytes, calls[i].head->Name_0)
            &&& token_lies(bytes, close)
            &&& calls[i].head->Name_0.end <= close.start
        })
    &&& forall|i: int, j: int|
        0 <= i < calls.len() && 0 <= j < calls.len() && i != j && is_literal_call(
            #[trigger] calls[i],
        ) && is_literal_call(#[trigger] calls[j]) ==> call_end(calls[i]) <= call_start(calls[j])
            || call_end(calls[j]) <= call_start(calls[i])
}

/// The sites of two lists of calls are those of the first, then those of the
/// second.
pub proof fn lemma_calls_sites_concat(a: Seq<CallTree>, b: Seq<CallTree>)
    ensures
        calls_sites(a + b) == calls_sites(a) + calls_sites(b),
    decreases b.len(),
{
    if b.len() == 0 {
        assert(a + b =~= a);
        assert(calls_sites(a) + calls_sites(b) =~= calls_sites(a));
    } else {
        lemma_calls_sites_concat(a, b.drop_last());
        assert((a + b).drop_last() =~= a + b.drop_last());
        assert((a + b).last() == b.last());
        assert(calls_sites(a + b) =~= calls_sites(a) + calls_sites(b));
    }
}

/// Every site requires something by an alias.
pub proof fn lemma_sites_are_aliases(calls: Seq<CallTree>)
    ensures
        forall|i: int|
            0 <= i < calls_sites(calls).len() ==> is_alias_text(
                (#[trigger] calls_sites(calls)[i]).content,
            ),
    decreases calls.len(),
{
    if calls.len() > 0 {
        lemma_sites_are_aliases(calls.drop_last());
        let before = calls_sites(calls.drop_last());
        assert forall|i: int| 0 <= i < calls_sites(calls).len() implies is_alias_text(
            (#[trigger] calls_sites(calls)[i]).content,
        ) by {
            if i < before.len() {
                assert(calls_sites(calls)[i] == before[i]);
            }
        }
    }
}

/// Sites that are added for one list of calls after the other are those of
/// both.
proof fn lemma_added_in_turn(before: Seq<SiteView>, a: Seq<CallTree>, b: Seq<CallTree>)
    ensures
        before + calls_sites(a) + calls_sites(b) == before + calls_sites(a + b),
{
    lemma_calls_sites_concat(a, b);
    assert(before + calls_sites(a) + calls_sites(b) =~= before + (calls_sites(a) + calls_sites(b)));
}

proof fn lemma_one_call(call: CallTree)
    ensures
        calls_sites(seq![call]) == call_sites(call),
{
    reveal_with_fuel(calls_sites, 2);
    assert(seq![call].drop_last() =~= Seq::<CallTree>::empty());
    assert(calls_sites(seq![call]) =~= call_sites(call));
}

/// The byte offset at which a token ends.
pub fn token_end(token: &LuauToken) -> (res: usize)
    ensures
        res == token@.end,
{
    token.end
}

/// The byte offset at which arguments end.
pub fn func_args_byte_end(args: &LuauArgs) -> (res: usize)
    ensures
        res == args_end(args.tree()),
{
    match args {
        LuauArgs::Parentheses { close, .. } => token_end(close),
        LuauArgs::String(token) => token_end(token),
        LuauArgs::TableConstructor { close, .. } => token_end(close),
        LuauArgs::Other => 0,
    }
}

/// The byte offset at which a suffix ends.
pub fn suffix_byte_end(suffix: &LuauSuffix) -> (res: usize)
    ensures
        res == suffix_end(suffix.tree()),
{
    match suffix {
        LuauSuffix::AnonymousCall(args) => func_args_byte_end(args),
        LuauSuffix::MethodCall(args) => func_args_byte_end(args),
        LuauSuffix::Brackets { close, .. } => token_end(close),
        LuauSuffix::Dot { name } => token_end(name),
        LuauSuffix::Other => 0,
    }
}

/// The byte offset at which a call ends.
pub fn call_byte_end(call: &LuauCall) -> (res: usize)
    ensures
        res == call_end(call.tree()),
{
    if call.suffixes.len() > 0 {
        suffix_byte_end(&call.suffixes[call.suffixes.len() - 1])
    } else {
        0
    }
}

/// The byte offset at which a call starts.
pub fn call_byte_start(call: &LuauCall) -> (res: usize)
    ensures
        res == call_start(call.tree()),
{
    match &call.head {
        LuauHead::Name(token) => token.start,
        _ => 0,
    }
}

/// The contents of a token that is a string literal.
pub fn extract_string_from_token(token: &LuauToken) -> (res: Option<String>)
    ensures
        (match res {
            Some(content) => token@.literal == Some(content@),
            None => token@.literal is None,
        }),
{
    match &token.literal {
        Some(literal) => Some(literal.clone()),
        None => None,
    }
}

/// The contents of an expression that is a string literal.
pub fn extract_string_from_expr(expr: &LuauExpr) -> (res: Option<String>)
    ensures
        (match res {
            Some(content) => expr_string(expr.tree()) == Some(content@),
            None => expr_string(expr.tree()) is None,
        }),
{
    match expr {
        LuauExpr::String(token) => extract_string_from_token(token),
        _ => None,
    }
}

/// Adds the site of a call, if it is `require` with an alias and nothing more.
pub fn check_function_call(call: &LuauCall, sites: &mut Vec<RequireSite>)
    ensures
        site_views(final(sites)@) == site_views(old(sites)@) + call_sites(call.tree()),
{
    let ghost before = site_views(sites@);
    let is_require = match &call.head {
        LuauHead::Name(token) => same_text(token.text.as_str(), "require"),
        _ => false,
    };
    if !is_require || call.suffixes.len() != 1 {
        assert(site_views(sites@) =~= before + call_sites(call.tree()));
        return ;
    }
    assert(call.tree().suffixes[0] == call.suffixes@[0].tree());
    let content = match &call.suffixes[0] {
        LuauSuffix::AnonymousCall(LuauArgs::Parentheses { arguments, .. }) => {
            if arguments.len() == 1 {
                assert(expr_trees(arguments@)[0] == arguments@[0].tree());
                extract_string_from_expr(&arguments[0])
            } else {
                None
            }
        },
        LuauSuffix::AnonymousCall(LuauArgs::String(token)) => extract_string_from_token(token),
        _ => None,
    };
    if let Some(content) = content {
        if starts_with_char(content.as_str(), '@') {
            let site = RequireSite {
                content,
                start: call_byte_start(call),
                end: call_byte_end(call),
            };
            sites.push(site);
        }
    }
    assert(site_views(sites@) =~= before + call_sites(call.tree()));
}

/// Adds the sites in the arguments of a call.
pub fn visit_args(args: &LuauArgs, sites: &mut Vec<RequireSite>)
    ensures
        site_views(final(sites)@) == site_views(old(sites)@) + calls_sites(args_calls(args.tree())),
    decreases args, 0int,
{
    match args {
        LuauArgs::Parentheses { arguments, .. } => {
            visit_exprs(arguments, sites);
        },
        LuauArgs::TableConstructor { fields, .. } => {
            visit_exprs(fields, sites);
        },
        _ => {
            assert(site_views(sites@) =~= site_views(sites@) + calls_sites(args_calls(args.tree())));
        },
    }
}

/// Adds the sites in a suffix.
pub fn visit_suffix(suffix: &LuauSuffix, sites: &mut Vec<RequireSite>)
    ensures
        site_views(final(sites)@) == site_views(old(sites)@) + calls_sites(
            suffix_calls(suffix.tree()),
        ),
    decreases suffix, 0int,
{
    match suffix {
        LuauSuffix::AnonymousCall(args) => {
            visit_args(args, sites);
        },
        LuauSuffix::MethodCall(args) => {
            visit_args(args, sites);
        },
        LuauSuffix::Brackets { index, .. } => {
            visit_expr(index, sites);
        },
        _ => {
            assert(site_views(sites@) =~= site_views(sites@) + calls_sites(
                suffix_calls(suffix.tree()),
            ));
        },
    }
}

/// Adds the sites inside a call or an index, but not that of the call itself.
pub fn visit_inner(call: &LuauCall, sites: &mut Vec<RequireSite>)
    ensures
        site_views(final(sites)@) == site_views(old(sites)@) + calls_sites(
            inner_calls(call.tree()),
        ),
    decreases call, 0int,
{
    let ghost before = site_views(sites@);
    let ghost head_calls = match call.tree().head {
        HeadTree::Expression(inner) => expr_calls(*inner),
        _ => seq![],
    };
    if let LuauHead::Expression(inner) = &call.head {
        visit_expr(inner, sites);
    }
    let ghost behind_head = site_views(sites@);
    assert(behind_head =~= before + calls_sites(head_calls));
    let ghost trees = suffix_trees(call.suffixes@);
    assert(behind_head =~= behind_head + calls_sites(suffixes_calls(trees.take(0))));
    for i in 0..call.suffixes.len()
        invariant
            trees == suffix_trees(call.suffixes@),
            site_views(sites@) == behind_head + calls_sites(suffixes_calls(trees.take(i as int))),
    {
        visit_suffix(&call.suffixes[i], sites);
        proof {
            assert(trees.take(i + 1).drop_last() =~= trees.take(i as int));
            assert(trees.take(i + 1).last() == call.suffixes@[i as int].tree());
            lemma_added_in_turn(
                behind_head,
                suffixes_calls(trees.take(i as int)),
                suffix_calls(trees[i as int]),
            );
        }
    }
    assert(trees.take(trees.len() as int) =~= trees);
    proof {
        lemma_added_in_turn(before, head_calls, suffixes_calls(trees));
    }
}

/// Adds the sites of a call and of the calls inside it.
pub fn visit_call(call: &LuauCall, sites: &mut Vec<RequireSite>)
    ensures
        site_views(final(sites)@) == site_views(old(sites)@) + calls_sites(
            seq![call.tree()] + inner_calls(call.tree()),
        ),
    decreases call, 1int,
{
    let ghost before = site_views(sites@);
    check_function_call(call, sites);
    visit_inner(call, sites);
    proof {
        lemma_one_call(call.tree());
        lemma_added_in_turn(before, seq![call.tree()], inner_calls(call.tree()));
    }
}

/// Adds the sites in an expression.
pub fn visit_expr(expr: &LuauExpr, sites: &mut Vec<RequireSite>)
    ensures
        site_views(final(sites)@) == site_views(old(sites)@) + calls_sites(expr_calls(expr.tree())),
    decreases expr, 0int,
{
    match expr {
        LuauExpr::FunctionCall(call) => {
            visit_call(call, sites);
        },
        LuauExpr::Index(call) => {
            visit_inner(call, sites);
        },
        LuauExpr::Parentheses(inner) => {
            visit_expr(inner, sites);
        },
        LuauExpr::String(_) => {
            assert(site_views(sites@) =~= site_views(sites@) + calls_sites(expr_calls(expr.tree())));
        },
        LuauExpr::Function(block) => {
            visit_block(block, sites);
        },
        LuauExpr::Compound(parts) => {
            visit_exprs(parts, sites);
        },
    }
}

/// Adds the sites in a list of expressions, in order.
pub fn visit_exprs(exprs: &Vec<LuauExpr>, sites: &mut Vec<RequireSite>)
    ensures
        site_views(final(sites)@) == site_views(old(sites)@) + calls_sites(
            exprs_calls(expr_trees(exprs@)),
        ),
    decreases exprs@, 0int,
{
    let ghost before = site_views(sites@);
    let ghost trees = expr_trees(exprs@);
    assert(before =~= before + calls_sites(exprs_calls(trees.take(0))));
    for i in 0..exprs.len()
        invariant
            trees == expr_trees(exprs@),
            site_views(sites@) == before + calls_sites(exprs_calls(trees.take(i as int))),
    {
        visit_expr(&exprs[i], sites);
        proof {
            assert(trees.take(i + 1).drop_last() =~= trees.take(i as int));
            assert(trees.take(i + 1).last() == exprs@[i as int].tree());
            lemma_added_in_turn(
                before,
                exprs_calls(trees.take(i as int)),
                expr_calls(trees[i as int]),
            );
        }
    }
    assert(trees.take(trees.len() as int) =~= trees);
}

/// Adds the sites in a list of `elseif`s, in order.
pub fn visit_else_ifs(else_ifs: &Vec<LuauElseIf>, sites: &mut Vec<RequireSite>)
    ensures
        site_views(final(sites)@) == site_views(old(sites)@) + calls_sites(
            else_ifs_calls(else_if_trees(else_ifs@)),
        ),
    decreases else_ifs@, 0int,
{
    let ghost before = site_views(sites@);
    let ghost trees = else_if_trees(else_ifs@);
    assert(before =~= before + calls_sites(else_ifs_calls(trees.take(0))));
    for i in 0..else_ifs.len()
        invariant
            trees == else_if_trees(else_ifs@),
            site_views(sites@) == before + calls_sites(else_ifs_calls(trees.take(i as int))),
    {
        visit_expr(&else_ifs[i].condition, sites);
        visit_block(&else_ifs[i].block, sites);
        proof {
            assert(trees.take(i + 1).drop_last() =~= trees.take(i as int));
            assert(trees.take(i + 1).last() == else_ifs@[i as int].tree());
            let so_far = else_ifs_calls(trees.take(i as int));
            let condition = expr_calls(trees[i as int].condition);
            lemma_added_in_turn(before, so_far, condition);
            lemma_added_in_turn(before, so_far + condition, block_calls(trees[i as int].block));
        }
    }
    assert(trees.take(trees.len() as int) =~= trees);
}

/// Adds the sites in a statement.
pub fn visit_stmt(stmt: &LuauStmt, sites: &mut Vec<RequireSite>)
    ensures
        site_views(final(sites)@) == site_views(old(sites)@) + calls_sites(stmt_calls(stmt.tree())),
    decreases stmt, 0int,
{
    let ghost before = site_views(sites@);
    match stmt {
        LuauStmt::FunctionCall(call) => {
            visit_call(call, sites);
        },
        LuauStmt::LocalAssignment(values) => {
            visit_exprs(values, sites);
        },
        LuauStmt::Assignment { targets, values } => {
            visit_exprs(targets, sites);
            visit_exprs(values, sites);
            proof {
                lemma_added_in_turn(
                    before,
                    exprs_calls(expr_trees(targets@)),
                    exprs_calls(expr_trees(values@)),
                );
            }
        },
        LuauStmt::Do(block) => {
            visit_block(block, sites);
        },
        LuauStmt::If { condition, block, else_ifs, else_block } => {
            visit_expr(condition, sites);
            visit_block(block, sites);
            visit_else_ifs(else_ifs, sites);
            let ghost first = expr_calls(condition.tree());
            let ghost second = block_calls(block.tree());
            let ghost third = else_ifs_calls(else_if_trees(else_ifs@));
            proof {
                lemma_added_in_turn(before, first, second);
                lemma_added_in_turn(before, first + second, third);
            }
            if let Some(else_block) = else_block {
                visit_block(else_block, sites);
                proof {
                    lemma_added_in_turn(
                        before,
                        first + second + third,
                        block_calls(else_block.tree()),
                    );
                }
            } else {
                assert(first + second + third + Seq::<CallTree>::empty() =~= first + second + third);
            }
        },
        LuauStmt::While { condition, block } => {
            visit_expr(condition, sites);
            visit_block(block, sites);
            proof {
                lemma_added_in_turn(before, expr_calls(condition.tree()), block_calls(block.tree()));
            }
        },
        LuauStmt::Repeat { block, until } => {
            visit_block(block, sites);
            visit_expr(until, sites);
            proof {
                lemma_added_in_turn(before, block_calls(block.tree()), expr_calls(until.tree()));
            }
        },
        LuauStmt::NumericFor { bounds, block } => {
            visit_exprs(bounds, sites);
            visit_block(block, sites);
            proof {
                lemma_added_in_turn(
                    before,
                    exprs_calls(expr_trees(bounds@)),
                    block_calls(block.tree()),
                );
            }
        },
        LuauStmt::GenericFor { values, block } => {
            visit_exprs(values, sites);
            visit_block(block, sites);
            proof {
                lemma_added_in_turn(
                    before,
                    exprs_calls(expr_trees(values@)),
                    block_calls(block.tree()),
                );
            }
        },
        LuauStmt::Function(block) => {
            visit_block(block, sites);
        },
        LuauStmt::Other => {
            assert(before =~= before + calls_sites(stmt_calls(stmt.tree())));
        },
    }
}

/// Adds the sites in a block: those of its statements in order, then those of
/// the values it returns.
pub fn visit_block(block: &LuauBlock, sites: &mut Vec<RequireSite>)
    ensures
        site_views(final(sites)@) == site_views(old(sites)@) + block_sites(block.tree()),
    decreases block, 0int,
{
    let ghost before = site_views(sites@);
    let ghost trees = stmt_trees(block.stmts@);
    assert(before =~= before + calls_sites(stmts_calls(trees.take(0))));
    for i in 0..block.stmts.len()
        invariant
            trees == stmt_trees(block.stmts@),
            site_views(sites@) == before + calls_sites(stmts_calls(trees.take(i as int))),
    {
        visit_stmt(&block.stmts[i], sites);
        proof {
            assert(trees.take(i + 1).drop_last() =~= trees.take(i as int));
            assert(trees.take(i + 1).last() == block.stmts@[i as int].tree());
            lemma_added_in_turn(
                before,
                stmts_calls(trees.take(i as int)),
                stmt_calls(trees[i as int]),
            );
        }
    }
    assert(trees.take(trees.len() as int) =~= trees);
    if let Some(values) = &block.return_values {
        visit_exprs(values, sites);
        proof {
            lemma_added_in_turn(before, stmts_calls(trees), exprs_calls(expr_trees(values@)));
        }
    } else {
        assert(stmts_calls(trees) + Seq::<CallTree>::empty() =~= stmts_calls(trees));
    }
}

} // verus!
