//! A predictive LL(1) parser: a pushdown automaton over grammar symbols that
//! consumes the token stream and builds the syntax tree through the cursor of
//! [`AST`]. Each production fires a tree-building action before its
//! right-hand side is pushed.
use vstd::prelude::*;
use crate::ast::{AST, Tree, TreeError, same_roots, all_forest, leaf_tree, appended_at, focus_at};
use crate::expressionparser::spec_normalize;
use crate::expressionparser::ExprError;
use crate::token::{Operator, Token, TokenKind, same_token};

verus! {

/// The nonterminals of the grammar.
#[derive(Clone, Copy, Debug, PartialEq, Eq, Structural)]
pub enum NonTerminalType {
    S,
    Sf,
    Passage,
    Passagef,
    PassageContent,
    Formating,
    BoldFormatting,
    ItalicFormatting,
    MonoFormatting,
    MonoContent,
    Link,
    Macro,
    Macrof,
    Function,
    Functionf,
    Arguments,
    Argumentsf,
    ExpressionList,
    ExpressionListf,
    Expression,
    E,
    E2,
    T,
    T2,
    B,
    B2,
    F,
    F2,
    G,
    G2,
    H,
    DataType,
    AssignVariable,
}

/// A grammar symbol on the parser's stack.
#[derive(Clone, Copy, Debug, PartialEq, Eq, Structural)]
pub enum PNode {
    NonTerminal(NonTerminalType),
    Terminal(TokenKind),
}

/// Why a token stream was rejected.
#[derive(Clone, Copy, Debug, PartialEq, Eq, Structural)]
pub enum ParseError {
    /// The token at this line and column has no place here.
    UnexpectedToken { line: u64, column: u64 },
    /// The input ended while this nonterminal still needed a token.
    UnexpectedEnd(NonTerminalType),
    /// The input ended while a token of this kind was still expected.
    MissingToken(TokenKind),
    /// The expression that ends at this line and column is malformed.
    Expression { line: u64, column: u64, error: ExprError },
}

/// One configuration of the automaton: the tree built so far, the stack of
/// grammar symbols and the position of the lookahead.
pub struct ParseState {
    pub ast: AST,
    pub stack: Seq<PNode>,
    pub la: nat,
}

/// The configuration before anything is read: an empty tree, the start
/// symbol alone on the stack.
pub open spec fn initial(s: ParseState) -> bool {
    s.ast.wf() && s.ast.forest().len() == 0 && s.ast.cursor().len() == 0 && s.stack == seq![
        PNode::NonTerminal(NonTerminalType::S),
    ] && s.la == 0
}

/// One move of the automaton on the input `ts`, from `s` to `s2`: a terminal
/// on top consumes a token of its kind; a nonterminal on top is replaced by
/// the right-hand side of its production (in reverse, so the first symbol
/// ends on top) while the production's action edits the tree, or vanishes
/// at the end of the input where it may produce nothing.
pub open spec fn moves(ts: Seq<Token>, s: ParseState, s2: ParseState) -> bool {
    s.stack.len() > 0 && {
        let rest = s.stack.drop_last();
        match s.stack.last() {
            PNode::Terminal(k) => s.la < ts.len() && ts[s.la as int].kind == k && s2 == ParseState {
                ast: s.ast,
                stack: rest,
                la: s.la + 1,
            },
            PNode::NonTerminal(x) => if s.la >= ts.len() {
                nullable(x) && s2 == ParseState { ast: s.ast, stack: rest, la: s.la }
            } else {
                let t = ts[s.la as int];
                &&& production(x, t.kind) is Some
                &&& step_error(x, t, s.ast) is None
                &&& s2.stack == rest + reversed(production(x, t.kind)->Some_0)
                &&& s2.la == s.la
                &&& s2.ast.wf()
                &&& exists|d: Token| same_token(d, t) && #[trigger] action(x, d, s.ast, s2.ast)
            },
        }
    }
}

/// The error with which the automaton stops in `s`: a missing or wrong
/// terminal, the end of the input under a nonterminal that cannot produce
/// nothing, a failed production step, or input left over once the stack is
/// empty.
pub open spec fn fails_with(ts: Seq<Token>, s: ParseState, e: ParseError) -> bool {
    if s.stack.len() == 0 {
        s.la < ts.len() && e == ParseError::UnexpectedToken {
            line: ts[s.la as int].line,
            column: ts[s.la as int].column,
        }
    } else {
        match s.stack.last() {
            PNode::Terminal(k) => if s.la >= ts.len() {
                e == ParseError::MissingToken(k)
            } else {
                ts[s.la as int].kind != k && e == ParseError::UnexpectedToken {
                    line: ts[s.la as int].line,
                    column: ts[s.la as int].column,
                }
            },
            PNode::NonTerminal(x) => if s.la >= ts.len() {
                !nullable(x) && e == ParseError::UnexpectedEnd(x)
            } else {
                step_error(x, ts[s.la as int], s.ast) == Some(e)
            },
        }
    }
}

/// The automaton accepts in `s`: the stack is empty exactly when the input
/// is used up.
pub open spec fn accepts(ts: Seq<Token>, s: ParseState) -> bool {
    s.stack.len() == 0 && s.la == ts.len()
}

/// Move `i` of the sequence of configurations `tr` is a move of the automaton.
pub open spec fn linked(ts: Seq<Token>, tr: Seq<ParseState>, i: int) -> bool {
    moves(ts, tr[i], tr[i + 1])
}

/// `tr` is a run of the automaton on `ts`: it starts from the initial
/// configuration and each configuration follows from the one before by one
/// move.
pub open spec fn is_run(ts: Seq<Token>, tr: Seq<ParseState>) -> bool {
    &&& tr.len() > 0
    &&& initial(tr[0])
    &&& forall|i: int| 0 <= i < tr.len() - 1 ==> #[trigger] linked(ts, tr, i)
}

/// A configuration either moves or fails, never both: the error a run ends
/// with is the one its last configuration stops with.
pub proof fn lemma_moves_or_fails(ts: Seq<Token>, s: ParseState, s2: ParseState, e: ParseError)
    ensures
        !(moves(ts, s, s2) && fails_with(ts, s, e)),
{
}

/// The grammar side of a move is determined: from one configuration every
/// move leaves the same stack and lookahead position.
pub proof fn lemma_moves_determined(ts: Seq<Token>, s: ParseState, s2: ParseState, s3: ParseState)
    requires
        moves(ts, s, s2),
        moves(ts, s, s3),
    ensures
        s2.stack == s3.stack,
        s2.la == s3.la,
{
}

/// A format end that arrives while the passage content on top of the stack
/// sits on a passage root has no span to close: the automaton stops there
/// with a syntax error that names the format end's place.
pub proof fn lemma_stray_span_end(ts: Seq<Token>, s: ParseState)
    requires
        s.stack.len() > 0,
        s.stack.last() == PNode::NonTerminal(NonTerminalType::PassageContent),
        s.la < ts.len(),
        span_end(ts[s.la as int].kind),
        s.ast.cursor().len() == 1,
    ensures
        fails_with(
            ts,
            s,
            ParseError::UnexpectedToken { line: ts[s.la as int].line, column: ts[s.la as int].column },
        ),
        forall|s2: ParseState| !moves(ts, s, s2),
{
}

proof fn lemma_run_extend(ts: Seq<Token>, tr: Seq<ParseState>, s2: ParseState)
    requires
        is_run(ts, tr),
        moves(ts, tr.last(), s2),
    ensures
        is_run(ts, tr.push(s2)),
{
    let tr2 = tr.push(s2);
    assert forall|i: int| 0 <= i < tr2.len() - 1 implies #[trigger] linked(ts, tr2, i) by {
        if i < tr.len() - 1 {
            assert(linked(ts, tr, i));
            assert(tr2[i] == tr[i] && tr2[i + 1] == tr[i + 1]);
        } else {
            assert(tr2[i] == tr.last() && tr2[i + 1] == s2);
        }
    }
}

/// The passage-start tokens of `s`, in order.
pub open spec fn passage_tokens(s: Seq<Token>) -> Seq<Token>
    decreases s.len(),
{
    if s.len() == 0 {
        Seq::empty()
    } else if s.last().kind == TokenKind::Passage {
        passage_tokens(s.drop_last()).push(s.last())
    } else {
        passage_tokens(s.drop_last())
    }
}

/// One token more of the input adds it to the passage-start tokens exactly
/// when it is one.
proof fn lemma_passage_tokens_step(s: Seq<Token>, i: int)
    requires
        0 <= i < s.len(),
    ensures
        passage_tokens(s.take(i + 1)) == if s[i].kind == TokenKind::Passage {
            passage_tokens(s.take(i)).push(s[i])
        } else {
            passage_tokens(s.take(i))
        },
{
    assert(s.take(i + 1).drop_last() =~= s.take(i));
    assert(s.take(i + 1).last() == s[i]);
}

/// A structural marker, or a copy of one of the tokens `ts`.
pub open spec fn from_input(t: Token, ts: Seq<Token>) -> bool {
    t.kind == TokenKind::Pseudo || exists|j: int| 0 <= j < ts.len() && #[trigger] same_token(t, ts[j])
}

/// The tokens that a tree built from `ts` may carry.
pub open spec fn input_ok(ts: Seq<Token>) -> spec_fn(Token) -> bool {
    |t: Token| from_input(t, ts)
}

/// `ok` accepts every structural marker.
pub open spec fn accepts_markers(ok: spec_fn(Token) -> bool) -> bool {
    forall|t: Token| t.kind == TokenKind::Pseudo ==> #[trigger] ok(t)
}

/// The roots of `f` carry, one for one and in order, copies of the tokens `ts`.
pub open spec fn roots_carry(f: Seq<Tree>, ts: Seq<Token>) -> bool {
    f.len() == ts.len() && forall|i: int| 0 <= i < f.len() ==> same_token(#[trigger] f[i].category, ts[i])
}

/// A story of plain passages: a passage start first, then only passage
/// starts, text and line breaks.
pub open spec fn plain(ts: Seq<Token>) -> bool {
    &&& ts.len() > 0 ==> ts[0].kind == TokenKind::Passage
    &&& plain_len(ts) == ts.len()
}

/// The passages of a plain story `p`: each passage-start token with the text
/// and line-break tokens that follow it, up to the next one.
pub open spec fn story(p: Seq<Token>) -> Seq<(Token, Seq<Token>)>
    decreases p.len(),
{
    if p.len() == 0 {
        Seq::empty()
    } else {
        let st = story(p.drop_last());
        let t = p.last();
        if t.kind == TokenKind::Passage {
            st.push((t, Seq::empty()))
        } else if st.len() > 0 {
            st.update(st.len() - 1, (st.last().0, st.last().1.push(t)))
        } else {
            st
        }
    }
}

/// The trees `f` are the passages `st`: a root per passage carrying a copy of
/// its token, whose children are leaves carrying copies of its content.
pub open spec fn tells(f: Seq<Tree>, st: Seq<(Token, Seq<Token>)>) -> bool {
    &&& f.len() == st.len()
    &&& forall|i: int|
        0 <= i < f.len() ==> {
            &&& same_token(#[trigger] f[i].category, st[i].0)
            &&& f[i].childs.len() == st[i].1.len()
            &&& forall|j: int|
                0 <= j < f[i].childs.len() ==> same_token(#[trigger] f[i].childs[j].category, st[i].1[j])
                    && f[i].childs[j].childs.len() == 0
        }
}

/// One token more of a story either opens a passage or extends the last.
proof fn lemma_story_step(s: Seq<Token>, i: int)
    requires
        0 <= i < s.len(),
    ensures
        story(s.take(i + 1)) == if s[i].kind == TokenKind::Passage {
            story(s.take(i)).push((s[i], Seq::<Token>::empty()))
        } else if story(s.take(i)).len() > 0 {
            story(s.take(i)).update(
                story(s.take(i)).len() - 1,
                (story(s.take(i)).last().0, story(s.take(i)).last().1.push(s[i])),
            )
        } else {
            story(s.take(i))
        },
{
    assert(s.take(i + 1).drop_last() =~= s.take(i));
    assert(s.take(i + 1).last() == s[i]);
}

/// A new root carrying a copy of a passage token tells one passage more.
proof fn lemma_tells_push(f: Seq<Tree>, st: Seq<(Token, Seq<Token>)>, d: Token, t: Token)
    requires
        tells(f, st),
        same_token(d, t),
    ensures
        tells(f.push(leaf_tree(d)), st.push((t, Seq::<Token>::empty()))),
{
    let f2 = f.push(leaf_tree(d));
    let st2 = st.push((t, Seq::<Token>::empty()));
    assert forall|i: int| 0 <= i < f2.len() implies {
        &&& same_token(#[trigger] f2[i].category, st2[i].0)
        &&& f2[i].childs.len() == st2[i].1.len()
        &&& forall|j: int|
            0 <= j < f2[i].childs.len() ==> same_token(#[trigger] f2[i].childs[j].category, st2[i].1[j])
                && f2[i].childs[j].childs.len() == 0
    } by {
        if i < f.len() {
            assert(f2[i] == f[i]);
            assert(st2[i] == st[i]);
        }
    }
}

/// A leaf carrying a copy of a content token, appended to the last root,
/// tells the last passage extended by that token.
proof fn lemma_tells_append(f: Seq<Tree>, st: Seq<(Token, Seq<Token>)>, d: Token, t: Token)
    requires
        tells(f, st),
        f.len() > 0,
        same_token(d, t),
    ensures
        tells(
            f.update(
                f.len() - 1,
                Tree { category: f[f.len() - 1].category, childs: f[f.len() - 1].childs.push(leaf_tree(d)) },
            ),
            st.update(st.len() - 1, (st.last().0, st.last().1.push(t))),
        ),
{
    let n = f.len() - 1;
    let f2 = f.update(n, Tree { category: f[n].category, childs: f[n].childs.push(leaf_tree(d)) });
    let st2 = st.update(n, (st.last().0, st.last().1.push(t)));
    assert forall|i: int| 0 <= i < f2.len() implies {
        &&& same_token(#[trigger] f2[i].category, st2[i].0)
        &&& f2[i].childs.len() == st2[i].1.len()
        &&& forall|j: int|
            0 <= j < f2[i].childs.len() ==> same_token(#[trigger] f2[i].childs[j].category, st2[i].1[j])
                && f2[i].childs[j].childs.len() == 0
    } by {
        if i < n {
            assert(f2[i] == f[i]);
            assert(st2[i] == st[i]);
        } else {
            assert(same_token(f[n].category, st[n].0));
            assert forall|j: int|
                0 <= j < f2[i].childs.len() implies same_token(#[trigger] f2[i].childs[j].category, st2[i].1[j])
                    && f2[i].childs[j].childs.len() == 0 by {
                if j < f[n].childs.len() {
                    assert(f2[i].childs[j] == f[n].childs[j]);
                    assert(st2[i].1[j] == st[n].1[j]);
                }
            }
        }
    }
}

/// Tokens of a plain story.
pub open spec fn plain_kind(k: TokenKind) -> bool {
    k == TokenKind::Passage || k == TokenKind::Text || k == TokenKind::NewLine
}

/// The length of the longest prefix of `ts` made of plain-story tokens.
pub open spec fn plain_len(ts: Seq<Token>) -> nat
    decreases ts.len(),
{
    if ts.len() == 0 || !plain_kind(ts[0].kind) {
        0
    } else {
        1 + plain_len(ts.drop_first())
    }
}

proof fn lemma_plain_len(ts: Seq<Token>)
    ensures
        plain_len(ts) <= ts.len(),
        forall|i: int| 0 <= i < plain_len(ts) ==> #[trigger] plain_kind(ts[i].kind),
        plain_len(ts) < ts.len() ==> !plain_kind(ts[plain_len(ts) as int].kind),
    decreases ts.len(),
{
    if ts.len() > 0 && plain_kind(ts[0].kind) {
        lemma_plain_len(ts.drop_first());
        assert forall|i: int| 0 <= i < plain_len(ts) implies #[trigger] plain_kind(ts[i].kind) by {
            if i > 0 {
                assert(ts[i] == ts.drop_first()[i - 1]);
            }
        }
    }
}

/// A format-end token, which closes a span.
pub open spec fn span_end(k: TokenKind) -> bool {
    k == TokenKind::FormatBoldEnd || k == TokenKind::FormatItalicEnd
}

/// A plain story, or one where the first other token is a stray span end.
pub open spec fn calm(ts: Seq<Token>) -> bool {
    &&& ts.len() > 0 ==> ts[0].kind == TokenKind::Passage
    &&& plain_len(ts) == ts.len() || span_end(ts[plain_len(ts) as int].kind)
}

/// `s` back to front.
pub open spec fn reversed(s: Seq<PNode>) -> Seq<PNode> {
    Seq::new(s.len(), |i: int| s[s.len() - 1 - i])
}

/// What a production leaves behind: a well-formed tree, the passage-start
/// terminal at most first in `v`, and the same passage roots, but for one
/// more, carrying a copy of the lookahead `la`, exactly when it is there.
pub open spec fn rhs_ok(before: AST, after: AST, v: Seq<PNode>, la: Token) -> bool {
    &&& after.wf()
    &&& forall|j: int| 1 <= j < v.len() ==> v[j] != PNode::Terminal(TokenKind::Passage)
    &&& if v.len() > 0 && v[0] == PNode::Terminal(TokenKind::Passage) {
        &&& la.kind == TokenKind::Passage
        &&& after.forest().len() == before.forest().len() + 1
        &&& same_roots(before.forest(), after.forest().drop_last())
        &&& same_token(after.forest().last().category, la)
    } else {
        same_roots(before.forest(), after.forest())
    }
}

/// The stack symbol of a nonterminal.
pub open spec fn nt(n: NonTerminalType) -> PNode {
    PNode::NonTerminal(n)
}

/// The stack symbol of a terminal.
pub open spec fn tm(k: TokenKind) -> PNode {
    PNode::Terminal(k)
}

/// The production table: the right-hand side for a nonterminal on top of
/// the stack and the lookahead's kind, or none where the pair has no entry.
pub open spec fn production(top: NonTerminalType, k: TokenKind) -> Option<Seq<PNode>> {
    let e = spec_starts_expression(k);
    match top {
        NonTerminalType::S => if k == TokenKind::Passage {
            Some(seq![nt(NonTerminalType::Passage), nt(NonTerminalType::Sf)])
        } else {
            None
        },
        NonTerminalType::Sf => if k == TokenKind::Passage {
            Some(seq![nt(NonTerminalType::S)])
        } else {
            None
        },
        NonTerminalType::Passage => if k == TokenKind::Passage {
            Some(seq![tm(k), nt(NonTerminalType::PassageContent)])
        } else {
            None
        },
        NonTerminalType::PassageContent => match k {
            TokenKind::Text | TokenKind::NewLine => Some(seq![tm(k), nt(NonTerminalType::PassageContent)]),
            TokenKind::FormatBoldStart | TokenKind::FormatItalicStart | TokenKind::FormatMonoStart => Some(
                seq![nt(NonTerminalType::Formating), nt(NonTerminalType::PassageContent)],
            ),
            TokenKind::PassageLink => Some(seq![nt(NonTerminalType::Link), nt(NonTerminalType::PassageContent)]),
            TokenKind::MacroDisplay | TokenKind::MacroSet | TokenKind::MacroIf | TokenKind::MacroPrint
            | TokenKind::Variable | TokenKind::MacroContentVar | TokenKind::MacroContentPassageName => Some(
                seq![nt(NonTerminalType::Macro), nt(NonTerminalType::PassageContent)],
            ),
            _ => Some(Seq::empty()),
        },
        NonTerminalType::Formating => match k {
            TokenKind::FormatBoldStart => Some(seq![nt(NonTerminalType::BoldFormatting)]),
            TokenKind::FormatItalicStart => Some(seq![nt(NonTerminalType::ItalicFormatting)]),
            TokenKind::FormatMonoStart => Some(seq![nt(NonTerminalType::MonoFormatting)]),
            _ => None,
        },
        NonTerminalType::BoldFormatting => if k == TokenKind::FormatBoldStart {
            Some(seq![tm(k), nt(NonTerminalType::PassageContent), tm(TokenKind::FormatBoldEnd)])
        } else {
            None
        },
        NonTerminalType::ItalicFormatting => if k == TokenKind::FormatItalicStart {
            Some(seq![tm(k), nt(NonTerminalType::PassageContent), tm(TokenKind::FormatItalicEnd)])
        } else {
            None
        },
        NonTerminalType::MonoFormatting => if k == TokenKind::FormatMonoStart {
            Some(seq![tm(k), nt(NonTerminalType::MonoContent), tm(TokenKind::FormatMonoEnd)])
        } else {
            None
        },
        NonTerminalType::MonoContent => match k {
            TokenKind::Text | TokenKind::NewLine => Some(seq![tm(k), nt(NonTerminalType::MonoContent)]),
            TokenKind::FormatMonoEnd => Some(Seq::empty()),
            _ => None,
        },
        NonTerminalType::Link => if k == TokenKind::PassageLink {
            Some(seq![tm(k)])
        } else {
            None
        },
        NonTerminalType::Macro => match k {
            TokenKind::MacroDisplay | TokenKind::MacroPrint => Some(
                seq![tm(k), nt(NonTerminalType::ExpressionList), tm(TokenKind::MacroEnd)],
            ),
            TokenKind::MacroSet => Some(
                seq![
                    tm(k),
                    nt(NonTerminalType::AssignVariable),
                    nt(NonTerminalType::ExpressionListf),
                    tm(TokenKind::MacroEnd),
                ],
            ),
            TokenKind::MacroIf => Some(
                seq![
                    tm(k),
                    nt(NonTerminalType::ExpressionList),
                    tm(TokenKind::MacroEnd),
                    nt(NonTerminalType::PassageContent),
                    nt(NonTerminalType::Macrof),
                ],
            ),
            TokenKind::MacroContentVar | TokenKind::MacroContentPassageName => Some(
                seq![tm(k), tm(TokenKind::MacroEnd)],
            ),
            _ => None,
        },
        NonTerminalType::Macrof => match k {
            TokenKind::MacroElse => Some(
                seq![
                    tm(k),
                    tm(TokenKind::MacroEnd),
                    nt(NonTerminalType::PassageContent),
                    tm(TokenKind::MacroEndIf),
                    tm(TokenKind::MacroEnd),
                ],
            ),
            TokenKind::MacroEndIf => Some(seq![tm(k), tm(TokenKind::MacroEnd)]),
            _ => None,
        },
        NonTerminalType::ExpressionList => if e {
            Some(seq![nt(NonTerminalType::Expression), nt(NonTerminalType::ExpressionListf)])
        } else {
            None
        },
        NonTerminalType::ExpressionListf => Some(Seq::empty()),
        NonTerminalType::Expression => if e {
            Some(seq![nt(NonTerminalType::E)])
        } else if k == TokenKind::Assign {
            Some(seq![nt(NonTerminalType::AssignVariable)])
        } else {
            None
        },
        NonTerminalType::E => if e {
            Some(seq![nt(NonTerminalType::T), nt(NonTerminalType::E2)])
        } else {
            None
        },
        NonTerminalType::E2 => if k == TokenKind::LogOp(Operator::Or) {
            Some(seq![tm(k), nt(NonTerminalType::T), nt(NonTerminalType::E2)])
        } else {
            Some(Seq::empty())
        },
        NonTerminalType::T => if e {
            Some(seq![nt(NonTerminalType::B), nt(NonTerminalType::T2)])
        } else {
            None
        },
        NonTerminalType::T2 => if k == TokenKind::LogOp(Operator::And) {
            Some(seq![tm(k), nt(NonTerminalType::B), nt(NonTerminalType::T2)])
        } else {
            Some(Seq::empty())
        },
        NonTerminalType::B => if e {
            Some(seq![nt(NonTerminalType::F), nt(NonTerminalType::B2)])
        } else {
            None
        },
        NonTerminalType::B2 => match k {
            TokenKind::CompOp(_) => Some(seq![tm(k), nt(NonTerminalType::F), nt(NonTerminalType::B2)]),
            _ => Some(Seq::empty()),
        },
        NonTerminalType::F => if e {
            Some(seq![nt(NonTerminalType::G), nt(NonTerminalType::F2)])
        } else {
            None
        },
        NonTerminalType::F2 => if k == TokenKind::NumOp(Operator::Add) || k == TokenKind::NumOp(Operator::Sub) {
            Some(seq![tm(k), nt(NonTerminalType::G), nt(NonTerminalType::F2)])
        } else {
            Some(Seq::empty())
        },
        NonTerminalType::G => if e {
            Some(seq![nt(NonTerminalType::H), nt(NonTerminalType::G2)])
        } else {
            None
        },
        NonTerminalType::G2 => if k == TokenKind::NumOp(Operator::Mul) || k == TokenKind::NumOp(Operator::Div)
            || k == TokenKind::NumOp(Operator::Mod) {
            Some(seq![tm(k), nt(NonTerminalType::H), nt(NonTerminalType::G2)])
        } else {
            Some(Seq::empty())
        },
        NonTerminalType::H => match k {
            TokenKind::Int | TokenKind::Str | TokenKind::Boolean => Some(seq![nt(NonTerminalType::DataType)]),
            TokenKind::Variable => Some(seq![tm(k)]),
            TokenKind::Function => Some(seq![nt(NonTerminalType::Function)]),
            TokenKind::UnaryMinus => Some(seq![tm(k), nt(NonTerminalType::H)]),
            TokenKind::LogOp(o) => if o == Operator::Not {
                Some(seq![tm(k), nt(NonTerminalType::H)])
            } else {
                None
            },
            _ => None,
        },
        NonTerminalType::Function => if k == TokenKind::Function {
            Some(seq![tm(k), nt(NonTerminalType::Functionf)])
        } else {
            None
        },
        NonTerminalType::Functionf => if k == TokenKind::ArgsEnd {
            Some(seq![tm(k)])
        } else if e {
            Some(seq![nt(NonTerminalType::Arguments), tm(TokenKind::ArgsEnd)])
        } else {
            None
        },
        NonTerminalType::Arguments => if e {
            Some(seq![nt(NonTerminalType::Expression), nt(NonTerminalType::Argumentsf)])
        } else {
            None
        },
        NonTerminalType::Argumentsf => match k {
            TokenKind::Colon => Some(seq![tm(k), nt(NonTerminalType::Arguments)]),
            _ => Some(Seq::empty()),
        },
        NonTerminalType::AssignVariable => if k == TokenKind::Assign {
            Some(seq![tm(k), nt(NonTerminalType::E)])
        } else {
            None
        },
        NonTerminalType::DataType => match k {
            TokenKind::Int | TokenKind::Str | TokenKind::Boolean => Some(seq![tm(k)]),
            _ => None,
        },
        NonTerminalType::Passagef => None,
    }
}

/// An error that names a place names that of a token of `ts`.
pub open spec fn names_input_token(e: ParseError, ts: Seq<Token>) -> bool {
    (e is UnexpectedToken || e is Expression) ==> exists|i: int|
        0 <= i < ts.len() && #[trigger] located(e, ts[i].line, ts[i].column)
}

/// A leaf carrying `t` is appended to the focus; the cursor stays.
pub open spec fn leaf_step(before: AST, after: AST, t: Token) -> bool {
    after.forest() == before.appended(leaf_tree(t)) && after.cursor() == before.cursor()
}

/// A node carrying `t` is appended to the focus, and the cursor moves into it.
pub open spec fn down_step(before: AST, after: AST, t: Token) -> bool {
    &&& after.forest() == before.appended(leaf_tree(t))
    &&& after.cursor() == before.cursor().push(before.focus().childs.len() as usize)
}

/// The cursor moves `n` levels up; the trees stay.
pub open spec fn up_step(before: AST, after: AST, n: int) -> bool {
    after.forest() == before.forest() && after.cursor() == before.cursor().subrange(
        0,
        before.cursor().len() - n,
    )
}

/// Nothing changes.
pub open spec fn no_step(before: AST, after: AST) -> bool {
    after.forest() == before.forest() && after.cursor() == before.cursor()
}

/// A structural marker token.
pub open spec fn is_marker(m: Token) -> bool {
    m.kind == TokenKind::Pseudo && m.payload@.len() == 0 && m.line == 0 && m.column == 0
}

/// The tree-building action of the production for `top` on the lookahead
/// `tok`, from the tree `before` to the tree `after`.
pub open spec fn action(top: NonTerminalType, tok: Token, before: AST, after: AST) -> bool {
    let k = tok.kind;
    let f = before.forest();
    let c = before.cursor();
    let parent = c.drop_last();
    match top {
        NonTerminalType::Passage => k == TokenKind::Passage ==> after.forest() == f.push(leaf_tree(tok))
            && after.cursor() == seq![f.len() as usize] && after.cursor()[0] as int == f.len(),
        NonTerminalType::PassageContent => match k {
            TokenKind::Text | TokenKind::NewLine => leaf_step(before, after, tok),
            TokenKind::MacroEndIf => after.forest() == appended_at(f, parent, leaf_tree(tok))
                && after.cursor() == parent,
            TokenKind::FormatBoldEnd | TokenKind::FormatItalicEnd => up_step(before, after, 1),
            _ => no_step(before, after),
        },
        NonTerminalType::BoldFormatting | NonTerminalType::ItalicFormatting | NonTerminalType::MonoFormatting
        | NonTerminalType::Function | NonTerminalType::AssignVariable => down_step(before, after, tok),
        NonTerminalType::MonoContent => match k {
            TokenKind::Text => leaf_step(before, after, tok),
            TokenKind::FormatMonoEnd => up_step(before, after, 1),
            _ => no_step(before, after),
        },
        NonTerminalType::Link | NonTerminalType::DataType => leaf_step(before, after, tok),
        NonTerminalType::Macro => match k {
            TokenKind::MacroDisplay | TokenKind::MacroPrint | TokenKind::MacroSet => down_step(before, after, tok),
            TokenKind::MacroIf => exists|m: Token|
                is_marker(m) && after.forest() == appended_at(
                    before.appended(leaf_tree(tok)),
                    c.push(before.focus().childs.len() as usize),
                    leaf_tree(m),
                ) && after.cursor() == c.push(before.focus().childs.len() as usize).push(0),
            TokenKind::MacroContentVar | TokenKind::MacroContentPassageName => leaf_step(before, after, tok),
            _ => no_step(before, after),
        },
        NonTerminalType::Macrof => k == TokenKind::MacroElse ==> after.forest() == appended_at(
            f,
            parent,
            leaf_tree(tok),
        ) && after.cursor() == parent.push(focus_at(f, parent).childs.len() as usize),
        NonTerminalType::ExpressionListf => if k == TokenKind::MacroEnd {
            after.forest() == before.edited(seq![spec_normalize(before.focus().childs)->Ok_0])
                && after.cursor() == c.subrange(0, c.len() - closes(before))
        } else {
            no_step(before, after)
        },
        NonTerminalType::E2 | NonTerminalType::T2 | NonTerminalType::B2 | NonTerminalType::F2
        | NonTerminalType::G2 => if vanishes(top, k) {
            no_step(before, after)
        } else {
            leaf_step(before, after, tok)
        },
        NonTerminalType::H => if k == TokenKind::Variable || k == TokenKind::UnaryMinus || k == TokenKind::LogOp(
            Operator::Not,
        ) {
            leaf_step(before, after, tok)
        } else {
            no_step(before, after)
        },
        NonTerminalType::Functionf => if k == TokenKind::ArgsEnd {
            up_step(before, after, 1)
        } else {
            no_step(before, after)
        },
        NonTerminalType::Arguments => exists|m: Token| is_marker(m) && down_step(before, after, m),
        NonTerminalType::Argumentsf => match k {
            TokenKind::ArgsEnd => up_step(before, after, 2),
            TokenKind::Colon => up_step(before, after, 1),
            _ => no_step(before, after),
        },
        _ => no_step(before, after),
    }
}

/// The nonterminals that may produce nothing: the start symbol (zero
/// passages) and those with an empty production.
pub open spec fn nullable(x: NonTerminalType) -> bool {
    match x {
        NonTerminalType::S | NonTerminalType::Sf | NonTerminalType::PassageContent | NonTerminalType::MonoContent
        | NonTerminalType::ExpressionListf | NonTerminalType::E2 | NonTerminalType::T2 | NonTerminalType::B2
        | NonTerminalType::F2 | NonTerminalType::G2 | NonTerminalType::Argumentsf => true,
        _ => false,
    }
}

/// Which of the three rule functions handles `top`: passages and their
/// content (0), macros (1), expressions (2).
pub open spec fn rule_group(top: NonTerminalType) -> nat {
    match top {
        NonTerminalType::S | NonTerminalType::Sf | NonTerminalType::Passage | NonTerminalType::PassageContent
        | NonTerminalType::Formating | NonTerminalType::BoldFormatting | NonTerminalType::ItalicFormatting
        | NonTerminalType::MonoFormatting | NonTerminalType::MonoContent | NonTerminalType::Link => 0,
        NonTerminalType::Macro | NonTerminalType::Macrof | NonTerminalType::ExpressionList
        | NonTerminalType::ExpressionListf => 1,
        _ => 2,
    }
}

/// How many scopes an expression closes: its own, and the set macro's too
/// where it is the value of an assignment.
pub open spec fn closes(before: AST) -> int {
    if before.focus().category.kind == TokenKind::Assign {
        2
    } else {
        1
    }
}

/// How deep the cursor must be for the action of the production for `top`
/// on `k`: a focus to append to (1), a parent to go up to (2), or a
/// grandparent (3).
pub open spec fn depth_needed(top: NonTerminalType, k: TokenKind) -> nat {
    match top {
        NonTerminalType::PassageContent => match k {
            TokenKind::Text | TokenKind::NewLine => 1,
            TokenKind::MacroEndIf | TokenKind::FormatBoldEnd | TokenKind::FormatItalicEnd => 2,
            _ => 0,
        },
        NonTerminalType::BoldFormatting | NonTerminalType::ItalicFormatting | NonTerminalType::MonoFormatting
        | NonTerminalType::Function | NonTerminalType::AssignVariable | NonTerminalType::Link
        | NonTerminalType::DataType | NonTerminalType::Arguments => 1,
        NonTerminalType::MonoContent => match k {
            TokenKind::Text => 1,
            TokenKind::FormatMonoEnd => 2,
            _ => 0,
        },
        NonTerminalType::Macro => match k {
            TokenKind::MacroDisplay | TokenKind::MacroPrint | TokenKind::MacroSet | TokenKind::MacroIf
            | TokenKind::MacroContentVar | TokenKind::MacroContentPassageName => 1,
            _ => 0,
        },
        NonTerminalType::Macrof => if k == TokenKind::MacroElse {
            2
        } else {
            0
        },
        NonTerminalType::E2 | NonTerminalType::T2 | NonTerminalType::B2 | NonTerminalType::F2
        | NonTerminalType::G2 => if vanishes(top, k) {
            0
        } else {
            1
        },
        NonTerminalType::H => if k == TokenKind::Variable || k == TokenKind::UnaryMinus || k == TokenKind::LogOp(
            Operator::Not,
        ) {
            1
        } else {
            0
        },
        NonTerminalType::Functionf => if k == TokenKind::ArgsEnd {
            2
        } else {
            0
        },
        NonTerminalType::Argumentsf => match k {
            TokenKind::ArgsEnd => 3,
            TokenKind::Colon => 2,
            _ => 0,
        },
        _ => 0,
    }
}

/// The error of the production for `top` on the lookahead `tok` in the tree
/// `before`, or none where it succeeds: no table entry, a cursor too shallow
/// for the action, or an expression that does not normalize.
pub open spec fn step_error(top: NonTerminalType, tok: Token, before: AST) -> Option<ParseError> {
    let k = tok.kind;
    let d = before.cursor().len();
    let here = ParseError::UnexpectedToken { line: tok.line, column: tok.column };
    if production(top, k) is None {
        Some(here)
    } else if top == NonTerminalType::ExpressionListf && k == TokenKind::MacroEnd {
        if d == 0 {
            Some(here)
        } else {
            match spec_normalize(before.focus().childs) {
                Err(e) => Some(ParseError::Expression { line: tok.line, column: tok.column, error: e }),
                Ok(_) => if d < 1 + closes(before) {
                    Some(here)
                } else {
                    None
                },
            }
        }
    } else if d < depth_needed(top, k) {
        Some(here)
    } else {
        None
    }
}

/// Whether `x` is replaced by nothing on the lookahead kind `a`.
pub open spec fn vanishes(x: NonTerminalType, a: TokenKind) -> bool {
    match production(x, a) {
        Some(rhs) => rhs.len() == 0,
        None => false,
    }
}

/// An upper bound on how often a nonterminal can be expanded on one
/// lookahead before a terminal is on top.
pub open spec fn rank(n: NonTerminalType) -> nat {
    match n {
        NonTerminalType::S => 2,
        NonTerminalType::Sf => 3,
        NonTerminalType::PassageContent => 3,
        NonTerminalType::Formating => 2,
        NonTerminalType::H => 3,
        NonTerminalType::G => 4,
        NonTerminalType::F => 5,
        NonTerminalType::B => 6,
        NonTerminalType::T => 7,
        NonTerminalType::E => 8,
        NonTerminalType::Expression => 9,
        NonTerminalType::ExpressionList => 10,
        NonTerminalType::Arguments => 10,
        NonTerminalType::Functionf => 11,
        _ => 1,
    }
}

/// On the lookahead kind `a`: the ranks of the stack's symbols from the top
/// down to the first one that does not vanish on `a`.
pub open spec fn potential(s: Seq<PNode>, a: TokenKind) -> nat
    decreases s.len(),
{
    if s.len() == 0 {
        0
    } else {
        match s.last() {
            PNode::Terminal(_) => 0,
            PNode::NonTerminal(x) => if vanishes(x, a) {
                rank(x) + potential(s.drop_last(), a)
            } else {
                rank(x)
            },
        }
    }
}

/// The table has no left recursion: a right-hand side starts with a
/// terminal or with a nonterminal of lower rank that does not vanish on the
/// same lookahead.
pub proof fn lemma_table_descends(x: NonTerminalType, a: TokenKind)
    ensures
        production(x, a) matches Some(rhs) ==> (rhs.len() > 0 ==> descends(rhs[0], x, a)),
{
}

/// `p` is a terminal, or a nonterminal of lower rank than `x` that does not
/// vanish on `a`.
pub open spec fn descends(p: PNode, x: NonTerminalType, a: TokenKind) -> bool {
    match p {
        PNode::Terminal(_) => true,
        PNode::NonTerminal(y) => rank(y) < rank(x) && !vanishes(y, a),
    }
}

/// Whether an error names the token at `line` and `column`.
pub open spec fn located(e: ParseError, line: u64, column: u64) -> bool {
    match e {
        ParseError::UnexpectedToken { line: l, column: c } => l == line && c == column,
        ParseError::Expression { line: l, column: c, .. } => l == line && c == column,
        _ => false,
    }
}

/// Tokens that can begin an expression.
pub open spec fn spec_starts_expression(k: TokenKind) -> bool {
    k == TokenKind::Variable || k == TokenKind::Int || k == TokenKind::Str || k == TokenKind::Boolean
        || k == TokenKind::Function || k == TokenKind::LogOp(Operator::Not) || k == TokenKind::UnaryMinus
}

fn starts_expression(k: TokenKind) -> (r: bool)
    ensures
        r == spec_starts_expression(k),
{
    match k {
        TokenKind::Variable | TokenKind::Int | TokenKind::Str | TokenKind::Boolean | TokenKind::Function
        | TokenKind::UnaryMinus => true,
        TokenKind::LogOp(o) => o == Operator::Not,
        _ => false,
    }
}

/// Parses `tokens` into a syntax tree with one root per passage.
pub fn parse_tokens(tokens: Vec<Token>) -> (r: Result<AST, ParseError>)
    ensures
        r matches Ok(ast) ==> ast.wf() && roots_carry(ast.forest(), passage_tokens(tokens@)),
        r matches Ok(ast) ==> all_forest(ast.forest(), input_ok(tokens@)),
        r matches Err(e) ==> names_input_token(e, tokens@),
        tokens@.len() == 0 ==> r is Ok,
        plain(tokens@) ==> (r matches Ok(ast) && tells(ast.forest(), story(tokens@))),
        r matches Ok(ast) ==> exists|tr: Seq<ParseState>|
            is_run(tokens@, tr) && #[trigger] accepts(tokens@, tr.last()) && tr.last().ast == ast,
        r matches Err(e) ==> exists|tr: Seq<ParseState>| is_run(tokens@, tr) && #[trigger] fails_with(tokens@, tr.last(), e),
        calm(tokens@) && plain_len(tokens@) < tokens@.len() ==> r == Err::<AST, ParseError>(
            ParseError::UnexpectedToken {
                line: tokens@[plain_len(tokens@) as int].line,
                column: tokens@[plain_len(tokens@) as int].column,
            },
        ),
        tokens@.len() > 0 && tokens@[0].kind != TokenKind::Passage ==> r == Err::<AST, ParseError>(
            ParseError::UnexpectedToken { line: tokens@[0].line, column: tokens@[0].column },
        ),
{
    let mut parser = Parser::new(tokens);
    parser.parsing()?;
    Ok(parser.ast)
}

/// The token-level error for a cursor operation that the input made fail.
fn at_token(r: Result<(), TreeError>, line: u64, column: u64) -> (e: Result<(), ParseError>)
    ensures
        r is Ok <==> e is Ok,
        e is Err ==> e == Err::<(), ParseError>(ParseError::UnexpectedToken { line, column }),
{
    match r {
        Ok(()) => Ok(()),
        Err(_) => Err(ParseError::UnexpectedToken { line, column }),
    }
}

/// The state of one parse: the tree being built, the stack of grammar
/// symbols, the token stream and the position of the lookahead in it.
pub struct Parser {
    ast: AST,
    stack: Vec<PNode>,
    tokens: Vec<Token>,
    lookahead: usize,
}

impl Parser {
    /// The token stream being parsed.
    pub closed spec fn input(&self) -> Seq<Token> {
        self.tokens@
    }

    /// The syntax tree built so far.
    pub closed spec fn built(&self) -> AST {
        self.ast
    }

    /// The stack is empty and every token consumed.
    pub closed spec fn finished(&self) -> bool {
        self.stack@.len() == 0 && self.lookahead == self.tokens@.len()
    }

    /// Nothing has been parsed yet.
    pub closed spec fn fresh(&self) -> bool {
        self.lookahead == 0 && self.stack@.len() == 0 && self.ast.forest().len() == 0 && self.ast.cursor().len()
            == 0
    }

    /// The configuration of the automaton that this parser is in.
    pub closed spec fn state(&self) -> ParseState {
        ParseState { ast: self.ast, stack: self.stack@, la: self.lookahead as nat }
    }

    /// A parser at the start of `tokens`, with an empty tree.
    pub fn new(tokens: Vec<Token>) -> (r: Parser)
        ensures
            r.inv(),
            r.input() == tokens@,
            r.fresh(),
    {
        Parser { ast: AST::new(), stack: Vec::new(), tokens, lookahead: 0 }
    }

    /// The tree is well formed and holds only markers and copies of input
    /// tokens; the passage-start terminal stands on the stack at most on top;
    /// the passage roots carry the passage-start tokens consumed, and the one
    /// whose terminal is on top.
    pub closed spec fn inv(&self) -> bool {
        &&& self.ast.wf()
        &&& all_forest(self.ast.forest(), input_ok(self.tokens@))
        &&& self.lookahead <= self.tokens@.len()
        &&& forall|j: int|
            0 <= j < self.stack@.len() - 1 ==> self.stack@[j] != PNode::Terminal(TokenKind::Passage)
        &&& self.pending() ==> self.lookahead < self.tokens@.len() && self.tokens@[self.lookahead as int].kind
            == TokenKind::Passage
        &&& roots_carry(
            self.ast.forest(),
            passage_tokens(self.tokens@.take(self.lookahead + if self.pending() {
                1int
            } else {
                0int
            })),
        )
    }

    /// What each move of the automaton lowers, while the lookahead stays.
    closed spec fn measure(&self) -> nat {
        if self.lookahead < self.tokens@.len() {
            potential(self.stack@, self.tokens@[self.lookahead as int].kind)
        } else {
            self.stack@.len()
        }
    }

    /// The passage-start terminal is on top: its passage is open, its token
    /// not yet consumed.
    closed spec fn pending(&self) -> bool {
        self.stack@.len() > 0 && self.stack@.last() == PNode::Terminal(TokenKind::Passage)
    }

    /// On a plain story the stack takes one of a few shapes, each fitting the
    /// lookahead, and the cursor stands on a passage root.
    closed spec fn plain_shape(&self) -> bool {
        let ts = self.tokens@;
        let la = self.lookahead as int;
        let sf = PNode::NonTerminal(NonTerminalType::Sf);
        let pc = PNode::NonTerminal(NonTerminalType::PassageContent);
        let at_passage = la < ts.len() && ts[la].kind == TokenKind::Passage;
        &&& self.stack@.len() == 0 ==> la == ts.len()
        &&& self.stack@ == seq![PNode::NonTerminal(NonTerminalType::S)] ==> la == ts.len() || at_passage
        &&& self.stack@ == seq![sf] ==> la == ts.len() || at_passage
        &&& self.stack@ == seq![sf, PNode::NonTerminal(NonTerminalType::Passage)] ==> at_passage
        &&& (self.stack@ == seq![sf, pc] || self.stack@.len() == 3) ==> self.ast.cursor().len() == 1
            && self.ast.cursor()[0] as int == self.ast.forest().len() - 1
        &&& self.stack@.len() == 3 ==> la < ts.len() && self.stack@ == seq![sf, pc, PNode::Terminal(ts[la].kind)]
            && plain_kind(ts[la].kind)
        &&& tells(self.ast.forest(), story(ts.take(if self.stack@.len() == 3 { la + 1 } else { la })))
        &&& (self.stack@.len() == 0 || self.stack@ == seq![PNode::NonTerminal(NonTerminalType::S)]
            || self.stack@ == seq![sf] || self.stack@ == seq![sf, PNode::NonTerminal(NonTerminalType::Passage)]
            || self.stack@ == seq![sf, pc] || self.stack@.len() == 3)
    }

    /// Before the first token is consumed, the stack holds the start symbol
    /// or what its first two productions made of it.
    closed spec fn start_shape(&self) -> bool {
        &&& self.lookahead == 0 ==> (self.stack@ == seq![PNode::NonTerminal(NonTerminalType::S)]
            || (self.stack@.len() == 0 && self.tokens@.len() == 0) || self.stack@ == seq![
            PNode::NonTerminal(NonTerminalType::Sf),
            PNode::NonTerminal(NonTerminalType::Passage),
        ] || (self.stack@ == seq![
            PNode::NonTerminal(NonTerminalType::Sf),
            PNode::NonTerminal(NonTerminalType::PassageContent),
            PNode::Terminal(TokenKind::Passage),
        ] && self.tokens@.len() > 0 && self.tokens@[0].kind == TokenKind::Passage))
        &&& self.lookahead > 0 ==> self.tokens@[0].kind == TokenKind::Passage
    }

    /// The predictive parsing routine: pops grammar symbols until the stack is
    /// empty, which must happen exactly when the input is used up.
    #[verifier::rlimit(100)]
    pub fn parsing(&mut self) -> (r: Result<(), ParseError>)
        requires
            old(self).inv(),
            old(self).fresh(),
        ensures
            r is Ok ==> all_forest(final(self).built().forest(), input_ok(final(self).input())),
            r is Ok ==> final(self).built().wf() && roots_carry(final(self).built().forest(), passage_tokens(final(self).input())),
            final(self).input() == old(self).input(),
            r matches Err(e) ==> names_input_token(e, old(self).input()),
            old(self).input().len() == 0 ==> r is Ok,
            plain(old(self).input()) ==> r is Ok && tells(final(self).built().forest(), story(old(self).input())),
            calm(old(self).input()) && plain_len(old(self).input()) < old(self).input().len() ==> r == Err::<
                (),
                ParseError,
            >(
                ParseError::UnexpectedToken {
                    line: old(self).input()[plain_len(old(self).input()) as int].line,
                    column: old(self).input()[plain_len(old(self).input()) as int].column,
                },
            ),
            r is Ok ==> final(self).finished(),
            r is Ok ==> exists|tr: Seq<ParseState>|
                is_run(old(self).input(), tr) && #[trigger] accepts(old(self).input(), tr.last()) && tr.last().ast
                    == final(self).built(),
            r matches Err(e) ==> exists|tr: Seq<ParseState>|
                is_run(old(self).input(), tr) && #[trigger] fails_with(old(self).input(), tr.last(), e),
            old(self).input().len() > 0 && old(self).input()[0].kind != TokenKind::Passage ==> r == Err::<
                (),
                ParseError,
            >(
                ParseError::UnexpectedToken {
                    line: old(self).input()[0].line,
                    column: old(self).input()[0].column,
                },
            ),
    {
        self.stack.push(PNode::NonTerminal(NonTerminalType::S));
        proof {
            assert(self.stack@ =~= seq![PNode::NonTerminal(NonTerminalType::S)]);
            assert(self.tokens@.take(0) =~= Seq::<Token>::empty());
        }
        let ghost mut tr = seq![self.state()];
        while self.stack.len() > 0
            invariant
                is_run(self.tokens@, tr),
                tr.last() == self.state(),
                self.inv(),
                self.start_shape(),
                calm(self.tokens@) ==> self.plain_shape() && self.lookahead <= plain_len(self.tokens@),
                self.tokens@ == old(self).tokens@,
                self.lookahead == 0 && self.tokens@.len() == 0 ==> self.stack@ == seq![
                    PNode::NonTerminal(NonTerminalType::S),
                ] || self.stack@.len() == 0,
                self.tokens@.len() > 0 && self.tokens@[0].kind != TokenKind::Passage ==> self.lookahead == 0
                    && self.stack@ == seq![PNode::NonTerminal(NonTerminalType::S)],
            decreases self.tokens@.len() - self.lookahead, self.measure(),
        {
            let ghost pre_stack = self.stack@;
            let ghost pre_state = self.state();
            proof {
                lemma_plain_len(self.tokens@);
            }
            let top = self.stack.pop().unwrap();
            match top {
                PNode::NonTerminal(nt) => {
                    let ghost pre_forest = self.ast.forest();
                    let ghost pre_ast = self.ast;
                    let new_nodes = match self.apply_grammar(nt) {
                        Ok(v) => v,
                        Err(e) => {
                            proof {
                                let la = self.lookahead as int;
                                if la < self.tokens@.len() {
                                    assert(located(e, self.tokens@[la].line, self.tokens@[la].column));
                                    if calm(self.tokens@) && la < plain_len(self.tokens@) {
                                        assert(plain_kind(self.tokens@[la].kind));
                                    }
                                    if calm(self.tokens@) && la == plain_len(self.tokens@) {
                                        assert(pre_ast.cursor().len() == 1);
                                    }
                                }
                            }
                            assert(fails_with(self.tokens@, tr.last(), e));
                            return Err(e);
                        },
                    };
                    let ghost v = new_nodes@;
                    self.push_all(new_nodes);
                    proof {
                        let la = self.lookahead as int;
                        if la < self.tokens@.len() {
                            let t = self.tokens@[la];
                            let d = choose|d: Token| same_token(d, t) && action(nt, d, pre_ast, self.ast);
                            assert(same_token(d, t) && action(nt, d, pre_state.ast, self.state().ast));
                            assert(self.state().stack == pre_state.stack.drop_last() + reversed(
                                production(nt, t.kind)->Some_0,
                            ));
                        }
                        assert(moves(self.tokens@, pre_state, self.state()));
                        lemma_run_extend(self.tokens@, tr, self.state());
                        tr = tr.push(self.state());
                    }
                    proof {
                        // the measure drops: the right-hand side starts lower,
                        // or the nonterminal vanished
                        let la = self.lookahead as int;
                        if la < self.tokens@.len() {
                            let a = self.tokens@[la].kind;
                            lemma_table_descends(nt, a);
                            if v.len() > 0 {
                                assert(self.stack@.drop_last() =~= pre_stack.drop_last() + reversed(v).drop_last());
                            } else {
                                assert(self.stack@ =~= pre_stack.drop_last());
                            }
                        } else {
                            assert(self.stack@ =~= pre_stack.drop_last());
                        }
                        // the roots still carry the passage-start tokens
                        let ps = passage_tokens(self.tokens@.take(la));
                        let f = self.ast.forest();
                        assert(roots_carry(pre_forest, ps));
                        if v.len() > 0 {
                            assert(self.stack@.last() == v[0]);
                        } else if self.stack@.len() > 0 {
                            assert(self.stack@.last() == pre_stack[pre_stack.len() - 2]);
                        }
                        if la < self.tokens@.len() {
                            lemma_passage_tokens_step(self.tokens@, la);
                            if v.len() > 0 && v[0] == PNode::Terminal(TokenKind::Passage) {
                                let ps2 = ps.push(self.tokens@[la]);
                                assert(passage_tokens(self.tokens@.take(la + 1)) == ps2);
                                assert forall|i: int| 0 <= i < f.len() implies same_token(#[trigger] f[i].category, ps2[i]) by {
                                    if i < pre_forest.len() {
                                        assert(f.drop_last()[i] == f[i]);
                                        assert(pre_forest[i].category == f.drop_last()[i].category);
                                    }
                                }
                                assert(roots_carry(f, ps2));
                            } else {
                                assert forall|i: int| 0 <= i < f.len() implies same_token(#[trigger] f[i].category, ps[i]) by {
                                    assert(pre_forest[i].category == f[i].category);
                                }
                            }
                        }
                        // a plain story keeps its shapes
                        if calm(self.tokens@) {
                            let sf = PNode::NonTerminal(NonTerminalType::Sf);
                            let pc = PNode::NonTerminal(NonTerminalType::PassageContent);
                            let s0 = PNode::NonTerminal(NonTerminalType::S);
                            let ps = PNode::NonTerminal(NonTerminalType::Passage);
                            if la < self.tokens@.len() {
                                let k = self.tokens@[la].kind;
                                let d = choose|d: Token|
                                    same_token(d, self.tokens@[la]) && action(nt, d, pre_ast, self.ast);
                                lemma_story_step(self.tokens@, la);
                                if pre_stack == seq![sf, pc] {
                                    if k == TokenKind::Text || k == TokenKind::NewLine {
                                        assert(reversed(v) =~= seq![pc, tm(k)]);
                                        assert(self.stack@ =~= seq![sf, pc, tm(k)]);
                                        let n = pre_forest.len();
                                        let c = pre_ast.cursor();
                                        assert(c.drop_first() =~= Seq::<usize>::empty());
                                        assert(focus_at(pre_forest, c) == pre_forest[n - 1]);
                                        let cs = pre_forest[n - 1].childs.push(leaf_tree(d));
                                        assert(f =~= pre_forest.update(n - 1, Tree { category: pre_forest[n - 1].category, childs: cs }));
                                        lemma_tells_append(pre_forest, story(self.tokens@.take(la)), d, self.tokens@[la]);
                                    } else {
                                        if la < plain_len(self.tokens@) {
                                            assert(plain_kind(k));
                                        } else {
                                            assert(pre_ast.cursor().len() == 1);
                                            assert(depth_needed(nt, k) == 2);
                                            assert(step_error(nt, self.tokens@[la], pre_ast) is Some);
                                        }
                                        assert(v.len() == 0);
                                        assert(self.stack@ =~= seq![sf]);
                                    }
                                } else if pre_stack == seq![sf] {
                                    assert(reversed(v) =~= seq![s0]);
                                    assert(self.stack@ =~= seq![s0]);
                                } else if pre_stack == seq![s0] {
                                    assert(reversed(v) =~= seq![sf, ps]);
                                    assert(self.stack@ =~= seq![sf, ps]);
                                } else if pre_stack == seq![sf, ps] {
                                    assert(reversed(v) =~= seq![pc, tm(TokenKind::Passage)]);
                                    assert(self.stack@ =~= seq![sf, pc, tm(TokenKind::Passage)]);
                                    assert(f =~= pre_forest.push(leaf_tree(d)));
                                    lemma_tells_push(pre_forest, story(self.tokens@.take(la)), d, self.tokens@[la]);
                                }
                            } else {
                                if pre_stack == seq![sf, pc] {
                                    assert(self.stack@ =~= seq![sf]);
                                } else {
                                    assert(self.stack@ =~= Seq::<PNode>::empty());
                                }
                            }
                        }
                        // before the first token is consumed
                        let sf = PNode::NonTerminal(NonTerminalType::Sf);
                        let pn = PNode::NonTerminal(NonTerminalType::Passage);
                        let pc = PNode::NonTerminal(NonTerminalType::PassageContent);
                        let tp = PNode::Terminal(TokenKind::Passage);
                        if self.lookahead == 0 {
                            if pre_stack == seq![PNode::NonTerminal(NonTerminalType::S)] && self.tokens@.len() == 0 {
                                assert(self.stack@ =~= Seq::<PNode>::empty());
                            } else if pre_stack == seq![PNode::NonTerminal(NonTerminalType::S)] {
                                assert(pre_stack.drop_last() =~= Seq::<PNode>::empty());
                                assert(reversed(v) =~= seq![sf, pn]);
                                assert(self.stack@ =~= seq![sf, pn]);
                            } else if pre_stack == seq![sf, pn] {
                                assert(pre_stack.drop_last() =~= seq![sf]);
                                assert(reversed(v) =~= seq![pc, tp]);
                                assert(self.stack@ =~= seq![sf, pc, tp]);
                            }
                        }
                    }
                },
                PNode::Terminal(kind) => {
                    if self.lookahead >= self.tokens.len() {
                        assert(fails_with(self.tokens@, tr.last(), ParseError::MissingToken(kind)));
                        return Err(ParseError::MissingToken(kind));
                    }
                    if self.tokens[self.lookahead].kind != kind {
                        let (line, column) = self.tokens[self.lookahead].location();
                        let e = ParseError::UnexpectedToken { line, column };
                        assert(located(e, self.tokens@[self.lookahead as int].line, self.tokens@[self.lookahead as int].column));
                        assert(fails_with(self.tokens@, tr.last(), e));
                        return Err(e);
                    }
                    proof {
                        lemma_plain_len(self.tokens@);
                        if calm(self.tokens@) && pre_stack.len() == 3 {
                            assert(self.stack@ =~= seq![
                                PNode::NonTerminal(NonTerminalType::Sf),
                                PNode::NonTerminal(NonTerminalType::PassageContent),
                            ]);
                        }
                        lemma_passage_tokens_step(self.tokens@, self.lookahead as int);
                        if self.stack@.len() > 0 {
                            assert(self.stack@.last() == pre_stack[pre_stack.len() - 2]);
                        }
                    }
                    self.next_token();
                    proof {
                        assert(moves(self.tokens@, pre_state, self.state()));
                        lemma_run_extend(self.tokens@, tr, self.state());
                        tr = tr.push(self.state());
                    }
                },
            }
        }
        if self.lookahead < self.tokens.len() {
            let (line, column) = self.tokens[self.lookahead].location();
            let e = ParseError::UnexpectedToken { line, column };
            assert(located(e, self.tokens@[self.lookahead as int].line, self.tokens@[self.lookahead as int].column));
            assert(fails_with(self.tokens@, tr.last(), e));
            return Err(e);
        }
        proof {
            assert(self.tokens@.take(self.lookahead as int) =~= self.tokens@);
        }
        assert(accepts(self.tokens@, tr.last()));
        Ok(())
    }

    /// Applies the production for `top` and the current lookahead: runs its
    /// tree-building action and hands back its right-hand side.
    fn apply_grammar(&mut self, top: NonTerminalType) -> (r: Result<Vec<PNode>, ParseError>)
        requires
            old(self).ast.wf(),
            old(self).lookahead <= old(self).tokens@.len(),
        ensures
            final(self).tokens == old(self).tokens,
            final(self).lookahead == old(self).lookahead,
            final(self).stack == old(self).stack,
            r is Ok && old(self).lookahead < old(self).tokens@.len() ==> exists|d: Token|
                same_token(d, old(self).tokens@[old(self).lookahead as int]) && action(
                    top,
                    d,
                    old(self).ast,
                    final(self).ast,
                ),
            r is Ok && all_forest(old(self).ast.forest(), input_ok(old(self).tokens@)) ==> all_forest(
                final(self).ast.forest(),
                input_ok(old(self).tokens@),
            ),
            r matches Ok(v) ==> if old(self).lookahead < old(self).tokens@.len() {
                rhs_ok(old(self).ast, final(self).ast, v@, old(self).tokens@[old(self).lookahead as int])
            } else {
                v@.len() == 0 && final(self).ast == old(self).ast
            },
            top == NonTerminalType::S && old(self).lookahead < old(self).tokens@.len() ==> (r matches Ok(v) ==> v@ == seq![
                PNode::NonTerminal(NonTerminalType::Passage),
                PNode::NonTerminal(NonTerminalType::Sf),
            ]),
            top == NonTerminalType::Passage ==> (r matches Ok(v) ==> v@ == seq![
                PNode::Terminal(TokenKind::Passage),
                PNode::NonTerminal(NonTerminalType::PassageContent),
            ]),
            old(self).lookahead < old(self).tokens@.len() ==> {
                let t = old(self).tokens@[old(self).lookahead as int];
                &&& r matches Ok(v) ==> production(top, t.kind) == Some(v@)
                &&& (r is Err <==> step_error(top, t, old(self).ast) is Some)
                &&& r matches Err(e) ==> step_error(top, t, old(self).ast) == Some(e)
                &&& production(top, t.kind) is None ==> r == Err::<Vec<PNode>, ParseError>(
                    ParseError::UnexpectedToken { line: t.line, column: t.column },
                )
                &&& r matches Err(e) ==> located(e, t.line, t.column)
            },
            old(self).lookahead >= old(self).tokens@.len() ==> {
                &&& (r is Ok <==> nullable(top))
                &&& r matches Ok(v) ==> v@.len() == 0
                &&& r is Err ==> r == Err::<Vec<PNode>, ParseError>(ParseError::UnexpectedEnd(top))
            },
    {
        if self.lookahead >= self.tokens.len() {
            // no token left: only the nonterminals that may produce nothing
            return match top {
                NonTerminalType::S | NonTerminalType::Sf | NonTerminalType::PassageContent
                | NonTerminalType::MonoContent | NonTerminalType::ExpressionListf | NonTerminalType::E2 | NonTerminalType::T2
                | NonTerminalType::B2 | NonTerminalType::F2 | NonTerminalType::G2
                | NonTerminalType::Argumentsf => Ok(Vec::new()),
                _ => Err(ParseError::UnexpectedEnd(top)),
            };
        }
        let tok = self.tokens[self.lookahead].duplicate();
        let ghost d = tok;
        let r = match top {
            NonTerminalType::S | NonTerminalType::Sf | NonTerminalType::Passage | NonTerminalType::PassageContent
            | NonTerminalType::Formating | NonTerminalType::BoldFormatting | NonTerminalType::ItalicFormatting
            | NonTerminalType::MonoFormatting | NonTerminalType::MonoContent | NonTerminalType::Link => text_rules(
                &mut self.ast,
                top,
                tok,
            ),
            NonTerminalType::Macro | NonTerminalType::Macrof | NonTerminalType::ExpressionList
            | NonTerminalType::ExpressionListf => macro_rules(&mut self.ast, top, tok),
            _ => expression_rules(&mut self.ast, top, tok),
        };
        proof {
            if r is Ok {
                assert(same_token(d, self.tokens@[self.lookahead as int]) && action(top, d, old(self).ast, self.ast));
            }
        }
        r
    }

    /// Pushes `v` so that its first symbol ends on top.
    fn push_all(&mut self, v: Vec<PNode>)
        ensures
            final(self).stack@ == old(self).stack@ + reversed(v@),
            final(self).ast == old(self).ast,
            final(self).tokens == old(self).tokens,
            final(self).lookahead == old(self).lookahead,
    {
        let ghost orig = v@;
        let mut v = v;
        while v.len() > 0
            invariant
                v@.len() <= orig.len(),
                v@ == orig.subrange(0, v@.len() as int),
                self.stack@ == old(self).stack@ + reversed(orig.subrange(v@.len() as int, orig.len() as int)),
                self.ast == old(self).ast,
                self.tokens == old(self).tokens,
                self.lookahead == old(self).lookahead,
            decreases v@.len(),
        {
            let ghost n = v@.len();
            let ghost before = v@;
            let x = v.pop().unwrap();
            self.stack.push(x);
            proof {
                let l = orig.len() as int;
                assert(before == orig.subrange(0, n as int));
                assert(x == before[n - 1]);
                assert(x == orig[n - 1]);
                assert(v@ =~= orig.subrange(0, v@.len() as int));
                assert(reversed(orig.subrange(n - 1, l)) =~= reversed(orig.subrange(n as int, l)).push(x));
                assert(self.stack@ =~= old(self).stack@ + reversed(orig.subrange(v@.len() as int, orig.len() as int)));
            }
        }
        proof {
            assert(orig.subrange(0, orig.len() as int) =~= orig);
        }
    }

    /// Sets the lookahead to the next token.
    fn next_token(&mut self)
        requires
            old(self).lookahead < usize::MAX,
        ensures
            final(self).lookahead == old(self).lookahead + 1,
            final(self).ast == old(self).ast,
            final(self).tokens == old(self).tokens,
            final(self).stack == old(self).stack,
    {
        self.lookahead = self.lookahead + 1;
    }
}

/// The productions of passages, their content, formatting and links.
fn text_rules(ast: &mut AST, top: NonTerminalType, tok: Token) -> (r: Result<Vec<PNode>, ParseError>)
    requires
        old(ast).wf(),
        rule_group(top) == 0,
    ensures
        r is Err <==> step_error(top, tok, *old(ast)) is Some,
        r matches Err(e) ==> step_error(top, tok, *old(ast)) == Some(e),
        r is Ok ==> action(top, tok, *old(ast), *final(ast)),
        r is Ok ==> forall|ok: spec_fn(Token) -> bool|
            all_forest(old(ast).forest(), ok) && ok(tok) && accepts_markers(ok) ==> #[trigger] all_forest(
                final(ast).forest(),
                ok,
            ),
        r matches Ok(v) ==> rhs_ok(*old(ast), *final(ast), v@, tok),
        r matches Ok(v) ==> production(top, tok.kind) == Some(v@),
        production(top, tok.kind) is None ==> r == Err::<Vec<PNode>, ParseError>(
            ParseError::UnexpectedToken { line: tok.line, column: tok.column },
        ),
        r matches Err(e) ==> located(e, tok.line, tok.column),
        top == NonTerminalType::S ==> (r matches Ok(v) ==> v@ == seq![
            PNode::NonTerminal(NonTerminalType::Passage),
            PNode::NonTerminal(NonTerminalType::Sf),
        ]),
        top == NonTerminalType::Passage ==> (r matches Ok(v) ==> v@ == seq![
            PNode::Terminal(TokenKind::Passage),
            PNode::NonTerminal(NonTerminalType::PassageContent),
        ]),
{
    let kind = tok.kind;
    let line = tok.line;
    let column = tok.column;
    let unexpected = ParseError::UnexpectedToken { line, column };
    let expr = starts_expression(kind);
    match top {
        NonTerminalType::S => match kind {
            TokenKind::Passage => Ok(
                vec![
                    PNode::NonTerminal(NonTerminalType::Passage),
                    PNode::NonTerminal(NonTerminalType::Sf),
                ],
            ),
            _ => Err(unexpected),
        },
        NonTerminalType::Sf => match kind {
            TokenKind::Passage => Ok(vec![PNode::NonTerminal(NonTerminalType::S)]),
            _ => Err(unexpected),
        },
        NonTerminalType::Passage => match kind {
            TokenKind::Passage => {
                ast.add_passage(tok);
                Ok(
                    vec![
                        PNode::Terminal(TokenKind::Passage),
                        PNode::NonTerminal(NonTerminalType::PassageContent),
                    ],
                )
            },
            _ => Err(unexpected),
        },
        NonTerminalType::PassageContent => match kind {
            TokenKind::Text | TokenKind::NewLine => {
                at_token(ast.add_child(tok), line, column)?;
                Ok(vec![PNode::Terminal(kind), PNode::NonTerminal(NonTerminalType::PassageContent)])
            },
            TokenKind::FormatBoldStart | TokenKind::FormatItalicStart | TokenKind::FormatMonoStart => Ok(
                vec![
                    PNode::NonTerminal(NonTerminalType::Formating),
                    PNode::NonTerminal(NonTerminalType::PassageContent),
                ],
            ),
            TokenKind::PassageLink => Ok(
                vec![
                    PNode::NonTerminal(NonTerminalType::Link),
                    PNode::NonTerminal(NonTerminalType::PassageContent),
                ],
            ),
            TokenKind::MacroDisplay | TokenKind::MacroSet | TokenKind::MacroIf | TokenKind::MacroPrint
            | TokenKind::Variable | TokenKind::MacroContentVar | TokenKind::MacroContentPassageName => Ok(
                vec![
                    PNode::NonTerminal(NonTerminalType::Macro),
                    PNode::NonTerminal(NonTerminalType::PassageContent),
                ],
            ),
            TokenKind::MacroEndIf => {
                // leave the if or else body; the end-if stays beside it
                at_token(ast.up_child(tok), line, column)?;
                Ok(Vec::new())
            },
            TokenKind::FormatBoldEnd | TokenKind::FormatItalicEnd => {
                at_token(ast.up(), line, column)?;
                Ok(Vec::new())
            },
            _ => Ok(Vec::new()),
        },
        NonTerminalType::Formating => match kind {
            TokenKind::FormatBoldStart => Ok(vec![PNode::NonTerminal(NonTerminalType::BoldFormatting)]),
            TokenKind::FormatItalicStart => Ok(vec![PNode::NonTerminal(NonTerminalType::ItalicFormatting)]),
            TokenKind::FormatMonoStart => Ok(vec![PNode::NonTerminal(NonTerminalType::MonoFormatting)]),
            _ => Err(unexpected),
        },
        NonTerminalType::BoldFormatting => match kind {
            TokenKind::FormatBoldStart => {
                at_token(ast.child_down(tok), line, column)?;
                Ok(
                    vec![
                        PNode::Terminal(kind),
                        PNode::NonTerminal(NonTerminalType::PassageContent),
                        PNode::Terminal(TokenKind::FormatBoldEnd),
                    ],
                )
            },
            _ => Err(unexpected),
        },
        NonTerminalType::ItalicFormatting => match kind {
            TokenKind::FormatItalicStart => {
                at_token(ast.child_down(tok), line, column)?;
                Ok(
                    vec![
                        PNode::Terminal(kind),
                        PNode::NonTerminal(NonTerminalType::PassageContent),
                        PNode::Terminal(TokenKind::FormatItalicEnd),
                    ],
                )
            },
            _ => Err(unexpected),
        },
        NonTerminalType::MonoFormatting => match kind {
            TokenKind::FormatMonoStart => {
                at_token(ast.child_down(tok), line, column)?;
                Ok(
                    vec![
                        PNode::Terminal(kind),
                        PNode::NonTerminal(NonTerminalType::MonoContent),
                        PNode::Terminal(TokenKind::FormatMonoEnd),
                    ],
                )
            },
            _ => Err(unexpected),
        },
        NonTerminalType::MonoContent => match kind {
            TokenKind::Text => {
                at_token(ast.add_child(tok), line, column)?;
                Ok(vec![PNode::Terminal(kind), PNode::NonTerminal(NonTerminalType::MonoContent)])
            },
            TokenKind::NewLine => Ok(
                vec![PNode::Terminal(kind), PNode::NonTerminal(NonTerminalType::MonoContent)],
            ),
            TokenKind::FormatMonoEnd => {
                at_token(ast.up(), line, column)?;
                Ok(Vec::new())
            },
            _ => Err(unexpected),
        },
        NonTerminalType::Link => match kind {
            TokenKind::PassageLink => {
                at_token(ast.add_child(tok), line, column)?;
                Ok(vec![PNode::Terminal(kind)])
            },
            _ => Err(unexpected),
        },
        _ => Err(unexpected),
    }
}

/// The productions of macros and their expression lists.
fn macro_rules(ast: &mut AST, top: NonTerminalType, tok: Token) -> (r: Result<Vec<PNode>, ParseError>)
    requires
        old(ast).wf(),
        rule_group(top) == 1,
    ensures
        r is Err <==> step_error(top, tok, *old(ast)) is Some,
        r matches Err(e) ==> step_error(top, tok, *old(ast)) == Some(e),
        r is Ok ==> action(top, tok, *old(ast), *final(ast)),
        r is Ok ==> forall|ok: spec_fn(Token) -> bool|
            all_forest(old(ast).forest(), ok) && ok(tok) && accepts_markers(ok) ==> #[trigger] all_forest(
                final(ast).forest(),
                ok,
            ),
        r matches Ok(v) ==> rhs_ok(*old(ast), *final(ast), v@, tok),
        r matches Ok(v) ==> production(top, tok.kind) == Some(v@),
        production(top, tok.kind) is None ==> r == Err::<Vec<PNode>, ParseError>(
            ParseError::UnexpectedToken { line: tok.line, column: tok.column },
        ),
        r matches Err(e) ==> located(e, tok.line, tok.column),
{
    let kind = tok.kind;
    let line = tok.line;
    let column = tok.column;
    let unexpected = ParseError::UnexpectedToken { line, column };
    let expr = starts_expression(kind);
    match top {
        NonTerminalType::Macro => match kind {
            TokenKind::MacroDisplay | TokenKind::MacroPrint => {
                at_token(ast.child_down(tok), line, column)?;
                Ok(
                    vec![
                        PNode::Terminal(kind),
                        PNode::NonTerminal(NonTerminalType::ExpressionList),
                        PNode::Terminal(TokenKind::MacroEnd),
                    ],
                )
            },
            TokenKind::MacroSet => {
                at_token(ast.child_down(tok), line, column)?;
                Ok(
                    vec![
                        PNode::Terminal(kind),
                        PNode::NonTerminal(NonTerminalType::AssignVariable),
                        PNode::NonTerminal(NonTerminalType::ExpressionListf),
                        PNode::Terminal(TokenKind::MacroEnd),
                    ],
                )
            },
            TokenKind::MacroIf => {
                // the if-node, and under it the node for its condition
                let marker = Token::marker(TokenKind::Pseudo);
                let ghost m = marker;
                at_token(ast.two_childs_down(tok, marker), line, column)?;
                assert(is_marker(m));
                Ok(
                    vec![
                        PNode::Terminal(kind),
                        PNode::NonTerminal(NonTerminalType::ExpressionList),
                        PNode::Terminal(TokenKind::MacroEnd),
                        PNode::NonTerminal(NonTerminalType::PassageContent),
                        PNode::NonTerminal(NonTerminalType::Macrof),
                    ],
                )
            },
            TokenKind::MacroContentVar | TokenKind::MacroContentPassageName => {
                at_token(ast.add_child(tok), line, column)?;
                Ok(vec![PNode::Terminal(kind), PNode::Terminal(TokenKind::MacroEnd)])
            },
            _ => Err(unexpected),
        },
        NonTerminalType::Macrof => match kind {
            TokenKind::MacroElse => {
                // from the if body over to a sibling else body
                at_token(ast.up_child_down(tok), line, column)?;
                Ok(
                    vec![
                        PNode::Terminal(kind),
                        PNode::Terminal(TokenKind::MacroEnd),
                        PNode::NonTerminal(NonTerminalType::PassageContent),
                        PNode::Terminal(TokenKind::MacroEndIf),
                        PNode::Terminal(TokenKind::MacroEnd),
                    ],
                )
            },
            TokenKind::MacroEndIf => Ok(vec![PNode::Terminal(kind), PNode::Terminal(TokenKind::MacroEnd)]),
            _ => Err(unexpected),
        },
        NonTerminalType::ExpressionList => if expr {
            Ok(
                vec![
                    PNode::NonTerminal(NonTerminalType::Expression),
                    PNode::NonTerminal(NonTerminalType::ExpressionListf),
                ],
            )
        } else {
            Err(unexpected)
        },
        NonTerminalType::ExpressionListf => match kind {
            TokenKind::MacroEnd => {
                // the expression is complete: normalize it, then leave it
                if ast.path().len() == 0 {
                    return Err(unexpected);
                }
                let scope = ast.focus_kind();
                let normalized = ast.normalize_focus();
                if let Err(error) = normalized {
                    return Err(ParseError::Expression { line, column, error });
                }
                at_token(ast.up(), line, column)?;
                if scope == TokenKind::Assign {
                    // the value of an assignment also ends its set macro
                    at_token(ast.up(), line, column)?;
                }
                assert(ast.cursor() =~= old(ast).cursor().subrange(0, old(ast).cursor().len() - closes(*old(ast))));
                Ok(Vec::new())
            },
            _ => Ok(Vec::new()),
        },
        _ => Err(unexpected),
    }
}

/// The productions that capture the tokens of one expression.
fn expression_rules(ast: &mut AST, top: NonTerminalType, tok: Token) -> (r: Result<Vec<PNode>, ParseError>)
    requires
        old(ast).wf(),
        rule_group(top) == 2,
    ensures
        r is Err <==> step_error(top, tok, *old(ast)) is Some,
        r matches Err(e) ==> step_error(top, tok, *old(ast)) == Some(e),
        r is Ok ==> action(top, tok, *old(ast), *final(ast)),
        r is Ok ==> forall|ok: spec_fn(Token) -> bool|
            all_forest(old(ast).forest(), ok) && ok(tok) && accepts_markers(ok) ==> #[trigger] all_forest(
                final(ast).forest(),
                ok,
            ),
        r matches Ok(v) ==> rhs_ok(*old(ast), *final(ast), v@, tok),
        r matches Ok(v) ==> production(top, tok.kind) == Some(v@),
        production(top, tok.kind) is None ==> r == Err::<Vec<PNode>, ParseError>(
            ParseError::UnexpectedToken { line: tok.line, column: tok.column },
        ),
        r matches Err(e) ==> located(e, tok.line, tok.column),
{
    let kind = tok.kind;
    let line = tok.line;
    let column = tok.column;
    let unexpected = ParseError::UnexpectedToken { line, column };
    let expr = starts_expression(kind);
    match top {
        NonTerminalType::Expression => if expr {
            Ok(vec![PNode::NonTerminal(NonTerminalType::E)])
        } else if kind == TokenKind::Assign {
            Ok(vec![PNode::NonTerminal(NonTerminalType::AssignVariable)])
        } else {
            Err(unexpected)
        },
        NonTerminalType::E => if expr {
            Ok(vec![PNode::NonTerminal(NonTerminalType::T), PNode::NonTerminal(NonTerminalType::E2)])
        } else {
            Err(unexpected)
        },
        NonTerminalType::E2 => match kind {
            TokenKind::LogOp(Operator::Or) => {
                at_token(ast.add_child(tok), line, column)?;
                Ok(
                    vec![
                        PNode::Terminal(kind),
                        PNode::NonTerminal(NonTerminalType::T),
                        PNode::NonTerminal(NonTerminalType::E2),
                    ],
                )
            },
            _ => Ok(Vec::new()),
        },
        NonTerminalType::T => if expr {
            Ok(vec![PNode::NonTerminal(NonTerminalType::B), PNode::NonTerminal(NonTerminalType::T2)])
        } else {
            Err(unexpected)
        },
        NonTerminalType::T2 => match kind {
            TokenKind::LogOp(Operator::And) => {
                at_token(ast.add_child(tok), line, column)?;
                Ok(
                    vec![
                        PNode::Terminal(kind),
                        PNode::NonTerminal(NonTerminalType::B),
                        PNode::NonTerminal(NonTerminalType::T2),
                    ],
                )
            },
            _ => Ok(Vec::new()),
        },
        NonTerminalType::B => if expr {
            Ok(vec![PNode::NonTerminal(NonTerminalType::F), PNode::NonTerminal(NonTerminalType::B2)])
        } else {
            Err(unexpected)
        },
        NonTerminalType::B2 => match kind {
            TokenKind::CompOp(_) => {
                at_token(ast.add_child(tok), line, column)?;
                Ok(
                    vec![
                        PNode::Terminal(kind),
                        PNode::NonTerminal(NonTerminalType::F),
                        PNode::NonTerminal(NonTerminalType::B2),
                    ],
                )
            },
            _ => Ok(Vec::new()),
        },
        NonTerminalType::F => if expr {
            Ok(vec![PNode::NonTerminal(NonTerminalType::G), PNode::NonTerminal(NonTerminalType::F2)])
        } else {
            Err(unexpected)
        },
        NonTerminalType::F2 => match kind {
            TokenKind::NumOp(Operator::Add) | TokenKind::NumOp(Operator::Sub) => {
                at_token(ast.add_child(tok), line, column)?;
                Ok(
                    vec![
                        PNode::Terminal(kind),
                        PNode::NonTerminal(NonTerminalType::G),
                        PNode::NonTerminal(NonTerminalType::F2),
                    ],
                )
            },
            _ => Ok(Vec::new()),
        },
        NonTerminalType::G => if expr {
            Ok(vec![PNode::NonTerminal(NonTerminalType::H), PNode::NonTerminal(NonTerminalType::G2)])
        } else {
            Err(unexpected)
        },
        NonTerminalType::G2 => match kind {
            TokenKind::NumOp(Operator::Mul) | TokenKind::NumOp(Operator::Div)
            | TokenKind::NumOp(Operator::Mod) => {
                at_token(ast.add_child(tok), line, column)?;
                Ok(
                    vec![
                        PNode::Terminal(kind),
                        PNode::NonTerminal(NonTerminalType::H),
                        PNode::NonTerminal(NonTerminalType::G2),
                    ],
                )
            },
            _ => Ok(Vec::new()),
        },
        NonTerminalType::H => match kind {
            TokenKind::Int | TokenKind::Str | TokenKind::Boolean => Ok(
                vec![PNode::NonTerminal(NonTerminalType::DataType)],
            ),
            TokenKind::Variable => {
                at_token(ast.add_child(tok), line, column)?;
                Ok(vec![PNode::Terminal(kind)])
            },
            TokenKind::Function => Ok(vec![PNode::NonTerminal(NonTerminalType::Function)]),
            TokenKind::LogOp(Operator::Not) | TokenKind::UnaryMinus => {
                at_token(ast.add_child(tok), line, column)?;
                Ok(vec![PNode::Terminal(kind), PNode::NonTerminal(NonTerminalType::H)])
            },
            _ => Err(unexpected),
        },
        NonTerminalType::Function => match kind {
            TokenKind::Function => {
                at_token(ast.child_down(tok), line, column)?;
                Ok(vec![PNode::Terminal(kind), PNode::NonTerminal(NonTerminalType::Functionf)])
            },
            _ => Err(unexpected),
        },
        NonTerminalType::Functionf => if kind == TokenKind::ArgsEnd {
            // a call without arguments
            at_token(ast.up(), line, column)?;
            Ok(vec![PNode::Terminal(kind)])
        } else if expr {
            Ok(vec![PNode::NonTerminal(NonTerminalType::Arguments), PNode::Terminal(TokenKind::ArgsEnd)])
        } else {
            Err(unexpected)
        },
        NonTerminalType::Arguments => if expr {
            let marker = Token::marker(TokenKind::Pseudo);
            let ghost m = marker;
            at_token(ast.child_down(marker), line, column)?;
            assert(is_marker(m) && down_step(*old(ast), *ast, m));
            Ok(
                vec![
                    PNode::NonTerminal(NonTerminalType::Expression),
                    PNode::NonTerminal(NonTerminalType::Argumentsf),
                ],
            )
        } else {
            Err(unexpected)
        },
        NonTerminalType::Argumentsf => match kind {
            TokenKind::ArgsEnd => {
                // out of the last argument, then out of the call
                at_token(ast.up(), line, column)?;
                at_token(ast.up(), line, column)?;
                assert(ast.cursor() =~= old(ast).cursor().subrange(0, old(ast).cursor().len() - 2));
                Ok(Vec::new())
            },
            TokenKind::Colon => {
                at_token(ast.up(), line, column)?;
                Ok(vec![PNode::Terminal(kind), PNode::NonTerminal(NonTerminalType::Arguments)])
            },
            _ => Ok(Vec::new()),
        },
        NonTerminalType::AssignVariable => match kind {
            TokenKind::Assign => {
                at_token(ast.child_down(tok), line, column)?;
                Ok(vec![PNode::Terminal(kind), PNode::NonTerminal(NonTerminalType::E)])
            },
            _ => Err(unexpected),
        },
        NonTerminalType::DataType => match kind {
            TokenKind::Int | TokenKind::Str | TokenKind::Boolean => {
                at_token(ast.add_child(tok), line, column)?;
                Ok(vec![PNode::Terminal(kind)])
            },
            _ => Err(unexpected),
        },
        _ => Err(unexpected),
    }
}

} // verus!
