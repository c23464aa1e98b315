//! Operator-precedence normalization: turns the flat run of tokens that the
//! parser captured for one expression into a tree that reflects how tightly
//! each operator binds. Two stacks are used: one of operand trees and one of
//! operator tokens.
use vstd::prelude::*;
use crate::ast::{ASTNode, Tree, trees, lemma_tree_of, all_nodes, lemma_all_list};
use crate::token::{Operator, Token, TokenKind};

verus! {

/// Why an expression could not be normalized.
#[derive(Clone, Copy, Debug, PartialEq, Eq, Structural)]
pub enum ExprError {
    /// A binary operator found fewer than two operands.
    MissingOperand,
    /// Normalization ended with this many operands instead of exactly one.
    AmbiguousRoot(usize),
    /// Normalization ended with an operator that was never applied.
    UnusedOperator,
}

/// The two stacks at one moment of a normalization.
pub struct ExprState {
    pub operators: Seq<Token>,
    pub operands: Seq<Tree>,
}

/// Both stacks empty.
pub open spec fn empty_state() -> ExprState {
    ExprState { operators: Seq::empty(), operands: Seq::empty() }
}

/// Binding strength of an operator: lower binds looser.
pub open spec fn spec_operator_rank(o: Operator) -> int {
    match o {
        Operator::Or => 1,
        Operator::And => 2,
        Operator::Equal | Operator::NotEqual | Operator::Greater | Operator::GreaterEqual
        | Operator::Less | Operator::LessEqual => 3,
        Operator::Add | Operator::Sub => 4,
        Operator::Mul | Operator::Div | Operator::Mod => 5,
        Operator::Not => 6,
    }
}

/// Binding strength of an operator token; zero for a token that is none.
pub open spec fn spec_rank(k: TokenKind) -> int {
    match k {
        TokenKind::NumOp(o) => spec_operator_rank(o),
        TokenKind::CompOp(o) => spec_operator_rank(o),
        TokenKind::LogOp(o) => spec_operator_rank(o),
        TokenKind::UnaryMinus => 6,
        _ => 0,
    }
}

/// Tokens that go on the operator stack.
pub open spec fn is_operator(k: TokenKind) -> bool {
    match k {
        TokenKind::NumOp(_) | TokenKind::CompOp(_) | TokenKind::LogOp(_) | TokenKind::UnaryMinus => true,
        _ => false,
    }
}

/// Tokens that go on the operand stack as they are.
pub open spec fn is_operand(k: TokenKind) -> bool {
    match k {
        TokenKind::Boolean | TokenKind::Int | TokenKind::Str | TokenKind::Function
        | TokenKind::Variable => true,
        _ => false,
    }
}

/// Logical negation and unary minus take one operand.
pub open spec fn spec_is_unary(k: TokenKind) -> bool {
    k == TokenKind::LogOp(Operator::Not) || k == TokenKind::UnaryMinus
}

/// Whether a stacked operator is applied before an incoming one: its rank is
/// not lower, except that a unary operator waits for an equal-ranked one.
pub open spec fn spec_not_higher(stacked: TokenKind, incoming: TokenKind) -> bool {
    if spec_is_unary(stacked) && spec_rank(stacked) == spec_rank(incoming) {
        false
    } else {
        spec_rank(stacked) >= spec_rank(incoming)
    }
}

/// Applies the top operator: a unary one to the top operand, a binary one to
/// the two top operands (the upper one on the right). A unary operator with no
/// operand stays where it is; a binary one with fewer than two is an error.
pub open spec fn spec_reduce(st: ExprState) -> Result<ExprState, ExprError> {
    if st.operators.len() == 0 {
        Ok(st)
    } else {
        let op = st.operators.last();
        let ops = st.operators.drop_last();
        let n = st.operands.len();
        if n == 0 && spec_is_unary(op.kind) {
            Ok(st)
        } else if n == 0 {
            Err(ExprError::MissingOperand)
        } else if spec_is_unary(op.kind) {
            Ok(ExprState {
                operators: ops,
                operands: st.operands.drop_last().push(Tree { category: op, childs: seq![st.operands[n - 1]] }),
            })
        } else if n >= 2 {
            Ok(ExprState {
                operators: ops,
                operands: st.operands.subrange(0, n - 2).push(
                    Tree { category: op, childs: seq![st.operands[n - 2], st.operands[n - 1]] },
                ),
            })
        } else {
            Err(ExprError::MissingOperand)
        }
    }
}

/// The stacked operators are visited from the top down, `count` of them from
/// position `i` on; each that is not higher than `incoming` triggers a
/// reduction of the top.
pub open spec fn spec_compare(st: ExprState, incoming: TokenKind, count: nat, i: nat) -> Result<ExprState, ExprError>
    decreases count - i,
{
    if i >= count {
        Ok(st)
    } else {
        let idx = count - 1 - i;
        if idx < st.operators.len() && spec_not_higher(st.operators[idx].kind, incoming) {
            match spec_reduce(st) {
                Ok(s) => spec_compare(s, incoming, count, i + 1),
                Err(e) => Err(e),
            }
        } else {
            spec_compare(st, incoming, count, i + 1)
        }
    }
}

/// Reduces `k` times while an operand is left (`need_operand`) or while an
/// operator is left (otherwise).
pub open spec fn spec_drain(st: ExprState, k: nat, need_operand: bool) -> Result<ExprState, ExprError>
    decreases k,
{
    if k == 0 {
        Ok(st)
    } else if (need_operand && st.operands.len() > 0) || (!need_operand && st.operators.len() > 0) {
        match spec_reduce(st) {
            Ok(s) => spec_drain(s, (k - 1) as nat, need_operand),
            Err(e) => Err(e),
        }
    } else {
        spec_drain(st, (k - 1) as nat, need_operand)
    }
}

/// The stacks after the tokens of `ts` from position `i` on, starting from `st`.
pub open spec fn spec_run(ts: Seq<Tree>, i: nat, st: ExprState) -> Result<ExprState, ExprError>
    decreases ts, ts.len() - i,
{
    if i >= ts.len() {
        Ok(st)
    } else {
        let t = ts[i as int];
        let k = t.category.kind;
        if is_operand(k) {
            spec_run(ts, i + 1, ExprState { operators: st.operators, operands: st.operands.push(t) })
        } else if is_operator(k) {
            match spec_compare(st, k, st.operators.len(), 0) {
                Ok(s) => spec_run(
                    ts,
                    i + 1,
                    ExprState { operators: s.operators.push(t.category), operands: s.operands },
                ),
                Err(e) => Err(e),
            }
        } else if k == TokenKind::Expression {
            match spec_normalize(t.childs) {
                Ok(root) => spec_run(
                    ts,
                    i + 1,
                    ExprState { operators: st.operators, operands: st.operands.push(root) },
                ),
                Err(e) => Err(e),
            }
        } else {
            spec_run(ts, i + 1, st)
        }
    }
}

/// The end of a normalization: the stacks are drained, and exactly one
/// operand must be left.
pub open spec fn spec_finish(st: ExprState) -> Result<Tree, ExprError> {
    match spec_drain(st, st.operands.len(), true) {
        Ok(s1) => match spec_drain(s1, s1.operators.len(), false) {
            Ok(s2) => if s2.operands.len() != 1 {
                Err(ExprError::AmbiguousRoot(s2.operands.len() as usize))
            } else if s2.operators.len() != 0 {
                Err(ExprError::UnusedOperator)
            } else {
                Ok(s2.operands[0])
            },
            Err(e) => Err(e),
        },
        Err(e) => Err(e),
    }
}

/// The tree that a flat run of expression tokens normalizes to. Tokens that
/// are neither operands, operators nor nested expressions are passed over.
pub open spec fn spec_normalize(ts: Seq<Tree>) -> Result<Tree, ExprError>
    decreases ts, ts.len() + 1,
{
    match spec_run(ts, 0, empty_state()) {
        Ok(st) => spec_finish(st),
        Err(e) => Err(e),
    }
}

/// Every operand tree and every stacked operator passes `ok`.
pub open spec fn state_ok(st: ExprState, ok: spec_fn(Token) -> bool) -> bool {
    &&& forall|i: int| 0 <= i < st.operands.len() ==> #[trigger] all_nodes(st.operands[i], ok)
    &&& forall|i: int| 0 <= i < st.operators.len() ==> #[trigger] ok(st.operators[i])
}

proof fn lemma_reduce_ok(st: ExprState, ok: spec_fn(Token) -> bool)
    requires
        state_ok(st, ok),
    ensures
        spec_reduce(st) matches Ok(s) ==> state_ok(s, ok),
{
    if st.operators.len() > 0 && st.operands.len() > 0 {
        let op = st.operators.last();
        let n = st.operands.len();
        assert(ok(op));
        if spec_is_unary(op.kind) {
            let x = seq![st.operands[n - 1]];
            lemma_all_list(x, ok);
            assert(all_nodes(Tree { category: op, childs: x }, ok));
        } else if n >= 2 {
            let x = seq![st.operands[n - 2], st.operands[n - 1]];
            lemma_all_list(x, ok);
            assert(all_nodes(Tree { category: op, childs: x }, ok));
        }
        if let Ok(s) = spec_reduce(st) {
            assert forall|i: int| 0 <= i < s.operands.len() implies #[trigger] all_nodes(s.operands[i], ok) by {
                if i < s.operands.len() - 1 {
                    assert(s.operands[i] == st.operands[i]);
                }
            }
            assert forall|i: int| 0 <= i < s.operators.len() implies #[trigger] ok(s.operators[i]) by {
                assert(s.operators[i] == st.operators[i]);
            }
        }
    }
}

proof fn lemma_compare_ok(st: ExprState, incoming: TokenKind, count: nat, i: nat, ok: spec_fn(Token) -> bool)
    requires
        state_ok(st, ok),
    ensures
        spec_compare(st, incoming, count, i) matches Ok(s) ==> state_ok(s, ok),
    decreases count - i,
{
    if i < count {
        lemma_reduce_ok(st, ok);
        if let Ok(s) = spec_reduce(st) {
            lemma_compare_ok(s, incoming, count, i + 1, ok);
        }
        lemma_compare_ok(st, incoming, count, i + 1, ok);
    }
}

proof fn lemma_drain_ok(st: ExprState, k: nat, need_operand: bool, ok: spec_fn(Token) -> bool)
    requires
        state_ok(st, ok),
    ensures
        spec_drain(st, k, need_operand) matches Ok(s) ==> state_ok(s, ok),
    decreases k,
{
    if k > 0 {
        lemma_reduce_ok(st, ok);
        if let Ok(s) = spec_reduce(st) {
            lemma_drain_ok(s, (k - 1) as nat, need_operand, ok);
        }
        lemma_drain_ok(st, (k - 1) as nat, need_operand, ok);
    }
}

proof fn lemma_run_ok(ts: Seq<Tree>, i: nat, st: ExprState, ok: spec_fn(Token) -> bool)
    requires
        forall|j: int| 0 <= j < ts.len() ==> #[trigger] all_nodes(ts[j], ok),
        state_ok(st, ok),
    ensures
        spec_run(ts, i, st) matches Ok(s) ==> state_ok(s, ok),
    decreases ts, ts.len() - i,
{
    if i < ts.len() {
        let t = ts[i as int];
        let k = t.category.kind;
        assert(all_nodes(t, ok));
        lemma_all_list(t.childs, ok);
        if is_operand(k) {
            let s1 = ExprState { operators: st.operators, operands: st.operands.push(t) };
            assert forall|j: int| 0 <= j < s1.operands.len() implies #[trigger] all_nodes(s1.operands[j], ok) by {
                if j < st.operands.len() {
                    assert(s1.operands[j] == st.operands[j]);
                }
            }
            lemma_run_ok(ts, i + 1, s1, ok);
        } else if is_operator(k) {
            lemma_compare_ok(st, k, st.operators.len(), 0, ok);
            if let Ok(s) = spec_compare(st, k, st.operators.len(), 0) {
                let s1 = ExprState { operators: s.operators.push(t.category), operands: s.operands };
                assert forall|j: int| 0 <= j < s1.operators.len() implies #[trigger] ok(s1.operators[j]) by {
                    if j < s.operators.len() {
                        assert(s1.operators[j] == s.operators[j]);
                    }
                }
                lemma_run_ok(ts, i + 1, s1, ok);
            }
        } else if k == TokenKind::Expression {
            assert(decreases_to!(ts => t.childs)) by {
                assert(decreases_to!(ts => ts[i as int]));
            }
            lemma_normalize_ok(t.childs, ok);
            if let Ok(root) = spec_normalize(t.childs) {
                let s1 = ExprState { operators: st.operators, operands: st.operands.push(root) };
                assert forall|j: int| 0 <= j < s1.operands.len() implies #[trigger] all_nodes(s1.operands[j], ok) by {
                    if j < st.operands.len() {
                        assert(s1.operands[j] == st.operands[j]);
                    }
                }
                lemma_run_ok(ts, i + 1, s1, ok);
            }
        } else {
            lemma_run_ok(ts, i + 1, st, ok);
        }
    }
}

/// Normalization builds its tree from the nodes it is given: where they all
/// pass `ok`, every node of the result passes too.
pub proof fn lemma_normalize_ok(ts: Seq<Tree>, ok: spec_fn(Token) -> bool)
    requires
        forall|j: int| 0 <= j < ts.len() ==> #[trigger] all_nodes(ts[j], ok),
    ensures
        spec_normalize(ts) matches Ok(root) ==> all_nodes(root, ok),
    decreases ts, ts.len() + 1,
{
    lemma_run_ok(ts, 0, empty_state(), ok);
    if let Ok(st) = spec_run(ts, 0, empty_state()) {
        lemma_drain_ok(st, st.operands.len(), true, ok);
        if let Ok(s1) = spec_drain(st, st.operands.len(), true) {
            lemma_drain_ok(s1, s1.operators.len(), false, ok);
        }
    }
}

/// Binding strength of an operator: lower binds looser.
pub fn operator_rank(o: Operator) -> (r: u8)
    ensures
        r == spec_operator_rank(o),
{
    match o {
        Operator::Or => 1,
        Operator::And => 2,
        Operator::Equal | Operator::NotEqual | Operator::Greater | Operator::GreaterEqual
        | Operator::Less | Operator::LessEqual => 3,
        Operator::Add | Operator::Sub => 4,
        Operator::Mul | Operator::Div | Operator::Mod => 5,
        Operator::Not => 6,
    }
}

fn rank(k: TokenKind) -> (r: u8)
    ensures
        r == spec_rank(k),
{
    match k {
        TokenKind::NumOp(o) | TokenKind::CompOp(o) | TokenKind::LogOp(o) => operator_rank(o),
        TokenKind::UnaryMinus => 6,
        _ => 0,
    }
}

fn is_unary(k: TokenKind) -> (r: bool)
    ensures
        r == spec_is_unary(k),
{
    match k {
        TokenKind::LogOp(o) => o == Operator::Not,
        TokenKind::UnaryMinus => true,
        _ => false,
    }
}

/// Whether the stacked operator `token1` is applied before the incoming
/// `token2`.
pub fn is_ranking_not_higher(token1: &Token, token2: &Token) -> (r: bool)
    ensures
        r == spec_not_higher(token1.kind, token2.kind),
{
    let r1 = rank(token1.kind);
    let r2 = rank(token2.kind);
    if is_unary(token1.kind) && r1 == r2 {
        return false;
    }
    r1 >= r2
}

/// The two stacks of one normalization: operand trees and operator tokens.
pub struct ExpressionParser {
    expr_stack: Vec<ASTNode>,
    oper_stack: Vec<Token>,
}

impl ExpressionParser {
    /// The stacks as sequences of trees and tokens.
    pub closed spec fn state(&self) -> ExprState {
        ExprState { operators: self.oper_stack@, operands: trees(self.expr_stack@) }
    }

    /// Normalizes the expression tokens under `node`: on success its children
    /// are replaced by the single root of the normalized tree.
    pub fn parse(node: &mut ASTNode) -> (r: Result<(), ExprError>)
        ensures
            final(node).category == old(node).category,
            r is Ok <==> spec_normalize(trees(old(node).childs@)) is Ok,
            r is Ok ==> final(node).childs@.len() == 1
                && final(node).childs@[0].tree() == spec_normalize(trees(old(node).childs@))->Ok_0,
            r matches Err(e) ==> spec_normalize(trees(old(node).childs@)) == Err::<Tree, ExprError>(e),
    {
        let mut flat: Vec<ASTNode> = Vec::new();
        std::mem::swap(&mut flat, &mut node.childs);
        let root = Self::normalize(flat)?;
        node.childs.push(root);
        Ok(())
    }

    /// The root of the tree that `flat` normalizes to.
    pub fn normalize(flat: Vec<ASTNode>) -> (r: Result<ASTNode, ExprError>)
        ensures
            r is Ok <==> spec_normalize(trees(flat@)) is Ok,
            r matches Ok(n) ==> spec_normalize(trees(flat@)) == Ok::<Tree, ExprError>(n.tree()),
            r matches Err(e) ==> spec_normalize(trees(flat@)) == Err::<Tree, ExprError>(e),
        decreases flat, 1nat,
    {
        let mut expr_parser = ExpressionParser { expr_stack: Vec::new(), oper_stack: Vec::new() };
        proof {
            assert(expr_parser.state().operands =~= Seq::<Tree>::empty());
        }
        expr_parser.parse_expressions(flat)
    }

    /// Runs the two stacks over the tokens of `flat`, left to right, then
    /// drains them.
    fn parse_expressions(&mut self, flat: Vec<ASTNode>) -> (r: Result<ASTNode, ExprError>)
        ensures
            r matches Ok(n) ==> spec_run(trees(flat@), 0, old(self).state()) matches Ok(st)
                && spec_finish(st) == Ok::<Tree, ExprError>(n.tree()),
            r matches Err(e) ==> match spec_run(trees(flat@), 0, old(self).state()) {
                Ok(st) => spec_finish(st) == Err::<Tree, ExprError>(e),
                Err(e2) => e2 == e,
            },
        decreases flat, 0nat,
    {
        let ghost ts = trees(flat@);
        let ghost orig = flat;
        let ghost start = self.state();
        let n = flat.len();
        let mut rest = flat;
        let mut i: usize = 0;
        while rest.len() > 0
            invariant
                i + rest@.len() == ts.len(),
                trees(rest@) =~= ts.subrange(i as int, ts.len() as int),
                ts == trees(orig@),
                ts.len() == orig@.len(),
                start == old(self).state(),
                ts.len() == n,
                rest@ =~= orig@.subrange(i as int, n as int),
                orig == flat,
                spec_run(ts, i as nat, self.state()) == spec_run(ts, 0, start),
            decreases rest@.len(),
        {
            let ghost before = rest@;
            let top = rest.remove(0);
            proof {
                assert(trees(before)[0] == before[0].tree());
                assert(ts.subrange(i as int, ts.len() as int)[0] == ts[i as int]);
                assert(ts[i as int] == top.tree());
                lemma_tree_of(top);
                assert forall|k: int| 0 <= k < rest@.len() implies trees(rest@)[k] == ts[i + 1 + k] by {
                    assert(rest@[k] == before[k + 1]);
                    assert(trees(before)[k + 1] == before[k + 1].tree());
                    assert(ts.subrange(i as int, ts.len() as int)[k + 1] == ts[i + 1 + k]);
                }
                assert(trees(rest@) =~= ts.subrange(i + 1, ts.len() as int));
            }
            let kind = top.category.kind;
            let ghost cur = self.state();
            match kind {
                TokenKind::Boolean | TokenKind::Int | TokenKind::Str | TokenKind::Function
                | TokenKind::Variable => {
                    self.expr_stack.push(top);
                    proof {
                        assert(self.state().operands =~= cur.operands.push(top.tree()));
                    }
                },
                TokenKind::NumOp(_) | TokenKind::CompOp(_) | TokenKind::LogOp(_)
                | TokenKind::UnaryMinus => {
                    let length = self.oper_stack.len();
                    let mut j: usize = 0;
                    while j < length
                        invariant
                            j <= length,
                            spec_compare(self.state(), kind, length as nat, j as nat)
                                == spec_compare(cur, kind, length as nat, 0),
                            kind == top.category.kind,
                            is_operator(kind),
                            !is_operand(kind),
                            ts[i as int] == top.tree(),
                            top.tree().category == top.category,
                            length == cur.operators.len(),
                            i < ts.len(),
                            spec_run(ts, i as nat, cur) == spec_run(ts, 0, start),
                            start == old(self).state(),
                            ts == trees(orig@),
                            orig == flat,
                        decreases length - j,
                    {
                        let idx = length - 1 - j;
                        let ghost pre = self.state();
                        let applies = if idx < self.oper_stack.len() {
                            is_ranking_not_higher(&self.oper_stack[idx], &top.category)
                        } else {
                            false
                        };
                        if applies {
                            let res = self.new_operator_node();
                            if let Err(e) = res {
                                assert(spec_reduce(pre) == Err::<ExprState, ExprError>(e));
                                assert(idx < pre.operators.len());
                                assert(spec_not_higher(pre.operators[idx as int].kind, kind));
                                assert(spec_compare(pre, kind, length as nat, j as nat) == Err::<ExprState, ExprError>(e));
                                assert(spec_run(ts, i as nat, cur) == Err::<ExprState, ExprError>(e));
                                return Err(e);
                            }
                            assert(spec_compare(pre, kind, length as nat, j as nat)
                                == spec_compare(self.state(), kind, length as nat, (j + 1) as nat));
                        } else {
                            assert(spec_compare(pre, kind, length as nat, j as nat)
                                == spec_compare(self.state(), kind, length as nat, (j + 1) as nat));
                        }
                        j = j + 1;
                    }
                    self.oper_stack.push(top.category);
                },
                TokenKind::Expression => {
                    proof {
                        assert(top == orig@[i as int]);
                        vstd::std_specs::vec::axiom_vec_index_decreases(orig, i as int);
                        assert(decreases_to!(top => top.childs));
                        assert(decreases_to!(orig => top.childs));
                    }
                    let sub = match Self::normalize(top.childs) {
                        Ok(sub) => sub,
                        Err(e) => {
                            assert(spec_run(ts, i as nat, cur) == Err::<ExprState, ExprError>(e));
                            return Err(e);
                        },
                    };
                    self.expr_stack.push(sub);
                    proof {
                        assert(self.state().operands =~= cur.operands.push(sub.tree()));
                    }
                },
                _ => {},
            }
            i = i + 1;
        }
        self.finish()
    }

    /// Drains both stacks and hands back the single remaining operand.
    fn finish(&mut self) -> (r: Result<ASTNode, ExprError>)
        ensures
            r matches Ok(n) ==> spec_finish(old(self).state()) == Ok::<Tree, ExprError>(n.tree()),
            r matches Err(e) ==> spec_finish(old(self).state()) == Err::<Tree, ExprError>(e),
    {
        let n1 = self.expr_stack.len();
        assert(old(self).state().operands.len() == n1);
        let mut k: usize = 0;
        while k < n1
            invariant
                k <= n1,
                spec_drain(self.state(), (n1 - k) as nat, true) == spec_drain(old(self).state(), n1 as nat, true),
                old(self).state().operands.len() == n1,
            decreases n1 - k,
        {
            if self.expr_stack.len() > 0 {
                let ghost pre = self.state();
                if let Err(e) = self.new_operator_node() {
                    assert(spec_drain(pre, (n1 - k) as nat, true) == Err::<ExprState, ExprError>(e));
                    assert(spec_drain(old(self).state(), n1 as nat, true) == Err::<ExprState, ExprError>(e));
                    return Err(e);
                }
            }
            k = k + 1;
        }
        let ghost s1 = self.state();
        assert(spec_drain(old(self).state(), n1 as nat, true) == Ok::<ExprState, ExprError>(s1));
        let n2 = self.oper_stack.len();
        let mut k: usize = 0;
        while k < n2
            invariant
                k <= n2,
                spec_drain(self.state(), (n2 - k) as nat, false) == spec_drain(s1, n2 as nat, false),
                spec_drain(old(self).state(), old(self).state().operands.len(), true) == Ok::<ExprState, ExprError>(s1),
                s1.operators.len() == n2,
            decreases n2 - k,
        {
            if self.oper_stack.len() > 0 {
                let ghost pre = self.state();
                if let Err(e) = self.new_operator_node() {
                    assert(spec_drain(pre, (n2 - k) as nat, false) == Err::<ExprState, ExprError>(e));
                    assert(spec_drain(s1, n2 as nat, false) == Err::<ExprState, ExprError>(e));
                    return Err(e);
                }
            }
            k = k + 1;
        }
        if self.expr_stack.len() != 1 {
            return Err(ExprError::AmbiguousRoot(self.expr_stack.len()));
        }
        if self.oper_stack.len() != 0 {
            return Err(ExprError::UnusedOperator);
        }
        let root = self.expr_stack.pop().unwrap();
        Ok(root)
    }

    /// Applies the top operator to the operands it takes.
    fn new_operator_node(&mut self) -> (r: Result<(), ExprError>)
        ensures
            r is Ok ==> spec_reduce(old(self).state()) == Ok::<ExprState, ExprError>(final(self).state()),
            r matches Err(e) ==> spec_reduce(old(self).state()) == Err::<ExprState, ExprError>(e),
    {
        let ghost st = self.state();
        if let Some(top_op) = self.oper_stack.pop() {
            let n = self.expr_stack.len();
            if n > 0 {
                if is_unary(top_op.kind) {
                    let e2 = self.expr_stack.pop().unwrap();
                    let node = ASTNode { category: top_op, childs: vec![e2] };
                    self.expr_stack.push(node);
                    proof {
                        lemma_tree_of(node);
                        assert(node.tree().childs =~= seq![st.operands[n - 1]]);
                        assert(self.state().operands =~= st.operands.drop_last().push(node.tree()));
                    }
                } else if n >= 2 {
                    let e2 = self.expr_stack.pop().unwrap();
                    let e1 = self.expr_stack.pop().unwrap();
                    let node = ASTNode { category: top_op, childs: vec![e1, e2] };
                    self.expr_stack.push(node);
                    proof {
                        lemma_tree_of(node);
                        assert(node.tree().childs =~= seq![st.operands[n - 2], st.operands[n - 1]]);
                        assert(self.state().operands =~= st.operands.subrange(0, n - 2).push(node.tree()));
                    }
                } else {
                    return Err(ExprError::MissingOperand);
                }
            } else if !is_unary(top_op.kind) {
                return Err(ExprError::MissingOperand);
            } else {
                self.oper_stack.push(top_op);
                proof {
                    assert(self.oper_stack@ =~= st.operators);
                }
            }
        }
        Ok(())
    }
}

} // verus!
