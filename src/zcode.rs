//! Code generation: a walk over the finished syntax tree that produces the
//! ordered calls for the emitter of the target interpreter, threading the
//! text formatting state down the tree by value.
use vstd::prelude::*;
use crate::ast::{AST, ASTNode, Tree, trees, lemma_tree_of};
use crate::token::TokenKind;

verus! {

/// The text style in effect.
#[derive(Clone, Copy, Debug, PartialEq, Eq, Structural)]
pub struct FormattingState {
    pub bold: bool,
    pub italic: bool,
    pub mono: bool,
    pub inverted: bool,
}

/// One call to the emitter.
#[derive(Clone, Debug, PartialEq, Eq)]
pub enum ZOp {
    /// Print a text.
    Print(String),
    /// Start a new line.
    NewLine,
    /// Set the text style: bold, inverted, mono, italic.
    SetTextStyle(bool, bool, bool, bool),
}

/// The mathematical form of an emitter call.
pub enum Emit {
    Print(Seq<char>),
    NewLine,
    Style(FormattingState),
}

impl View for ZOp {
    type V = Emit;

    open spec fn view(&self) -> Emit {
        match self {
            ZOp::Print(s) => Emit::Print(s@),
            ZOp::NewLine => Emit::NewLine,
            ZOp::SetTextStyle(b, inv, m, it) => Emit::Style(
                FormattingState { bold: *b, italic: *it, mono: *m, inverted: *inv },
            ),
        }
    }
}

/// The calls of `s` in their mathematical form.
pub open spec fn emits(s: Seq<ZOp>) -> Seq<Emit> {
    s.map_values(|z: ZOp| z@)
}

/// No style at all: the state each passage starts from.
pub open spec fn neutral() -> FormattingState {
    FormattingState { bold: false, italic: false, mono: false, inverted: false }
}

/// The sequences of `ss`, one after another.
pub open spec fn concat(ss: Seq<Seq<Emit>>) -> Seq<Emit>
    decreases ss.len(),
{
    if ss.len() == 0 {
        Seq::empty()
    } else {
        concat(ss.drop_last()) + ss.last()
    }
}

/// Whether a token opens a formatting span.
pub open spec fn is_span(k: TokenKind) -> bool {
    k == TokenKind::FormatBoldStart || k == TokenKind::FormatItalicStart || k == TokenKind::FormatMonoStart
}

/// The state that the children of a node carrying `k` inherit.
pub open spec fn inner_state(k: TokenKind, st: FormattingState) -> FormattingState {
    if k == TokenKind::FormatBoldStart {
        FormattingState { bold: true, ..st }
    } else if k == TokenKind::FormatItalicStart {
        FormattingState { italic: true, ..st }
    } else if k == TokenKind::FormatMonoStart {
        FormattingState { mono: true, ..st }
    } else {
        st
    }
}

/// The calls a node makes for itself before its children.
pub open spec fn own_calls(t: Tree, st: FormattingState) -> Seq<Emit> {
    let k = t.category.kind;
    if k == TokenKind::Text {
        seq![Emit::Print(t.category.payload@)]
    } else if k == TokenKind::NewLine {
        seq![Emit::NewLine]
    } else if is_span(k) {
        seq![Emit::Style(inner_state(k, st))]
    } else {
        Seq::empty()
    }
}

/// The calls after a node's children: a span resets the style, then restores
/// the one it inherited.
pub open spec fn closing_calls(t: Tree, st: FormattingState) -> Seq<Emit> {
    if is_span(t.category.kind) {
        seq![Emit::Style(neutral()), Emit::Style(st)]
    } else {
        Seq::empty()
    }
}

/// The calls of each child of `t`, in the state `st`.
pub open spec fn child_calls(t: Tree, st: FormattingState) -> Seq<Seq<Emit>>
    decreases t, 0nat,
{
    Seq::new(
        t.childs.len(),
        |i: int|
            if 0 <= i < t.childs.len() {
                node_calls(t.childs[i], st)
            } else {
                Seq::empty()
            },
    )
}

/// The calls that the walk makes for a node below a passage root that
/// inherits the state `st`.
pub open spec fn node_calls(t: Tree, st: FormattingState) -> Seq<Emit>
    decreases t, 1nat,
{
    own_calls(t, st) + concat(child_calls(t, inner_state(t.category.kind, st))) + closing_calls(t, st)
}

/// The calls for a passage: its children's, each starting from the neutral
/// state.
pub open spec fn passage_calls(t: Tree) -> Seq<Emit> {
    concat(child_calls(t, neutral()))
}

/// The calls for all passages, in order.
pub open spec fn forest_calls(f: Seq<Tree>) -> Seq<Emit> {
    concat(Seq::new(f.len(), |i: int| passage_calls(f[i])))
}

/// Concatenating one sequence more appends it.
proof fn lemma_concat_step(ss: Seq<Seq<Emit>>, i: int)
    requires
        0 <= i < ss.len(),
    ensures
        concat(ss.subrange(0, i + 1)) == concat(ss.subrange(0, i)) + ss[i],
{
    assert(ss.subrange(0, i + 1).drop_last() =~= ss.subrange(0, i));
}

/// Appends one call.
fn push_op(out: &mut Vec<ZOp>, z: ZOp)
    ensures
        emits(final(out)@) == emits(old(out)@).push(z@),
{
    out.push(z);
    proof {
        assert(emits(out@) =~= emits(old(out)@).push(z@));
    }
}

/// Emits the calls of the children of `node`, each in the state `st`.
fn gen_childs(node: &ASTNode, st: FormattingState, out: &mut Vec<ZOp>)
    ensures
        emits(final(out)@) == emits(old(out)@) + concat(child_calls(node.tree(), st)),
    decreases node, 0nat,
{
    let ghost ss = child_calls(node.tree(), st);
    proof {
        lemma_tree_of(*node);
        assert(ss.subrange(0, 0) =~= Seq::<Seq<Emit>>::empty());
    }
    let mut i: usize = 0;
    while i < node.childs.len()
        invariant
            i <= node.childs@.len(),
            ss == child_calls(node.tree(), st),
            ss.len() == node.childs@.len(),
            node.tree().childs =~= trees(node.childs@),
            emits(out@) == emits(old(out)@) + concat(ss.subrange(0, i as int)),
        decreases node.childs@.len() - i,
    {
        proof {
            assert(node.tree().childs[i as int] == node.childs@[i as int].tree());
            assert(decreases_to!(node => node.childs)) by {
                vstd::std_specs::vec::axiom_vec_decreases_to_view(node.childs);
            }
            vstd::std_specs::vec::axiom_vec_index_decreases(node.childs, i as int);
            assert(decreases_to!(node => node.childs[i as int]));
        }
        gen_zcode(&node.childs[i], st, out);
        proof {
            lemma_concat_step(ss, i as int);
            assert(emits(out@) =~= emits(old(out)@) + concat(ss.subrange(0, i + 1)));
        }
        i = i + 1;
    }
    proof {
        assert(ss.subrange(0, ss.len() as int) =~= ss);
    }
}

/// Emits the calls for `node`, which inherits the state `state`.
pub fn gen_zcode(node: &ASTNode, state: FormattingState, out: &mut Vec<ZOp>)
    ensures
        emits(final(out)@) == emits(old(out)@) + node_calls(node.tree(), state),
    decreases node, 1nat,
{
    let mut state_copy = state;
    let ghost t = node.tree();
    proof {
        lemma_tree_of(*node);
    }
    match node.category.kind {
        TokenKind::Text => {
            push_op(out, ZOp::Print(node.category.payload.clone()));
        },
        TokenKind::NewLine => {
            push_op(out, ZOp::NewLine);
        },
        TokenKind::FormatBoldStart => {
            state_copy.bold = true;
            push_op(
                out,
                ZOp::SetTextStyle(state_copy.bold, state_copy.inverted, state_copy.mono, state_copy.italic),
            );
        },
        TokenKind::FormatItalicStart => {
            state_copy.italic = true;
            push_op(
                out,
                ZOp::SetTextStyle(state_copy.bold, state_copy.inverted, state_copy.mono, state_copy.italic),
            );
        },
        TokenKind::FormatMonoStart => {
            state_copy.mono = true;
            push_op(
                out,
                ZOp::SetTextStyle(state_copy.bold, state_copy.inverted, state_copy.mono, state_copy.italic),
            );
        },
        _ => {},
    }
    let ghost mid = emits(out@);
    proof {
        assert(mid =~= emits(old(out)@) + own_calls(t, state));
        assert(state_copy == inner_state(t.category.kind, state));
    }
    gen_childs(node, state_copy, out);
    match node.category.kind {
        TokenKind::FormatBoldStart | TokenKind::FormatItalicStart | TokenKind::FormatMonoStart => {
            push_op(out, ZOp::SetTextStyle(false, false, false, false));
            push_op(out, ZOp::SetTextStyle(state.bold, state.inverted, state.mono, state.italic));
        },
        _ => {},
    }
    proof {
        assert(emits(out@) =~= emits(old(out)@) + node_calls(t, state));
    }
}

impl AST {
    /// Emits the calls for every passage, in order; each passage starts from
    /// the neutral state.
    pub fn to_zcode(&self, out: &mut Vec<ZOp>)
        ensures
            emits(final(out)@) == emits(old(out)@) + forest_calls(self.forest()),
    {
        let passages = self.passages();
        let ghost f = self.forest();
        let ghost ss = Seq::new(f.len(), |i: int| passage_calls(f[i]));
        proof {
            assert(ss.subrange(0, 0) =~= Seq::<Seq<Emit>>::empty());
        }
        let mut i: usize = 0;
        while i < passages.len()
            invariant
                i <= passages@.len(),
                trees(passages@) == f,
                ss == Seq::new(f.len(), |i: int| passage_calls(f[i])),
                f == self.forest(),
                emits(out@) == emits(old(out)@) + concat(ss.subrange(0, i as int)),
            decreases passages@.len() - i,
        {
            let neutral_state = FormattingState { bold: false, italic: false, mono: false, inverted: false };
            gen_childs(&passages[i], neutral_state, out);
            proof {
                assert(f[i as int] == passages@[i as int].tree());
                lemma_concat_step(ss, i as int);
                assert(emits(out@) =~= emits(old(out)@) + concat(ss.subrange(0, i + 1)));
            }
            i = i + 1;
        }
        proof {
            assert(ss.subrange(0, ss.len() as int) =~= ss);
        }
    }
}

} // verus!
