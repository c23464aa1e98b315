//! The syntax tree: one tree per passage, and a cursor that addresses the
//! node currently receiving new children.
use vstd::prelude::*;
use crate::token::{Token, TokenKind};
use crate::expressionparser::{ExprError, ExpressionParser, spec_normalize, lemma_normalize_ok};

verus! {

/// Why a cursor operation could not be carried out.
#[derive(Clone, Copy, Debug, PartialEq, Eq, Structural)]
pub enum TreeError {
    /// There is no passage yet, so the cursor addresses no node.
    NoFocus,
    /// The cursor stands on a passage root, which has no parent.
    AboveRoot,
}

/// The syntax tree being built: one root per passage, and the cursor, a path
/// from a passage root (its index first) to the node that receives new
/// children.
pub struct AST {
    passages: Vec<ASTNode>,
    path: Vec<usize>,
}

impl AST {
    /// The passage trees.
    pub closed spec fn forest(&self) -> Seq<Tree> {
        trees(self.passages@)
    }

    /// The path of the cursor: the passage's index, then child indices.
    pub closed spec fn cursor(&self) -> Seq<usize> {
        self.path@
    }

    /// The cursor addresses a node, or no passage has been opened yet.
    pub open spec fn wf(&self) -> bool {
        self.cursor().len() == 0 || addresses(self.forest(), self.cursor())
    }

    /// The node that the cursor addresses.
    pub open spec fn focus(&self) -> Tree {
        focus_at(self.forest(), self.cursor())
    }

    /// The passage trees after the focus' children are replaced by `cs`.
    pub open spec fn edited(&self, cs: Seq<Tree>) -> Seq<Tree> {
        edited_at(self.forest(), self.cursor(), cs)
    }

    /// The passage trees after `c` is appended to the focus' children.
    pub open spec fn appended(&self, c: Tree) -> Seq<Tree> {
        appended_at(self.forest(), self.cursor(), c)
    }

    /// An empty tree: no passage, and a cursor that addresses nothing.
    pub fn new() -> (r: AST)
        ensures
            r.wf(),
            r.forest().len() == 0,
            r.cursor().len() == 0,
    {
        let r = AST { passages: Vec::new(), path: Vec::new() };
        proof {
            assert(r.forest() =~= Seq::<Tree>::empty());
        }
        r
    }

    /// The passage roots.
    pub fn passages(&self) -> (r: &Vec<ASTNode>)
        ensures
            trees(r@) == self.forest(),
    {
        &self.passages
    }

    /// The cursor's path: the passage's index, then child indices.
    pub fn path(&self) -> (r: &Vec<usize>)
        ensures
            r@ == self.cursor(),
    {
        &self.path
    }

    /// Appends a new passage root carrying `token`; the cursor moves to it.
    pub fn add_passage(&mut self, token: Token)
        requires
            old(self).wf(),
        ensures
            final(self).wf(),
            final(self).forest() == old(self).forest().push(leaf_tree(token)),
            final(self).cursor() == seq![old(self).forest().len() as usize],
            final(self).cursor()[0] as int == old(self).forest().len(),
            forall|ok: spec_fn(Token) -> bool|
                all_forest(old(self).forest(), ok) && ok(token) ==> #[trigger] all_forest(final(self).forest(), ok),
    {
        let node = ASTNode::leaf(token);
        self.passages.push(node);
        let mut path: Vec<usize> = Vec::new();
        path.push(self.passages.len() - 1);
        self.path = path;
        proof {
            assert(self.forest() =~= old(self).forest().push(leaf_tree(token)));
            assert(self.cursor().drop_first() =~= Seq::<usize>::empty());
            assert forall|ok: spec_fn(Token) -> bool|
                all_forest(old(self).forest(), ok) && ok(token) implies #[trigger] all_forest(self.forest(), ok) by {
                assert(all_nodes(leaf_tree(token), ok));
                assert forall|i: int| 0 <= i < self.forest().len() implies #[trigger] all_nodes(self.forest()[i], ok) by {
                    if i < old(self).forest().len() {
                        assert(self.forest()[i] == old(self).forest()[i]);
                    }
                }
            }
        }
    }

    /// Appends `node` to the focus' children; the cursor stays.
    fn append(&mut self, node: ASTNode) -> (r: Result<(), TreeError>)
        requires
            old(self).wf(),
        ensures
            final(self).wf(),
            final(self).cursor() == old(self).cursor(),
            r is Err <==> old(self).cursor().len() == 0,
            r is Ok ==> final(self).forest() == old(self).appended(node.tree()),
            r is Ok ==> same_roots(old(self).forest(), final(self).forest()),
            r is Ok ==> forall|ok: spec_fn(Token) -> bool|
                all_forest(old(self).forest(), ok) && all_nodes(node.tree(), ok) ==> #[trigger] all_forest(final(self).forest(), ok),
            r is Err ==> r == Err::<(), TreeError>(TreeError::NoFocus) && final(self).forest() == old(self).forest(),
    {
        if self.path.len() == 0 {
            return Err(TreeError::NoFocus);
        }
        let first = self.path[0];
        let ghost rest = self.cursor().drop_first();
        let ghost t = self.forest()[first as int];
        proof {
            assert(self.path@.skip(1) =~= rest);
            assert(self.passages@[first as int].tree() == t);
        }
        self.passages[first].add_at(&self.path, 1, node);
        proof {
            lemma_edited_at(old(self).forest(), old(self).cursor(), old(self).focus().childs.push(node.tree()));
            lemma_edit_at(t, rest, node_at(t, rest).childs.push(node.tree()));
            assert(self.forest() =~= old(self).appended(node.tree()));
            assert forall|ok: spec_fn(Token) -> bool|
                all_forest(old(self).forest(), ok) && all_nodes(node.tree(), ok) implies #[trigger] all_forest(
                self.forest(),
                ok,
            ) by {
                lemma_all_forest_append(old(self).forest(), old(self).cursor(), node.tree(), ok);
            }
        }
        Ok(())
    }

    /// Appends a leaf carrying `token` to the focus' children; the cursor
    /// stays.
    pub fn add_child(&mut self, token: Token) -> (r: Result<(), TreeError>)
        requires
            old(self).wf(),
        ensures
            final(self).wf(),
            final(self).cursor() == old(self).cursor(),
            r is Err <==> old(self).cursor().len() == 0,
            r is Ok ==> final(self).forest() == old(self).appended(leaf_tree(token)),
            r is Ok ==> same_roots(old(self).forest(), final(self).forest()),
            r is Ok ==> forall|ok: spec_fn(Token) -> bool|
                all_forest(old(self).forest(), ok) && ok(token) ==> #[trigger] all_forest(final(self).forest(), ok),
            r is Err ==> r == Err::<(), TreeError>(TreeError::NoFocus) && final(self).forest() == old(self).forest(),
    {
        let r = self.append(ASTNode::leaf(token));
        proof {
            assert forall|ok: spec_fn(Token) -> bool| ok(token) implies #[trigger] all_nodes(leaf_tree(token), ok) by {}
        }
        r
    }

    /// Appends a node carrying `token` to the focus' children, and moves the
    /// cursor into it.
    pub fn child_down(&mut self, token: Token) -> (r: Result<(), TreeError>)
        requires
            old(self).wf(),
        ensures
            final(self).wf(),
            r is Err <==> old(self).cursor().len() == 0,
            r is Ok ==> final(self).forest() == old(self).appended(leaf_tree(token))
                && final(self).cursor() == old(self).cursor().push(old(self).focus().childs.len() as usize),
            r is Ok ==> same_roots(old(self).forest(), final(self).forest()),
            r is Ok ==> old(self).focus().childs.len() <= usize::MAX,
            r is Ok ==> forall|ok: spec_fn(Token) -> bool|
                all_forest(old(self).forest(), ok) && ok(token) ==> #[trigger] all_forest(final(self).forest(), ok),
            r is Err ==> r == Err::<(), TreeError>(TreeError::NoFocus) && final(self).forest() == old(self).forest()
                && final(self).cursor() == old(self).cursor(),
    {
        if self.path.len() == 0 {
            return Err(TreeError::NoFocus);
        }
        let ghost t = self.forest()[self.cursor()[0] as int];
        let ghost rest = self.cursor().drop_first();
        let k = self.count_focus();
        let r = self.add_child(token);
        self.path.push(k);
        proof {
            let cs = node_at(t, rest).childs.push(leaf_tree(token));
            lemma_edit_at(t, rest, cs);
            let t2 = edit_at(t, rest, cs);
            lemma_path_steps(t2, rest, k);
            assert(self.cursor().drop_first() =~= rest.push(k));
            assert(self.forest()[self.cursor()[0] as int] == t2);
        }
        r
    }

    /// The kind of the token that the focus carries.
    pub fn focus_kind(&self) -> (r: TokenKind)
        requires
            self.wf(),
            self.cursor().len() > 0,
        ensures
            r == self.focus().category.kind,
    {
        let first = self.path[0];
        proof {
            assert(self.path@.skip(1) =~= self.cursor().drop_first());
        }
        self.passages[first].kind_at(&self.path, 1)
    }

    /// The number of children of the focus.
    fn count_focus(&self) -> (r: usize)
        requires
            self.wf(),
            self.cursor().len() > 0,
        ensures
            r == self.focus().childs.len(),
    {
        let first = self.path[0];
        proof {
            assert(self.path@.skip(1) =~= self.cursor().drop_first());
        }
        self.passages[first].count_at(&self.path, 1)
    }

    /// Moves the cursor to the focus' parent.
    pub fn up(&mut self) -> (r: Result<(), TreeError>)
        requires
            old(self).wf(),
        ensures
            final(self).wf(),
            final(self).forest() == old(self).forest(),
            r is Err <==> old(self).cursor().len() <= 1,
            r is Ok ==> final(self).cursor() == old(self).cursor().drop_last(),
            r is Err ==> final(self).cursor() == old(self).cursor() && r == Err::<(), TreeError>(
                if old(self).cursor().len() == 0 { TreeError::NoFocus } else { TreeError::AboveRoot },
            ),
    {
        if self.path.len() == 0 {
            return Err(TreeError::NoFocus);
        }
        if self.path.len() == 1 {
            return Err(TreeError::AboveRoot);
        }
        self.path.pop();
        proof {
            let t = old(self).forest()[old(self).cursor()[0] as int];
            lemma_path_steps(t, old(self).cursor().drop_first(), 0);
            assert(self.cursor().drop_first() =~= old(self).cursor().drop_first().drop_last());
        }
        Ok(())
    }

    /// Appends a node carrying `token1` and under it one carrying `token2`,
    /// and moves the cursor into the second.
    pub fn two_childs_down(&mut self, token1: Token, token2: Token) -> (r: Result<(), TreeError>)
        requires
            old(self).wf(),
        ensures
            final(self).wf(),
            r is Err <==> old(self).cursor().len() == 0,
            r is Ok ==> {
                let c = old(self).cursor();
                let k = old(self).focus().childs.len() as usize;
                &&& final(self).forest() == appended_at(
                    old(self).appended(leaf_tree(token1)),
                    c.push(k),
                    leaf_tree(token2),
                )
                &&& final(self).cursor() == c.push(k).push(0)
                &&& same_roots(old(self).forest(), final(self).forest())
            },
            r is Ok ==> forall|ok: spec_fn(Token) -> bool|
                all_forest(old(self).forest(), ok) && ok(token1) && ok(token2) ==> #[trigger] all_forest(final(self).forest(), ok),
            r is Err ==> final(self).forest() == old(self).forest() && final(self).cursor() == old(self).cursor(),
    {
        self.child_down(token1)?;
        let ghost mid = self.forest();
        proof {
            let c = old(self).cursor();
            let k = old(self).focus().childs.len() as usize;
            lemma_edited_at(old(self).forest(), c, old(self).focus().childs.push(leaf_tree(token1)));
            lemma_cursor_steps(mid, c, k);
            assert(self.focus() == leaf_tree(token1));
        }
        let r = self.child_down(token2);
        proof {
            if r is Ok {
                assert(same_roots(old(self).forest(), self.forest()));
            }
        }
        r
    }

    /// Moves the cursor to the focus' parent, then appends a node carrying
    /// `token` there and moves into it.
    pub fn up_child_down(&mut self, token: Token) -> (r: Result<(), TreeError>)
        requires
            old(self).wf(),
        ensures
            final(self).wf(),
            r is Err <==> old(self).cursor().len() <= 1,
            r is Ok ==> {
                let c = old(self).cursor().drop_last();
                &&& final(self).forest() == appended_at(old(self).forest(), c, leaf_tree(token))
                &&& final(self).cursor() == c.push(focus_at(old(self).forest(), c).childs.len() as usize)
                &&& same_roots(old(self).forest(), final(self).forest())
            },
            r is Ok ==> forall|ok: spec_fn(Token) -> bool|
                all_forest(old(self).forest(), ok) && ok(token) ==> #[trigger] all_forest(final(self).forest(), ok),
            r is Err ==> final(self).forest() == old(self).forest() && final(self).cursor() == old(self).cursor(),
    {
        self.up()?;
        self.child_down(token)
    }

    /// Moves the cursor to the focus' parent, then appends a leaf carrying
    /// `token` there.
    pub fn up_child(&mut self, token: Token) -> (r: Result<(), TreeError>)
        requires
            old(self).wf(),
        ensures
            final(self).wf(),
            r is Err <==> old(self).cursor().len() <= 1,
            r is Ok ==> {
                let c = old(self).cursor().drop_last();
                &&& final(self).forest() == appended_at(old(self).forest(), c, leaf_tree(token))
                &&& final(self).cursor() == c
                &&& same_roots(old(self).forest(), final(self).forest())
            },
            r is Ok ==> forall|ok: spec_fn(Token) -> bool|
                all_forest(old(self).forest(), ok) && ok(token) ==> #[trigger] all_forest(final(self).forest(), ok),
            r is Err ==> final(self).forest() == old(self).forest() && final(self).cursor() == old(self).cursor(),
    {
        self.up()?;
        self.add_child(token)
    }

    /// Normalizes the expression tokens captured under the focus: they are
    /// replaced by the root of the normalized tree.
    pub fn normalize_focus(&mut self) -> (r: Result<(), ExprError>)
        requires
            old(self).wf(),
            old(self).cursor().len() > 0,
        ensures
            r is Ok ==> final(self).wf(),
            final(self).forest().len() == old(self).forest().len(),
            final(self).cursor() == old(self).cursor(),
            r is Ok <==> spec_normalize(old(self).focus().childs) is Ok,
            r is Ok ==> final(self).forest() == old(self).edited(seq![spec_normalize(old(self).focus().childs)->Ok_0]),
            r is Ok ==> same_roots(old(self).forest(), final(self).forest()),
            r is Ok ==> forall|ok: spec_fn(Token) -> bool|
                all_forest(old(self).forest(), ok) ==> #[trigger] all_forest(final(self).forest(), ok),
            r matches Err(e) ==> spec_normalize(old(self).focus().childs) == Err::<Tree, ExprError>(e),
    {
        let first = self.path[0];
        let ghost rest = self.cursor().drop_first();
        let ghost t = self.forest()[first as int];
        proof {
            assert(self.path@.skip(1) =~= rest);
            assert(self.passages@[first as int].tree() == t);
        }
        let r = self.passages[first].normalize_at(&self.path, 1);
        proof {
            if r is Ok {
                lemma_edit_at(t, rest, seq![spec_normalize(node_at(t, rest).childs)->Ok_0]);
                let f = old(self).forest();
                let c = old(self).cursor();
                let cs = seq![spec_normalize(old(self).focus().childs)->Ok_0];
                lemma_edited_at(f, c, cs);
                assert(self.forest() =~= old(self).edited(cs));
                assert forall|ok: spec_fn(Token) -> bool| all_forest(f, ok) implies #[trigger] all_forest(
                    self.forest(),
                    ok,
                ) by {
                    assert(all_nodes(f[c[0] as int], ok));
                    lemma_all_nodes_at(f[c[0] as int], c.drop_first(), ok);
                    lemma_all_list(focus_at(f, c).childs, ok);
                    lemma_normalize_ok(focus_at(f, c).childs, ok);
                    lemma_all_forest_edit(f, c, cs, ok);
                }
            }
        }
        r
    }

    /// The number of children at `path`: of the passage list where it is
    /// empty, else of the node it leads to from the passage it names first.
    pub fn count_childs(&self, path: Vec<usize>) -> (r: usize)
        requires
            path@.len() > 0 ==> path@[0] < self.forest().len() && valid_path(
                self.forest()[path@[0] as int],
                path@.drop_first(),
            ),
        ensures
            path@.len() == 0 ==> r == self.forest().len(),
            path@.len() > 0 ==> r == node_at(self.forest()[path@[0] as int], path@.drop_first()).childs.len(),
    {
        if path.len() == 0 {
            self.passages.len()
        } else {
            let first = path[0];
            proof {
                assert(path@.skip(1) =~= path@.drop_first());
            }
            self.passages[first].count_at(&path, 1)
        }
    }
}

/// A node of the syntax tree: the token it carries and the children it owns.
pub struct ASTNode {
    pub category: Token,
    pub childs: Vec<ASTNode>,
}

/// The mathematical form of a node.
pub struct Tree {
    pub category: Token,
    pub childs: Seq<Tree>,
}

impl ASTNode {
    /// The mathematical form of this node and all below it.
    pub open spec fn tree(self) -> Tree
        decreases self,
    {
        Tree {
            category: self.category,
            childs: Seq::new(
                self.childs@.len(),
                |i: int|
                    if 0 <= i < self.childs@.len() {
                        self.childs@[i].tree()
                    } else {
                        Tree { category: self.category, childs: Seq::empty() }
                    },
            ),
        }
    }

    /// Appends `node` as the last child of the node that `path` leads to from
    /// position `from` on.
    fn add_at(&mut self, path: &Vec<usize>, from: usize, node: ASTNode)
        requires
            from <= path@.len(),
            valid_path(old(self).tree(), path@.skip(from as int)),
        ensures
            final(self).tree() == append_at(old(self).tree(), path@.skip(from as int), node.tree()),
        decreases path@.len() - from,
    {
        let ghost p = path@.skip(from as int);
        proof {
            lemma_tree_of(*self);
        }
        if from == path.len() {
            self.childs.push(node);
            proof {
                lemma_tree_of(*self);
                assert(self.tree().childs =~= old(self).tree().childs.push(node.tree()));
            }
        } else {
            let i = path[from];
            proof {
                assert(p[0] == i);
                assert(p.drop_first() =~= path@.skip(from + 1));
            }
            self.childs[i].add_at(path, from + 1, node);
            proof {
                lemma_tree_of(*self);
                assert(self.tree().childs =~= old(self).tree().childs.update(
                    i as int,
                    append_at(old(self).tree().childs[i as int], p.drop_first(), node.tree()),
                ));
            }
        }
    }

    /// Appends a leaf carrying `token` as the last child of the node that
    /// `path` leads to.
    pub fn add_child(&mut self, path: Vec<usize>, token: Token)
        requires
            valid_path(old(self).tree(), path@),
        ensures
            final(self).tree() == append_at(old(self).tree(), path@, leaf_tree(token)),
    {
        proof {
            assert(path@.skip(0) =~= path@);
        }
        self.add_at(&path, 0, ASTNode::leaf(token));
    }

    fn count_at(&self, path: &Vec<usize>, from: usize) -> (r: usize)
        requires
            from <= path@.len(),
            valid_path(self.tree(), path@.skip(from as int)),
        ensures
            r == node_at(self.tree(), path@.skip(from as int)).childs.len(),
        decreases path@.len() - from,
    {
        let ghost p = path@.skip(from as int);
        proof {
            lemma_tree_of(*self);
        }
        if from == path.len() {
            self.childs.len()
        } else {
            let i = path[from];
            proof {
                assert(p[0] == i);
                assert(p.drop_first() =~= path@.skip(from + 1));
            }
            self.childs[i].count_at(path, from + 1)
        }
    }

    fn kind_at(&self, path: &Vec<usize>, from: usize) -> (r: TokenKind)
        requires
            from <= path@.len(),
            valid_path(self.tree(), path@.skip(from as int)),
        ensures
            r == node_at(self.tree(), path@.skip(from as int)).category.kind,
        decreases path@.len() - from,
    {
        let ghost p = path@.skip(from as int);
        proof {
            lemma_tree_of(*self);
        }
        if from == path.len() {
            self.category.kind
        } else {
            let i = path[from];
            proof {
                assert(p[0] == i);
                assert(p.drop_first() =~= path@.skip(from + 1));
            }
            self.childs[i].kind_at(path, from + 1)
        }
    }

    /// The number of children of the node that `path` leads to.
    pub fn count_childs(&self, path: Vec<usize>) -> (r: usize)
        requires
            valid_path(self.tree(), path@),
        ensures
            r == node_at(self.tree(), path@).childs.len(),
    {
        proof {
            assert(path@.skip(0) =~= path@);
        }
        self.count_at(&path, 0)
    }

    /// Normalizes the expression tokens under the node that `path` leads to
    /// from position `from` on.
    fn normalize_at(&mut self, path: &Vec<usize>, from: usize) -> (r: Result<(), ExprError>)
        requires
            from <= path@.len(),
            valid_path(old(self).tree(), path@.skip(from as int)),
        ensures
            r is Ok <==> spec_normalize(node_at(old(self).tree(), path@.skip(from as int)).childs) is Ok,
            r is Ok ==> final(self).tree() == edit_at(
                old(self).tree(),
                path@.skip(from as int),
                seq![spec_normalize(node_at(old(self).tree(), path@.skip(from as int)).childs)->Ok_0],
            ),
            r matches Err(e) ==> spec_normalize(node_at(old(self).tree(), path@.skip(from as int)).childs)
                == Err::<Tree, ExprError>(e),
        decreases path@.len() - from,
    {
        let ghost p = path@.skip(from as int);
        proof {
            lemma_tree_of(*self);
        }
        if from == path.len() {
            let r = ExpressionParser::parse(self);
            proof {
                lemma_tree_of(*self);
                if r is Ok {
                    assert(self.tree().childs =~= seq![self.childs@[0].tree()]);
                }
            }
            r
        } else {
            let i = path[from];
            proof {
                assert(p[0] == i);
                assert(p.drop_first() =~= path@.skip(from + 1));
            }
            let r = self.childs[i].normalize_at(path, from + 1);
            proof {
                lemma_tree_of(*self);
                if r is Ok {
                    assert(self.tree().childs =~= old(self).tree().childs.update(
                        i as int,
                        edit_at(
                            old(self).tree().childs[i as int],
                            p.drop_first(),
                            seq![spec_normalize(node_at(old(self).tree(), p).childs)->Ok_0],
                        ),
                    ));
                }
            }
            r
        }
    }

    /// A node with no children.
    pub fn leaf(token: Token) -> (r: ASTNode)
        ensures
            r.category == token,
            r.childs@.len() == 0,
            r.tree() == leaf_tree(token),
    {
        let r = ASTNode { category: token, childs: Vec::new() };
        proof {
            lemma_tree_of(r);
            assert(r.tree().childs =~= Seq::<Tree>::empty());
        }
        r
    }
}

/// Whether `c` names a passage of `f` and then leads to one of its nodes.
pub open spec fn addresses(f: Seq<Tree>, c: Seq<usize>) -> bool {
    c.len() > 0 && c[0] < f.len() && valid_path(f[c[0] as int], c.drop_first())
}

/// The node of the passage trees `f` that the cursor path `c` addresses.
pub open spec fn focus_at(f: Seq<Tree>, c: Seq<usize>) -> Tree {
    node_at(f[c[0] as int], c.drop_first())
}

/// `f` with the children of the node at `c` replaced by `cs`.
pub open spec fn edited_at(f: Seq<Tree>, c: Seq<usize>, cs: Seq<Tree>) -> Seq<Tree> {
    f.update(c[0] as int, edit_at(f[c[0] as int], c.drop_first(), cs))
}

/// `f` with `x` appended to the children of the node at `c`.
pub open spec fn appended_at(f: Seq<Tree>, c: Seq<usize>, x: Tree) -> Seq<Tree> {
    edited_at(f, c, focus_at(f, c).childs.push(x))
}

/// Two forests with the same passage roots, each carrying the same token.
pub open spec fn same_roots(a: Seq<Tree>, b: Seq<Tree>) -> bool {
    a.len() == b.len() && forall|i: int| 0 <= i < a.len() ==> #[trigger] a[i].category == b[i].category
}

/// An edit at an addressed node keeps every address into the forest, keeps
/// the roots, and gives the node the new children.
pub proof fn lemma_edited_at(f: Seq<Tree>, c: Seq<usize>, cs: Seq<Tree>)
    requires
        addresses(f, c),
    ensures
        addresses(edited_at(f, c, cs), c),
        same_roots(f, edited_at(f, c, cs)),
        focus_at(edited_at(f, c, cs), c) == (Tree { category: focus_at(f, c).category, childs: cs }),
{
    lemma_edit_at(f[c[0] as int], c.drop_first(), cs);
}

/// A cursor path stays an address without its last step (unless that leaves
/// the passage), and extended by the index of a child of its node.
pub proof fn lemma_cursor_steps(f: Seq<Tree>, c: Seq<usize>, k: usize)
    requires
        addresses(f, c),
    ensures
        c.len() > 1 ==> addresses(f, c.drop_last()) && c.drop_last().drop_first() == c.drop_first().drop_last(),
        k < focus_at(f, c).childs.len() ==> addresses(f, c.push(k)) && focus_at(f, c.push(k)) == focus_at(
            f,
            c,
        ).childs[k as int],
{
    lemma_path_steps(f[c[0] as int], c.drop_first(), k);
    if c.len() > 1 {
        assert(c.drop_last().drop_first() =~= c.drop_first().drop_last());
    }
    assert(c.push(k).drop_first() =~= c.drop_first().push(k));
}

/// Whether every node of `t` carries a token that `ok` accepts.
pub open spec fn all_nodes(t: Tree, ok: spec_fn(Token) -> bool) -> bool
    decreases t, 1nat,
{
    ok(t.category) && all_list(t.childs, ok)
}

/// Whether every node of every tree of `ts` carries a token that `ok` accepts.
pub open spec fn all_list(ts: Seq<Tree>, ok: spec_fn(Token) -> bool) -> bool
    decreases ts, 0nat,
{
    if ts.len() == 0 {
        true
    } else {
        all_list(ts.drop_last(), ok) && all_nodes(ts.last(), ok)
    }
}

/// [`all_list`] holds exactly when each tree passes.
pub proof fn lemma_all_list(ts: Seq<Tree>, ok: spec_fn(Token) -> bool)
    ensures
        all_list(ts, ok) <==> forall|i: int| 0 <= i < ts.len() ==> #[trigger] all_nodes(ts[i], ok),
    decreases ts.len(),
{
    if ts.len() > 0 {
        lemma_all_list(ts.drop_last(), ok);
        if forall|i: int| 0 <= i < ts.len() ==> #[trigger] all_nodes(ts[i], ok) {
            assert forall|i: int| 0 <= i < ts.drop_last().len() implies #[trigger] all_nodes(ts.drop_last()[i], ok) by {
                assert(ts.drop_last()[i] == ts[i]);
            }
            assert(all_nodes(ts[ts.len() - 1], ok));
            assert(all_list(ts, ok));
        }
        if all_list(ts, ok) {
            assert forall|i: int| 0 <= i < ts.len() implies #[trigger] all_nodes(ts[i], ok) by {
                if i < ts.len() - 1 {
                    assert(ts.drop_last()[i] == ts[i]);
                }
            }
        }
    }
}

/// Whether every node of every tree of `f` carries a token that `ok` accepts.
pub open spec fn all_forest(f: Seq<Tree>, ok: spec_fn(Token) -> bool) -> bool {
    forall|i: int| 0 <= i < f.len() ==> #[trigger] all_nodes(f[i], ok)
}

/// The node at a path of a tree whose nodes all pass `ok` passes too, with
/// all below it.
pub proof fn lemma_all_nodes_at(t: Tree, p: Seq<usize>, ok: spec_fn(Token) -> bool)
    requires
        valid_path(t, p),
        all_nodes(t, ok),
    ensures
        all_nodes(node_at(t, p), ok),
    decreases p.len(),
{
    if p.len() > 0 {
        lemma_all_list(t.childs, ok);
        assert(all_nodes(t.childs[p[0] as int], ok));
        lemma_all_nodes_at(t.childs[p[0] as int], p.drop_first(), ok);
    }
}

/// Giving the node at a path new children that all pass `ok` keeps every
/// node of the tree passing.
pub proof fn lemma_all_nodes_edit(t: Tree, p: Seq<usize>, cs: Seq<Tree>, ok: spec_fn(Token) -> bool)
    requires
        valid_path(t, p),
        all_nodes(t, ok),
        forall|i: int| 0 <= i < cs.len() ==> #[trigger] all_nodes(cs[i], ok),
    ensures
        all_nodes(edit_at(t, p, cs), ok),
    decreases p.len(),
{
    let t2 = edit_at(t, p, cs);
    if p.len() > 0 {
        let k = p[0] as int;
        lemma_all_list(t.childs, ok);
        assert(all_nodes(t.childs[k], ok));
        lemma_all_nodes_edit(t.childs[k], p.drop_first(), cs, ok);
        assert forall|i: int| 0 <= i < t2.childs.len() implies #[trigger] all_nodes(t2.childs[i], ok) by {
            if i != k {
                assert(t2.childs[i] == t.childs[i]);
            }
        }
    }
    lemma_all_list(t2.childs, ok);
}

/// Replacing the children at an address of a forest whose nodes pass `ok`
/// by trees whose nodes pass keeps every node passing.
pub proof fn lemma_all_forest_edit(f: Seq<Tree>, c: Seq<usize>, cs: Seq<Tree>, ok: spec_fn(Token) -> bool)
    requires
        addresses(f, c),
        all_forest(f, ok),
        forall|i: int| 0 <= i < cs.len() ==> #[trigger] all_nodes(cs[i], ok),
    ensures
        all_forest(edited_at(f, c, cs), ok),
{
    let k = c[0] as int;
    assert(all_nodes(f[k], ok));
    lemma_all_nodes_edit(f[k], c.drop_first(), cs, ok);
    let f2 = edited_at(f, c, cs);
    assert forall|i: int| 0 <= i < f2.len() implies #[trigger] all_nodes(f2[i], ok) by {
        if i != k {
            assert(f2[i] == f[i]);
        }
    }
}

/// As [`lemma_all_forest_edit`], for one tree appended to the children.
pub proof fn lemma_all_forest_append(f: Seq<Tree>, c: Seq<usize>, x: Tree, ok: spec_fn(Token) -> bool)
    requires
        addresses(f, c),
        all_forest(f, ok),
        all_nodes(x, ok),
    ensures
        all_forest(appended_at(f, c, x), ok),
{
    let k = c[0] as int;
    assert(all_nodes(f[k], ok));
    lemma_all_nodes_at(f[k], c.drop_first(), ok);
    lemma_all_list(focus_at(f, c).childs, ok);
    let cs = focus_at(f, c).childs.push(x);
    assert forall|i: int| 0 <= i < cs.len() implies #[trigger] all_nodes(cs[i], ok) by {
        if i < cs.len() - 1 {
            assert(cs[i] == focus_at(f, c).childs[i]);
        }
    }
    lemma_all_forest_edit(f, c, cs, ok);
}

/// Whether `p` leads, child index after child index, from the root of `t` to
/// one of its nodes.
pub open spec fn valid_path(t: Tree, p: Seq<usize>) -> bool
    decreases p.len(),
{
    p.len() == 0 || (p[0] < t.childs.len() && valid_path(t.childs[p[0] as int], p.drop_first()))
}

/// The node of `t` that `p` leads to.
pub open spec fn node_at(t: Tree, p: Seq<usize>) -> Tree
    decreases p.len(),
{
    if p.len() == 0 || p[0] >= t.childs.len() {
        t
    } else {
        node_at(t.childs[p[0] as int], p.drop_first())
    }
}

/// `t` with the children of the node that `p` leads to replaced by `cs`.
pub open spec fn edit_at(t: Tree, p: Seq<usize>, cs: Seq<Tree>) -> Tree
    decreases p.len(),
{
    if p.len() == 0 {
        Tree { category: t.category, childs: cs }
    } else if p[0] >= t.childs.len() {
        t
    } else {
        Tree {
            category: t.category,
            childs: t.childs.update(p[0] as int, edit_at(t.childs[p[0] as int], p.drop_first(), cs)),
        }
    }
}

/// `t` with `c` appended as the last child of the node that `p` leads to.
pub open spec fn append_at(t: Tree, p: Seq<usize>, c: Tree) -> Tree {
    edit_at(t, p, node_at(t, p).childs.push(c))
}

/// An edit at a path keeps the path, and the node there gets the new children.
pub proof fn lemma_edit_at(t: Tree, p: Seq<usize>, cs: Seq<Tree>)
    requires
        valid_path(t, p),
    ensures
        valid_path(edit_at(t, p, cs), p),
        node_at(edit_at(t, p, cs), p) == (Tree { category: node_at(t, p).category, childs: cs }),
        edit_at(t, p, cs).category == t.category,
        p.len() > 0 ==> edit_at(t, p, cs).childs.len() == t.childs.len(),
    decreases p.len(),
{
    if p.len() > 0 {
        lemma_edit_at(t.childs[p[0] as int], p.drop_first(), cs);
    }
}

/// A path that is valid stays valid without its last step, and can be extended
/// by the index of any child of the node it leads to.
pub proof fn lemma_path_steps(t: Tree, p: Seq<usize>, k: usize)
    requires
        valid_path(t, p),
    ensures
        p.len() > 0 ==> valid_path(t, p.drop_last()),
        k < node_at(t, p).childs.len() ==> valid_path(t, p.push(k))
            && node_at(t, p.push(k)) == node_at(t, p).childs[k as int],
    decreases p.len(),
{
    if p.len() > 0 {
        lemma_path_steps(t.childs[p[0] as int], p.drop_first(), k);
        if p.len() > 1 {
            assert(p.drop_last().drop_first() =~= p.drop_first().drop_last());
        }
        assert(p.push(k).drop_first() =~= p.drop_first().push(k));
        assert(p.push(k)[0] == p[0]);
    } else {
        assert(p.push(k).drop_first() =~= Seq::<usize>::empty());
        assert(p.push(k)[0] == k);
        if k < t.childs.len() {
            assert(node_at(t.childs[k as int], Seq::empty()) == t.childs[k as int]);
            assert(valid_path(t.childs[k as int], Seq::empty()));
        }
    }
}

/// A tree of one node.
pub open spec fn leaf_tree(t: Token) -> Tree {
    Tree { category: t, childs: Seq::empty() }
}

/// The trees of a sequence of nodes.
pub open spec fn trees(s: Seq<ASTNode>) -> Seq<Tree> {
    s.map_values(|n: ASTNode| n.tree())
}

/// What a node's tree is made of.
pub proof fn lemma_tree_of(n: ASTNode)
    ensures
        n.tree().category == n.category,
        n.tree().childs.len() == n.childs@.len(),
        n.tree().childs =~= trees(n.childs@),
        forall|i: int| 0 <= i < n.childs@.len() ==> #[trigger] n.tree().childs[i] == n.childs@[i].tree(),
{
}

} // verus!
