use vstd::prelude::*;

verus! {

broadcast use vstd::seq::group_seq_axioms;

/// The operators of the language; unary nodes use only `Add` and `Subtract`.
#[derive(Debug, Clone, Copy, PartialEq, Eq, Structural)]
pub enum Operator {
    Add,
    Subtract,
    Multiply,
    Divide,
}

/// A syntax tree; each node owns its children.
#[derive(Debug, PartialEq, Eq)]
pub enum Node {
    Num(i32),
    UnaryOp { op: Operator, operand: Box<Node> },
    BinOp { op: Operator, left: Box<Node>, right: Box<Node> },
    Compound { children: Vec<Box<Node>> },
    Assign { left: Box<Node>, right: Box<Node> },
    Var(String),
    NoOp,
}

/// The mathematical model of a syntax tree.
pub enum Tree {
    Num(i32),
    UnaryOp(Operator, Box<Tree>),
    BinOp(Operator, Box<Tree>, Box<Tree>),
    Compound(Seq<Tree>),
    Assign(Box<Tree>, Box<Tree>),
    Var(Seq<char>),
    NoOp,
}

impl Tree {
    /// Unary nodes carry a sign, and assignments assign to a variable.
    pub open spec fn well_formed(self) -> bool
        decreases self,
    {
        match self {
            Tree::UnaryOp(op, x) => (op is Add || op is Subtract) && x.well_formed(),
            Tree::BinOp(_, l, r) => l.well_formed() && r.well_formed(),
            Tree::Compound(cs) => Tree::all_well_formed(cs),
            Tree::Assign(l, r) => *l is Var && r.well_formed(),
            _ => true,
        }
    }

    pub open spec fn all_well_formed(cs: Seq<Tree>) -> bool
        decreases cs,
    {
        cs.len() == 0 || (Tree::all_well_formed(cs.drop_last()) && cs.last().well_formed())
    }
}

/// Every tree of a well-formed list is well formed.
pub proof fn lemma_all_well_formed(cs: Seq<Tree>)
    requires
        Tree::all_well_formed(cs),
    ensures
        forall|k: int| 0 <= k < cs.len() ==> (#[trigger] cs[k]).well_formed(),
    decreases cs.len(),
{
    if cs.len() > 0 {
        let init = cs.drop_last();
        lemma_all_well_formed(init);
        assert forall|k: int| 0 <= k < cs.len() implies (#[trigger] cs[k]).well_formed() by {
            if k < init.len() {
                assert(init[k] == cs[k]);
            }
        }
    }
}

impl Node {
    pub open spec fn view_children(children: Seq<Box<Node>>) -> Seq<Tree>
        decreases children,
    {
        if children.len() == 0 {
            Seq::empty()
        } else {
            Self::view_children(children.drop_last()).push((*children.last()).view())
        }
    }
}

/// The model of a list of children has one tree per child, in order.
pub proof fn lemma_view_children(children: Seq<Box<Node>>)
    ensures
        Node::view_children(children).len() == children.len(),
        forall|k: int|
            0 <= k < children.len() ==> #[trigger] Node::view_children(children)[k] == (
            *children[k])@,
    decreases children.len(),
{
    if children.len() > 0 {
        let init = children.drop_last();
        lemma_view_children(init);
        assert(Node::view_children(children) == Node::view_children(init).push(
            (*children.last())@,
        ));
        assert forall|k: int| 0 <= k < children.len() implies #[trigger] Node::view_children(
            children,
        )[k] == (*children[k])@ by {
            if k < init.len() {
                assert(init[k] == children[k]);
            }
        }
    } else {
        assert(Node::view_children(children) == Seq::<Tree>::empty());
    }
}

impl View for Node {
    type V = Tree;

    open spec fn view(&self) -> Tree
        decreases *self,
    {
        match self {
            Node::Num(v) => Tree::Num(*v),
            Node::UnaryOp { op, operand } => Tree::UnaryOp(*op, Box::new((**operand).view())),
            Node::BinOp { op, left, right } => Tree::BinOp(
                *op,
                Box::new((**left).view()),
                Box::new((**right).view()),
            ),
            Node::Compound { children } => Tree::Compound(Node::view_children(children@)),
            Node::Assign { left, right } => Tree::Assign(
                Box::new((**left).view()),
                Box::new((**right).view()),
            ),
            Node::Var(name) => Tree::Var(name@),
            Node::NoOp => Tree::NoOp,
        }
    }
}

} // verus!
