use vstd::prelude::*;
use crate::ast::{Node, Operator, Tree, lemma_view_children, lemma_all_well_formed};
use crate::env::Env;
use crate::error::{Error, ErrorView, error_view};

verus! {

broadcast use vstd::seq::group_seq_axioms, vstd::std_specs::vec::group_vec_axioms;

/// The variable bindings that evaluation reads and writes.
pub type Bindings = Map<Seq<char>, i32>;

/// What evaluating yields (a value or an error), with the bindings afterwards.
pub type Outcome = (Result<i32, ErrorView>, Bindings);

/// The quotient of `a` by `b`, rounded toward zero.
pub open spec fn quot(a: int, b: int) -> int {
    let q = abs(a) / abs(b);
    if (a < 0) == (b < 0) {
        q
    } else {
        -q
    }
}

pub open spec fn abs(a: int) -> int {
    if a < 0 {
        -a
    } else {
        a
    }
}

pub open spec fn fits_i32(v: int) -> bool {
    i32::MIN <= v <= i32::MAX
}

/// `v` as a result, or an overflow where it leaves the range of `i32`.
pub open spec fn checked(v: int) -> Result<i32, ErrorView> {
    if fits_i32(v) {
        Ok(v as i32)
    } else {
        Err(ErrorView::Overflow)
    }
}

/// `+`, `-` and `*` on the integers.
pub open spec fn apply(op: Operator, a: int, b: int) -> int {
    match op {
        Operator::Add => a + b,
        Operator::Subtract => a - b,
        Operator::Multiply => a * b,
        Operator::Divide => quot(a, b),
    }
}

/// Evaluates `n` under `env`. Arithmetic is exact and fails with an overflow
/// outside `i32`; a division evaluates its right operand first and fails on
/// zero before it evaluates its left one. Statements evaluate to 0.
pub open spec fn eval(n: Tree, env: Bindings) -> Outcome
    decreases n,
{
    match n {
        Tree::Num(v) => (Ok(v), env),
        Tree::UnaryOp(op, x) => match eval(*x, env) {
            (Ok(v), e1) => if op is Subtract {
                (checked(-v), e1)
            } else {
                (Ok(v), e1)
            },
            (Err(e), e1) => (Err(e), e1),
        },
        Tree::BinOp(op, l, r) => if op is Divide {
            match eval(*r, env) {
                (Ok(b), e1) => if b == 0 {
                    (Err(ErrorView::DivideByZero), e1)
                } else {
                    match eval(*l, e1) {
                        (Ok(a), e2) => (checked(quot(a as int, b as int)), e2),
                        (Err(e), e2) => (Err(e), e2),
                    }
                },
                (Err(e), e1) => (Err(e), e1),
            }
        } else {
            match eval(*l, env) {
                (Ok(a), e1) => match eval(*r, e1) {
                    (Ok(b), e2) => (checked(apply(op, a as int, b as int)), e2),
                    (Err(e), e2) => (Err(e), e2),
                },
                (Err(e), e1) => (Err(e), e1),
            }
        },
        Tree::Compound(children) => match eval_block(children, env) {
            (Ok(()), e1) => (Ok(0), e1),
            (Err(e), e1) => (Err(e), e1),
        },
        Tree::Assign(l, r) => match eval(*r, env) {
            (Ok(v), e1) => match *l {
                Tree::Var(name) => (Ok(0), e1.insert(name, v)),
                _ => (Ok(0), e1),
            },
            (Err(e), e1) => (Err(e), e1),
        },
        Tree::Var(name) => if env.contains_key(name) {
            (Ok(env[name]), env)
        } else {
            (Err(ErrorView::UndefinedVariable(name)), env)
        },
        Tree::NoOp => (Ok(0), env),
    }
}

/// Evaluates statements in order, stopping at the first error.
pub open spec fn eval_block(children: Seq<Tree>, env: Bindings) -> (Result<(), ErrorView>, Bindings)
    decreases children,
{
    if children.len() == 0 {
        (Ok(()), env)
    } else {
        match eval_block(children.drop_last(), env) {
            (Ok(()), e1) => match eval(children.last(), e1) {
                (Ok(_), e2) => (Ok(()), e2),
                (Err(e), e2) => (Err(e), e2),
            },
            (Err(e), e1) => (Err(e), e1),
        }
    }
}

/// Statements that stop on an error keep that error, whatever follows them.
proof fn lemma_block_stops(children: Seq<Tree>, k: int, env: Bindings)
    requires
        0 <= k <= children.len(),
        eval_block(children.take(k), env).0 is Err,
    ensures
        eval_block(children, env) == eval_block(children.take(k), env),
    decreases children.len(),
{
    if k == children.len() {
        assert(children.take(k) =~= children);
    } else {
        let init = children.drop_last();
        assert(init.take(k) =~= children.take(k));
        lemma_block_stops(init, k, env);
    }
}

/// Rust's `checked_div` on `i32` is the quotient rounded toward zero.
proof fn lemma_checked_div(a: i32, b: i32)
    requires
        b != 0,
    ensures
        a.checked_div(b) == (if fits_i32(quot(a as int, b as int)) {
            Some(quot(a as int, b as int) as i32)
        } else {
            None::<i32>
        }),
{
    let x = a as int;
    let d = b as int;
    if x == 0 {
        assert(0int / abs(d) == 0) by (nonlinear_arith)
            requires
                abs(d) > 0,
        ;
    }
}

/// A way of walking a syntax tree under variable bindings.
pub trait Visitor {
    type Output;

    /// What visiting `node` under `env` yields, with the bindings afterwards.
    spec fn outcome(&self, node: Tree, env: Bindings) -> (Result<Self::Output, ErrorView>, Bindings);

    fn visit(&self, node: Box<Node>, env: &mut Env) -> (r: Result<Self::Output, Error>)
        requires
            node@.well_formed(),
            old(env).wf(),
        ensures
            final(env).wf(),
            (error_view(r), final(env)@) == self.outcome(node@, old(env)@),
    ;
}

/// Evaluates a tree to an integer, children before their parent.
pub struct PostOrderVisitor;

impl Visitor for PostOrderVisitor {
    type Output = i32;

    open spec fn outcome(&self, node: Tree, env: Bindings) -> (Result<i32, ErrorView>, Bindings) {
        eval(node, env)
    }

    fn visit(&self, node: Box<Node>, env: &mut Env) -> (r: Result<i32, Error>) {
        self.eval_node(&node, env)
    }
}

impl PostOrderVisitor {
    fn eval_node(&self, node: &Node, env: &mut Env) -> (r: Result<i32, Error>)
        requires
            node@.well_formed(),
            old(env).wf(),
        ensures
            final(env).wf(),
            (error_view(r), final(env)@) == eval(node@, old(env)@),
        decreases node,
    {
        match node {
            Node::Num(v) => Ok(*v),
            Node::UnaryOp { op, operand } => {
                let v = match self.eval_node(operand, env) {
                    Ok(v) => v,
                    Err(e) => return Err(e),
                };
                match op {
                    Operator::Subtract => if v == i32::MIN {
                        Err(Error::Overflow)
                    } else {
                        Ok(-v)
                    },
                    _ => Ok(v),
                }
            },
            Node::BinOp { op, left, right } => {
                match op {
                    Operator::Divide => {
                        let b = match self.eval_node(right, env) {
                            Ok(b) => b,
                            Err(e) => return Err(e),
                        };
                        if b == 0 {
                            return Err(Error::DivideByZero);
                        }
                        let a = match self.eval_node(left, env) {
                            Ok(a) => a,
                            Err(e) => return Err(e),
                        };
                        proof {
                            lemma_checked_div(a, b);
                        }
                        match a.checked_div(b) {
                            Some(q) => Ok(q),
                            None => Err(Error::Overflow),
                        }
                    },
                    _ => {
                        let a = match self.eval_node(left, env) {
                            Ok(a) => a,
                            Err(e) => return Err(e),
                        };
                        let b = match self.eval_node(right, env) {
                            Ok(b) => b,
                            Err(e) => return Err(e),
                        };
                        let c = match op {
                            Operator::Add => a.checked_add(b),
                            Operator::Subtract => a.checked_sub(b),
                            _ => a.checked_mul(b),
                        };
                        match c {
                            Some(v) => Ok(v),
                            None => Err(Error::Overflow),
                        }
                    },
                }
            },
            Node::Compound { children } => {
                let ghost cs = Node::view_children(children@);
                let ghost env0 = old(env)@;
                proof {
                    lemma_view_children(children@);
                    assert(cs.take(0) =~= Seq::<Tree>::empty());
                    assert(node@ == Tree::Compound(cs));
                    lemma_all_well_formed(cs);
                }
                let mut k: usize = 0;
                while k < children.len()
                    invariant
                        env.wf(),
                        k <= children@.len(),
                        cs == Node::view_children(children@),
                        cs.len() == children@.len(),
                        forall|i: int| 0 <= i < children@.len() ==> #[trigger] cs[i] == (*children@[i])@,
                        forall|i: int| 0 <= i < cs.len() ==> (#[trigger] cs[i]).well_formed(),
                        env0 == old(env)@,
                        node@ == Tree::Compound(cs),
                        *node == (Node::Compound { children: *children }),
                        eval_block(cs.take(k as int), env0) == (Ok::<(), ErrorView>(()), env@),
                    decreases children@.len() - k,
                {
                    proof {
                        assert(decreases_to!(*children => children[k as int]));
                        assert(decreases_to!(*node => *children));
                        assert(cs[k as int] == (*children@[k as int])@);
                        assert(cs[k as int].well_formed());
                    }
                    let step = self.eval_node(&children[k], env);
                    proof {
                        assert(cs.take(k + 1).drop_last() =~= cs.take(k as int));
                        assert(cs.take(k + 1).last() == cs[k as int]);
                    }
                    match step {
                        Ok(_) => {},
                        Err(e) => {
                            proof {
                                lemma_block_stops(cs, k + 1, env0);
                            }
                            return Err(e);
                        },
                    }
                    k += 1;
                }
                proof {
                    assert(cs.take(k as int) =~= cs);
                    assert(eval_block(cs, env0) == (Ok::<(), ErrorView>(()), env@));
                }
                Ok(0)
            },
            Node::Assign { left, right } => {
                let v = match self.eval_node(right, env) {
                    Ok(v) => v,
                    Err(e) => return Err(e),
                };
                let ghost e1 = env@;
                assert(eval((**right)@, old(env)@) == (Ok::<i32, ErrorView>(v), e1));
                match &**left {
                    Node::Var(name) => {
                        let n = name.clone();
                        assert(n@ == name@);
                        assert(left@ == Tree::Var(name@));
                        assert(node@ == Tree::Assign(Box::new(Tree::Var(name@)), Box::new((**right)@)));
                        env.set(n, v);
                        assert(env@ == e1.insert(name@, v));
                    },
                    _ => {},
                }
                Ok(0)
            },
            Node::Var(name) => {
                match env.get(name.as_str()) {
                    Some(v) => Ok(v),
                    None => Err(Error::UndefinedVariable(name.clone())),
                }
            },
            Node::NoOp => Ok(0),
        }
    }
}

} // verus!
