//! The expression tree: built from a postfix token sequence with a node
//! stack, and evaluated by a recursive walk.

use vstd::prelude::*;

use crate::lex::{
    op_eval_spec, shunting_yard, sy_spec, tokenize, tokenize_spec, values_normalized, Operator,
    Token,
};
use crate::value::Value;
use crate::EvalError;

verus! {

/// One tree node: its token and up to two owned children. A value leaf
/// owns neither child, a unary-minus node owns only `right`, a binary
/// operator node owns both.
#[derive(Debug)]
pub struct Node {
    pub token: Token,
    pub left: Option<Box<Node>>,
    pub right: Option<Box<Node>>,
}

impl Node {
    /// Well-formed: children as the token demands, normalized leaf
    /// values, and no parenthesis in the tree.
    pub open spec fn wf(self) -> bool
        decreases self,
    {
        match self.token {
            Token::Value(v) => self.left is None && self.right is None && v.is_normalized(),
            Token::Operator(op) => {
                if op is USub {
                    &&& self.left is None
                    &&& self.right matches Some(r) && r.wf()
                } else {
                    &&& self.left matches Some(l) && l.wf()
                    &&& self.right matches Some(r) && r.wf()
                }
            },
            Token::Paren(_) => false,
        }
    }

    /// Height of the tree under this node, counting this node.
    pub open spec fn depth_spec(self) -> nat
        decreases self,
    {
        let dl: nat = match self.left {
            Some(l) => l.depth_spec(),
            None => 0,
        };
        let dr: nat = match self.right {
            Some(r) => r.depth_spec(),
            None => 0,
        };
        (if dl > dr {
            dl
        } else {
            dr
        }) + 1
    }
}

/// What evaluating a node owes: a leaf yields its value; unary minus
/// negates its right child's result; a binary node applies its operator
/// to both children's results, the left one first; errors propagate.
pub open spec fn eval_node_spec(n: Node) -> Result<Value, EvalError>
    decreases n,
{
    match n.token {
        Token::Value(v) => Ok(v),
        Token::Operator(op) => {
            if op is USub {
                match n.right {
                    Some(r) => match eval_node_spec(*r) {
                        Ok(rv) => op_eval_spec(op, rv, rv),
                        Err(e) => Err(e),
                    },
                    None => Err(EvalError::ParseError),
                }
            } else {
                match (n.left, n.right) {
                    (Some(l), Some(r)) => match eval_node_spec(*l) {
                        Ok(lv) => match eval_node_spec(*r) {
                            Ok(rv) => op_eval_spec(op, lv, rv),
                            Err(e) => Err(e),
                        },
                        Err(e) => Err(e),
                    },
                    _ => Err(EvalError::ParseError),
                }
            }
        },
        Token::Paren(_) => Err(EvalError::ParseError),
    }
}

/// A well-formed node evaluates, when it succeeds, to a normalized value.
pub proof fn lemma_eval_normalized(n: Node)
    requires
        n.wf(),
    ensures
        eval_node_spec(n) matches Ok(v) ==> v.is_normalized(),
    decreases n,
{
    match n.token {
        Token::Value(v) => {},
        Token::Operator(op) => {
            if op is USub {
                let r = n.right->Some_0;
                lemma_eval_normalized(*r);
                if eval_node_spec(*r) is Ok {
                    let rv = eval_node_spec(*r)->Ok_0;
                    lemma_op_eval_normalized(op, rv, rv);
                }
            } else {
                let l = n.left->Some_0;
                let r = n.right->Some_0;
                lemma_eval_normalized(*l);
                lemma_eval_normalized(*r);
                if eval_node_spec(*l) is Ok && eval_node_spec(*r) is Ok {
                    let lv = eval_node_spec(*l)->Ok_0;
                    let rv = eval_node_spec(*r)->Ok_0;
                    lemma_op_eval_normalized(op, lv, rv);
                }
            }
        },
        Token::Paren(_) => {},
    }
}

/// Every operator result that succeeds is a normalized value.
pub proof fn lemma_op_eval_normalized(op: Operator, lv: Value, rv: Value)
    requires
        lv.is_normalized(),
        rv.is_normalized(),
    ensures
        op_eval_spec(op, lv, rv) matches Ok(v) ==> v.is_normalized(),
{
    assert(lv.denom() >= 1 && rv.denom() >= 1);
    match op {
        Operator::Add => {
            if op_eval_spec(op, lv, rv) is Ok {
                assert(lv.denom() * rv.denom() >= 1) by (nonlinear_arith)
                    requires
                        lv.denom() >= 1,
                        rv.denom() >= 1,
                ;
                crate::value::lemma_norm_value(
                    lv.numer() * rv.denom() + rv.numer() * lv.denom(),
                    lv.denom() * rv.denom(),
                );
            }
        },
        Operator::Sub => {
            if op_eval_spec(op, lv, rv) is Ok {
                assert(lv.denom() * rv.denom() >= 1) by (nonlinear_arith)
                    requires
                        lv.denom() >= 1,
                        rv.denom() >= 1,
                ;
                crate::value::lemma_norm_value(
                    lv.numer() * rv.denom() - rv.numer() * lv.denom(),
                    lv.denom() * rv.denom(),
                );
            }
        },
        Operator::Mul => {
            if op_eval_spec(op, lv, rv) is Ok {
                assert(lv.denom() * rv.denom() >= 1) by (nonlinear_arith)
                    requires
                        lv.denom() >= 1,
                        rv.denom() >= 1,
                ;
                crate::value::lemma_norm_value(
                    lv.numer() * rv.numer(),
                    lv.denom() * rv.denom(),
                );
            }
        },
        Operator::Div => {
            if op_eval_spec(op, lv, rv) is Ok {
                assert(crate::arith::abs_of(rv.numer()) >= 1);
                assert(lv.denom() * (crate::arith::abs_of(rv.numer()) as int) >= 1)
                    by (nonlinear_arith)
                    requires
                        lv.denom() >= 1,
                        crate::arith::abs_of(rv.numer()) >= 1,
                ;
                crate::value::lemma_norm_value(
                    crate::value::div_num(lv, rv),
                    crate::value::div_den(lv, rv),
                );
            }
        },
        Operator::USub => {
            if op_eval_spec(op, lv, rv) is Ok {
                crate::value::lemma_norm_value(-rv.numer(), rv.denom());
            }
        },
    }
}

impl Node {
    /// A fresh leaf for a token, without children.
    pub fn new(token: Token) -> (n: Node)
        ensures
            n.token == token,
            n.left is None,
            n.right is None,
    {
        Node { token, left: None, right: None }
    }

    /// Evaluate the expression under this node.
    pub fn evaluate(&self) -> (res: Result<Value, EvalError>)
        requires
            self.wf(),
        ensures
            res == eval_node_spec(*self),
        decreases *self,
    {
        match self.token {
            Token::Value(v) => Ok(v),
            Token::Operator(op) => {
                if matches!(op, Operator::USub) {
                    let r = self.right.as_ref().unwrap();
                    match r.evaluate() {
                        Ok(rv) => {
                            proof {
                                lemma_eval_normalized(**r);
                            }
                            op.evaluate(rv, rv)
                        },
                        Err(e) => Err(e),
                    }
                } else {
                    let l = self.left.as_ref().unwrap();
                    let r = self.right.as_ref().unwrap();
                    match l.evaluate() {
                        Ok(lv) => {
                            match r.evaluate() {
                                Ok(rv) => {
                                    proof {
                                        lemma_eval_normalized(**l);
                                        lemma_eval_normalized(**r);
                                    }
                                    op.evaluate(lv, rv)
                                },
                                Err(e) => Err(e),
                            }
                        },
                        Err(e) => Err(e),
                    }
                }
            },
            Token::Paren(_) => Err(EvalError::ParseError),
        }
    }

    /// Height of the tree under this node.
    pub fn depth(&self) -> (d: u64)
        requires
            self.depth_spec() <= u64::MAX,
        ensures
            d == self.depth_spec(),
        decreases *self,
    {
        let dl: u64 = match &self.left {
            Some(l) => l.depth(),
            None => 0,
        };
        let dr: u64 = match &self.right {
            Some(r) => r.depth(),
            None => 0,
        };
        let m = if dl > dr {
            dl
        } else {
            dr
        };
        m + 1
    }
}

/// Scan of a postfix sequence with a node stack: a value pushes a leaf;
/// unary minus takes one node as its right child; any other operator
/// takes the top as its right child and the next as its left; underflow,
/// a parenthesis, or anything but one final node is a `ParseError`.
pub open spec fn build_scan(ts: Seq<Token>, i: int, stack: Seq<Node>) -> Result<Node, EvalError>
    decreases ts.len() - i,
{
    if i < 0 {
        Err(EvalError::ParseError)
    } else if i >= ts.len() {
        if stack.len() == 1 {
            Ok(stack[0])
        } else {
            Err(EvalError::ParseError)
        }
    } else {
        match ts[i] {
            Token::Value(_) => build_scan(
                ts,
                i + 1,
                stack.push(Node { token: ts[i], left: None, right: None }),
            ),
            Token::Operator(op) => {
                if op is USub {
                    if stack.len() < 1 {
                        Err(EvalError::ParseError)
                    } else {
                        build_scan(
                            ts,
                            i + 1,
                            stack.drop_last().push(
                                Node {
                                    token: ts[i],
                                    left: None,
                                    right: Some(Box::new(stack.last())),
                                },
                            ),
                        )
                    }
                } else {
                    if stack.len() < 2 {
                        Err(EvalError::ParseError)
                    } else {
                        build_scan(
                            ts,
                            i + 1,
                            stack.drop_last().drop_last().push(
                                Node {
                                    token: ts[i],
                                    left: Some(Box::new(stack[stack.len() - 2])),
                                    right: Some(Box::new(stack.last())),
                                },
                            ),
                        )
                    }
                }
            },
            Token::Paren(_) => Err(EvalError::ParseError),
        }
    }
}

/// What building a tree from a postfix sequence owes.
pub open spec fn build_spec(ts: Seq<Token>) -> Result<Node, EvalError> {
    build_scan(ts, 0, Seq::empty())
}

/// Every node on the stack is well-formed.
pub open spec fn stack_wf(stack: Seq<Node>) -> bool {
    forall|m: int| 0 <= m < stack.len() ==> (#[trigger] stack[m]).wf()
}

/// The most tokens one expression may hold. The tree is evaluated by
/// recursion and its depth is bounded by the token count, so this cap
/// keeps a hostile, deeply nested input from exhausting the call stack.
pub const MAX_TOKENS: usize = 8192;

/// A parsed expression: one owned tree.
#[derive(Debug)]
pub struct Tree {
    pub root: Node,
}

impl Tree {
    /// Well-formed: the root is.
    pub open spec fn wf(self) -> bool {
        self.root.wf()
    }

    /// What the whole pipeline owes for an input string: tokenize,
    /// convert to postfix, build the tree; the first error wins.
    pub open spec fn new_spec(s: Seq<char>) -> Result<Node, EvalError> {
        match tokenize_spec(s) {
            Err(e) => Err(e),
            Ok(ts) => if ts.len() > MAX_TOKENS {
                Err(EvalError::ParseError)
            } else {
                match sy_spec(ts) {
                    Err(e) => Err(e),
                    Ok(post) => build_spec(post),
                }
            },
        }
    }

    /// Parse a string into an expression tree.
    pub fn new(s: &str) -> (res: Result<Tree, EvalError>)
        ensures
            res matches Ok(t) ==> Ok::<Node, EvalError>(t.root) == Tree::new_spec(s@) && t.wf(),
            res matches Err(e) ==> Err::<Node, EvalError>(e) == Tree::new_spec(s@),
    {
        let ts = match tokenize(s) {
            Ok(ts) => ts,
            Err(e) => {
                return Err(e);
            },
        };
        if ts.len() > MAX_TOKENS {
            return Err(EvalError::ParseError);
        }
        let post = match shunting_yard(ts) {
            Ok(post) => post,
            Err(e) => {
                return Err(e);
            },
        };
        let root = match build_tree(post) {
            Ok(root) => root,
            Err(e) => {
                return Err(e);
            },
        };
        Ok(Tree { root })
    }

    /// Evaluate the parsed expression.
    pub fn evaluate(&self) -> (res: Result<Value, EvalError>)
        requires
            self.wf(),
        ensures
            res == eval_node_spec(self.root),
    {
        self.root.evaluate()
    }
}

/// Build an expression tree from a postfix token sequence.
pub fn build_tree(stream: Vec<Token>) -> (res: Result<Node, EvalError>)
    ensures
        res matches Ok(n) ==> Ok::<Node, EvalError>(n) == build_spec(stream@) && (
        values_normalized(stream@) ==> n.wf()),
        res matches Err(e) ==> Err::<Node, EvalError>(e) == build_spec(stream@),
{
    let n = stream.len();
    let mut stack: Vec<Node> = Vec::new();
    let mut i: usize = 0;
    while i < n
        invariant
            0 <= i <= n,
            n == stream@.len(),
            build_scan(stream@, 0, Seq::empty()) == build_scan(stream@, i as int, stack@),
            values_normalized(stream@) ==> stack_wf(stack@),
        decreases n - i,
    {
        let t = stream[i];
        match t {
            Token::Value(_) => {
                stack.push(Node { token: t, left: None, right: None });
            },
            Token::Operator(op) => {
                if matches!(op, Operator::USub) {
                    if stack.len() < 1 {
                        return Err(EvalError::ParseError);
                    }
                    let right = stack.pop().unwrap();
                    let node = Node { token: t, left: None, right: Some(Box::new(right)) };
                    stack.push(node);
                } else {
                    if stack.len() < 2 {
                        return Err(EvalError::ParseError);
                    }
                    let right = stack.pop().unwrap();
                    let left = stack.pop().unwrap();
                    let node = Node {
                        token: t,
                        left: Some(Box::new(left)),
                        right: Some(Box::new(right)),
                    };
                    stack.push(node);
                }
            },
            Token::Paren(_) => {
                return Err(EvalError::ParseError);
            },
        }
        i = i + 1;
    }
    if stack.len() != 1 {
        return Err(EvalError::ParseError);
    }
    let root = stack.pop().unwrap();
    Ok(root)
}

} // verus!
