//! The syntax tree: one node per construct of the language, its
//! mathematical view, and the direct interpretation of expressions.
use vstd::prelude::*;
use vstd::string::StringExecFns;
use crate::token::Kind;

verus! {

/// A node of the syntax tree: an expression or a statement.
#[derive(Debug, PartialEq, Eq, Hash)]
pub enum Expr {
    Int(Int),
    BinaryOp(Box<BinaryOp>),
    Ident(Box<Ident>),
    Assign(Box<Assign>),
    Print(Box<Print>),
    Char(Char),
    Str(Str),
    Equal(Box<Equal>),
    If(Box<If>),
    ElseIf(Box<If>),
    Else(Box<Else>),
    Nope,
}

/// An integer literal.
#[derive(Debug, Copy, Clone, PartialEq, Eq, Hash)]
pub struct Int(pub i32);

/// A character literal.
#[derive(Debug, Copy, Clone, PartialEq, Eq, Hash)]
pub struct Char(pub char);

/// A string literal.
#[derive(Debug, Clone, PartialEq, Eq, Hash)]
pub struct Str(pub String);

/// One of the four arithmetic operations on two operands.
#[derive(Debug, PartialEq, Eq, Hash)]
pub struct BinaryOp {
    pub kind: Kind,
    pub left_expr: Expr,
    pub right_expr: Expr,
}

/// A variable, with the kind of value it was declared to hold.
#[derive(Debug, Clone, PartialEq, Eq, Hash)]
pub struct Ident {
    pub name: String,
    pub kind: Kind,
}

/// An assignment of the value of `right_expr` to the variable `left_expr`.
#[derive(Debug, PartialEq, Eq, Hash)]
pub struct Assign {
    pub left_expr: Expr,
    pub right_expr: Expr,
}

/// A print statement.
#[derive(Debug, PartialEq, Eq, Hash)]
pub struct Print {
    pub val: Expr,
}

/// A test of two operands for equality.
#[derive(Debug, PartialEq, Eq, Hash)]
pub struct Equal {
    pub left_expr: Expr,
    pub right_expr: Expr,
}

/// A conditional branch: a condition and the statements of its body. Both
/// `if` and `else if` hold one.
#[derive(Debug, PartialEq, Eq, Hash)]
pub struct If {
    pub condition: Expr,
    pub list: Vec<Expr>,
}

/// The final branch of a chain: the statements of its body.
#[derive(Debug, PartialEq, Eq, Hash)]
pub struct Else {
    pub list: Vec<Expr>,
}

/// The mathematical content of an [`Expr`].
pub ghost enum Node {
    Int(i32),
    Char(char),
    Str(Seq<char>),
    Ident(Seq<char>, Kind),
    BinaryOp(Kind, Box<Node>, Box<Node>),
    Equal(Box<Node>, Box<Node>),
    Assign(Box<Node>, Box<Node>),
    Print(Box<Node>),
    If(Box<Node>, Seq<Node>),
    ElseIf(Box<Node>, Seq<Node>),
    Else(Seq<Node>),
    Nope,
}

/// The content of the tree `e`.
pub open spec fn node_of(e: Expr) -> Node
    decreases e,
{
    match e {
        Expr::Int(i) => Node::Int(i.0),
        Expr::Char(c) => Node::Char(c.0),
        Expr::Str(s) => Node::Str(s.0@),
        Expr::Ident(i) => Node::Ident(i.name@, i.kind),
        Expr::BinaryOp(b) => Node::BinaryOp(
            b.kind,
            Box::new(node_of(b.left_expr)),
            Box::new(node_of(b.right_expr)),
        ),
        Expr::Equal(b) => Node::Equal(
            Box::new(node_of(b.left_expr)),
            Box::new(node_of(b.right_expr)),
        ),
        Expr::Assign(b) => Node::Assign(
            Box::new(node_of(b.left_expr)),
            Box::new(node_of(b.right_expr)),
        ),
        Expr::Print(p) => Node::Print(Box::new(node_of(p.val))),
        Expr::If(i) => Node::If(
            Box::new(node_of(i.condition)),
            Seq::new(
                i.list@.len(),
                |k: int|
                    if 0 <= k < i.list@.len() {
                        node_of(i.list@[k])
                    } else {
                        Node::Nope
                    },
            ),
        ),
        Expr::ElseIf(i) => Node::ElseIf(
            Box::new(node_of(i.condition)),
            Seq::new(
                i.list@.len(),
                |k: int|
                    if 0 <= k < i.list@.len() {
                        node_of(i.list@[k])
                    } else {
                        Node::Nope
                    },
            ),
        ),
        Expr::Else(i) => Node::Else(
            Seq::new(
                i.list@.len(),
                |k: int|
                    if 0 <= k < i.list@.len() {
                        node_of(i.list@[k])
                    } else {
                        Node::Nope
                    },
            ),
        ),
        Expr::Nope => Node::Nope,
    }
}

impl View for Expr {
    type V = Node;

    open spec fn view(&self) -> Node {
        node_of(*self)
    }
}

/// The contents of a list of trees, in order.
pub open spec fn nodes_of(list: Seq<Expr>) -> Seq<Node> {
    Seq::new(list.len(), |k: int| node_of(list[k]))
}

/// Division of two 32-bit values read as unsigned numbers, the quotient
/// rounded toward zero.
pub open spec fn udiv32(a: i32, b: i32) -> i32 {
    ((a as u32) / (b as u32)) as i32
}

/// The result of applying the operator `kind` to `a` and `b` in 32-bit
/// arithmetic: sums, differences and products wrap around, division is
/// unsigned and has no result for a zero divisor. A kind that is no
/// arithmetic operator gives zero.
pub open spec fn arith(kind: Kind, a: i32, b: i32) -> Option<i32> {
    match kind {
        Kind::Plus => Some(a.wrapping_add(b)),
        Kind::Minus => Some(a.wrapping_sub(b)),
        Kind::Multi => Some(a.wrapping_mul(b)),
        Kind::Divi => if b == 0 {
            None
        } else {
            Some(udiv32(a, b))
        },
        _ => Some(0),
    }
}

/// The value that a tree has when it is interpreted directly, with no
/// variables: a literal is its value, an operation is applied to the values
/// of its operands from left to right, an equality test is one or zero, a
/// print statement has the value it prints, and anything else is zero.
/// There is no value where a division by zero occurs.
pub open spec fn eval_node(n: Node) -> Option<i32>
    decreases n,
{
    match n {
        Node::Int(v) => Some(v),
        Node::Char(c) => Some(c as i32),
        Node::BinaryOp(kind, l, r) => match (eval_node(*l), eval_node(*r)) {
            (Some(a), Some(b)) => arith(kind, a, b),
            _ => None,
        },
        Node::Equal(l, r) => match (eval_node(*l), eval_node(*r)) {
            (Some(a), Some(b)) => Some(
                if a == b {
                    1i32
                } else {
                    0i32
                },
            ),
            _ => None,
        },
        Node::Print(v) => eval_node(*v),
        _ => Some(0),
    }
}

/// The name by which a tree is known: a variable's own name, and for any
/// other tree the name of its construct.
pub open spec fn name_of(n: Node) -> Seq<char> {
    match n {
        Node::Ident(name, _) => name,
        Node::Int(_) => "Int"@,
        Node::Char(_) => "Char"@,
        Node::Str(_) => "Str"@,
        Node::BinaryOp(_, _, _) => "BinaryOp"@,
        Node::Equal(_, _) => "Equal"@,
        Node::Assign(_, _) => "Assign"@,
        Node::Print(_) => "Print"@,
        Node::If(_, _) => "If"@,
        Node::ElseIf(_, _) => "ElseIf"@,
        Node::Else(_) => "Else"@,
        Node::Nope => "None"@,
    }
}

/// Applies an arithmetic operator to two values.
pub fn apply_arith(kind: Kind, a: i32, b: i32) -> (r: Option<i32>)
    ensures
        r == arith(kind, a, b),
{
    match kind {
        Kind::Plus => Some(a.wrapping_add(b)),
        Kind::Minus => Some(a.wrapping_sub(b)),
        Kind::Multi => Some(a.wrapping_mul(b)),
        Kind::Divi => {
            if b == 0 {
                None
            } else {
                assert(b != 0 ==> (b as u32) != 0) by (bit_vector);
                let ua: u32 = #[verifier::truncate] (a as u32);
                let ub: u32 = #[verifier::truncate] (b as u32);
                Some(#[verifier::truncate] ((ua / ub) as i32))
            }
        },
        _ => Some(0),
    }
}

impl Int {
    pub fn new(val: i32) -> (r: Int)
        ensures
            r.0 == val,
    {
        Int(val)
    }

    /// The value of the literal.
    pub fn eval(&self) -> (v: i32)
        ensures
            v == self.0,
    {
        self.0
    }
}

impl Char {
    pub fn new(val: char) -> (r: Char)
        ensures
            r.0 == val,
    {
        Char(val)
    }

    /// The character of the literal.
    pub fn eval(&self) -> (v: char)
        ensures
            v == self.0,
    {
        self.0
    }
}

impl Str {
    pub fn new(val: String) -> (r: Str)
        ensures
            r.0 == val,
    {
        Str(val)
    }

    /// The text of the literal.
    pub fn eval(&self) -> (v: String)
        ensures
            v@ == self.0@,
    {
        self.0.clone()
    }
}

impl BinaryOp {
    pub fn new(kind: Kind, left_expr: Expr, right_expr: Expr) -> (r: BinaryOp)
        ensures
            r.kind == kind,
            r.left_expr == left_expr,
            r.right_expr == right_expr,
    {
        BinaryOp { kind, left_expr, right_expr }
    }

    /// The value of the operation applied to the values of its operands.
    pub fn eval(&self) -> (v: Option<i32>)
        ensures
            v == eval_node(
                Node::BinaryOp(
                    self.kind,
                    Box::new(self.left_expr@),
                    Box::new(self.right_expr@),
                ),
            ),
        decreases self,
    {
        let left: Option<i32> = self.left_expr.eval();
        let right: Option<i32> = self.right_expr.eval();
        match (left, right) {
            (Some(a), Some(b)) => apply_arith(self.kind, a, b),
            _ => None,
        }
    }
}

impl Ident {
    pub fn new(name: String, kind: Kind) -> (r: Ident)
        ensures
            r.name == name,
            r.kind == kind,
    {
        Ident { name, kind }
    }

    /// The variable's name.
    pub fn name(&self) -> (r: String)
        ensures
            r@ == self.name@,
    {
        self.name.clone()
    }

    /// A variable has no value of its own: zero.
    pub fn eval(&self) -> (v: i32)
        ensures
            v == 0,
    {
        0
    }
}

impl Assign {
    pub fn new(left_expr: Expr, right_expr: Expr) -> (r: Assign)
        ensures
            r.left_expr == left_expr,
            r.right_expr == right_expr,
    {
        Assign { left_expr, right_expr }
    }

    /// An assignment has no value of its own: zero.
    pub fn eval(&self) -> (v: i32)
        ensures
            v == 0,
    {
        0
    }
}

impl Print {
    pub fn new(val: Expr) -> (r: Print)
        ensures
            r.val == val,
    {
        Print { val }
    }

    /// The value of what is printed.
    pub fn eval(&self) -> (v: Option<i32>)
        ensures
            v == eval_node(self.val@),
        decreases self,
    {
        self.val.eval()
    }
}

impl Equal {
    pub fn new(left_expr: Expr, right_expr: Expr) -> (r: Equal)
        ensures
            r.left_expr == left_expr,
            r.right_expr == right_expr,
    {
        Equal { left_expr, right_expr }
    }
}

impl If {
    /// A branch on `condition` with an empty body.
    pub fn new(condition: Expr) -> (r: If)
        ensures
            r.condition == condition,
            r.list@.len() == 0,
    {
        let list: Vec<Expr> = Vec::new();
        If { condition, list }
    }
}

impl Else {
    /// A final branch with an empty body.
    pub fn new() -> (r: Else)
        ensures
            r.list@.len() == 0,
    {
        let list: Vec<Expr> = Vec::new();
        Else { list }
    }
}

impl Expr {
    /// Interprets the tree directly.
    pub fn eval(&self) -> (v: Option<i32>)
        ensures
            v == eval_node(self@),
        decreases self,
    {
        match self {
            Expr::Int(e) => Some(e.eval()),
            Expr::Char(e) => Some(e.eval() as i32),
            Expr::BinaryOp(e) => e.eval(),
            Expr::Equal(e) => {
                let left: Option<i32> = e.left_expr.eval();
                let right: Option<i32> = e.right_expr.eval();
                match (left, right) {
                    (Some(a), Some(b)) => Some(
                        if a == b {
                            1
                        } else {
                            0
                        },
                    ),
                    _ => None,
                }
            },
            Expr::Ident(e) => Some(e.eval()),
            Expr::Assign(e) => Some(e.eval()),
            Expr::Print(e) => e.eval(),
            _ => Some(0),
        }
    }

    /// The name by which the tree is known.
    pub fn name(&self) -> (r: String)
        ensures
            r@ == name_of(self@),
    {
        match self {
            Expr::Ident(e) => e.name(),
            Expr::Int(_) => String::from_str("Int"),
            Expr::Char(_) => String::from_str("Char"),
            Expr::Str(_) => String::from_str("Str"),
            Expr::BinaryOp(_) => String::from_str("BinaryOp"),
            Expr::Equal(_) => String::from_str("Equal"),
            Expr::Assign(_) => String::from_str("Assign"),
            Expr::Print(_) => String::from_str("Print"),
            Expr::If(_) => String::from_str("If"),
            Expr::ElseIf(_) => String::from_str("ElseIf"),
            Expr::Else(_) => String::from_str("Else"),
            Expr::Nope => String::from_str("None"),
        }
    }
}

/// The view of a branch node is made of the views of its condition and of
/// the statements of its body.
pub proof fn lemma_branch_view(i: If)
    ensures
        Expr::If(Box::new(i))@ == Node::If(Box::new(i.condition@), nodes_of(i.list@)),
        Expr::ElseIf(Box::new(i))@ == Node::ElseIf(Box::new(i.condition@), nodes_of(i.list@)),
{
    assert(Expr::If(Box::new(i))@->If_1 =~= nodes_of(i.list@));
    assert(Expr::ElseIf(Box::new(i))@->ElseIf_1 =~= nodes_of(i.list@));
}

/// The view of a final branch is made of the views of the statements of its
/// body.
pub proof fn lemma_else_view(i: Else)
    ensures
        Expr::Else(Box::new(i))@ == Node::Else(nodes_of(i.list@)),
{
    assert(Expr::Else(Box::new(i))@->Else_0 =~= nodes_of(i.list@));
}

/// A copy of a list of trees.
fn clone_list(list: &Vec<Expr>) -> (r: Vec<Expr>)
    ensures
        nodes_of(r@) == nodes_of(list@),
    decreases list,
{
    let mut out: Vec<Expr> = Vec::new();
    let mut i: usize = 0;
    while i < list.len()
        invariant
            i <= list@.len(),
            out@.len() == i,
            forall|k: int| 0 <= k < i ==> #[trigger] node_of(out@[k]) == node_of(list@[k]),
        decreases list@.len() - i,
    {
        out.push(list[i].clone());
        i = i + 1;
    }
    assert(nodes_of(out@) =~= nodes_of(list@));
    out
}

impl Clone for Expr {
    /// A copy of the tree, with the same content.
    fn clone(&self) -> (r: Expr)
        ensures
            r@ == self@,
        decreases self,
    {
        match self {
            Expr::Int(e) => Expr::Int(Int(e.0)),
            Expr::Char(e) => Expr::Char(Char(e.0)),
            Expr::Str(e) => Expr::Str(Str(e.0.clone())),
            Expr::Ident(e) => Expr::Ident(Box::new(Ident { name: e.name.clone(), kind: e.kind })),
            Expr::BinaryOp(e) => Expr::BinaryOp(
                Box::new(
                    BinaryOp {
                        kind: e.kind,
                        left_expr: e.left_expr.clone(),
                        right_expr: e.right_expr.clone(),
                    },
                ),
            ),
            Expr::Equal(e) => Expr::Equal(
                Box::new(
                    Equal { left_expr: e.left_expr.clone(), right_expr: e.right_expr.clone() },
                ),
            ),
            Expr::Assign(e) => Expr::Assign(
                Box::new(
                    Assign { left_expr: e.left_expr.clone(), right_expr: e.right_expr.clone() },
                ),
            ),
            Expr::Print(e) => Expr::Print(Box::new(Print { val: e.val.clone() })),
            Expr::If(e) => {
                let copy = If { condition: e.condition.clone(), list: clone_list(&e.list) };
                proof {
                    lemma_branch_view(**e);
                    lemma_branch_view(copy);
                }
                Expr::If(Box::new(copy))
            },
            Expr::ElseIf(e) => {
                let copy = If { condition: e.condition.clone(), list: clone_list(&e.list) };
                proof {
                    lemma_branch_view(**e);
                    lemma_branch_view(copy);
                }
                Expr::ElseIf(Box::new(copy))
            },
            Expr::Else(e) => {
                let copy = Else { list: clone_list(&e.list) };
                proof {
                    lemma_else_view(**e);
                    lemma_else_view(copy);
                }
                Expr::Else(Box::new(copy))
            },
            Expr::Nope => Expr::Nope,
        }
    }
}

impl Clone for BinaryOp {
    fn clone(&self) -> (r: BinaryOp)
        ensures
            r.kind == self.kind,
            r.left_expr@ == self.left_expr@,
            r.right_expr@ == self.right_expr@,
    {
        BinaryOp {
            kind: self.kind,
            left_expr: self.left_expr.clone(),
            right_expr: self.right_expr.clone(),
        }
    }
}

impl Clone for Assign {
    fn clone(&self) -> (r: Assign)
        ensures
            r.left_expr@ == self.left_expr@,
            r.right_expr@ == self.right_expr@,
    {
        Assign { left_expr: self.left_expr.clone(), right_expr: self.right_expr.clone() }
    }
}

impl Clone for Print {
    fn clone(&self) -> (r: Print)
        ensures
            r.val@ == self.val@,
    {
        Print { val: self.val.clone() }
    }
}

impl Clone for Equal {
    fn clone(&self) -> (r: Equal)
        ensures
            r.left_expr@ == self.left_expr@,
            r.right_expr@ == self.right_expr@,
    {
        Equal { left_expr: self.left_expr.clone(), right_expr: self.right_expr.clone() }
    }
}

impl Clone for If {
    fn clone(&self) -> (r: If)
        ensures
            r.condition@ == self.condition@,
            nodes_of(r.list@) == nodes_of(self.list@),
    {
        If { condition: self.condition.clone(), list: clone_list(&self.list) }
    }
}

impl Clone for Else {
    fn clone(&self) -> (r: Else)
        ensures
            nodes_of(r.list@) == nodes_of(self.list@),
    {
        Else { list: clone_list(&self.list) }
    }
}

} // verus!
