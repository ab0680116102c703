use vstd::prelude::*;
use crate::json::{JsonView, Num};
use crate::value::Value;

verus! {

/// A variable; `is_path` is kept for variables that name a path.
#[derive(Debug)]
pub struct ASTVariable {
    pub name: String,
    pub is_path: bool,
}

#[derive(Debug)]
pub struct ASTString {
    pub value: String,
}

/// A predicate call: a dotted path split into segments and its arguments.
#[derive(Debug)]
pub struct ASTPrimaryExpression {
    pub predicate: Vec<String>,
    pub args: Vec<ASTExpression>,
}

#[derive(Debug)]
pub struct ASTAndExpression {
    pub left: Box<ASTExpression>,
    pub right: Box<ASTExpression>,
}

#[derive(Debug)]
pub struct ASTOrExpression {
    pub left: Box<ASTExpression>,
    pub right: Box<ASTExpression>,
}

/// A node of a parsed query.
#[derive(Debug)]
pub enum ASTExpression {
    Number(Num),
    String(ASTString),
    Variable(ASTVariable),
    PrimaryExpression(ASTPrimaryExpression),
    AndExpression(ASTAndExpression),
    OrExpression(ASTOrExpression),
}

/// The mathematical value of a query node.
pub enum Expr {
    Number(Num),
    Str(Seq<char>),
    Var(Seq<char>),
    Primary(Seq<Seq<char>>, Seq<Expr>),
    And(Box<Expr>, Box<Expr>),
    Or(Box<Expr>, Box<Expr>),
}

pub open spec fn expr_view(e: ASTExpression) -> Expr
    decreases e,
{
    match e {
        ASTExpression::Number(n) => Expr::Number(n),
        ASTExpression::String(s) => Expr::Str(s.value@),
        ASTExpression::Variable(v) => Expr::Var(v.name@),
        ASTExpression::PrimaryExpression(p) => Expr::Primary(
            p.predicate@.map_values(|s: String| s@),
            Seq::new(
                p.args.len() as nat,
                |i: int| if 0 <= i < p.args.len() { expr_view(p.args[i]) } else { Expr::Number(Num::Int(0)) },
            ),
        ),
        ASTExpression::AndExpression(a) => Expr::And(
            Box::new(expr_view(*a.left)),
            Box::new(expr_view(*a.right)),
        ),
        ASTExpression::OrExpression(o) => Expr::Or(
            Box::new(expr_view(*o.left)),
            Box::new(expr_view(*o.right)),
        ),
    }
}

impl View for ASTExpression {
    type V = Expr;

    open spec fn view(&self) -> Expr {
        expr_view(*self)
    }
}

impl View for ASTPrimaryExpression {
    type V = (Seq<Seq<char>>, Seq<Expr>);

    open spec fn view(&self) -> (Seq<Seq<char>>, Seq<Expr>) {
        (self.predicate@.map_values(|s: String| s@), self.args@.map_values(|a: ASTExpression| a@))
    }
}

/// The value a literal argument stands for.
pub open spec fn literal_value(e: Expr) -> Option<JsonView> {
    match e {
        Expr::Number(n) => Some(JsonView::Number(n)),
        Expr::Str(s) => Some(JsonView::Str(s)),
        _ => None,
    }
}

impl ASTExpression {
    pub fn as_string(&self) -> (r: Option<String>)
        ensures
            match self@ {
                Expr::Str(s) => r.is_some() && r.unwrap()@ == s,
                _ => r.is_none(),
            },
    {
        match self {
            ASTExpression::String(s) => Some(s.value.clone()),
            _ => None,
        }
    }

    pub fn as_loose_string(&self) -> (r: Option<String>)
        ensures
            match literal_value(self@) {
                Some(v) => match crate::value::loose_text(v) {
                    Some(t) => r.is_some() && r.unwrap()@ == t,
                    None => r.is_none(),
                },
                None => r.is_none(),
            },
    {
        match self.try_to_value() {
            Some(v) => v.as_loose_string(),
            None => None,
        }
    }

    pub fn is_var(&self) -> (r: bool)
        ensures
            r == self@ is Var,
    {
        match self {
            ASTExpression::Variable(_) => true,
            _ => false,
        }
    }

    pub fn get_var_name(&self) -> (r: Option<String>)
        ensures
            match self@ {
                Expr::Var(n) => r.is_some() && r.unwrap()@ == n,
                _ => r.is_none(),
            },
    {
        match self {
            ASTExpression::Variable(x) => Some(x.name.clone()),
            _ => None,
        }
    }

    pub fn try_to_value(&self) -> (r: Option<Value>)
        ensures
            match literal_value(self@) {
                Some(v) => r.is_some() && r.unwrap().json@ == v && r.unwrap().wf(),
                None => r.is_none(),
            },
    {
        match self {
            ASTExpression::Number(n) => Some(Value::from_number(*n)),
            ASTExpression::String(s) => Some(Value::from_string(s.value.as_str())),
            _ => None,
        }
    }

    pub fn from_or_expression(e: ASTOrExpression) -> (r: ASTExpression)
        ensures
            r@ == Expr::Or(Box::new(expr_view(*e.left)), Box::new(expr_view(*e.right))),
    {
        ASTExpression::OrExpression(e)
    }

    pub fn from_and_expression(e: ASTAndExpression) -> (r: ASTExpression)
        ensures
            r@ == Expr::And(Box::new(expr_view(*e.left)), Box::new(expr_view(*e.right))),
    {
        ASTExpression::AndExpression(e)
    }

    pub fn from_primary_expression(e: ASTPrimaryExpression) -> (r: ASTExpression)
        ensures
            r@ == Expr::Primary(e@.0, e@.1),
    {
        let r = ASTExpression::PrimaryExpression(e);
        proof {
            let p = r->PrimaryExpression_0;
            assert(r@->Primary_1 =~= p@.1);
        }
        r
    }

    pub fn from_number(n: Num) -> (r: ASTExpression)
        ensures
            r@ == Expr::Number(n),
    {
        ASTExpression::Number(n)
    }

    pub fn from_str(s: &str) -> (r: ASTExpression)
        ensures
            r@ == Expr::Str(s@),
    {
        ASTExpression::String(ASTString { value: s.to_owned() })
    }

    pub fn from_variable(name: &str, is_path: bool) -> (r: ASTExpression)
        ensures
            r@ == Expr::Var(name@),
    {
        ASTExpression::Variable(ASTVariable { name: name.to_owned(), is_path })
    }
}

impl ASTAndExpression {
    pub fn new(left: ASTExpression, right: ASTExpression) -> (r: ASTAndExpression)
        ensures
            expr_view(*r.left) == left@,
            expr_view(*r.right) == right@,
    {
        ASTAndExpression { left: Box::new(left), right: Box::new(right) }
    }
}

impl ASTOrExpression {
    pub fn new(left: ASTExpression, right: ASTExpression) -> (r: ASTOrExpression)
        ensures
            expr_view(*r.left) == left@,
            expr_view(*r.right) == right@,
    {
        ASTOrExpression { left: Box::new(left), right: Box::new(right) }
    }
}

} // verus!
