use vstd::prelude::*;

use crate::span::{Span, Spanned};
use crate::token::{Primitive, PrimitiveV};

verus! {

/// Definitions first, then one or more expressions; the last expression is in
/// tail position.
#[derive(Debug)]
pub struct ProcedureBody {
    pub defs: Vec<Spanned<Definition>>,
    pub exprs: Vec<Spanned<Expression>>,
    pub last_expr: Spanned<Expression>,
}

/// A whole program has the shape of a procedure body.
pub type Program = ProcedureBody;

/// `(define name value)`.
#[derive(Debug)]
pub struct Definition(pub Spanned<String>, pub Spanned<Expression>);

/// An expression of the language.
#[derive(Debug)]
pub enum Expression {
    ProcedureCall { operator: Box<Spanned<Expression>>, args: Vec<Spanned<Expression>> },
    Primitive(Primitive),
    Procedure {
        /// Arguments
        args: Vec<Spanned<String>>,
        /// Procedure Body
        body: Box<ProcedureBody>,
    },
    Conditional {
        /// Test
        test: Box<Spanned<Expression>>,
        /// Consequent
        conseq: Box<Spanned<Expression>>,
        /// Alternative
        alter: Option<Box<Spanned<Expression>>>,
    },
    Assignment(Spanned<String>, Box<Spanned<Expression>>),
    /// Stands for a form that could not be parsed.
    Error,
}

/// What an expression denotes, with spans kept.
pub enum ExprV {
    Call { operator: Box<(ExprV, Span)>, args: Seq<(ExprV, Span)> },
    Primitive(PrimitiveV),
    Procedure { args: Seq<(Seq<char>, Span)>, body: Box<BodyV> },
    Conditional {
        test: Box<(ExprV, Span)>,
        conseq: Box<(ExprV, Span)>,
        alter: Option<Box<(ExprV, Span)>>,
    },
    Assignment { target: (Seq<char>, Span), value: Box<(ExprV, Span)> },
    Error,
}

/// What a definition denotes.
pub struct DefV {
    pub name: (Seq<char>, Span),
    pub value: (ExprV, Span),
}

/// What a procedure body denotes.
pub struct BodyV {
    pub defs: Seq<(DefV, Span)>,
    pub exprs: Seq<(ExprV, Span)>,
    pub last: (ExprV, Span),
}

/// The characters and spans of spanned identifiers.
pub open spec fn idents_view(s: Seq<Spanned<String>>) -> Seq<(Seq<char>, Span)> {
    s.map_values(|x: Spanned<String>| (x.0@, x.1))
}

/// The model of an expression.
pub open spec fn expr_view(e: Expression) -> ExprV
    decreases e,
{
    match e {
        Expression::ProcedureCall { operator, args } => ExprV::Call {
            operator: Box::new((expr_view(operator.0), operator.1)),
            args: exprs_view(args@),
        },
        Expression::Primitive(p) => ExprV::Primitive(p@),
        Expression::Procedure { args, body } => ExprV::Procedure {
            args: idents_view(args@),
            body: Box::new(body_view(*body)),
        },
        Expression::Conditional { test, conseq, alter } => ExprV::Conditional {
            test: Box::new((expr_view(test.0), test.1)),
            conseq: Box::new((expr_view(conseq.0), conseq.1)),
            alter: match alter {
                Some(a) => Some(Box::new((expr_view(a.0), a.1))),
                None => None,
            },
        },
        Expression::Assignment(target, value) => ExprV::Assignment {
            target: (target.0@, target.1),
            value: Box::new((expr_view(value.0), value.1)),
        },
        Expression::Error => ExprV::Error,
    }
}

/// The models of spanned expressions, in order.
pub open spec fn exprs_view(s: Seq<Spanned<Expression>>) -> Seq<(ExprV, Span)>
    decreases s,
{
    if s.len() == 0 {
        seq![]
    } else {
        exprs_view(s.drop_last()).push((expr_view(s.last().0), s.last().1))
    }
}

/// The models of spanned definitions, in order.
pub open spec fn defs_view(s: Seq<Spanned<Definition>>) -> Seq<(DefV, Span)>
    decreases s,
{
    if s.len() == 0 {
        seq![]
    } else {
        defs_view(s.drop_last()).push(
            (
                DefV {
                    name: (s.last().0.0.0@, s.last().0.0.1),
                    value: (expr_view(s.last().0.1.0), s.last().0.1.1),
                },
                s.last().1,
            ),
        )
    }
}

/// The model of a procedure body.
pub open spec fn body_view(b: ProcedureBody) -> BodyV
    decreases b,
{
    BodyV {
        defs: defs_view(b.defs@),
        exprs: exprs_view(b.exprs@),
        last: (expr_view(b.last_expr.0), b.last_expr.1),
    }
}

impl View for Expression {
    type V = ExprV;

    open spec fn view(&self) -> ExprV {
        expr_view(*self)
    }
}

impl View for ProcedureBody {
    type V = BodyV;

    open spec fn view(&self) -> BodyV {
        body_view(*self)
    }
}

pub proof fn lemma_exprs_view_push(s: Seq<Spanned<Expression>>, e: Spanned<Expression>)
    ensures
        exprs_view(s.push(e)) == exprs_view(s).push((expr_view(e.0), e.1)),
{
    assert(s.push(e).drop_last() =~= s);
}

pub proof fn lemma_defs_view_push(s: Seq<Spanned<Definition>>, d: Spanned<Definition>)
    ensures
        defs_view(s.push(d)) == defs_view(s).push(
            (DefV { name: (d.0.0.0@, d.0.0.1), value: (expr_view(d.0.1.0), d.0.1.1) }, d.1),
        ),
{
    assert(s.push(d).drop_last() =~= s);
}

} // verus!
