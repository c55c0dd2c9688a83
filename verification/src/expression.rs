//! What the printer of comments reads of an expression.
use vstd::prelude::*;

use crate::comment::Span;

verus! {

/// An expression: its kind as far as comments depend on it, and its place in the source.
#[derive(Debug)]
pub enum Expression {
    /// `() => {}`. `pife` asks for parentheses around it, so that it is compiled at once.
    ArrowFunction { span: Span, pife: bool },
    /// `function () {}`, with `pife` as above.
    Function { span: Span, pife: bool },
    /// `(expression)`
    Parenthesized { span: Span, expression: Box<Expression> },
    /// `{}`
    Object { span: Span },
    /// Any other expression.
    Other { span: Span },
}

impl Expression {
    /// The place of the expression.
    #[verifier::allow_in_spec]
    pub fn span(&self) -> Span
        returns
            (match self {
                Expression::ArrowFunction { span, .. } => *span,
                Expression::Function { span, .. } => *span,
                Expression::Parenthesized { span, .. } => *span,
                Expression::Object { span } => *span,
                Expression::Other { span } => *span,
            }),
    {
        match self {
            Expression::ArrowFunction { span, .. } => *span,
            Expression::Function { span, .. } => *span,
            Expression::Parenthesized { span, .. } => *span,
            Expression::Object { span } => *span,
            Expression::Other { span } => *span,
        }
    }

    /// The expression inside all of the parentheses.
    pub open spec fn bare(self) -> Expression
        decreases self,
    {
        match self {
            Expression::Parenthesized { expression, .. } => expression.bare(),
            _ => self,
        }
    }

    /// Is the expression, inside all of its parentheses, a function to be compiled at once?
    pub open spec fn pife(self) -> bool {
        match self.bare() {
            Expression::ArrowFunction { pife, .. } => pife,
            Expression::Function { pife, .. } => pife,
            _ => false,
        }
    }

    /// The starts of the expression and of what each pair of parentheses holds, from the
    /// outside in.
    pub open spec fn openings(self) -> Seq<u32>
        decreases self,
    {
        match self {
            Expression::Parenthesized { span, expression } => seq![span.start]
                + expression.openings(),
            _ => seq![self.span().start],
        }
    }

    /// The starts as above, but for that of an object literal.
    pub open spec fn openings_but_object(self) -> Seq<u32>
        decreases self,
    {
        match self {
            Expression::Parenthesized { span, expression } => seq![span.start]
                + expression.openings_but_object(),
            Expression::Object { .. } => seq![],
            _ => seq![self.span().start],
        }
    }
}

/// A function marked `pife` prints its leading comments inside its own parentheses, so those
/// that print an operand must leave them.
pub fn is_pife_function(expression: &Expression) -> (b: bool)
    ensures
        b == expression.pife(),
    decreases expression,
{
    match expression {
        Expression::ArrowFunction { pife, .. } => *pife,
        Expression::Function { pife, .. } => *pife,
        Expression::Parenthesized { expression: inner, .. } => is_pife_function(inner),
        _ => false,
    }
}

} // verus!
