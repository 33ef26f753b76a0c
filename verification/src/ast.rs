//! The syntax around a template literal, as far as it decides what language the
//! template is written in.

use vstd::prelude::*;

verus! {

/// An expression, as far as the name at its root goes.
#[derive(Debug)]
pub enum Expression<'a> {
    /// `name`
    Identifier(&'a str),
    /// `object.property`
    StaticMemberExpression(Box<Expression<'a>>),
    /// `object[property]`
    ComputedMemberExpression(Box<Expression<'a>>),
    /// `callee(..)`
    CallExpression(Box<Expression<'a>>),
    /// `(expression)`
    ParenthesizedExpression(Box<Expression<'a>>),
    /// `expression as T`
    TSAsExpression(Box<Expression<'a>>),
    /// `expression satisfies T`
    TSSatisfiesExpression(Box<Expression<'a>>),
    /// `expression<T>`
    TSInstantiationExpression(Box<Expression<'a>>),
    /// `expression!`
    TSNonNullExpression(Box<Expression<'a>>),
    /// `<T>expression`
    TSTypeAssertion(Box<Expression<'a>>),
    /// Any other expression.
    Other,
}

/// The expression inside the parentheses and the type annotations of `expr`.
pub open spec fn inner_expression(expr: Expression<'_>) -> Expression<'_>
    decreases expr,
{
    match expr {
        Expression::ParenthesizedExpression(inner) => inner_expression(*inner),
        Expression::TSAsExpression(inner) => inner_expression(*inner),
        Expression::TSSatisfiesExpression(inner) => inner_expression(*inner),
        Expression::TSInstantiationExpression(inner) => inner_expression(*inner),
        Expression::TSNonNullExpression(inner) => inner_expression(*inner),
        Expression::TSTypeAssertion(inner) => inner_expression(*inner),
        _ => expr,
    }
}

impl<'a> Expression<'a> {
    /// The expression inside the parentheses and the type annotations of this one.
    pub fn get_inner_expression(&self) -> (inner: &Expression<'a>)
        ensures
            *inner == inner_expression(*self),
        decreases self,
    {
        match self {
            Expression::ParenthesizedExpression(inner) => inner.get_inner_expression(),
            Expression::TSAsExpression(inner) => inner.get_inner_expression(),
            Expression::TSSatisfiesExpression(inner) => inner.get_inner_expression(),
            Expression::TSInstantiationExpression(inner) => inner.get_inner_expression(),
            Expression::TSNonNullExpression(inner) => inner.get_inner_expression(),
            Expression::TSTypeAssertion(inner) => inner.get_inner_expression(),
            _ => self,
        }
    }
}

/// The name of a JSX attribute.
#[derive(Debug)]
pub enum JSXAttributeName<'a> {
    /// `name`
    Identifier(&'a str),
    /// `space:name`
    NamespacedName,
}

/// An attribute of a JSX element.
#[derive(Debug)]
pub enum JSXAttributeItem<'a> {
    /// `name` or `name=value`
    Attribute(JSXAttributeName<'a>),
    /// `{...spread}`
    SpreadAttribute,
}

/// The name of a JSX element.
#[derive(Debug)]
pub enum JSXElementName<'a> {
    /// `<name>`, in lower case
    Identifier(&'a str),
    /// Any other name.
    Other,
}

/// The key of an object property.
#[derive(Debug)]
pub enum PropertyKey<'a> {
    /// `name: value`
    StaticIdentifier(&'a str),
    /// Any other key.
    Other,
}

/// A node above a template literal, with the nodes above it.
#[allow(inconsistent_fields)]
#[derive(Debug)]
pub enum ParentNode<'a> {
    /// `{expression}` in JSX
    JSXExpressionContainer { parent: Box<ParentNode<'a>> },
    JSXAttribute { name: JSXAttributeName<'a> },
    JSXElement { name: JSXElementName<'a>, attributes: Vec<JSXAttributeItem<'a>> },
    ObjectProperty { computed: bool, key: PropertyKey<'a>, parent: Box<ParentNode<'a>> },
    ArrayExpression { parent: Box<ParentNode<'a>> },
    ObjectExpression { parent: Box<ParentNode<'a>> },
    CallExpression { callee: Expression<'a>, parent: Box<ParentNode<'a>> },
    Decorator,
    /// Any other node.
    Other,
}

/// A part of a template between two expressions: as it is written, and as it is
/// meant, which is missing where an escape sequence is invalid.
#[derive(Debug)]
pub struct TemplateElement<'a> {
    pub raw: &'a str,
    pub cooked: Option<&'a str>,
}

/// A template literal: its parts, the number of its expressions, and the node that
/// it stands in.
#[derive(Debug)]
pub struct TemplateLiteral<'a> {
    pub quasis: Vec<TemplateElement<'a>>,
    pub expressions: usize,
    pub parent: ParentNode<'a>,
}

impl<'a> TemplateLiteral<'a> {
    /// Whether the template is a single part.
    pub open spec fn single(self) -> bool {
        self.quasis@.len() == 1
    }

    /// Whether the template has no expression in it.
    pub fn is_no_substitution_template(&self) -> (r: bool)
        ensures
            r == self.single(),
    {
        self.quasis.len() == 1
    }
}

/// A template literal with a tag in front.
#[derive(Debug)]
pub struct TaggedTemplateExpression<'a> {
    pub tag: Expression<'a>,
    pub quasi: TemplateLiteral<'a>,
}

} // verus!
