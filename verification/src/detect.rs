//! Telling from the syntax around a template which language it is written in.

use vstd::prelude::*;

use crate::ast::inner_expression;
use crate::ast::Expression;
use crate::ast::JSXAttributeItem;
use crate::ast::JSXAttributeName;
use crate::ast::JSXElementName;
use crate::ast::ParentNode;
use crate::ast::PropertyKey;
use crate::ast::TemplateLiteral;
use crate::text::same_text;

verus! {

/// The identifier at the root of a tag: what is left when calls, member accesses,
/// parentheses and type annotations are taken away.
pub open spec fn tag_name(expr: Expression<'_>) -> Option<Seq<char>>
    decreases expr,
{
    match expr {
        Expression::Identifier(name) => Some(name@),
        Expression::StaticMemberExpression(inner) => tag_name(*inner),
        Expression::ComputedMemberExpression(inner) => tag_name(*inner),
        Expression::CallExpression(inner) => tag_name(*inner),
        Expression::ParenthesizedExpression(inner) => tag_name(*inner),
        Expression::TSAsExpression(inner) => tag_name(*inner),
        Expression::TSSatisfiesExpression(inner) => tag_name(*inner),
        Expression::TSInstantiationExpression(inner) => tag_name(*inner),
        Expression::TSNonNullExpression(inner) => tag_name(*inner),
        Expression::TSTypeAssertion(inner) => tag_name(*inner),
        Expression::Other => None,
    }
}

/// How deep an expression is nested.
pub open spec fn depth(expr: Expression<'_>) -> nat
    decreases expr,
{
    match expr {
        Expression::Identifier(_) | Expression::Other => 0,
        Expression::StaticMemberExpression(inner) => 1 + depth(*inner),
        Expression::ComputedMemberExpression(inner) => 1 + depth(*inner),
        Expression::CallExpression(inner) => 1 + depth(*inner),
        Expression::ParenthesizedExpression(inner) => 1 + depth(*inner),
        Expression::TSAsExpression(inner) => 1 + depth(*inner),
        Expression::TSSatisfiesExpression(inner) => 1 + depth(*inner),
        Expression::TSInstantiationExpression(inner) => 1 + depth(*inner),
        Expression::TSNonNullExpression(inner) => 1 + depth(*inner),
        Expression::TSTypeAssertion(inner) => 1 + depth(*inner),
    }
}

/// Whether an expression is neither in parentheses nor annotated with a type.
pub open spec fn is_bare(expr: Expression<'_>) -> bool {
    match expr {
        Expression::Identifier(_) | Expression::StaticMemberExpression(_)
        | Expression::ComputedMemberExpression(_) | Expression::CallExpression(_)
        | Expression::Other => true,
        _ => false,
    }
}

/// Parentheses and type annotations have no say in the name of a tag.
pub proof fn law_annotations_keep_the_tag(expr: Expression<'_>)
    ensures
        tag_name(inner_expression(expr)) == tag_name(expr),
        depth(inner_expression(expr)) <= depth(expr),
        is_bare(inner_expression(expr)),
    decreases expr,
{
    match expr {
        Expression::ParenthesizedExpression(inner) => law_annotations_keep_the_tag(*inner),
        Expression::TSAsExpression(inner) => law_annotations_keep_the_tag(*inner),
        Expression::TSSatisfiesExpression(inner) => law_annotations_keep_the_tag(*inner),
        Expression::TSInstantiationExpression(inner) => law_annotations_keep_the_tag(*inner),
        Expression::TSNonNullExpression(inner) => law_annotations_keep_the_tag(*inner),
        Expression::TSTypeAssertion(inner) => law_annotations_keep_the_tag(*inner),
        _ => {},
    }
}

/// An identifier is its own name; a call has the name of what is called, a member
/// access that of its object, and parentheses and type annotations that of what is
/// inside them. Nothing else has a name.
pub proof fn law_tag_is_named_by_its_root<'a>(expr: Expression<'a>, name: &'a str)
    ensures
        tag_name(Expression::Identifier(name)) == Some(name@),
        tag_name(Expression::CallExpression(Box::new(expr))) == tag_name(expr),
        tag_name(Expression::StaticMemberExpression(Box::new(expr))) == tag_name(expr),
        tag_name(Expression::ComputedMemberExpression(Box::new(expr))) == tag_name(expr),
        tag_name(Expression::ParenthesizedExpression(Box::new(expr))) == tag_name(expr),
        tag_name(Expression::TSAsExpression(Box::new(expr))) == tag_name(expr),
        tag_name(Expression::TSSatisfiesExpression(Box::new(expr))) == tag_name(expr),
        tag_name(Expression::TSInstantiationExpression(Box::new(expr))) == tag_name(expr),
        tag_name(Expression::TSNonNullExpression(Box::new(expr))) == tag_name(expr),
        tag_name(Expression::TSTypeAssertion(Box::new(expr))) == tag_name(expr),
        tag_name(Expression::<'a>::Other) is None,
{
}

/// Parentheses and type annotations around an expression do not change what is inside
/// them all; every other expression is inside none.
pub proof fn law_inner_expression_is_bare<'a>(expr: Expression<'a>, name: &'a str)
    ensures
        inner_expression(Expression::ParenthesizedExpression(Box::new(expr))) == inner_expression(
            expr,
        ),
        inner_expression(Expression::TSAsExpression(Box::new(expr))) == inner_expression(expr),
        inner_expression(Expression::TSSatisfiesExpression(Box::new(expr))) == inner_expression(
            expr,
        ),
        inner_expression(Expression::TSInstantiationExpression(Box::new(expr)))
            == inner_expression(expr),
        inner_expression(Expression::TSNonNullExpression(Box::new(expr))) == inner_expression(expr),
        inner_expression(Expression::TSTypeAssertion(Box::new(expr))) == inner_expression(expr),
        expr is Identifier || expr is StaticMemberExpression || expr is ComputedMemberExpression
            || expr is CallExpression || expr is Other ==> inner_expression(expr) == expr,
{
}

/// The identifier at the root of a tag.
pub fn get_tag_name<'a>(expr: &Expression<'a>) -> (name: Option<&'a str>)
    ensures
        name is Some <==> tag_name(*expr) is Some,
        name matches Some(name) ==> tag_name(*expr) == Some(name@),
    decreases depth(*expr),
{
    proof {
        law_annotations_keep_the_tag(*expr);
    }
    match expr.get_inner_expression() {
        Expression::Identifier(name) => Some(*name),
        Expression::StaticMemberExpression(object) => get_tag_name(object),
        Expression::ComputedMemberExpression(object) => get_tag_name(object),
        Expression::CallExpression(callee) => get_tag_name(callee),
        _ => None,
    }
}

/// Whether an attribute is a plain `jsx`.
pub open spec fn is_jsx_attribute(item: JSXAttributeItem<'_>) -> bool {
    item matches JSXAttributeItem::Attribute(JSXAttributeName::Identifier(name)) && name@ == "jsx"@
}

/// Whether a template with this parent is the value of a `css` prop or the child of
/// a `<style jsx>` element.
pub open spec fn in_css_jsx(parent: ParentNode<'_>) -> bool {
    match parent {
        ParentNode::JSXExpressionContainer { parent: above } => match *above {
            ParentNode::JSXAttribute { name: JSXAttributeName::Identifier(name) } => name@
                == "css"@,
            ParentNode::JSXElement { name: JSXElementName::Identifier(name), attributes } => {
                name@ == "style"@ && exists|i: int|
                    0 <= i < attributes@.len() && is_jsx_attribute(#[trigger] attributes@[i])
            },
            _ => false,
        },
        _ => false,
    }
}

/// The value of an attribute is CSS where the attribute is a plain `css`; the child of
/// an element is CSS where the element is a plain `style` with a plain `jsx` somewhere
/// among its attributes. A template stands in neither place unless it stands in a JSX
/// expression container there.
pub proof fn law_css_jsx<'a>(
    parent: ParentNode<'a>,
    name: &'a str,
    attributes: Vec<JSXAttributeItem<'a>>,
)
    ensures
        in_css_jsx(
            ParentNode::JSXExpressionContainer {
                parent: Box::new(
                    ParentNode::JSXAttribute { name: JSXAttributeName::Identifier(name) },
                ),
            },
        ) <==> name@ == seq!['c', 's', 's'],
        in_css_jsx(
            ParentNode::JSXExpressionContainer {
                parent: Box::new(
                    ParentNode::JSXElement { name: JSXElementName::Identifier(name), attributes },
                ),
            },
        ) <==> name@ == seq!['s', 't', 'y', 'l', 'e'] && exists|i: int|
            0 <= i < attributes@.len() && ((#[trigger] attributes@[i]) matches
                JSXAttributeItem::Attribute(JSXAttributeName::Identifier(item)) && item@
                == seq!['j', 's', 'x']),
        in_css_jsx(parent) ==> (parent matches ParentNode::JSXExpressionContainer { parent: above }
            && (*above is JSXAttribute && above->JSXAttribute_name is Identifier || *above
            is JSXElement && above->JSXElement_name is Identifier)),
{
    reveal_strlit("css");
    reveal_strlit("style");
    reveal_strlit("jsx");
    assert("css"@ =~= seq!['c', 's', 's']);
    assert("style"@ =~= seq!['s', 't', 'y', 'l', 'e']);
    assert("jsx"@ =~= seq!['j', 's', 'x']);
    assert forall|i: int| 0 <= i < attributes@.len() implies is_jsx_attribute(
        #[trigger] attributes@[i],
    ) == (attributes@[i] matches JSXAttributeItem::Attribute(JSXAttributeName::Identifier(item))
        && item@ == seq!['j', 's', 'x']) by {}
    let style = ParentNode::JSXExpressionContainer {
        parent: Box::new(
            ParentNode::JSXElement { name: JSXElementName::Identifier(name), attributes },
        ),
    };
    let above = *style->JSXExpressionContainer_parent;
    assert(above->JSXElement_name == JSXElementName::Identifier(name));
    assert(above->JSXElement_attributes == attributes);
    assert(in_css_jsx(style) ==> name@ == "style"@ && exists|i: int|
        0 <= i < attributes@.len() && is_jsx_attribute(#[trigger] attributes@[i]));
    if exists|i: int| 0 <= i < attributes@.len() && is_jsx_attribute(#[trigger] attributes@[i]) {
        let i = choose|i: int|
            0 <= i < attributes@.len() && is_jsx_attribute(#[trigger] attributes@[i]);
        assert(attributes@[i] matches JSXAttributeItem::Attribute(
            JSXAttributeName::Identifier(item),
        ) && item@ == seq!['j', 's', 'x']);
    }
}

/// Whether one of the attributes is a plain `jsx`.
fn has_jsx_attribute(attributes: &Vec<JSXAttributeItem<'_>>) -> (r: bool)
    ensures
        r == exists|i: int|
            0 <= i < attributes@.len() && is_jsx_attribute(#[trigger] attributes@[i]),
{
    for i in 0..attributes.len()
        invariant
            forall|j: int| 0 <= j < i ==> !is_jsx_attribute(#[trigger] attributes@[j]),
    {
        if let JSXAttributeItem::Attribute(JSXAttributeName::Identifier(name)) = &attributes[i] {
            if same_text(name, "jsx") {
                assert(is_jsx_attribute(attributes@[i as int]));
                return true;
            }
        }
    }
    false
}

/// Check if the template literal is inside a `css` prop or `<style jsx>` element.
pub fn is_in_css_jsx(node: &TemplateLiteral<'_>) -> (r: bool)
    ensures
        r == in_css_jsx(node.parent),
{
    let above = match &node.parent {
        ParentNode::JSXExpressionContainer { parent } => parent,
        _ => return false,
    };
    match &**above {
        ParentNode::JSXAttribute { name: JSXAttributeName::Identifier(name) } => {
            same_text(name, "css")
        },
        ParentNode::JSXElement { name: JSXElementName::Identifier(name), attributes } => {
            same_text(name, "style") && has_jsx_attribute(attributes)
        },
        _ => false,
    }
}

/// The key of the property that a template with this parent is the value of, or an
/// item of the array that is the value, together with the node above the property.
pub open spec fn property_of<'a>(parent: ParentNode<'a>) -> Option<(Seq<char>, ParentNode<'a>)> {
    let property = match parent {
        ParentNode::ArrayExpression { parent: above } => *above,
        _ => parent,
    };
    match property {
        ParentNode::ObjectProperty {
            computed: false,
            key: PropertyKey::StaticIdentifier(key),
            parent: above,
        } => Some((key@, *above)),
        _ => None,
    }
}

/// Whether a node is the object of `@Component({ .. })`.
pub open spec fn is_component_argument(node: ParentNode<'_>) -> bool {
    match node {
        ParentNode::ObjectExpression { parent: call } => match *call {
            ParentNode::CallExpression { callee: Expression::Identifier(name), parent: above } => {
                name@ == "Component"@ && *above is Decorator
            },
            _ => false,
        },
        _ => false,
    }
}

/// The language of a template with this parent, where it is the template or the
/// styles of an Angular component.
pub open spec fn angular_language(parent: ParentNode<'_>) -> Option<&'static str> {
    match property_of(parent) {
        Some((key, above)) if is_component_argument(above) => if key == "template"@ {
            Some("angular-template")
        } else if key == "styles"@ {
            Some("angular-styles")
        } else {
            None
        },
        _ => None,
    }
}

/// A property of the argument of a call is in the language of Angular exactly where the
/// callee is a plain `Component`, the call is a decorator, the key is not computed, and
/// it is `template` or `styles`.
pub proof fn law_angular_property<'a>(
    key: &'a str,
    computed: bool,
    callee: Expression<'a>,
    above: ParentNode<'a>,
)
    ensures
        ({
            let language = angular_language(
                ParentNode::ObjectProperty {
                    computed,
                    key: PropertyKey::StaticIdentifier(key),
                    parent: Box::new(
                        ParentNode::ObjectExpression {
                            parent: Box::new(
                                ParentNode::CallExpression { callee, parent: Box::new(above) },
                            ),
                        },
                    ),
                },
            );
            let component = !computed && above is Decorator && (callee matches
                Expression::Identifier(name) && name@ == seq![
                'C', 'o', 'm', 'p', 'o', 'n', 'e', 'n', 't',
            ]);
            &&& language == Some("angular-template") <==> component && key@ == seq![
                't', 'e', 'm', 'p', 'l', 'a', 't', 'e',
            ]
            &&& language == Some("angular-styles") <==> component && key@ == seq![
                's', 't', 'y', 'l', 'e', 's',
            ]
            &&& language is Some ==> language == Some("angular-template") || language == Some(
                "angular-styles",
            )
        }),
{
    reveal_strlit("template");
    reveal_strlit("styles");
    reveal_strlit("Component");
    reveal_strlit("angular-template");
    reveal_strlit("angular-styles");
    assert("template"@ =~= seq!['t', 'e', 'm', 'p', 'l', 'a', 't', 'e']);
    assert("styles"@ =~= seq!['s', 't', 'y', 'l', 'e', 's']);
    assert("Component"@ =~= seq!['C', 'o', 'm', 'p', 'o', 'n', 'e', 'n', 't']);
    assert("angular-template"@.len() != "angular-styles"@.len());
    assert(key@.len() == 8 ==> key@ != "styles"@);
}

/// An array around a template changes nothing where it is the value of a property; and
/// only a template in the property of an object that is given to a call is in a language
/// of Angular.
pub proof fn law_angular_places<'a>(parent: ParentNode<'a>)
    ensures
        parent is ObjectProperty ==> angular_language(
            ParentNode::ArrayExpression { parent: Box::new(parent) },
        ) == angular_language(parent),
        !(parent is ObjectProperty) ==> angular_language(
            ParentNode::ArrayExpression { parent: Box::new(parent) },
        ) is None,
        angular_language(parent) is Some ==> parent is ArrayExpression || (parent matches
            ParentNode::ObjectProperty { key, parent: object, .. } && key is StaticIdentifier && (
        *object matches ParentNode::ObjectExpression { parent: call } && *call
            is CallExpression)),
{
}

/// Detect Angular `@Component({ template: `...`, styles: `...` })`.
pub fn get_angular_component_language(node: &TemplateLiteral<'_>) -> (language: Option<
    &'static str,
>)
    ensures
        language == angular_language(node.parent),
{
    let property = match &node.parent {
        ParentNode::ArrayExpression { parent } => &**parent,
        other => other,
    };
    let (key, above) = match property {
        ParentNode::ObjectProperty { computed, key: PropertyKey::StaticIdentifier(key), parent } => {
            if *computed {
                return None;
            }
            (*key, parent)
        },
        _ => return None,
    };
    let call = match &**above {
        ParentNode::ObjectExpression { parent } => parent,
        _ => return None,
    };
    let (name, decorator) = match &**call {
        ParentNode::CallExpression { callee: Expression::Identifier(name), parent } => (
            *name,
            parent,
        ),
        _ => return None,
    };
    if !same_text(name, "Component") {
        return None;
    }
    match &**decorator {
        ParentNode::Decorator => {},
        _ => return None,
    }
    if same_text(key, "template") {
        Some("angular-template")
    } else if same_text(key, "styles") {
        Some("angular-styles")
    } else {
        None
    }
}

} // verus!
