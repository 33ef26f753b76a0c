use embed_jsdoc::ast::Expression;
use embed_jsdoc::ast::JSXAttributeItem;
use embed_jsdoc::ast::JSXAttributeName;
use embed_jsdoc::ast::JSXElementName;
use embed_jsdoc::ast::ParentNode;
use embed_jsdoc::ast::PropertyKey;
use embed_jsdoc::ast::TemplateElement;
use embed_jsdoc::ast::TemplateLiteral;
use embed_jsdoc::detect::get_angular_component_language;
use embed_jsdoc::detect::get_tag_name;
use embed_jsdoc::detect::is_in_css_jsx;

fn literal(parent: ParentNode<'static>) -> TemplateLiteral<'static> {
    TemplateLiteral {
        quasis: vec![TemplateElement { raw: "", cooked: Some("") }],
        expressions: 0,
        parent,
    }
}

fn name(name: &'static str) -> Box<Expression<'static>> {
    Box::new(Expression::Identifier(name))
}

#[test]
fn tag_name_is_the_identifier_at_the_root() {
    assert_eq!(get_tag_name(&Expression::Identifier("css")), Some("css"));
    assert_eq!(get_tag_name(&Expression::StaticMemberExpression(name("styled"))), Some("styled"));
    assert_eq!(get_tag_name(&Expression::ComputedMemberExpression(name("styled"))), Some("styled"));
    let call = Expression::CallExpression(Box::new(Expression::StaticMemberExpression(name("styled"))));
    assert_eq!(get_tag_name(&call), Some("styled"));
    assert_eq!(get_tag_name(&Expression::Other), None);
    assert_eq!(get_tag_name(&Expression::CallExpression(Box::new(Expression::Other))), None);
}

#[test]
fn annotations_do_not_change_the_tag() {
    assert_eq!(get_tag_name(&Expression::ParenthesizedExpression(name("a"))), Some("a"));
    assert_eq!(get_tag_name(&Expression::TSAsExpression(name("b"))), Some("b"));
    assert_eq!(get_tag_name(&Expression::TSSatisfiesExpression(name("c"))), Some("c"));
    assert_eq!(get_tag_name(&Expression::TSInstantiationExpression(name("d"))), Some("d"));
    assert_eq!(get_tag_name(&Expression::TSNonNullExpression(name("e"))), Some("e"));
    assert_eq!(get_tag_name(&Expression::TSTypeAssertion(name("f"))), Some("f"));
    let nested = Expression::CallExpression(Box::new(Expression::ParenthesizedExpression(Box::new(
        Expression::TSNonNullExpression(Box::new(Expression::StaticMemberExpression(name("g")))),
    ))));
    assert_eq!(get_tag_name(&nested), Some("g"));
    let inner = Expression::TSAsExpression(Box::new(Expression::ParenthesizedExpression(name("h"))));
    assert!(matches!(inner.get_inner_expression(), Expression::Identifier("h")));
}

fn in_container(parent: ParentNode<'static>) -> TemplateLiteral<'static> {
    literal(ParentNode::JSXExpressionContainer { parent: Box::new(parent) })
}

#[test]
fn css_prop_is_detected() {
    let css = JSXAttributeName::Identifier("css");
    assert!(is_in_css_jsx(&in_container(ParentNode::JSXAttribute { name: css })));
    let other = JSXAttributeName::Identifier("style");
    assert!(!is_in_css_jsx(&in_container(ParentNode::JSXAttribute { name: other })));
    let namespaced = JSXAttributeName::NamespacedName;
    assert!(!is_in_css_jsx(&in_container(ParentNode::JSXAttribute { name: namespaced })));
    let bare = JSXAttributeName::Identifier("css");
    assert!(!is_in_css_jsx(&literal(ParentNode::JSXAttribute { name: bare })));
    assert!(!is_in_css_jsx(&literal(ParentNode::Other)));
}

fn style(
    name: JSXElementName<'static>,
    attributes: Vec<JSXAttributeItem<'static>>,
) -> TemplateLiteral<'static> {
    in_container(ParentNode::JSXElement { name, attributes })
}

#[test]
fn style_jsx_is_detected() {
    let jsx = || JSXAttributeItem::Attribute(JSXAttributeName::Identifier("jsx"));
    let global = || JSXAttributeItem::Attribute(JSXAttributeName::Identifier("global"));
    assert!(is_in_css_jsx(&style(JSXElementName::Identifier("style"), vec![jsx()])));
    assert!(is_in_css_jsx(&style(JSXElementName::Identifier("style"), vec![
        JSXAttributeItem::SpreadAttribute,
        global(),
        jsx(),
    ])));
    assert!(!is_in_css_jsx(&style(JSXElementName::Identifier("style"), vec![])));
    assert!(!is_in_css_jsx(&style(JSXElementName::Identifier("style"), vec![
        global(),
        JSXAttributeItem::SpreadAttribute,
        JSXAttributeItem::Attribute(JSXAttributeName::NamespacedName),
    ])));
    assert!(!is_in_css_jsx(&style(JSXElementName::Identifier("div"), vec![jsx()])));
    assert!(!is_in_css_jsx(&style(JSXElementName::Other, vec![jsx()])));
}

fn component(callee: Expression<'static>, parent: ParentNode<'static>) -> ParentNode<'static> {
    ParentNode::ObjectExpression {
        parent: Box::new(ParentNode::CallExpression { callee, parent: Box::new(parent) }),
    }
}

fn property(
    computed: bool,
    key: PropertyKey<'static>,
    parent: ParentNode<'static>,
) -> ParentNode<'static> {
    ParentNode::ObjectProperty { computed, key, parent: Box::new(parent) }
}

fn of_component(key: &'static str) -> ParentNode<'static> {
    property(
        false,
        PropertyKey::StaticIdentifier(key),
        component(Expression::Identifier("Component"), ParentNode::Decorator),
    )
}

#[test]
fn angular_component_is_detected() {
    let language = |parent| get_angular_component_language(&literal(parent));
    assert_eq!(language(of_component("template")), Some("angular-template"));
    assert_eq!(language(of_component("styles")), Some("angular-styles"));
    let in_array = ParentNode::ArrayExpression { parent: Box::new(of_component("styles")) };
    assert_eq!(language(in_array), Some("angular-styles"));
    assert_eq!(language(of_component("selector")), None);
}

#[test]
fn angular_component_needs_every_part() {
    let language = |parent| get_angular_component_language(&literal(parent));
    let key = || PropertyKey::StaticIdentifier("template");
    let argument = || component(Expression::Identifier("Component"), ParentNode::Decorator);
    assert_eq!(language(property(true, key(), argument())), None);
    assert_eq!(language(property(false, PropertyKey::Other, argument())), None);
    assert_eq!(language(property(false, key(), ParentNode::Other)), None);
    let directive = component(Expression::Identifier("Directive"), ParentNode::Decorator);
    assert_eq!(language(property(false, key(), directive)), None);
    let plain_call = component(Expression::Identifier("Component"), ParentNode::Other);
    assert_eq!(language(property(false, key(), plain_call)), None);
    let member = component(Expression::StaticMemberExpression(name("Component")), ParentNode::Decorator);
    assert_eq!(language(property(false, key(), member)), None);
    let not_a_call = ParentNode::ObjectExpression { parent: Box::new(ParentNode::Decorator) };
    assert_eq!(language(property(false, key(), not_a_call)), None);
    let array_of_array = ParentNode::ArrayExpression {
        parent: Box::new(ParentNode::ArrayExpression { parent: Box::new(of_component("styles")) }),
    };
    assert_eq!(language(array_of_array), None);
    assert_eq!(language(ParentNode::Other), None);
}
