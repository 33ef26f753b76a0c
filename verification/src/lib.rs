//! Formatting the languages that are embedded in JavaScript template literals, and
//! finding the JSDoc comments of a node.
//!
//! [`embed`] takes a template literal and writes it into a [`ir::Formatter`]; which
//! language it holds is told from the syntax around it ([`ast`], [`detect`]), and the
//! language itself is formatted by callbacks. [`graphql`] is the one language with
//! expressions in its templates; its documents are carried over by [`embedded_ir`].
//! [`text`] and [`template_text`] are about lines, indentation and escapes.
//! [`jsdoc`] looks comments up. What other crates do is stated in [`foreign`].

pub mod ast;
pub mod detect;
pub mod embed;
pub mod embedded_ir;
pub mod foreign;
pub mod graphql;
pub mod ir;
pub mod jsdoc;
pub mod template_text;
pub mod text;
