# embed_jsdoc

A verified library for two tasks of a JavaScript toolchain:

- formatting the languages embedded in template literals: CSS, HTML, Markdown and
  GraphQL behind a tag, CSS in a `css` prop or `<style jsx>`, and the templates and
  styles of Angular components;
- finding the JSDoc comments that belong to a node.

The languages themselves are formatted by callbacks. The library decides which
templates are taken, what the callbacks are asked, and what is written for their
answers; each of these is stated in `requires` and `ensures` and proved by Verus. A
callback is required to take only the question that the template is, so where there
is nothing to ask, nothing is asked.
Public proof functions named `law_..` state what holds across functions.

| Path                   | Contents                                              |
|------------------------|-------------------------------------------------------|
| `src/text.rs`          | white space, trimming, lines                          |
| `src/template_text.rs` | dedenting and escaping the text of a template         |
| `src/ast.rs`           | the syntax around a template                          |
| `src/detect.rs`        | telling the language from that syntax                 |
| `src/ir.rs`            | embedded documents and written documents              |
| `src/embedded_ir.rs`   | writing the one into the other                        |
| `src/embed.rs`         | the entry points                                      |
| `src/graphql.rs`       | templates in GraphQL, with their expressions          |
| `src/jsdoc.rs`         | comments by node                                      |
| `src/foreign.rs`       | what is relied on of other crates, without proof      |
| `app/`                 | the library on the syntax trees of `oxc`              |
