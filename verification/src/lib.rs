//! An SVG minifier with machine-checked contracts.
//!
//! `minify` parses SVG text into a tree, rewrites the tree with the
//! optimization passes and writes it back as compact text. Every step but
//! the XML tokenizer is verified against a mathematical model of the tree.

pub mod ast;
pub mod color;
pub mod defaults;
pub mod error;
pub mod fonts;
pub mod laws;
pub mod namespace_laws;
pub mod number;
pub mod number_laws;
pub mod optimize;
pub mod options;
pub mod parse;
pub mod path;
pub mod path_laws;
pub mod serialize;
pub mod shown_laws;
pub mod stable_laws;
pub mod style;
pub mod text;
pub mod xml;

pub use ast::{Attribute, Document, Element, Namespaces, Node, QName, XmlDeclaration};
pub use color::minify_color;
pub use defaults::is_default_value;
pub use error::{PathError, SavageError};
pub use fonts::{extract_font_faces, extract_text_chars, replace_font_url, FontFaceRef};
pub use number::{format_number, Number};
pub use optimize::optimize;
pub use options::Options;
pub use parse::{
    build_document, event_of, parse_svg, RawAttribute, RawDeclaration, RawEvent, RawTag,
    TreeBuilder, XmlEvent,
};
pub use path::{parse_path, serialize_path, Command, Path};
pub use serialize::serialize;

use vstd::prelude::*;

use ast::DocumentView;
use optimize::optimized;
use options::default_options;
use parse::{document_of, reports};
use serialize::document_text;

verus! {

/// The compact text of a document: the document optimized, then written.
pub open spec fn minified_text(d: DocumentView, o: Options) -> Seq<char> {
    document_text(
        DocumentView {
            xml_declaration: d.xml_declaration,
            doctype: d.doctype,
            root: optimized(d.root, o),
        },
        o,
    )
}

/// Minifies a document that has been parsed already.
pub fn minify_document(doc: Document, options: &Options) -> (r: String)
    ensures
        r@ == minified_text(doc@, *options),
{
    let mut doc = doc;
    optimize(&mut doc, options);
    serialize(&doc, options)
}

/// Minifies SVG text with the given options.
///
/// The result is the compact text of the document that the text makes.
/// The call fails exactly where parsing fails, and with its error; path
/// data that cannot be read, a color or a style that is not understood
/// never fail it.
pub fn minify_with_options(svg: &str, options: &Options) -> (r: Result<String, SavageError>)
    ensures
        match document_of(svg@) {
            Ok(d) => r matches Ok(out) && out@ == minified_text(d, *options),
            Err(f) => r matches Err(e) && reports(e, f),
        },
{
    match parse_svg(svg) {
        Ok(doc) => Ok(minify_document(doc, options)),
        Err(e) => Err(e),
    }
}

/// Minifies SVG text with the default options.
pub fn minify(svg: &str) -> (r: Result<String, SavageError>)
    ensures
        match document_of(svg@) {
            Ok(d) => r matches Ok(out) && out@ == minified_text(d, default_options()),
            Err(f) => r matches Err(e) && reports(e, f),
        },
{
    minify_with_options(svg, &Options::default())
}

} // verus!
