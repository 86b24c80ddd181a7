//! What the minifier may do.

use vstd::prelude::*;

verus! {

/// Minification options.
#[derive(Debug, Clone)]
pub struct Options {
    /// Number of decimal places kept in path coordinates.
    pub precision: u8,
    /// Remove comments.
    pub remove_comments: bool,
    /// Remove metadata elements and editor data.
    pub remove_metadata: bool,
    /// Leave the XML declaration out of the output.
    pub remove_xml_declaration: bool,
    /// Leave the DOCTYPE out of the output.
    pub remove_doctype: bool,
    /// Remove namespace declarations that nothing uses.
    pub remove_unused_namespaces: bool,
    /// Replace groups that serve no purpose by their content.
    pub collapse_groups: bool,
    /// Remove hidden elements.
    pub remove_hidden: bool,
    /// Remove empty containers.
    pub remove_empty: bool,
    /// Minify colors (`#ffffff` becomes `#fff`).
    pub minify_colors: bool,
    /// Remove attributes that state a default.
    pub remove_defaults: bool,
    /// Minify path data.
    pub minify_paths: bool,
    /// Minify `style` attributes.
    pub minify_styles: bool,
    /// Merge adjacent paths with the same attributes. Reserved: it has no effect.
    pub merge_paths: bool,
    /// Write namespace declarations first and the other attributes by name.
    pub sort_attrs: bool,
}

/// The options that `minify` uses: everything on but `merge_paths`, two
/// decimal places.
pub open spec fn default_options() -> Options {
    Options {
        precision: 2,
        remove_comments: true,
        remove_metadata: true,
        remove_xml_declaration: true,
        remove_doctype: true,
        remove_unused_namespaces: true,
        collapse_groups: true,
        remove_hidden: true,
        remove_empty: true,
        minify_colors: true,
        remove_defaults: true,
        minify_paths: true,
        minify_styles: true,
        merge_paths: false,
        sort_attrs: true,
    }
}

impl Default for Options {
    fn default() -> (r: Options)
        ensures
            r == default_options(),
    {
        Options {
            precision: 2,
            remove_comments: true,
            remove_metadata: true,
            remove_xml_declaration: true,
            remove_doctype: true,
            remove_unused_namespaces: true,
            collapse_groups: true,
            remove_hidden: true,
            remove_empty: true,
            minify_colors: true,
            remove_defaults: true,
            minify_paths: true,
            minify_styles: true,
            merge_paths: false,
            sort_attrs: true,
        }
    }
}

} // verus!
