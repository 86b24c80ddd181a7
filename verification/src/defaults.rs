//! The attribute values that a renderer assumes anyway.

use vstd::prelude::*;

use crate::text::str_eq;

verus! {

/// Whether `value` is the default of the attribute `attr`, whatever the element.
pub open spec fn is_common_default(attr: Seq<char>, value: Seq<char>) -> bool {
    ||| attr == "version"@ && value == "1.1"@
    ||| attr == "baseProfile"@ && value == "full"@
    ||| attr == "preserveAspectRatio"@ && value == "xMidYMid meet"@
    ||| attr == "fill-opacity"@ && value == "1"@
    ||| attr == "stroke-opacity"@ && value == "1"@
    ||| attr == "opacity"@ && value == "1"@
    ||| attr == "stroke-width"@ && value == "1"@
    ||| attr == "stroke-linecap"@ && value == "butt"@
    ||| attr == "stroke-linejoin"@ && value == "miter"@
    ||| attr == "stroke-miterlimit"@ && value == "4"@
    ||| attr == "fill-rule"@ && value == "nonzero"@
    ||| attr == "clip-rule"@ && value == "nonzero"@
    ||| attr == "font-style"@ && value == "normal"@
    ||| attr == "font-weight"@ && (value == "normal"@ || value == "400"@)
    ||| attr == "text-anchor"@ && value == "start"@
    ||| attr == "dominant-baseline"@ && value == "auto"@
    ||| attr == "visibility"@ && value == "visible"@
    ||| attr == "display"@ && value == "inline"@
    ||| attr == "overflow"@ && value == "visible"@
}

/// Whether `value` is the default of the attribute `attr` on the element `element` only.
pub open spec fn is_element_default(element: Seq<char>, attr: Seq<char>, value: Seq<char>) -> bool {
    value == "0"@ && {
        ||| element == "rect"@ && (attr == "rx"@ || attr == "ry"@)
        ||| element == "circle"@ && (attr == "cx"@ || attr == "cy"@)
        ||| element == "ellipse"@ && (attr == "cx"@ || attr == "cy"@)
        ||| element == "line"@ && (attr == "x1"@ || attr == "y1"@ || attr == "x2"@ || attr
            == "y2"@)
    }
}

/// Whether the attribute `attr` with the value `value` on the element
/// `element` states a default. Names are local names.
pub open spec fn is_default(element: Seq<char>, attr: Seq<char>, value: Seq<char>) -> bool {
    is_common_default(attr, value) || is_element_default(element, attr, value)
}

fn common_default(attr: &str, value: &str) -> (r: bool)
    ensures
        r == is_common_default(attr@, value@),
{
    (str_eq(attr, "version") && str_eq(value, "1.1")) || (str_eq(attr, "baseProfile") && str_eq(
        value,
        "full",
    )) || (str_eq(attr, "preserveAspectRatio") && str_eq(value, "xMidYMid meet")) || (str_eq(
        attr,
        "fill-opacity",
    ) && str_eq(value, "1")) || (str_eq(attr, "stroke-opacity") && str_eq(value, "1")) || (str_eq(
        attr,
        "opacity",
    ) && str_eq(value, "1")) || (str_eq(attr, "stroke-width") && str_eq(value, "1")) || (str_eq(
        attr,
        "stroke-linecap",
    ) && str_eq(value, "butt")) || (str_eq(attr, "stroke-linejoin") && str_eq(value, "miter"))
        || (str_eq(attr, "stroke-miterlimit") && str_eq(value, "4")) || (str_eq(attr, "fill-rule")
        && str_eq(value, "nonzero")) || (str_eq(attr, "clip-rule") && str_eq(value, "nonzero"))
        || (str_eq(attr, "font-style") && str_eq(value, "normal")) || (str_eq(attr, "font-weight")
        && (str_eq(value, "normal") || str_eq(value, "400"))) || (str_eq(attr, "text-anchor")
        && str_eq(value, "start")) || (str_eq(attr, "dominant-baseline") && str_eq(value, "auto"))
        || (str_eq(attr, "visibility") && str_eq(value, "visible")) || (str_eq(attr, "display")
        && str_eq(value, "inline")) || (str_eq(attr, "overflow") && str_eq(value, "visible"))
}

fn element_default(element: &str, attr: &str, value: &str) -> (r: bool)
    ensures
        r == is_element_default(element@, attr@, value@),
{
    str_eq(value, "0") && ((str_eq(element, "rect") && (str_eq(attr, "rx") || str_eq(attr, "ry")))
        || (str_eq(element, "circle") && (str_eq(attr, "cx") || str_eq(attr, "cy"))) || (str_eq(
        element,
        "ellipse",
    ) && (str_eq(attr, "cx") || str_eq(attr, "cy"))) || (str_eq(element, "line") && (str_eq(
        attr,
        "x1",
    ) || str_eq(attr, "y1") || str_eq(attr, "x2") || str_eq(attr, "y2"))))
}

/// Whether an attribute states a documented SVG default.
pub fn is_default_value(element: &str, attr: &str, value: &str) -> (r: bool)
    ensures
        r == is_default(element@, attr@, value@),
{
    common_default(attr, value) || element_default(element, attr, value)
}

} // verus!
