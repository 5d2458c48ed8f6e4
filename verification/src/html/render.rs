//! Wrapping HTML in an element.
use vstd::prelude::*;
use crate::storage::error::join;

verus! {

/// `sibling_a`, then `child` inside a `tag` element, then `sibling_b`.
pub fn render(tag: &str, child: &str, sibling_a: &str, sibling_b: &str) -> (r: String)
    ensures
        r@ == sibling_a@ + "<"@ + tag@ + ">"@ + child@ + "</"@ + tag@ + ">"@ + sibling_b@,
{
    let mut output = join(sibling_a, "<");
    output.append(tag);
    output.append(">");
    output.append(child);
    output.append("</");
    output.append(tag);
    output.append(">");
    output.append(sibling_b);
    output
}

} // verus!
