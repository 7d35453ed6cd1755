//! Rendering of contexts for the terminal: the active profile gets a `*`
//! marker, every other one an aligned blank prefix.

use vstd::prelude::*;

use crate::ctx::Context;

verus! {

/// One line per context: `* name` for the active one, `  name` otherwise.
pub fn show_contexts(contexts: &Vec<Context>) -> (r: Vec<String>)
    ensures
        r@.len() == contexts@.len(),
        forall|i: int|
            0 <= i < r@.len() ==> (#[trigger] r@[i])@ == (if contexts@[i]@.active {
                "* "@
            } else {
                "  "@
            }) + contexts@[i]@.name,
{
    let mut r: Vec<String> = Vec::new();
    let mut i: usize = 0;
    while i < contexts.len()
        invariant
            0 <= i <= contexts@.len(),
            r@.len() == i,
            forall|j: int|
                0 <= j < i ==> (#[trigger] r@[j])@ == (if contexts@[j]@.active {
                    "* "@
                } else {
                    "  "@
                }) + contexts@[j]@.name,
        decreases contexts@.len() - i,
    {
        let mut line = if contexts[i].active {
            String::from_str("* ")
        } else {
            String::from_str("  ")
        };
        line.append(contexts[i].name.as_str());
        r.push(line);
        i += 1;
    }
    r
}

/// The bare name of one context.
pub fn show_context(context: &Context) -> (r: String)
    ensures
        r@ == context@.name,
{
    context.name.clone()
}

} // verus!
