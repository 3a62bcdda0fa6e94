use vstd::prelude::*;

verus! {

/// Returns the version of this package.
pub fn version() -> (r: &'static str)
    ensures
        r@ == "0.1.0"@,
{
    "0.1.0"
}

/// Returns the tools available in this build. The fuzzy inference engine is
/// the utility component, so the list holds that single entry.
pub fn available_tools() -> (r: Vec<&'static str>)
    ensures
        r@.len() == 1,
        r@[0]@ == "utils"@,
{
    let mut tools: Vec<&'static str> = Vec::new();
    tools.push("utils");
    tools
}

} // verus!
