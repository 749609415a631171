//! A greeting, for a caller that wants to know whether anyone is there.

use vstd::prelude::*;
use vstd::string::StringExecFns;

verus! {

/// "Hello, ", the name, and an exclamation mark.
pub fn greet(name: String) -> (r: String)
    ensures
        r@ == "Hello, "@ + name@ + "!"@,
{
    let mut out = String::from_str("Hello, ");
    out.append(name.as_str());
    out.append("!");
    out
}

} // verus!
