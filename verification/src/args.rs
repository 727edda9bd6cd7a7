//! The arguments a caller may hand to the front end's function attribute.
use vstd::prelude::*;
use crate::errors::MiniModalError;
use crate::text::str_eq;

verus! {

/// Options of the function attribute: today only a debug flag.
#[derive(Debug, PartialEq, Eq, Structural)]
pub struct MacroArgs {
    pub debug: bool,
}

impl MacroArgs {
    /// Reads the attribute's argument list.  Accepts an empty list, the
    /// bare flag, and an explicit `debug = true` or `debug = false`;
    /// anything else is refused.
    pub fn parse(input: &str) -> (r: Result<MacroArgs, MiniModalError>)
        ensures
            match r {
                Ok(a) => {
                    &&& (input@ == ""@ || input@ == "debug = false"@) ==> !a.debug
                    &&& (input@ == "debug"@ || input@ == "debug = true"@) ==> a.debug
                    &&& (input@ == ""@ || input@ == "debug"@ || input@ == "debug = true"@
                        || input@ == "debug = false"@)
                },
                Err(e) => {
                    &&& input@ != ""@ && input@ != "debug"@ && input@ != "debug = true"@
                        && input@ != "debug = false"@
                    &&& e is OtherError
                    &&& e.message_spec() == "unrecognized attribute arguments"@
                },
            },
    {
        proof {
            reveal_strlit("");
            reveal_strlit("debug");
            reveal_strlit("debug = true");
            reveal_strlit("debug = false");
            assert(""@.len() == 0 && "debug"@.len() == 5);
            assert("debug = true"@.len() == 12 && "debug = false"@.len() == 13);
        }
        if str_eq(input, "") {
            Ok(MacroArgs { debug: false })
        } else if str_eq(input, "debug") {
            Ok(MacroArgs { debug: true })
        } else if str_eq(input, "debug = true") {
            Ok(MacroArgs { debug: true })
        } else if str_eq(input, "debug = false") {
            Ok(MacroArgs { debug: false })
        } else {
            let mut m = String::new();
            m.append("unrecognized attribute arguments");
            Err(MiniModalError::OtherError(m))
        }
    }
}

} // verus!
