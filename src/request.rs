//! Picking the pattern out of the command-line arguments.
use vstd::prelude::*;

verus! {

/// What a caller shows when no usable pattern was given.
pub const USAGE: &'static str = "Write something and don't forget about quotes please.";

/// The pattern is the argument after the program name; it must be non-empty
/// ASCII text.
pub fn request(args: Vec<String>) -> (r: Result<String, &'static str>)
    ensures
        r is Ok <==> (args@.len() >= 2 && args@[1]@.len() > 0 && vstd::string::string_is_ascii(
            &args@[1],
        )),
        r matches Ok(p) ==> p@ == args@[1]@,
        r matches Err(m) ==> m == USAGE,
{
    if args.len() >= 2 {
        let p = args[1].as_str();
        if !p.is_empty() && p.is_ascii() {
            return Ok(args[1].clone());
        }
    }
    Err(USAGE)
}

} // verus!
