//! Autostart helpers: the command line written to the launch registry and
//! the UTF-16 form registry values take.  The registry itself is platform
//! glue outside the library; on platforms without it these calls are
//! no-ops.

use vstd::prelude::*;

use crate::strings::{utf16_of, utf16_units};

verus! {

/// Autostart failed; only meaningful where a launch registry exists.
#[derive(Debug, Clone, PartialEq, Eq)]
pub struct AutostartError;

/// The command line registered for autostart: the quoted executable path
/// plus the background flag.
pub open spec fn spec_autostart_command(exe: Seq<char>) -> Seq<char> {
    seq!['"'] + exe + "\" --background"@
}

/// Build the autostart command line for an executable path.
pub fn autostart_command(exe: &str) -> (r: String)
    ensures
        r@ == spec_autostart_command(exe@),
{
    proof {
        reveal_strlit("\"");
        reveal_strlit("\" --background");
    }
    let mut out = "\"".to_owned();
    out.append(exe);
    out.append("\" --background");
    proof {
        assert(out@ =~= spec_autostart_command(exe@));
    }
    out
}

/// Whether autostart is registered; without a launch registry it never is.
pub fn is_enabled(_exe: &str, _value_name: &str) -> (r: Result<bool, AutostartError>)
    ensures
        r == Ok::<bool, AutostartError>(false),
{
    Ok(false)
}

/// Register or unregister autostart; without a launch registry this is a
/// no-op that reports success.
pub fn set_enabled(_exe: &str, _value_name: &str, _enabled: bool) -> (r: Result<
    (),
    AutostartError,
>)
    ensures
        r is Ok,
{
    Ok(())
}

/// A string as NUL-terminated UTF-16 code units, the form registry
/// values take.
pub fn wide_null(s: &str) -> (r: Vec<u16>)
    ensures
        r@ == utf16_of(s@).push(0u16),
        r@.len() >= 1,
        r@.last() == 0u16,
{
    let mut v = utf16_units(s);
    v.push(0);
    v
}

} // verus!
