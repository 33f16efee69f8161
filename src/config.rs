//! Defaults of the server around the library.
use vstd::prelude::*;

verus! {

/// Losses that eliminate a player when a new tournament names none.
pub fn default_max_losses() -> (r: u32)
    ensures
        r == 3,
{
    3
}

/// Address the server listens on unless told otherwise: every interface.
pub fn default_host() -> (r: String)
    ensures
        r@ == "0.0.0.0"@,
{
    let r = "0.0.0.0".to_string();
    proof {
        vstd::string::to_string_from_display_ensures_for_str("0.0.0.0", r);
    }
    r
}

/// Port the server listens on unless told otherwise.
pub fn default_port() -> (r: u16)
    ensures
        r == 8080,
{
    8080
}

} // verus!
