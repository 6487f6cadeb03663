//! Start-up settings of the server: which port to try next and whether
//! cookies are marked secure.

use vstd::prelude::*;
use crate::text::{chars_eq, chars_of};

verus! {

/// The first port the server tries.
pub const FIRST_PORT: u16 = 3000;

/// The last port the server tries.
pub const LAST_PORT: u16 = 3100;

/// The port to try after `port` could not be bound: the next one, up to
/// and including 3100; `None` once 3100 is passed.
pub fn next_listen_port(port: u16) -> (r: Option<u16>)
    ensures
        port < LAST_PORT ==> r == Some((port + 1) as u16),
        port >= LAST_PORT ==> r is None,
{
    if port < LAST_PORT {
        Some(port + 1)
    } else {
        None
    }
}

/// Whether the session cookie is marked secure: the setting is `true` or
/// `1`.
pub fn secure_cookies_setting(value: Option<&str>) -> (r: bool)
    ensures
        r == (value matches Some(v) && (v@ == "true"@ || v@ == "1"@)),
{
    match value {
        Some(v) => {
            let c = chars_of(v);
            chars_eq(&c, &chars_of("true")) || chars_eq(&c, &chars_of("1"))
        },
        None => false,
    }
}

} // verus!
