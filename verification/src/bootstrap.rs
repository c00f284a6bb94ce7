//! Session bootstrap: the capability check that must pass before any
//! other query is worth sending.
//!
//! The analysis depends on exactly three server capabilities — workspace
//! symbol search, document symbols, and call-hierarchy incoming calls.
//! Any one absent or disabled makes the whole run pointless, so the
//! decision here is a single all-or-nothing boolean.

use vstd::prelude::*;

verus! {

/// How a server advertises one capability after the initialize
/// handshake: not at all, as a plain on/off flag, or as an options
/// object (which counts as enabled).
#[derive(Clone, Copy, PartialEq, Eq, Structural, Debug)]
pub enum Capability {
    Absent,
    Flag(bool),
    WithOptions,
}

/// Whether one advertised capability is usable.
pub open spec fn capability_enabled(c: Capability) -> bool {
    match c {
        Capability::Absent => false,
        Capability::Flag(on) => on,
        Capability::WithOptions => true,
    }
}

/// Decides whether one advertised capability is usable.
pub fn capability_on(c: &Capability) -> (r: bool)
    ensures
        r == capability_enabled(*c),
{
    match c {
        Capability::Absent => false,
        Capability::Flag(on) => *on,
        Capability::WithOptions => true,
    }
}

/// Decides whether the session can proceed: true exactly when all three capabilities the
/// analysis requires — workspace symbol search, document symbols and
/// call-hierarchy incoming calls — are enabled. A false result is fatal
/// for the run: no downstream step can produce a correct graph without
/// all three.
pub fn check_capabilities(
    workspace_symbol: &Capability,
    document_symbol: &Capability,
    call_hierarchy: &Capability,
) -> (r: bool)
    ensures
        r == (capability_enabled(*workspace_symbol) && capability_enabled(*document_symbol)
            && capability_enabled(*call_hierarchy)),
{
    capability_on(workspace_symbol) && capability_on(document_symbol) && capability_on(
        call_hierarchy,
    )
}

} // verus!
