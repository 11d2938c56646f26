//! Opaque, server-assigned identifiers for users and shells.
//!
//! Ids are unique within a session for its lifetime and are never reused for
//! a different entity while the session is alive.

use vstd::prelude::*;

verus! {

/// Identifier of one connected user.
#[derive(Clone, Copy, Debug, PartialEq, Eq, Hash, Structural)]
pub struct Uid(pub u32);

/// Identifier of one terminal (shell) within a session.
#[derive(Clone, Copy, Debug, PartialEq, Eq, Hash, Structural)]
pub struct Sid(pub u32);

} // verus!
