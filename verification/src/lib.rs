//! Real-time synchronization protocol between a collaborative terminal-sharing
//! server and its connected web clients: the message taxonomy, the session
//! state each message mutates, and the invariants that keep every client's
//! view of a shared multi-terminal session consistent.

pub mod ids;
pub mod protocol;
pub mod users;
pub mod delivery;
pub mod session;

pub use ids::{Sid, Uid};
pub use protocol::{UserView, WsClient, WsServer, WsUser, WsWinsize};
pub use session::{Outcome, Session, TermAction};
pub use users::{ClientUsers, UserMap};
