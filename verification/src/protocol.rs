//! The wire-level message taxonomy: window geometry, user presence, and the
//! two tagged message enumerations exchanged between server and client.

use rand::Rng;
use vstd::prelude::*;

use crate::ids::{Sid, Uid};

verus! {

/// Real-time message conveying the position and size of a terminal.
#[derive(Clone, Copy, Debug, PartialEq, Eq, Structural)]
pub struct WsWinsize {
    /// The top-left x-coordinate of the window, offset from origin.
    pub x: i32,
    /// The top-left y-coordinate of the window, offset from origin.
    pub y: i32,
    /// The number of rows in the window.
    pub rows: u16,
    /// The number of columns in the terminal.
    pub cols: u16,
}

impl Default for WsWinsize {
    /// The default geometry: 80 columns by 24 rows at the origin.
    fn default() -> (w: WsWinsize)
        ensures
            w == (WsWinsize { x: 0, y: 0, rows: 24, cols: 80 }),
    {
        WsWinsize { x: 0, y: 0, rows: 24, cols: 80 }
    }
}

/// Relies on `rand::Rng::gen_range` over `rand::thread_rng`: for a nonempty
/// inclusive integer range it returns a uniformly drawn value inside that
/// range, and panics only when the range is empty.
#[verifier::external_body]
fn gen_range_i32(lo: i32, hi: i32) -> (r: i32)
    requires
        lo <= hi,
    ensures
        lo <= r <= hi,
{
    rand::thread_rng().gen_range(lo..=hi)
}

impl WsWinsize {
    /// Create a new window with default size and random position in a range:
    /// x drawn from [-50, 50] and y from [-30, 30], boundaries included.
    pub fn new_random() -> (w: WsWinsize)
        ensures
            -50 <= w.x <= 50,
            -30 <= w.y <= 30,
            w.rows == 24,
            w.cols == 80,
    {
        let x = gen_range_i32(-50, 50);
        let y = gen_range_i32(-30, 30);
        WsWinsize { x, y, rows: 24, cols: 80 }
    }
}

/// Real-time message providing information about a user.
#[derive(Clone, Debug, PartialEq, Eq)]
pub struct WsUser {
    /// The user's display name.
    pub name: String,
    /// Live coordinates of the mouse cursor, if available.
    pub cursor: Option<(i32, i32)>,
    /// Currently focused terminal window ID.
    pub focus: Option<Sid>,
}

/// The mathematical content of a `WsUser`: its name as a character sequence
/// beside the plain cursor and focus values.
pub struct UserView {
    pub name: Seq<char>,
    pub cursor: Option<(i32, i32)>,
    pub focus: Option<Sid>,
}

impl View for WsUser {
    type V = UserView;

    open spec fn view(&self) -> UserView {
        UserView { name: self.name@, cursor: self.cursor, focus: self.focus }
    }
}

impl WsUser {
    /// A presence with the given display name, no tracked cursor, and no
    /// focused terminal: the state of a user that has just joined.
    pub fn joined(name: String) -> (u: WsUser)
        ensures
            u@ == (UserView { name: name@, cursor: None, focus: None }),
    {
        WsUser { name, cursor: None, focus: None }
    }

    /// An exact copy of this presence.
    pub fn duplicate(&self) -> (u: WsUser)
        ensures
            u == *self,
    {
        WsUser { name: self.name.clone(), cursor: self.cursor, focus: self.focus }
    }
}

/// A real-time message sent from the server over the transport connection.
#[derive(Clone, Debug, PartialEq, Eq)]
pub enum WsServer {
    /// Initial server message, informing the user of their ID.
    Hello(Uid),
    /// A snapshot of all current users in the session.
    Users(Vec<(Uid, WsUser)>),
    /// Info about a single user in the session: joined, left, or changed.
    UserDiff(Uid, Option<WsUser>),
    /// Notification when the set of open shells has changed.
    Shells(Vec<(Sid, WsWinsize)>),
    /// Subscription results, in the form of terminal data chunks.
    Chunks(Sid, Vec<Vec<u8>>),
    /// Get a chat message tuple `(uid, name, text)` from the room.
    Hear(Uid, String, String),
    /// The current session has been terminated.
    Terminated(),
    /// Alert the client of an application error.
    Error(String),
}

/// A real-time message sent from the client over the transport connection.
#[derive(Clone, Debug, PartialEq, Eq)]
pub enum WsClient {
    /// Set the name of the current user.
    SetName(String),
    /// Send real-time information about the user's cursor.
    SetCursor(Option<(i32, i32)>),
    /// Set the currently focused shell.
    SetFocus(Option<Sid>),
    /// Create a new shell.
    Create(),
    /// Close a specific shell.
    Close(Sid),
    /// Move a shell window to a new position and focus it.
    Move(Sid, Option<WsWinsize>),
    /// Add user data to a given shell.
    Data(Sid, Vec<u8>),
    /// Subscribe to a shell, starting at a given chunk index.
    Subscribe(Sid, u64),
    /// Send a chat message to the room.
    Chat(String),
}

} // verus!
