//! The authoritative session state and the effect of every client command on
//! it: users, open shells with their append-only output logs, per-(client,
//! shell) subscriptions, and the chat log.
//!
//! Each mutating method returns the exact server messages the change must
//! broadcast, and its contract pins both the state change and the messages.
//! Two protocol decisions that the message schema leaves open are made
//! explicit here: closing a shell leaves existing subscriptions in place (a
//! subscription to a closed shell simply yields no further chunks, and
//! clients learn of the close from the `Shells` snapshot), and a `SetFocus`
//! naming a shell that is not open is ignored rather than cleared.

use vstd::prelude::*;

use crate::delivery::{deliveries_from, total_count};
use crate::ids::{Sid, Uid};
use crate::protocol::{UserView, WsClient, WsServer, WsUser, WsWinsize};
use crate::users::{
    apply_diffs, lemma_apply_diffs_concat, lemma_apply_diffs_push, map_of, pairs_view,
    unique_keys, view_opt, ClientUsers, UserMap,
};

verus! {

/// One open shell: its id, geometry, and append-only output log.
struct ShellEntry {
    sid: Sid,
    size: WsWinsize,
    log: Vec<Vec<u8>>,
}

/// The view of one output log: each chunk as a byte sequence.
pub open spec fn log_view(log: Seq<Vec<u8>>) -> Seq<Seq<u8>> {
    log.map_values(|c: Vec<u8>| c@)
}

spec fn shell_pairs(s: Seq<ShellEntry>) -> Seq<(Sid, WsWinsize)> {
    s.map_values(|e: ShellEntry| (e.sid, e.size))
}

spec fn entry_in(s: Seq<ShellEntry>, sid: Sid) -> bool {
    exists|i: int| 0 <= i < s.len() && (#[trigger] s[i]).sid == sid
}

spec fn entry_index(s: Seq<ShellEntry>, sid: Sid) -> int {
    choose|i: int| 0 <= i < s.len() && (#[trigger] s[i]).sid == sid
}

spec fn logs_fn(s: Seq<ShellEntry>, sid: Sid) -> Seq<Seq<u8>> {
    log_view(s[entry_index(s, sid)].log@)
}

spec fn unique_sids(s: Seq<ShellEntry>) -> bool {
    forall|i: int, j: int| 0 <= i < j < s.len() ==> (#[trigger] s[i]).sid != (#[trigger] s[j]).sid
}

/// Whether `sid` occurs in a `Shells` snapshot list.
pub open spec fn sid_in(s: Seq<(Sid, WsWinsize)>, sid: Sid) -> bool {
    exists|i: int| 0 <= i < s.len() && (#[trigger] s[i]).0 == sid
}

/// The position of `sid` in a `Shells` snapshot list (unique when ids are).
pub open spec fn sid_index(s: Seq<(Sid, WsWinsize)>, sid: Sid) -> int {
    choose|i: int| 0 <= i < s.len() && (#[trigger] s[i]).0 == sid
}

/// Whether the (client, shell) pair has an entry in a subscription list.
pub open spec fn sub_in(s: Seq<(Uid, Sid, u64)>, uid: Uid, sid: Sid) -> bool {
    exists|i: int| 0 <= i < s.len() && (#[trigger] s[i]).0 == uid && s[i].1 == sid
}

/// The next chunk index owed to the (client, shell) pair.
pub open spec fn sub_start(s: Seq<(Uid, Sid, u64)>, uid: Uid, sid: Sid) -> u64 {
    s[choose|i: int| 0 <= i < s.len() && (#[trigger] s[i]).0 == uid && s[i].1 == sid].2
}

spec fn unique_subs(s: Seq<(Uid, Sid, u64)>) -> bool {
    forall|i: int, j: int|
        0 <= i < j < s.len() ==> !((#[trigger] s[i]).0 == (#[trigger] s[j]).0 && s[i].1 == s[j].1)
}

proof fn lemma_remove_preserves_other_subs(s: Seq<(Uid, Sid, u64)>, i: int, uid: Uid)
    requires
        unique_subs(s),
        0 <= i < s.len(),
        s[i].0 == uid,
    ensures
        unique_subs(s.remove(i)),
        forall|u: Uid, sd: Sid|
            u != uid ==> (#[trigger] sub_in(s.remove(i), u, sd)) == sub_in(s, u, sd),
        forall|u: Uid, sd: Sid|
            u != uid && sub_in(s, u, sd) ==> (#[trigger] sub_start(s.remove(i), u, sd))
                == sub_start(s, u, sd),
{
    let t = s.remove(i);
    assert(forall|x: int| 0 <= x < i ==> #[trigger] t[x] == s[x]);
    assert(forall|x: int| i <= x < t.len() ==> #[trigger] t[x] == s[x + 1]);
    assert forall|u: Uid, sd: Sid| u != uid implies (#[trigger] sub_in(t, u, sd)) == sub_in(
        s,
        u,
        sd,
    ) by {
        if sub_in(t, u, sd) {
            let j = choose|j: int| 0 <= j < t.len() && (#[trigger] t[j]).0 == u && t[j].1 == sd;
            if j < i {
                assert(s[j].0 == u && s[j].1 == sd);
            } else {
                assert(s[j + 1].0 == u && s[j + 1].1 == sd);
            }
        }
        if sub_in(s, u, sd) {
            let j = choose|j: int| 0 <= j < s.len() && (#[trigger] s[j]).0 == u && s[j].1 == sd;
            assert(j != i);
            if j < i {
                assert(t[j].0 == u && t[j].1 == sd);
            } else {
                assert(t[j - 1].0 == u && t[j - 1].1 == sd);
            }
        }
    }
    assert forall|u: Uid, sd: Sid| u != uid && sub_in(s, u, sd) implies (#[trigger] sub_start(
        t,
        u,
        sd,
    )) == sub_start(s, u, sd) by {
        let j = choose|j: int| 0 <= j < s.len() && (#[trigger] s[j]).0 == u && s[j].1 == sd;
        assert(j != i);
        let js = choose|js: int| 0 <= js < s.len() && (#[trigger] s[js]).0 == u && s[js].1 == sd;
        assert(js == j);
        assert(sub_in(t, u, sd));
        let jt = choose|jt: int| 0 <= jt < t.len() && (#[trigger] t[jt]).0 == u && t[jt].1 == sd;
        let j2: int = if jt < i {
            jt
        } else {
            jt + 1
        };
        assert(s[j2].0 == u && s[j2].1 == sd);
        assert(j2 == j);
        assert(t[jt] == s[j]);
    }
}

proof fn lemma_entry_index_of(s: Seq<ShellEntry>, i: int)
    requires
        unique_sids(s),
        0 <= i < s.len(),
    ensures
        entry_in(s, s[i].sid),
        entry_index(s, s[i].sid) == i,
{
    assert(entry_in(s, s[i].sid));
    let j = entry_index(s, s[i].sid);
    assert(0 <= j < s.len() && s[j].sid == s[i].sid);
    if j != i {
        assert(false);
    }
}

proof fn lemma_pair_entry(s: Seq<ShellEntry>, sid: Sid)
    requires
        unique_sids(s),
    ensures
        sid_in(shell_pairs(s), sid) == entry_in(s, sid),
        entry_in(s, sid) ==> 0 <= entry_index(s, sid) < s.len() && s[entry_index(s, sid)].sid
            == sid && sid_index(shell_pairs(s), sid) == entry_index(s, sid),
{
    let p = shell_pairs(s);
    if sid_in(p, sid) {
        let j = choose|j: int| 0 <= j < p.len() && (#[trigger] p[j]).0 == sid;
        assert(s[j].sid == sid);
        assert(entry_in(s, sid));
    }
    if entry_in(s, sid) {
        let i = choose|i: int| 0 <= i < s.len() && (#[trigger] s[i]).sid == sid;
        lemma_entry_index_of(s, i);
        assert(p[i].0 == sid);
        assert(sid_in(p, sid));
        let j = sid_index(p, sid);
        assert(0 <= j < p.len() && p[j].0 == sid);
        assert(s[j].sid == sid);
        if j != entry_index(s, sid) {
            assert(false);
        }
    }
}

/// Two shell lists with the same ids in the same positions agree on which
/// shells exist and where each stands.
proof fn lemma_same_sids(a: Seq<ShellEntry>, t: Seq<ShellEntry>)
    requires
        unique_sids(a),
        t.len() == a.len(),
        forall|x: int| 0 <= x < t.len() ==> (#[trigger] t[x]).sid == a[x].sid,
    ensures
        unique_sids(t),
        forall|sd: Sid| (#[trigger] entry_in(t, sd)) == entry_in(a, sd),
        forall|sd: Sid| entry_in(a, sd) ==> (#[trigger] entry_index(t, sd)) == entry_index(a, sd),
{
    assert forall|sd: Sid| (#[trigger] entry_in(t, sd)) == entry_in(a, sd) by {
        if entry_in(t, sd) {
            let x = choose|x: int| 0 <= x < t.len() && (#[trigger] t[x]).sid == sd;
            assert(a[x].sid == sd);
        }
        if entry_in(a, sd) {
            let x = choose|x: int| 0 <= x < a.len() && (#[trigger] a[x]).sid == sd;
            assert(t[x].sid == sd);
        }
    }
    assert forall|sd: Sid| entry_in(a, sd) implies (#[trigger] entry_index(t, sd)) == entry_index(
        a,
        sd,
    ) by {
        let i = entry_index(a, sd);
        let x = choose|x: int| 0 <= x < a.len() && (#[trigger] a[x]).sid == sd;
        lemma_entry_index_of(a, x);
        assert(t[i].sid == sd);
        lemma_same_sids_help(a, t);
        lemma_entry_index_of(t, i);
    }
}

proof fn lemma_same_sids_help(a: Seq<ShellEntry>, t: Seq<ShellEntry>)
    requires
        unique_sids(a),
        t.len() == a.len(),
        forall|x: int| 0 <= x < t.len() ==> (#[trigger] t[x]).sid == a[x].sid,
    ensures
        unique_sids(t),
{
}

proof fn lemma_logs_after_remove(a: Seq<ShellEntry>, i: int)
    requires
        unique_sids(a),
        0 <= i < a.len(),
    ensures
        unique_sids(a.remove(i)),
        !entry_in(a.remove(i), a[i].sid),
        forall|sd: Sid|
            sd != a[i].sid && entry_in(a, sd) ==> #[trigger] entry_in(a.remove(i), sd) && logs_fn(
                a.remove(i),
                sd,
            ) == logs_fn(a, sd),
{
    let t = a.remove(i);
    assert(forall|x: int| 0 <= x < i ==> #[trigger] t[x] == a[x]);
    assert(forall|x: int| i <= x < t.len() ==> #[trigger] t[x] == a[x + 1]);
    assert forall|x: int, y: int| 0 <= x < y < t.len() implies (#[trigger] t[x]).sid != (
    #[trigger] t[y]).sid by {
        let x2: int = if x < i {
            x
        } else {
            x + 1
        };
        let y2: int = if y < i {
            y
        } else {
            y + 1
        };
        assert(t[x] == a[x2] && t[y] == a[y2]);
    }
    assert forall|sd: Sid| !(#[trigger] entry_in(t, sd)) || sd != a[i].sid by {
        if entry_in(t, sd) && sd == a[i].sid {
            let x = choose|x: int| 0 <= x < t.len() && (#[trigger] t[x]).sid == sd;
            let x2: int = if x < i {
                x
            } else {
                x + 1
            };
            assert(a[x2].sid == a[i].sid && x2 != i);
            assert(false);
        }
    }
    assert forall|sd: Sid| sd != a[i].sid && entry_in(a, sd) implies #[trigger] entry_in(t, sd)
        && logs_fn(t, sd) == logs_fn(a, sd) by {
        let j = choose|j: int| 0 <= j < a.len() && (#[trigger] a[j]).sid == sd;
        lemma_entry_index_of(a, j);
        assert(j != i);
        let j2: int = if j < i {
            j
        } else {
            j - 1
        };
        assert(t[j2] == a[j]);
        lemma_entry_index_of(t, j2);
    }
}

proof fn lemma_sub_at(s: Seq<(Uid, Sid, u64)>, i: int)
    requires
        unique_subs(s),
        0 <= i < s.len(),
    ensures
        sub_in(s, s[i].0, s[i].1),
        sub_start(s, s[i].0, s[i].1) == s[i].2,
{
    assert(sub_in(s, s[i].0, s[i].1));
    let j = choose|j: int|
        0 <= j < s.len() && (#[trigger] s[j]).0 == s[i].0 && s[j].1 == s[i].1;
    if j != i {
        assert(false);
    }
}

proof fn lemma_update_sub(s: Seq<(Uid, Sid, u64)>, i: int, v: u64)
    requires
        unique_subs(s),
        0 <= i < s.len(),
    ensures
        unique_subs(s.update(i, (s[i].0, s[i].1, v))),
        sub_in(s.update(i, (s[i].0, s[i].1, v)), s[i].0, s[i].1),
        sub_start(s.update(i, (s[i].0, s[i].1, v)), s[i].0, s[i].1) == v,
        forall|u: Uid, sd: Sid|
            !(u == s[i].0 && sd == s[i].1) ==> (#[trigger] sub_in(
                s.update(i, (s[i].0, s[i].1, v)),
                u,
                sd,
            )) == sub_in(s, u, sd),
        forall|u: Uid, sd: Sid|
            !(u == s[i].0 && sd == s[i].1) && sub_in(s, u, sd) ==> (#[trigger] sub_start(
                s.update(i, (s[i].0, s[i].1, v)),
                u,
                sd,
            )) == sub_start(s, u, sd),
{
    let t = s.update(i, (s[i].0, s[i].1, v));
    assert(forall|x: int| 0 <= x < t.len() && x != i ==> #[trigger] t[x] == s[x]);
    lemma_sub_at(t, i);
    assert forall|u: Uid, sd: Sid| !(u == s[i].0 && sd == s[i].1) implies (#[trigger] sub_in(
        t,
        u,
        sd,
    )) == sub_in(s, u, sd) by {
        if sub_in(t, u, sd) {
            let j = choose|j: int| 0 <= j < t.len() && (#[trigger] t[j]).0 == u && t[j].1 == sd;
            assert(j != i);
            assert(s[j].0 == u && s[j].1 == sd);
        }
        if sub_in(s, u, sd) {
            let j = choose|j: int| 0 <= j < s.len() && (#[trigger] s[j]).0 == u && s[j].1 == sd;
            assert(j != i);
            assert(t[j].0 == u && t[j].1 == sd);
        }
    }
    assert forall|u: Uid, sd: Sid| !(u == s[i].0 && sd == s[i].1) && sub_in(s, u, sd) implies (
    #[trigger] sub_start(t, u, sd)) == sub_start(s, u, sd) by {
        let j = choose|j: int| 0 <= j < s.len() && (#[trigger] s[j]).0 == u && s[j].1 == sd;
        assert(j != i);
        let js = choose|js: int| 0 <= js < s.len() && (#[trigger] s[js]).0 == u && s[js].1 == sd;
        if js != j {
            assert(false);
        }
        assert(t[j].0 == u && t[j].1 == sd);
        let jt = choose|jt: int| 0 <= jt < t.len() && (#[trigger] t[jt]).0 == u && t[jt].1 == sd;
        if jt != j {
            assert(false);
        }
    }
}

proof fn lemma_push_sub(s: Seq<(Uid, Sid, u64)>, uid: Uid, sid: Sid, v: u64)
    requires
        unique_subs(s),
        forall|j: int| 0 <= j < s.len() ==> !((#[trigger] s[j]).0 == uid && s[j].1 == sid),
    ensures
        unique_subs(s.push((uid, sid, v))),
        sub_in(s.push((uid, sid, v)), uid, sid),
        sub_start(s.push((uid, sid, v)), uid, sid) == v,
        forall|u: Uid, sd: Sid|
            !(u == uid && sd == sid) ==> (#[trigger] sub_in(s.push((uid, sid, v)), u, sd))
                == sub_in(s, u, sd),
        forall|u: Uid, sd: Sid|
            !(u == uid && sd == sid) && sub_in(s, u, sd) ==> (#[trigger] sub_start(
                s.push((uid, sid, v)),
                u,
                sd,
            )) == sub_start(s, u, sd),
{
    let t = s.push((uid, sid, v));
    assert(forall|x: int| 0 <= x < s.len() ==> #[trigger] t[x] == s[x]);
    assert(t[s.len() as int] == (uid, sid, v));
    assert forall|x: int, y: int| 0 <= x < y < t.len() implies !((#[trigger] t[x]).0 == (
    #[trigger] t[y]).0 && t[x].1 == t[y].1) by {
        if y == s.len() {
            assert(t[x] == s[x]);
        }
    }
    lemma_sub_at(t, s.len() as int);
    assert forall|u: Uid, sd: Sid| !(u == uid && sd == sid) implies (#[trigger] sub_in(t, u, sd))
        == sub_in(s, u, sd) by {
        if sub_in(t, u, sd) {
            let j = choose|j: int| 0 <= j < t.len() && (#[trigger] t[j]).0 == u && t[j].1 == sd;
            assert(j != s.len());
            assert(s[j].0 == u && s[j].1 == sd);
        }
        if sub_in(s, u, sd) {
            let j = choose|j: int| 0 <= j < s.len() && (#[trigger] s[j]).0 == u && s[j].1 == sd;
            assert(t[j].0 == u && t[j].1 == sd);
        }
    }
    assert forall|u: Uid, sd: Sid| !(u == uid && sd == sid) && sub_in(s, u, sd) implies (
    #[trigger] sub_start(t, u, sd)) == sub_start(s, u, sd) by {
        let j = choose|j: int| 0 <= j < s.len() && (#[trigger] s[j]).0 == u && s[j].1 == sd;
        let js = choose|js: int| 0 <= js < s.len() && (#[trigger] s[js]).0 == u && s[js].1 == sd;
        if js != j {
            assert(false);
        }
        assert(t[j].0 == u && t[j].1 == sd);
        let jt = choose|jt: int| 0 <= jt < t.len() && (#[trigger] t[jt]).0 == u && t[jt].1 == sd;
        if jt != j {
            assert(false);
        }
    }
}

/// An action the host must carry out on the terminal-process collaborator.
#[derive(Debug, Clone, PartialEq, Eq)]
pub enum TermAction {
    /// Spawn the underlying terminal for a freshly created shell.
    Open(Sid),
    /// Forward input bytes verbatim, preserving byte order.
    Write(Sid, Vec<u8>),
    /// Terminate the underlying terminal of a closed shell.
    Shut(Sid),
}

/// Everything one handled client command produces: messages for every
/// connected client, messages for the sender alone (error reports), and an
/// optional action on the terminal collaborator.
#[derive(Debug, Clone, PartialEq, Eq)]
pub struct Outcome {
    pub broadcast: Vec<WsServer>,
    pub reply: Vec<WsServer>,
    pub action: Option<TermAction>,
}

/// The authoritative state of one collaborative session.
pub struct Session {
    user_map: UserMap,
    shell_list: Vec<ShellEntry>,
    subs: Vec<(Uid, Sid, u64)>,
    chat_log: Vec<(Uid, String, String)>,
    next_uid: u32,
    next_sid: u32,
    emitted: Ghost<Seq<(Uid, Option<UserView>)>>,
}

impl Session {
    /// The authoritative user map.
    pub closed spec fn users(&self) -> Map<Uid, UserView> {
        self.user_map@
    }

    /// The open shells with their geometry, in creation order; exactly the
    /// payload of a `Shells` snapshot.
    pub closed spec fn shells(&self) -> Seq<(Sid, WsWinsize)> {
        shell_pairs(self.shell_list@)
    }

    /// The output log of the shell `sid` (meaningful when it is open).
    pub closed spec fn log_of(&self, sid: Sid) -> Seq<Seq<u8>> {
        logs_fn(self.shell_list@, sid)
    }

    /// Whether the shell `sid` is currently open.
    pub open spec fn shell_open(&self, sid: Sid) -> bool {
        sid_in(self.shells(), sid)
    }

    /// The subscription table: one `(client, shell, next index)` entry per
    /// active subscription.
    pub closed spec fn subs_view(&self) -> Seq<(Uid, Sid, u64)> {
        self.subs@
    }

    pub open spec fn has_sub(&self, uid: Uid, sid: Sid) -> bool {
        sub_in(self.subs_view(), uid, sid)
    }

    pub open spec fn sub_next(&self, uid: Uid, sid: Sid) -> u64 {
        sub_start(self.subs_view(), uid, sid)
    }

    /// The chat log: `(sender, stamped display name, text)`, oldest first.
    pub closed spec fn chat(&self) -> Seq<(Uid, Seq<char>, Seq<char>)> {
        self.chat_log@.map_values(|e: (Uid, String, String)| (e.0, e.1@, e.2@))
    }

    /// Every `UserDiff` this session has emitted, oldest first.
    pub closed spec fn emitted_diffs(&self) -> Seq<(Uid, Option<UserView>)> {
        self.emitted@
    }

    pub closed spec fn next_uid_val(&self) -> u32 {
        self.next_uid
    }

    pub closed spec fn next_sid_val(&self) -> u32 {
        self.next_sid
    }

    pub open spec fn can_alloc_uid(&self) -> bool {
        self.next_uid_val() < u32::MAX
    }

    pub open spec fn can_alloc_sid(&self) -> bool {
        self.next_sid_val() < u32::MAX
    }

    /// Well-formedness: unique ids everywhere, ids below the allocation
    /// counters (so a fresh id never collides), and the user map equal to the
    /// emitted diff history folded over the empty map.
    pub closed spec fn wf(&self) -> bool {
        &&& self.user_map.wf()
        &&& unique_sids(self.shell_list@)
        &&& unique_subs(self.subs@)
        &&& self.user_map@ == apply_diffs(Map::<Uid, UserView>::empty(), self.emitted@)
        &&& forall|u: Uid| self.user_map@.contains_key(u) ==> u.0 < self.next_uid
        &&& forall|i: int|
            0 <= i < self.shell_list@.len() ==> (#[trigger] self.shell_list@[i]).sid.0
                < self.next_sid
    }
}

/// Neither the user map nor the emitted diff history changed.
pub open spec fn users_same(s0: Session, s1: Session) -> bool {
    &&& s1.users() == s0.users()
    &&& s1.emitted_diffs() == s0.emitted_diffs()
}

/// Neither the shell list nor any open shell's output log changed.
pub open spec fn shells_same(s0: Session, s1: Session) -> bool {
    &&& s1.shells() == s0.shells()
    &&& forall|sd: Sid| s0.shell_open(sd) ==> s1.log_of(sd) == #[trigger] s0.log_of(sd)
}

/// The subscription table did not change.
pub open spec fn subs_same(s0: Session, s1: Session) -> bool {
    s1.subs_view() == s0.subs_view()
}

/// The chat log did not change.
pub open spec fn chat_same(s0: Session, s1: Session) -> bool {
    s1.chat() == s0.chat()
}

/// Neither allocation counter changed.
pub open spec fn counters_same(s0: Session, s1: Session) -> bool {
    s1.next_uid_val() == s0.next_uid_val() && s1.next_sid_val() == s0.next_sid_val()
}

/// The presence `uid` would have after a presence-field update, and the
/// `UserDiff` broadcast that announces it.
pub open spec fn presence_update_post(
    s0: Session,
    s1: Session,
    uid: Uid,
    nv: UserView,
    b: Seq<WsServer>,
) -> bool {
    &&& s1.users() == s0.users().insert(uid, nv)
    &&& s1.emitted_diffs() == s0.emitted_diffs().push((uid, Some(nv)))
    &&& b.len() == 1
    &&& (b[0] matches WsServer::UserDiff(u, ou) && u == uid && view_opt(ou) == Some(nv))
}

/// Effect of `SetName`: the sender's display name is replaced and the change
/// is echoed to all participants; a name from an unknown sender is a no-op.
pub open spec fn set_name_post(
    s0: Session,
    s1: Session,
    uid: Uid,
    name: Seq<char>,
    b: Seq<WsServer>,
) -> bool {
    &&& shells_same(s0, s1)
    &&& subs_same(s0, s1)
    &&& chat_same(s0, s1)
    &&& counters_same(s0, s1)
    &&& if s0.users().contains_key(uid) {
        presence_update_post(
            s0,
            s1,
            uid,
            (UserView {
                name: name,
                cursor: s0.users()[uid].cursor,
                focus: s0.users()[uid].focus,
            }),
            b,
        )
    } else {
        users_same(s0, s1) && b.len() == 0
    }
}

/// Effect of `SetCursor`: the sender's live cursor is replaced (`None`
/// clears it); only the latest value is kept.
pub open spec fn set_cursor_post(
    s0: Session,
    s1: Session,
    uid: Uid,
    cursor: Option<(i32, i32)>,
    b: Seq<WsServer>,
) -> bool {
    &&& shells_same(s0, s1)
    &&& subs_same(s0, s1)
    &&& chat_same(s0, s1)
    &&& counters_same(s0, s1)
    &&& if s0.users().contains_key(uid) {
        presence_update_post(
            s0,
            s1,
            uid,
            (UserView {
                name: s0.users()[uid].name,
                cursor: cursor,
                focus: s0.users()[uid].focus,
            }),
            b,
        )
    } else {
        users_same(s0, s1) && b.len() == 0
    }
}

/// Effect of `SetFocus`: accepted only when the named shell is open at the
/// time of the update (or when the focus is cleared); otherwise ignored.
pub open spec fn set_focus_post(
    s0: Session,
    s1: Session,
    uid: Uid,
    focus: Option<Sid>,
    b: Seq<WsServer>,
) -> bool {
    &&& shells_same(s0, s1)
    &&& subs_same(s0, s1)
    &&& chat_same(s0, s1)
    &&& counters_same(s0, s1)
    &&& if s0.users().contains_key(uid) && (match focus {
        Some(sd) => s0.shell_open(sd),
        None => true,
    }) {
        presence_update_post(
            s0,
            s1,
            uid,
            (UserView {
                name: s0.users()[uid].name,
                cursor: s0.users()[uid].cursor,
                focus: focus,
            }),
            b,
        )
    } else {
        users_same(s0, s1) && b.len() == 0
    }
}

/// Effect of `Create`: a fresh shell id, a randomized geometry (default size,
/// x in [-50, 50], y in [-30, 30]), an empty output log, and a `Shells`
/// snapshot broadcast.
pub open spec fn create_post(
    s0: Session,
    s1: Session,
    sid: Sid,
    size: WsWinsize,
    b: Seq<WsServer>,
) -> bool {
    &&& users_same(s0, s1)
    &&& subs_same(s0, s1)
    &&& chat_same(s0, s1)
    &&& sid.0 == s0.next_sid_val()
    &&& s1.next_sid_val() == s0.next_sid_val() + 1
    &&& s1.next_uid_val() == s0.next_uid_val()
    &&& !s0.shell_open(sid)
    &&& -50 <= size.x <= 50
    &&& -30 <= size.y <= 30
    &&& size.rows == 24
    &&& size.cols == 80
    &&& s1.shells() == s0.shells().push((sid, size))
    &&& s1.shell_open(sid)
    &&& s1.log_of(sid) == Seq::<Seq<u8>>::empty()
    &&& forall|sd: Sid| s0.shell_open(sd) ==> s1.log_of(sd) == #[trigger] s0.log_of(sd)
    &&& b.len() == 1
    &&& (b[0] matches WsServer::Shells(v) && v@ == s1.shells())
}

/// Effect of `Close`: an open shell is removed and a `Shells` snapshot is
/// broadcast; closing an unknown or already-closed id is a no-op and, in
/// particular, produces no `Error`. Subscriptions are left in place: one
/// naming a closed shell simply yields no further chunks.
pub open spec fn close_post(s0: Session, s1: Session, sid: Sid, b: Seq<WsServer>) -> bool {
    &&& users_same(s0, s1)
    &&& subs_same(s0, s1)
    &&& chat_same(s0, s1)
    &&& counters_same(s0, s1)
    &&& if s0.shell_open(sid) {
        &&& s1.shells() == s0.shells().remove(sid_index(s0.shells(), sid))
        &&& !s1.shell_open(sid)
        &&& forall|sd: Sid|
            sd != sid && s0.shell_open(sd) ==> s1.log_of(sd) == #[trigger] s0.log_of(sd)
        &&& b.len() == 1
        &&& (b[0] matches WsServer::Shells(v) && v@ == s1.shells())
    } else {
        &&& s1.shells() == s0.shells()
        &&& forall|sd: Sid| s0.shell_open(sd) ==> s1.log_of(sd) == #[trigger] s0.log_of(sd)
        &&& b.len() == 0
    }
    &&& forall|i: int| 0 <= i < b.len() ==> !(#[trigger] b[i] is Error)
}

/// Effect of `Move`: on an open shell, the geometry is replaced when one is
/// given (`None` means focus only) and the sender's focus is set to the
/// shell; concurrent moves resolve last-write-wins by arrival order, and the
/// sender's focus is updated no matter whose geometry wins. An unknown shell
/// id draws an `Error` reply and changes nothing.
pub open spec fn move_post(
    s0: Session,
    s1: Session,
    uid: Uid,
    sid: Sid,
    size: Option<WsWinsize>,
    b: Seq<WsServer>,
    reply: Seq<WsServer>,
) -> bool {
    &&& subs_same(s0, s1)
    &&& chat_same(s0, s1)
    &&& counters_same(s0, s1)
    &&& if s0.shell_open(sid) {
        let moved = match size {
            Some(g) => s0.shells().update(sid_index(s0.shells(), sid), (sid, g)),
            None => s0.shells(),
        };
        let focused = s0.users().contains_key(uid);
        let shells_msgs: int = if size is Some {
            1
        } else {
            0
        };
        &&& s1.shells() == moved
        &&& forall|sd: Sid| s0.shell_open(sd) ==> s1.log_of(sd) == #[trigger] s0.log_of(sd)
        &&& if focused {
            presence_update_post(
                s0,
                s1,
                uid,
                (UserView {
                    name: s0.users()[uid].name,
                    cursor: s0.users()[uid].cursor,
                    focus: Some(sid),
                }),
                b.skip(shells_msgs),
            )
        } else {
            users_same(s0, s1) && b.len() == shells_msgs
        }
        &&& (size is Some ==> b.len() >= 1 && (b[0] matches WsServer::Shells(v) && v@
            == s1.shells()))
        &&& reply.len() == 0
    } else {
        &&& s1.shells() == s0.shells()
        &&& forall|sd: Sid| s0.shell_open(sd) ==> s1.log_of(sd) == #[trigger] s0.log_of(sd)
        &&& users_same(s0, s1)
        &&& b.len() == 0
        &&& reply.len() == 1 && reply[0] is Error
    }
}

/// Effect of `Subscribe`: on an open shell the sender's subscription is set
/// to begin at `start`, superseding any prior subscription for the same pair
/// (a reseek never interleaves chunks from the old and new start points,
/// because only the new start survives). An unknown shell id draws an
/// `Error` reply.
pub open spec fn subscribe_post(
    s0: Session,
    s1: Session,
    uid: Uid,
    sid: Sid,
    start: u64,
    reply: Seq<WsServer>,
) -> bool {
    &&& users_same(s0, s1)
    &&& shells_same(s0, s1)
    &&& chat_same(s0, s1)
    &&& counters_same(s0, s1)
    &&& if s0.shell_open(sid) {
        &&& s1.has_sub(uid, sid)
        &&& s1.sub_next(uid, sid) == start
        &&& forall|u: Uid, sd: Sid|
            !(u == uid && sd == sid) ==> (#[trigger] s1.has_sub(u, sd)) == s0.has_sub(u, sd)
        &&& forall|u: Uid, sd: Sid|
            !(u == uid && sd == sid) && s0.has_sub(u, sd) ==> (#[trigger] s1.sub_next(u, sd))
                == s0.sub_next(u, sd)
        &&& reply.len() == 0
    } else {
        &&& subs_same(s0, s1)
        &&& reply.len() == 1 && reply[0] is Error
    }
}

/// Effect of one delivery poll for the (client, shell) subscription: when
/// chunks beyond the subscription's next index exist, exactly the log
/// entries from that index through the end of the log are delivered in one
/// `Chunks` message and the next index advances past them; otherwise nothing
/// is delivered and nothing changes.
pub open spec fn poll_post(
    s0: Session,
    s1: Session,
    uid: Uid,
    sid: Sid,
    r: Option<WsServer>,
) -> bool {
    &&& users_same(s0, s1)
    &&& shells_same(s0, s1)
    &&& chat_same(s0, s1)
    &&& counters_same(s0, s1)
    &&& if s0.shell_open(sid) && s0.has_sub(uid, sid) && (s0.sub_next(uid, sid) as int)
        < s0.log_of(sid).len() {
        let k = s0.sub_next(uid, sid) as int;
        let n = s0.log_of(sid).len() as int;
        &&& (r matches Some(m) && (m matches WsServer::Chunks(sd, data)
            && sd == sid
            && log_view(data@) == s0.log_of(sid).subrange(k, n)))
        &&& s1.has_sub(uid, sid)
        &&& s1.sub_next(uid, sid) as int == n
        &&& forall|u: Uid, sd: Sid|
            !(u == uid && sd == sid) ==> (#[trigger] s1.has_sub(u, sd)) == s0.has_sub(u, sd)
        &&& forall|u: Uid, sd: Sid|
            !(u == uid && sd == sid) && s0.has_sub(u, sd) ==> (#[trigger] s1.sub_next(u, sd))
                == s0.sub_next(u, sd)
    } else {
        &&& subs_same(s0, s1)
        &&& r is None
    }
}

/// Effect of terminal output: an open shell's log grows by one chunk at the
/// end (append-only); output for an unknown shell is dropped.
pub open spec fn append_post(
    s0: Session,
    s1: Session,
    sid: Sid,
    data: Seq<u8>,
    accepted: bool,
) -> bool {
    &&& users_same(s0, s1)
    &&& subs_same(s0, s1)
    &&& chat_same(s0, s1)
    &&& counters_same(s0, s1)
    &&& s1.shells() == s0.shells()
    &&& accepted == s0.shell_open(sid)
    &&& if s0.shell_open(sid) {
        &&& s1.log_of(sid) == s0.log_of(sid).push(data)
        &&& forall|sd: Sid|
            sd != sid && s0.shell_open(sd) ==> s1.log_of(sd) == #[trigger] s0.log_of(sd)
    } else {
        forall|sd: Sid| s0.shell_open(sd) ==> s1.log_of(sd) == #[trigger] s0.log_of(sd)
    }
}

/// Effect of `Chat`: the text is stamped with the sender's id and current
/// display name, appended to the room log, and broadcast as `Hear`; a chat
/// from an unknown sender is a no-op.
pub open spec fn chat_post(
    s0: Session,
    s1: Session,
    uid: Uid,
    text: Seq<char>,
    b: Seq<WsServer>,
) -> bool {
    &&& users_same(s0, s1)
    &&& shells_same(s0, s1)
    &&& subs_same(s0, s1)
    &&& counters_same(s0, s1)
    &&& if s0.users().contains_key(uid) {
        &&& s1.chat() == s0.chat().push((uid, s0.users()[uid].name, text))
        &&& b.len() == 1
        &&& (b[0] matches WsServer::Hear(u, name, t) && u == uid && name@ == s0.users()[uid].name
            && t@ == text)
    } else {
        chat_same(s0, s1) && b.len() == 0
    }
}

/// Effect of `Data`: input bytes for an open shell are forwarded verbatim to
/// the terminal collaborator, and the session state is untouched; an unknown
/// shell id draws an `Error` reply instead.
pub open spec fn data_post(
    s0: Session,
    sid: Sid,
    data: Seq<u8>,
    action: Option<TermAction>,
    reply: Seq<WsServer>,
) -> bool {
    if s0.shell_open(sid) {
        &&& (action matches Some(a) && (a matches TermAction::Write(sd, d) && sd == sid && d@
            == data))
        &&& reply.len() == 0
    } else {
        &&& action is None
        &&& reply.len() == 1 && reply[0] is Error
    }
}

impl Session {
    /// A new, empty session. Id counters start at 1, so 0 is never a valid
    /// id.
    pub fn new() -> (s: Session)
        ensures
            s.wf(),
            s.users() == Map::<Uid, UserView>::empty(),
            s.shells() == Seq::<(Sid, WsWinsize)>::empty(),
            s.subs_view() == Seq::<(Uid, Sid, u64)>::empty(),
            s.chat() == Seq::<(Uid, Seq<char>, Seq<char>)>::empty(),
            s.emitted_diffs() == Seq::<(Uid, Option<UserView>)>::empty(),
            s.next_uid_val() == 1,
            s.next_sid_val() == 1,
    {
        let s = Session {
            user_map: UserMap::new(),
            shell_list: Vec::new(),
            subs: Vec::new(),
            chat_log: Vec::new(),
            next_uid: 1,
            next_sid: 1,
            emitted: Ghost(Seq::empty()),
        };
        proof {
            assert(s.shells() =~= Seq::<(Sid, WsWinsize)>::empty());
            assert(s.chat() =~= Seq::<(Uid, Seq<char>, Seq<char>)>::empty());
        }
        s
    }

    fn find_shell(&self, sid: Sid) -> (r: Option<usize>)
        ensures
            match r {
                Some(i) => i < self.shell_list@.len() && self.shell_list@[i as int].sid == sid,
                None => forall|i: int|
                    0 <= i < self.shell_list@.len() ==> (#[trigger] self.shell_list@[i]).sid
                        != sid,
            },
    {
        let mut i: usize = 0;
        while i < self.shell_list.len()
            invariant
                i <= self.shell_list@.len(),
                forall|j: int| 0 <= j < i ==> (#[trigger] self.shell_list@[j]).sid != sid,
            decreases self.shell_list@.len() - i,
        {
            if self.shell_list[i].sid == sid {
                return Some(i);
            }
            i = i + 1;
        }
        None
    }

    fn find_sub(&self, uid: Uid, sid: Sid) -> (r: Option<usize>)
        ensures
            match r {
                Some(i) => i < self.subs@.len() && self.subs@[i as int].0 == uid
                    && self.subs@[i as int].1 == sid,
                None => forall|i: int|
                    0 <= i < self.subs@.len() ==> !((#[trigger] self.subs@[i]).0 == uid
                        && self.subs@[i].1 == sid),
            },
    {
        let mut i: usize = 0;
        while i < self.subs.len()
            invariant
                i <= self.subs@.len(),
                forall|j: int|
                    0 <= j < i ==> !((#[trigger] self.subs@[j]).0 == uid && self.subs@[j].1
                        == sid),
            decreases self.subs@.len() - i,
        {
            if self.subs[i].0 == uid && self.subs[i].1 == sid {
                return Some(i);
            }
            i = i + 1;
        }
        None
    }

    /// The payload of a `Shells` snapshot describing the current state.
    fn shells_snapshot(&self) -> (r: Vec<(Sid, WsWinsize)>)
        ensures
            r@ == self.shells(),
    {
        let mut out: Vec<(Sid, WsWinsize)> = Vec::new();
        let mut i: usize = 0;
        while i < self.shell_list.len()
            invariant
                i <= self.shell_list@.len(),
                out@ =~= self.shells().take(i as int),
            decreases self.shell_list@.len() - i,
        {
            out.push((self.shell_list[i].sid, self.shell_list[i].size));
            i = i + 1;
        }
        proof {
            assert(out@ =~= self.shells());
        }
        out
    }

    /// Whether the shell `sid` is currently open.
    pub fn is_open(&self, sid: Sid) -> (b: bool)
        ensures
            b == self.shell_open(sid),
    {
        match self.find_shell(sid) {
            Some(i) => {
                proof {
                    assert(self.shells()[i as int].0 == sid);
                }
                true
            },
            None => {
                proof {
                    if self.shell_open(sid) {
                        let j = choose|j: int|
                            0 <= j < self.shells().len() && (#[trigger] self.shells()[j]).0 == sid;
                        assert(self.shell_list@[j].sid == sid);
                    }
                }
                false
            },
        }
    }

    /// Whether `uid` names a user currently in the session.
    pub fn is_user(&self, uid: Uid) -> (b: bool)
        ensures
            b == self.users().contains_key(uid),
    {
        self.user_map.contains(uid)
    }

    /// Whether another user id can still be allocated (`connect` needs it).
    pub fn uid_capacity_left(&self) -> (b: bool)
        ensures
            b == self.can_alloc_uid(),
    {
        self.next_uid < u32::MAX
    }

    /// Whether another shell id can still be allocated (`create` needs it).
    pub fn sid_capacity_left(&self) -> (b: bool)
        ensures
            b == self.can_alloc_sid(),
    {
        self.next_sid < u32::MAX
    }

    /// Updates the presence of the known user `uid` and builds the
    /// `UserDiff` broadcast announcing it.
    fn emit_user_update(&mut self, uid: Uid, nu: WsUser) -> (b: Vec<WsServer>)
        requires
            old(self).wf(),
            old(self).users().contains_key(uid),
        ensures
            final(self).wf(),
            presence_update_post(*old(self), *final(self), uid, nu@, b@),
            shells_same(*old(self), *final(self)),
            subs_same(*old(self), *final(self)),
            chat_same(*old(self), *final(self)),
            counters_same(*old(self), *final(self)),
    {
        let ghost nv = nu@;
        let msg_user = nu.duplicate();
        proof {
            lemma_apply_diffs_push(
                Map::<Uid, UserView>::empty(),
                self.emitted@,
                (uid, Some(nv)),
            );
        }
        self.user_map.upsert(uid, nu);
        self.emitted = Ghost(self.emitted@.push((uid, Some(nv))));
        let mut b: Vec<WsServer> = Vec::new();
        b.push(WsServer::UserDiff(uid, Some(msg_user)));
        b
    }

    /// A client connected: allocate its id, add it with the given
    /// server-assigned placeholder name and a default presence, and build
    /// the `Hello` + full `Users` and `Shells` snapshots owed to the new
    /// client before any incremental diff, plus the join broadcast for
    /// everyone else.
    pub fn connect(&mut self, name: String) -> (r: (Uid, Vec<WsServer>, Vec<WsServer>))
        requires
            old(self).wf(),
            old(self).can_alloc_uid(),
        ensures
            final(self).wf(),
            shells_same(*old(self), *final(self)),
            subs_same(*old(self), *final(self)),
            chat_same(*old(self), *final(self)),
            r.0.0 == old(self).next_uid_val(),
            !old(self).users().contains_key(r.0),
            final(self).next_uid_val() == old(self).next_uid_val() + 1,
            final(self).next_sid_val() == old(self).next_sid_val(),
            final(self).users() == old(self).users().insert(
                r.0,
                (UserView { name: name@, cursor: None, focus: None }),
            ),
            final(self).emitted_diffs() == old(self).emitted_diffs().push(
                (r.0, Some(UserView { name: name@, cursor: None, focus: None })),
            ),
            r.1@.len() == 3,
            r.1@[0] == WsServer::Hello(r.0),
            (r.1@[1] matches WsServer::Users(list) && unique_keys(pairs_view(list@)) && map_of(
                pairs_view(list@),
            ) == final(self).users()),
            (r.1@[2] matches WsServer::Shells(v) && v@ == final(self).shells()),
            r.2@.len() == 1,
            (r.2@[0] matches WsServer::UserDiff(u, ou) && u == r.0 && view_opt(ou) == Some(
                UserView { name: name@, cursor: None, focus: None },
            )),
    {
        let uid = Uid(self.next_uid);
        proof {
            if self.users().contains_key(uid) {
                assert(uid.0 < self.next_uid);
            }
            lemma_apply_diffs_push(
                Map::<Uid, UserView>::empty(),
                self.emitted@,
                (uid, Some(UserView { name: name@, cursor: None, focus: None })),
            );
        }
        let nu = WsUser::joined(name);
        let ghost nv = nu@;
        let msg_user = nu.duplicate();
        self.user_map.upsert(uid, nu);
        self.emitted = Ghost(self.emitted@.push((uid, Some(nv))));
        self.next_uid = self.next_uid + 1;
        let users_list = self.user_map.snapshot();
        let shells_list = self.shells_snapshot();
        let mut reply: Vec<WsServer> = Vec::new();
        reply.push(WsServer::Hello(uid));
        reply.push(WsServer::Users(users_list));
        reply.push(WsServer::Shells(shells_list));
        let mut broadcast: Vec<WsServer> = Vec::new();
        broadcast.push(WsServer::UserDiff(uid, Some(msg_user)));
        proof {
            crate::users::lemma_snapshot_map(&self.user_map);
        }
        (uid, reply, broadcast)
    }

    /// A client disconnected: all its subscriptions are cancelled and it is
    /// removed from the users, announced as `UserDiff(uid, None)`; an unknown
    /// id is a no-op.
    pub fn disconnect(&mut self, uid: Uid) -> (b: Vec<WsServer>)
        requires
            old(self).wf(),
        ensures
            final(self).wf(),
            shells_same(*old(self), *final(self)),
            chat_same(*old(self), *final(self)),
            counters_same(*old(self), *final(self)),
            final(self).users() == old(self).users().remove(uid),
            forall|sd: Sid| !final(self).has_sub(uid, sd),
            forall|u: Uid, sd: Sid|
                u != uid ==> (#[trigger] final(self).has_sub(u, sd)) == old(self).has_sub(u, sd),
            forall|u: Uid, sd: Sid|
                u != uid && old(self).has_sub(u, sd) ==> (#[trigger] final(self).sub_next(u, sd))
                    == old(self).sub_next(u, sd),
            if old(self).users().contains_key(uid) {
                final(self).emitted_diffs() == old(self).emitted_diffs().push((uid, None))
                    && b@.len() == 1 && (b@[0] matches WsServer::UserDiff(u, ou) && u == uid && ou
                    is None)
            } else {
                final(self).emitted_diffs() == old(self).emitted_diffs() && b@.len() == 0
            },
    {
        let ghost subs0 = self.subs@;
        let mut i: usize = 0;
        while i < self.subs.len()
            invariant
                old(self).wf(),
                self.user_map == old(self).user_map,
                self.shell_list@ == old(self).shell_list@,
                self.chat_log@ == old(self).chat_log@,
                self.next_uid == old(self).next_uid,
                self.next_sid == old(self).next_sid,
                self.emitted@ == old(self).emitted@,
                subs0 == old(self).subs@,
                i <= self.subs@.len(),
                unique_subs(self.subs@),
                forall|j: int| 0 <= j < i ==> (#[trigger] self.subs@[j]).0 != uid,
                forall|u: Uid, sd: Sid|
                    u != uid ==> (#[trigger] sub_in(self.subs@, u, sd)) == sub_in(subs0, u, sd),
                forall|u: Uid, sd: Sid|
                    u != uid && sub_in(subs0, u, sd) ==> (#[trigger] sub_start(self.subs@, u, sd))
                        == sub_start(subs0, u, sd),
            decreases self.subs@.len() - i,
        {
            if self.subs[i].0 == uid {
                let ghost pre = self.subs@;
                self.subs.remove(i);
                proof {
                    lemma_remove_preserves_other_subs(pre, i as int, uid);
                }
            } else {
                i = i + 1;
            }
        }
        proof {
            assert forall|sd: Sid| !sub_in(self.subs@, uid, sd) by {
                if sub_in(self.subs@, uid, sd) {
                    let j = choose|j: int|
                        0 <= j < self.subs@.len() && (#[trigger] self.subs@[j]).0 == uid
                            && self.subs@[j].1 == sd;
                    assert(self.subs@[j].0 != uid);
                }
            }
        }
        let present = self.user_map.contains(uid);
        if present {
            proof {
                lemma_apply_diffs_push(Map::<Uid, UserView>::empty(), self.emitted@, (uid, None));
            }
            self.user_map.remove_key(uid);
            self.emitted = Ghost(self.emitted@.push((uid, None)));
            let mut b: Vec<WsServer> = Vec::new();
            b.push(WsServer::UserDiff(uid, None));
            b
        } else {
            proof {
                assert(self.user_map@.remove(uid) =~= self.user_map@);
            }
            Vec::new()
        }
    }

    /// `SetName`: update the sender's display name.
    pub fn set_name(&mut self, uid: Uid, name: String) -> (b: Vec<WsServer>)
        requires
            old(self).wf(),
        ensures
            final(self).wf(),
            set_name_post(*old(self), *final(self), uid, name@, b@),
    {
        let info = match self.user_map.get(uid) {
            Some(u) => Some((u.cursor, u.focus)),
            None => None,
        };
        match info {
            Some((cursor, focus)) => {
                let nu = WsUser { name, cursor, focus };
                self.emit_user_update(uid, nu)
            },
            None => Vec::new(),
        }
    }

    /// `SetCursor`: update the sender's live cursor position; `None` clears
    /// it. Only the latest value is kept.
    pub fn set_cursor(&mut self, uid: Uid, cursor: Option<(i32, i32)>) -> (b: Vec<WsServer>)
        requires
            old(self).wf(),
        ensures
            final(self).wf(),
            set_cursor_post(*old(self), *final(self), uid, cursor, b@),
    {
        let info = match self.user_map.get(uid) {
            Some(u) => Some((u.name.clone(), u.focus)),
            None => None,
        };
        match info {
            Some((name, focus)) => {
                let nu = WsUser { name, cursor, focus };
                self.emit_user_update(uid, nu)
            },
            None => Vec::new(),
        }
    }

    /// `SetFocus`: update which shell the sender is viewing, after
    /// validating that the id is currently open; otherwise ignore.
    pub fn set_focus(&mut self, uid: Uid, focus: Option<Sid>) -> (b: Vec<WsServer>)
        requires
            old(self).wf(),
        ensures
            final(self).wf(),
            set_focus_post(*old(self), *final(self), uid, focus, b@),
    {
        let valid = match focus {
            Some(sd) => self.is_open(sd),
            None => true,
        };
        if !valid {
            return Vec::new();
        }
        let info = match self.user_map.get(uid) {
            Some(u) => Some((u.name.clone(), u.cursor)),
            None => None,
        };
        match info {
            Some((name, cursor)) => {
                let nu = WsUser { name, cursor, focus };
                self.emit_user_update(uid, nu)
            },
            None => Vec::new(),
        }
    }
}

impl Session {
    /// `Create`: allocate a fresh shell id, give it a randomized geometry so
    /// that simultaneous creations do not all land in the same position, and
    /// broadcast the updated `Shells` snapshot.
    pub fn create(&mut self) -> (r: (Sid, WsWinsize, Vec<WsServer>))
        requires
            old(self).wf(),
            old(self).can_alloc_sid(),
        ensures
            final(self).wf(),
            create_post(*old(self), *final(self), r.0, r.1, r.2@),
    {
        let sid = Sid(self.next_sid);
        proof {
            if self.shell_open(sid) {
                lemma_pair_entry(self.shell_list@, sid);
                let j = entry_index(self.shell_list@, sid);
                assert(self.shell_list@[j].sid.0 < self.next_sid);
                assert(false);
            }
        }
        let size = WsWinsize::new_random();
        let entry = ShellEntry { sid, size, log: Vec::new() };
        let ghost pre = self.shell_list@;
        self.shell_list.push(entry);
        self.next_sid = self.next_sid + 1;
        proof {
            assert(forall|x: int| 0 <= x < pre.len() ==> #[trigger] self.shell_list@[x] == pre[x]);
            assert(self.shell_list@[pre.len() as int].sid == sid);
            assert forall|x: int, y: int| 0 <= x < y < self.shell_list@.len() implies (
            #[trigger] self.shell_list@[x]).sid != (#[trigger] self.shell_list@[y]).sid by {
                if y == pre.len() {
                    if self.shell_list@[x].sid == sid {
                        lemma_entry_index_of(pre, x);
                        assert(entry_in(pre, sid));
                        lemma_pair_entry(pre, sid);
                        assert(old(self).shell_open(sid));
                        assert(false);
                    }
                }
            }
            assert(self.shells() =~= old(self).shells().push((sid, size)));
            lemma_entry_index_of(self.shell_list@, pre.len() as int);
            lemma_pair_entry(self.shell_list@, sid);
            assert(self.log_of(sid) =~= Seq::<Seq<u8>>::empty());
            assert forall|sd: Sid| old(self).shell_open(sd) implies self.log_of(sd)
                == #[trigger] old(self).log_of(sd) by {
                lemma_pair_entry(pre, sd);
                let j = entry_index(pre, sd);
                lemma_entry_index_of(self.shell_list@, j);
            }
        }
        let snap = self.shells_snapshot();
        let mut b: Vec<WsServer> = Vec::new();
        b.push(WsServer::Shells(snap));
        (sid, size, b)
    }

    /// `Close`: remove an open shell and broadcast the updated `Shells`
    /// snapshot; closing an unknown or already-closed id is a no-op, not an
    /// error. Subscriptions are deliberately left untouched.
    pub fn close(&mut self, sid: Sid) -> (b: Vec<WsServer>)
        requires
            old(self).wf(),
        ensures
            final(self).wf(),
            close_post(*old(self), *final(self), sid, b@),
    {
        match self.find_shell(sid) {
            Some(i) => {
                let ghost pre = self.shell_list@;
                self.shell_list.remove(i);
                proof {
                    lemma_logs_after_remove(pre, i as int);
                    lemma_pair_entry(pre, sid);
                    lemma_entry_index_of(pre, i as int);
                    assert(sid_index(old(self).shells(), sid) == i);
                    assert(self.shells() =~= old(self).shells().remove(i as int));
                    if self.shell_open(sid) {
                        lemma_pair_entry(self.shell_list@, sid);
                        assert(false);
                    }
                    assert forall|sd: Sid| sd != sid && old(self).shell_open(sd) implies self
                        .log_of(sd) == #[trigger] old(self).log_of(sd) by {
                        lemma_pair_entry(pre, sd);
                        lemma_pair_entry(self.shell_list@, sd);
                    }
                }
                let snap = self.shells_snapshot();
                let mut b: Vec<WsServer> = Vec::new();
                b.push(WsServer::Shells(snap));
                b
            },
            None => {
                proof {
                    if self.shell_open(sid) {
                        lemma_pair_entry(self.shell_list@, sid);
                    }
                }
                Vec::new()
            },
        }
    }

    /// `Move`: reposition/resize an open shell (`None` geometry means focus
    /// only) and focus it for the sender. Concurrent moves on the same shell
    /// are resolved last-write-wins by arrival order; the sender's focus is
    /// updated no matter whose geometry wins. An unknown id draws an
    /// `Error`.
    pub fn move_shell(&mut self, uid: Uid, sid: Sid, size: Option<WsWinsize>) -> (r: (
        Vec<WsServer>,
        Vec<WsServer>,
    ))
        requires
            old(self).wf(),
        ensures
            final(self).wf(),
            move_post(*old(self), *final(self), uid, sid, size, r.0@, r.1@),
    {
        match self.find_shell(sid) {
            Some(i) => {
                proof {
                    lemma_entry_index_of(self.shell_list@, i as int);
                    lemma_pair_entry(self.shell_list@, sid);
                }
                let mut b: Vec<WsServer> = Vec::new();
                match size {
                    Some(g) => {
                        let ghost pre = self.shell_list@;
                        self.shell_list[i].size = g;
                        proof {
                            lemma_same_sids(pre, self.shell_list@);
                            lemma_pair_entry(pre, sid);
                            lemma_entry_index_of(pre, i as int);
                            assert(self.shells() =~= old(self).shells().update(
                                i as int,
                                (sid, g),
                            ));
                            assert forall|sd: Sid| old(self).shell_open(sd) implies self.log_of(
                                sd,
                            ) == #[trigger] old(self).log_of(sd) by {
                                lemma_pair_entry(pre, sd);
                                lemma_pair_entry(self.shell_list@, sd);
                            }
                        }
                        let snap = self.shells_snapshot();
                        b.push(WsServer::Shells(snap));
                    },
                    None => {},
                }
                let ghost mid = *self;
                let info = match self.user_map.get(uid) {
                    Some(u) => Some((u.name.clone(), u.cursor)),
                    None => None,
                };
                match info {
                    Some((name, cursor)) => {
                        let nu = WsUser { name, cursor, focus: Some(sid) };
                        let mut diff = self.emit_user_update(uid, nu);
                        let ghost b_before = b@;
                        let ghost diff0 = diff@;
                        b.append(&mut diff);
                        proof {
                            assert(b@.skip(b_before.len() as int) =~= diff0);
                        }
                    },
                    None => {},
                }
                proof {
                    assert forall|sd: Sid| old(self).shell_open(sd) implies self.log_of(sd)
                        == #[trigger] old(self).log_of(sd) by {
                        let old_shells = old(self).shells();
                        let j = choose|j: int|
                            0 <= j < old_shells.len() && (#[trigger] old_shells[j]).0 == sd;
                        if size is Some {
                            let g = size.unwrap();
                            assert(mid.shells() == old(self).shells().update(i as int, (sid, g)));
                            assert(mid.shells()[j].0 == sd);
                        } else {
                            assert(mid.shells()[j].0 == sd);
                        }
                        assert(mid.shell_open(sd));
                        assert(self.log_of(sd) == mid.log_of(sd));
                        assert(mid.log_of(sd) == old(self).log_of(sd));
                    }
                }
                (b, Vec::new())
            },
            None => {
                proof {
                    if self.shell_open(sid) {
                        lemma_pair_entry(self.shell_list@, sid);
                    }
                }
                let mut reply: Vec<WsServer> = Vec::new();
                reply.push(WsServer::Error(String::from_str("no such shell")));
                (Vec::new(), reply)
            },
        }
    }

    /// `Subscribe`: set the sender's subscription for an open shell to begin
    /// at `start`, superseding any prior subscription for the same shell; an
    /// unknown id draws an `Error`.
    pub fn subscribe(&mut self, uid: Uid, sid: Sid, start: u64) -> (reply: Vec<WsServer>)
        requires
            old(self).wf(),
        ensures
            final(self).wf(),
            subscribe_post(*old(self), *final(self), uid, sid, start, reply@),
    {
        if !self.is_open(sid) {
            let mut reply: Vec<WsServer> = Vec::new();
            reply.push(WsServer::Error(String::from_str("no such shell")));
            return reply;
        }
        let ghost pre = self.subs@;
        match self.find_sub(uid, sid) {
            Some(i) => {
                self.subs[i] = (uid, sid, start);
                proof {
                    let e = pre[i as int];
                    assert(self.subs@ =~= pre.update(i as int, (e.0, e.1, start)));
                    lemma_update_sub(pre, i as int, start);
                }
            },
            None => {
                self.subs.push((uid, sid, start));
                proof {
                    lemma_push_sub(pre, uid, sid, start);
                }
            },
        }
        Vec::new()
    }

    /// One delivery poll for the (client, shell) subscription: deliver every
    /// log entry from the subscription's next index through the end of the
    /// log in a single `Chunks` message, and advance the next index past
    /// them. Nothing is owed (no subscription, shell closed, or nothing new):
    /// deliver nothing and change nothing.
    pub fn poll_chunks(&mut self, uid: Uid, sid: Sid) -> (r: Option<WsServer>)
        requires
            old(self).wf(),
        ensures
            final(self).wf(),
            poll_post(*old(self), *final(self), uid, sid, r),
    {
        let shell_i = match self.find_shell(sid) {
            Some(i) => i,
            None => {
                proof {
                    if self.shell_open(sid) {
                        lemma_pair_entry(self.shell_list@, sid);
                    }
                }
                return None;
            },
        };
        let sub_i = match self.find_sub(uid, sid) {
            Some(i) => i,
            None => {
                return None;
            },
        };
        proof {
            lemma_sub_at(self.subs@, sub_i as int);
            lemma_entry_index_of(self.shell_list@, shell_i as int);
            lemma_pair_entry(self.shell_list@, sid);
        }
        let k = self.subs[sub_i].2;
        let loglen = self.shell_list[shell_i].log.len();
        if k < loglen as u64 {
            let start = k as usize;
            let mut data: Vec<Vec<u8>> = Vec::new();
            let mut idx: usize = start;
            while idx < loglen
                invariant
                    shell_i < self.shell_list@.len(),
                    loglen == self.shell_list@[shell_i as int].log@.len(),
                    start <= idx <= loglen,
                    data@.len() == idx - start,
                    forall|x: int|
                        0 <= x < data@.len() ==> (#[trigger] data@[x])@ == self.shell_list@[shell_i as int].log@[start + x]@,
                decreases loglen - idx,
            {
                let chunk = self.shell_list[shell_i].log[idx].clone();
                proof {
                    let orig = self.shell_list@[shell_i as int].log@[idx as int];
                    assert forall|x: int| 0 <= x < chunk@.len() implies chunk@[x] == orig@[x] by {
                        assert(vstd::pervasive::cloned(orig@[x], chunk@[x]));
                    }
                    assert(chunk@ =~= orig@);
                }
                data.push(chunk);
                idx = idx + 1;
            }
            let ghost pre = self.subs@;
            self.subs[sub_i] = (uid, sid, loglen as u64);
            proof {
                let e = pre[sub_i as int];
                assert(self.subs@ =~= pre.update(sub_i as int, (e.0, e.1, loglen as u64)));
                lemma_update_sub(pre, sub_i as int, loglen as u64);
                assert(log_view(data@) =~= old(self).log_of(sid).subrange(
                    k as int,
                    old(self).log_of(sid).len() as int,
                ));
            }
            Some(WsServer::Chunks(sid, data))
        } else {
            None
        }
    }

    /// Terminal output arrived for a shell: append one chunk to its log.
    /// The log is append-only; existing chunks never change. Output for an
    /// unknown (for instance, just-closed) shell is dropped.
    pub fn append_chunk(&mut self, sid: Sid, data: Vec<u8>) -> (accepted: bool)
        requires
            old(self).wf(),
        ensures
            final(self).wf(),
            append_post(*old(self), *final(self), sid, data@, accepted),
    {
        match self.find_shell(sid) {
            Some(i) => {
                let ghost pre = self.shell_list@;
                self.shell_list[i].log.push(data);
                proof {
                    lemma_same_sids(pre, self.shell_list@);
                    lemma_pair_entry(pre, sid);
                    lemma_entry_index_of(pre, i as int);
                    assert(self.shells() =~= old(self).shells());
                    assert(self.log_of(sid) =~= old(self).log_of(sid).push(data@));
                    assert forall|sd: Sid| sd != sid && old(self).shell_open(sd) implies self
                        .log_of(sd) == #[trigger] old(self).log_of(sd) by {
                        lemma_pair_entry(pre, sd);
                        lemma_pair_entry(self.shell_list@, sd);
                        assert(self.log_of(sd) =~= old(self).log_of(sd));
                    }
                }
                true
            },
            None => {
                proof {
                    if self.shell_open(sid) {
                        lemma_pair_entry(self.shell_list@, sid);
                    }
                }
                false
            },
        }
    }

    /// `Chat`: stamp the text with the sender's id and current display name,
    /// append it to the room log, and broadcast it as `Hear`.
    pub fn send_chat(&mut self, uid: Uid, text: String) -> (b: Vec<WsServer>)
        requires
            old(self).wf(),
        ensures
            final(self).wf(),
            chat_post(*old(self), *final(self), uid, text@, b@),
    {
        let name = match self.user_map.get(uid) {
            Some(u) => u.name.clone(),
            None => {
                return Vec::new();
            },
        };
        let name2 = name.clone();
        let text2 = text.clone();
        let ghost pre = self.chat_log@;
        self.chat_log.push((uid, name, text));
        proof {
            assert(self.chat() =~= old(self).chat().push((uid, name@, text@)));
        }
        let mut b: Vec<WsServer> = Vec::new();
        b.push(WsServer::Hear(uid, name2, text2));
        b
    }

    /// `Data`: input bytes for an open shell are handed to the terminal
    /// collaborator verbatim; the session state itself is untouched.
    pub fn data_action(&self, sid: Sid, data: Vec<u8>) -> (r: (Option<TermAction>, Vec<WsServer>))
        ensures
            data_post(*self, sid, data@, r.0, r.1@),
    {
        if self.is_open(sid) {
            (Some(TermAction::Write(sid, data)), Vec::new())
        } else {
            let mut reply: Vec<WsServer> = Vec::new();
            reply.push(WsServer::Error(String::from_str("no such shell")));
            (None, reply)
        }
    }

    /// Dispatch one client command. Every variant is handled; the per-variant
    /// contracts below are exactly the per-command postconditions.
    pub fn handle(&mut self, uid: Uid, msg: WsClient) -> (r: Outcome)
        requires
            old(self).wf(),
            msg is Create ==> old(self).can_alloc_sid(),
        ensures
            final(self).wf(),
            (msg matches WsClient::SetName(name) ==> set_name_post(
                *old(self),
                *final(self),
                uid,
                name@,
                r.broadcast@,
            ) && r.reply@.len() == 0 && r.action is None),
            (msg matches WsClient::SetCursor(c) ==> set_cursor_post(
                *old(self),
                *final(self),
                uid,
                c,
                r.broadcast@,
            ) && r.reply@.len() == 0 && r.action is None),
            (msg matches WsClient::SetFocus(f) ==> set_focus_post(
                *old(self),
                *final(self),
                uid,
                f,
                r.broadcast@,
            ) && r.reply@.len() == 0 && r.action is None),
            (msg is Create ==> exists|sid: Sid, size: WsWinsize|
                create_post(*old(self), *final(self), sid, size, r.broadcast@) && r.action
                    == Some(TermAction::Open(sid))),
            (msg matches WsClient::Close(sid) ==> close_post(
                *old(self),
                *final(self),
                sid,
                r.broadcast@,
            ) && r.reply@.len() == 0 && r.action == (if old(self).shell_open(sid) {
                Some(TermAction::Shut(sid))
            } else {
                Option::<TermAction>::None
            })),
            (msg matches WsClient::Move(sid, size) ==> move_post(
                *old(self),
                *final(self),
                uid,
                sid,
                size,
                r.broadcast@,
                r.reply@,
            ) && r.action is None),
            (msg matches WsClient::Data(sid, data) ==> users_same(*old(self), *final(self))
                && shells_same(*old(self), *final(self)) && subs_same(*old(self), *final(self))
                && chat_same(*old(self), *final(self)) && counters_same(*old(self), *final(self))
                && data_post(*old(self), sid, data@, r.action, r.reply@) && r.broadcast@.len()
                == 0),
            (msg matches WsClient::Subscribe(sid, start) ==> subscribe_post(
                *old(self),
                *final(self),
                uid,
                sid,
                start,
                r.reply@,
            ) && r.broadcast@.len() == 0 && r.action is None),
            (msg matches WsClient::Chat(text) ==> chat_post(
                *old(self),
                *final(self),
                uid,
                text@,
                r.broadcast@,
            ) && r.reply@.len() == 0 && r.action is None),
    {
        match msg {
            WsClient::SetName(name) => Outcome {
                broadcast: self.set_name(uid, name),
                reply: Vec::new(),
                action: None,
            },
            WsClient::SetCursor(c) => Outcome {
                broadcast: self.set_cursor(uid, c),
                reply: Vec::new(),
                action: None,
            },
            WsClient::SetFocus(f) => Outcome {
                broadcast: self.set_focus(uid, f),
                reply: Vec::new(),
                action: None,
            },
            WsClient::Create() => {
                let (sid, size, b) = self.create();
                let r = Outcome {
                    broadcast: b,
                    reply: Vec::new(),
                    action: Some(TermAction::Open(sid)),
                };
                proof {
                    assert(create_post(*old(self), *self, sid, size, r.broadcast@));
                }
                r
            },
            WsClient::Close(sid) => {
                let was_open = self.is_open(sid);
                let b = self.close(sid);
                Outcome {
                    broadcast: b,
                    reply: Vec::new(),
                    action: if was_open {
                        Some(TermAction::Shut(sid))
                    } else {
                        None
                    },
                }
            },
            WsClient::Move(sid, size) => {
                let (b, reply) = self.move_shell(uid, sid, size);
                Outcome { broadcast: b, reply, action: None }
            },
            WsClient::Data(sid, data) => {
                let (action, reply) = self.data_action(sid, data);
                Outcome { broadcast: Vec::new(), reply, action }
            },
            WsClient::Subscribe(sid, start) => {
                let reply = self.subscribe(uid, sid, start);
                Outcome { broadcast: Vec::new(), reply, action: None }
            },
            WsClient::Chat(text) => Outcome {
                broadcast: self.send_chat(uid, text),
                reply: Vec::new(),
                action: None,
            },
        }
    }
}

/// A well-formed session's user map is exactly its emitted `UserDiff`
/// history folded over the empty map: the state a client would reach by
/// replaying every diff from the beginning.
pub proof fn lemma_users_from_history(s: &Session)
    requires
        s.wf(),
    ensures
        s.users() == apply_diffs(Map::<Uid, UserView>::empty(), s.emitted_diffs()),
{
}

/// Convergence of a client with the server: a client whose `Users` snapshot
/// was the server map after some emitted prefix, and which has applied, in
/// order, exactly the diffs emitted since, holds the server's authoritative
/// user map.
pub proof fn lemma_session_convergence(
    s: &Session,
    c: &ClientUsers,
    prefix: Seq<(Uid, Option<UserView>)>,
)
    requires
        s.wf(),
        c.inv(),
        c.base_map() == apply_diffs(Map::<Uid, UserView>::empty(), prefix),
        s.emitted_diffs() == prefix + c.applied_diffs(),
    ensures
        c.users() == s.users(),
{
    lemma_apply_diffs_concat(Map::<Uid, UserView>::empty(), prefix, c.applied_diffs());
    crate::users::lemma_user_diff_convergence(c, s.users());
}

/// Each successful poll extends a subscription's delivery trace by one step
/// that satisfies the gap-free delivery discipline of `crate::delivery`: the
/// new delivery starts exactly where the trace so far ended, and the
/// subscription's next index afterwards equals the new total. Together with
/// `crate::delivery::lemma_delivery_gap_free` this shows that the stream of
/// `Chunks` messages one subscription receives covers consecutive indices
/// with no gap and no duplicate.
pub proof fn lemma_poll_extends_trace(
    s0: Session,
    s1: Session,
    uid: Uid,
    sid: Sid,
    r: Option<WsServer>,
    k: int,
    ds: Seq<(int, nat)>,
)
    requires
        poll_post(s0, s1, uid, sid, r),
        deliveries_from(k, ds),
        s0.has_sub(uid, sid),
        s0.sub_next(uid, sid) as int == k + total_count(ds),
        r is Some,
    ensures
        deliveries_from(
            k,
            ds.push(
                (
                    s0.sub_next(uid, sid) as int,
                    (s0.log_of(sid).len() - s0.sub_next(uid, sid)) as nat,
                ),
            ),
        ),
        s1.sub_next(uid, sid) as int == k + total_count(
            ds.push(
                (
                    s0.sub_next(uid, sid) as int,
                    (s0.log_of(sid).len() - s0.sub_next(uid, sid)) as nat,
                ),
            ),
        ),
{
    let start = s0.sub_next(uid, sid) as int;
    let count = (s0.log_of(sid).len() - s0.sub_next(uid, sid)) as nat;
    let e = (start, count);
    let t = ds.push(e);
    assert(t.drop_last() =~= ds);
    assert(total_count(t) == total_count(ds) + count);
    assert forall|i: int| 0 <= i < t.len() implies (#[trigger] t[i]).0 == k + total_count(
        t.take(i),
    ) by {
        assert(t.take(i) =~= ds.take(i));
        if i < ds.len() {
            assert(t[i] == ds[i]);
        } else {
            assert(ds.take(i) =~= ds);
        }
    }
}

/// In a well-formed session no shell id occurs twice in the `Shells`
/// snapshot.
pub proof fn lemma_shells_unique(s: &Session)
    requires
        s.wf(),
    ensures
        forall|i: int, j: int|
            0 <= i < j < s.shells().len() ==> (#[trigger] s.shells()[i]).0 != (
            #[trigger] s.shells()[j]).0,
{
}

} // verus!
