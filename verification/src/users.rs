//! The user map kept on both sides of the protocol, and the `UserDiff`
//! semantics that keep the two in sync.
//!
//! The server holds the authoritative map from `Uid` to presence; a client
//! initializes its local copy from a `Users` snapshot and applies every
//! subsequent `UserDiff` as an upsert-or-delete. Convergence of the two maps
//! is stated and proved at the bottom of this module.

use vstd::prelude::*;

use crate::ids::Uid;
use crate::protocol::{UserView, WsUser};

verus! {

/// The effect of one `UserDiff(uid, user)` message on a user map:
/// `Some` means the user joined or changed (upsert), `None` means the user
/// left (delete).
pub open spec fn apply_diff(
    m: Map<Uid, UserView>,
    uid: Uid,
    user: Option<UserView>,
) -> Map<Uid, UserView> {
    match user {
        Some(u) => m.insert(uid, u),
        None => m.remove(uid),
    }
}

/// Fold a sequence of diffs, oldest first, over a user map.
pub open spec fn apply_diffs(
    m: Map<Uid, UserView>,
    ds: Seq<(Uid, Option<UserView>)>,
) -> Map<Uid, UserView>
    decreases ds.len(),
{
    if ds.len() == 0 {
        m
    } else {
        apply_diff(apply_diffs(m, ds.drop_last()), ds.last().0, ds.last().1)
    }
}

pub proof fn lemma_apply_diffs_push(
    m: Map<Uid, UserView>,
    ds: Seq<(Uid, Option<UserView>)>,
    d: (Uid, Option<UserView>),
)
    ensures
        apply_diffs(m, ds.push(d)) == apply_diff(apply_diffs(m, ds), d.0, d.1),
{
    assert(ds.push(d).drop_last() =~= ds);
    assert(ds.push(d).last() == d);
}

/// Diffs can be folded in stages: applying a concatenated history is the same
/// as applying its first part, then its second.
pub proof fn lemma_apply_diffs_concat(
    m: Map<Uid, UserView>,
    a: Seq<(Uid, Option<UserView>)>,
    b: Seq<(Uid, Option<UserView>)>,
)
    ensures
        apply_diffs(m, a + b) == apply_diffs(apply_diffs(m, a), b),
    decreases b.len(),
{
    if b.len() == 0 {
        assert(a + b =~= a);
    } else {
        lemma_apply_diffs_concat(m, a, b.drop_last());
        assert((a + b).drop_last() =~= a + b.drop_last());
        assert((a + b).last() == b.last());
    }
}

/// The view of one `(Uid, WsUser)` entry list, as carried by a `Users`
/// snapshot message.
pub open spec fn pairs_view(s: Seq<(Uid, WsUser)>) -> Seq<(Uid, UserView)> {
    s.map_values(|p: (Uid, WsUser)| (p.0, p.1@))
}

/// The view of an optional presence, as carried by a `UserDiff` message.
pub open spec fn view_opt(u: Option<WsUser>) -> Option<UserView> {
    match u {
        Some(x) => Some(x@),
        None => None,
    }
}

/// No user id occurs twice in the entry list.
pub open spec fn unique_keys(s: Seq<(Uid, UserView)>) -> bool {
    forall|i: int, j: int|
        0 <= i < j < s.len() ==> (#[trigger] s[i]).0 != (#[trigger] s[j]).0
}

/// The map described by an entry list; on a duplicated key the later entry
/// wins, matching an upsert-by-upsert construction.
pub open spec fn map_of(s: Seq<(Uid, UserView)>) -> Map<Uid, UserView>
    decreases s.len(),
{
    if s.len() == 0 {
        Map::empty()
    } else {
        map_of(s.drop_last()).insert(s.last().0, s.last().1)
    }
}

pub proof fn lemma_map_of_contains(s: Seq<(Uid, UserView)>, k: Uid)
    ensures
        map_of(s).contains_key(k) <==> exists|i: int|
            0 <= i < s.len() && (#[trigger] s[i]).0 == k,
    decreases s.len(),
{
    if s.len() == 0 {
    } else {
        lemma_map_of_contains(s.drop_last(), k);
        if s.last().0 == k {
            assert(s[s.len() - 1].0 == k);
        } else {
            assert(map_of(s).contains_key(k) <==> map_of(s.drop_last()).contains_key(k));
            if exists|i: int| 0 <= i < s.drop_last().len() && (#[trigger] s.drop_last()[i]).0 == k {
                let i = choose|i: int|
                    0 <= i < s.drop_last().len() && (#[trigger] s.drop_last()[i]).0 == k;
                assert(s[i].0 == k);
            }
            if exists|i: int| 0 <= i < s.len() && (#[trigger] s[i]).0 == k {
                let i = choose|i: int| 0 <= i < s.len() && (#[trigger] s[i]).0 == k;
                assert(i < s.len() - 1);
                assert(s.drop_last()[i].0 == k);
            }
        }
    }
}

pub proof fn lemma_map_of_index(s: Seq<(Uid, UserView)>, i: int)
    requires
        unique_keys(s),
        0 <= i < s.len(),
    ensures
        map_of(s).contains_key(s[i].0),
        map_of(s)[s[i].0] == s[i].1,
    decreases s.len(),
{
    if i == s.len() - 1 {
    } else {
        assert(unique_keys(s.drop_last())) by {
            assert(forall|x: int, y: int|
                0 <= x < y < s.drop_last().len() ==> (#[trigger] s.drop_last()[x]).0
                    != (#[trigger] s.drop_last()[y]).0) by {
                assert(forall|x: int|
                    0 <= x < s.drop_last().len() ==> #[trigger] s.drop_last()[x] == s[x]);
            }
        }
        assert(s.drop_last()[i] == s[i]);
        lemma_map_of_index(s.drop_last(), i);
        assert(s.last().0 != s[i].0);
    }
}

pub proof fn lemma_map_of_push(s: Seq<(Uid, UserView)>, p: (Uid, UserView))
    ensures
        map_of(s.push(p)) == map_of(s).insert(p.0, p.1),
{
    assert(s.push(p).drop_last() =~= s);
    assert(s.push(p).last() == p);
}

pub proof fn lemma_map_of_update(s: Seq<(Uid, UserView)>, i: int, v: UserView)
    requires
        unique_keys(s),
        0 <= i < s.len(),
    ensures
        map_of(s.update(i, (s[i].0, v))) == map_of(s).insert(s[i].0, v),
    decreases s.len(),
{
    let k = s[i].0;
    let t = s.update(i, (k, v));
    if i == s.len() - 1 {
        assert(t.drop_last() =~= s.drop_last());
        assert(t.last() == (k, v));
        assert(map_of(s.drop_last()).insert(k, s.last().1).insert(k, v) =~= map_of(
            s.drop_last(),
        ).insert(k, v));
    } else {
        assert(unique_keys(s.drop_last())) by {
            assert(forall|x: int|
                0 <= x < s.drop_last().len() ==> #[trigger] s.drop_last()[x] == s[x]);
        }
        assert(s.drop_last()[i] == s[i]);
        lemma_map_of_update(s.drop_last(), i, v);
        assert(t.drop_last() =~= s.drop_last().update(i, (k, v)));
        assert(t.last() == s.last());
        assert(s.last().0 != k);
        assert(map_of(s.drop_last()).insert(k, v).insert(s.last().0, s.last().1) =~= map_of(
            s.drop_last(),
        ).insert(s.last().0, s.last().1).insert(k, v));
    }
}

pub proof fn lemma_map_of_remove(s: Seq<(Uid, UserView)>, i: int)
    requires
        unique_keys(s),
        0 <= i < s.len(),
    ensures
        map_of(s.remove(i)) == map_of(s).remove(s[i].0),
    decreases s.len(),
{
    let k = s[i].0;
    if i == s.len() - 1 {
        assert(s.remove(i) =~= s.drop_last());
        lemma_map_of_contains(s.drop_last(), k);
        assert(forall|x: int|
            0 <= x < s.drop_last().len() ==> (#[trigger] s.drop_last()[x]).0 != k);
        assert(!map_of(s.drop_last()).contains_key(k));
        assert(map_of(s.drop_last()).insert(k, s.last().1).remove(k) =~= map_of(s.drop_last()));
    } else {
        assert(unique_keys(s.drop_last())) by {
            assert(forall|x: int|
                0 <= x < s.drop_last().len() ==> #[trigger] s.drop_last()[x] == s[x]);
        }
        assert(s.drop_last()[i] == s[i]);
        lemma_map_of_remove(s.drop_last(), i);
        assert(s.remove(i).drop_last() =~= s.drop_last().remove(i));
        assert(s.remove(i).last() == s.last());
        assert(s.last().0 != k);
        assert(map_of(s.drop_last()).remove(k).insert(s.last().0, s.last().1) =~= map_of(
            s.drop_last(),
        ).insert(s.last().0, s.last().1).remove(k));
    }
}

/// The user map: an insertion-ordered entry list with unique ids, seen in
/// contracts as a `Map` from `Uid` to presence.
pub struct UserMap {
    entries: Vec<(Uid, WsUser)>,
}

impl View for UserMap {
    type V = Map<Uid, UserView>;

    closed spec fn view(&self) -> Map<Uid, UserView> {
        map_of(pairs_view(self.entries@))
    }
}

impl UserMap {
    /// The entry list itself, in insertion order; `Users` snapshots carry it.
    pub closed spec fn entries_view(&self) -> Seq<(Uid, UserView)> {
        pairs_view(self.entries@)
    }

    pub closed spec fn wf(&self) -> bool {
        unique_keys(self.entries_view())
    }

    pub fn new() -> (m: UserMap)
        ensures
            m.wf(),
            m@ == Map::<Uid, UserView>::empty(),
            m.entries_view() == Seq::<(Uid, UserView)>::empty(),
    {
        UserMap { entries: Vec::new() }
    }

    fn find(&self, uid: Uid) -> (r: Option<usize>)
        ensures
            match r {
                Some(i) => i < self.entries@.len() && self.entries@[i as int].0 == uid,
                None => forall|i: int|
                    0 <= i < self.entries@.len() ==> (#[trigger] self.entries@[i]).0 != uid,
            },
    {
        let mut i: usize = 0;
        while i < self.entries.len()
            invariant
                i <= self.entries@.len(),
                forall|j: int| 0 <= j < i ==> (#[trigger] self.entries@[j]).0 != uid,
            decreases self.entries@.len() - i,
        {
            if self.entries[i].0 == uid {
                return Some(i);
            }
            i = i + 1;
        }
        None
    }

    pub fn contains(&self, uid: Uid) -> (b: bool)
        ensures
            b == self@.contains_key(uid),
    {
        proof {
            lemma_map_of_contains(self.entries_view(), uid);
        }
        match self.find(uid) {
            Some(i) => {
                proof {
                    assert(self.entries_view()[i as int].0 == uid);
                }
                true
            },
            None => {
                proof {
                    assert(forall|i: int|
                        0 <= i < self.entries_view().len() ==> (#[trigger] self.entries_view()[i]).0
                            != uid);
                }
                false
            },
        }
    }

    pub fn get(&self, uid: Uid) -> (r: Option<&WsUser>)
        requires
            self.wf(),
        ensures
            match r {
                Some(u) => self@.contains_key(uid) && u@ == self@[uid],
                None => !self@.contains_key(uid),
            },
    {
        match self.find(uid) {
            Some(i) => {
                proof {
                    assert(self.entries_view()[i as int].0 == uid);
                    lemma_map_of_index(self.entries_view(), i as int);
                }
                Some(&self.entries[i].1)
            },
            None => {
                proof {
                    lemma_map_of_contains(self.entries_view(), uid);
                }
                None
            },
        }
    }

    /// Insert or overwrite the presence stored under `uid`.
    pub fn upsert(&mut self, uid: Uid, user: WsUser)
        requires
            old(self).wf(),
        ensures
            final(self).wf(),
            final(self)@ == old(self)@.insert(uid, user@),
    {
        let ghost s = self.entries_view();
        match self.find(uid) {
            Some(i) => {
                self.entries[i] = (uid, user);
                proof {
                    assert(self.entries_view() =~= s.update(i as int, (uid, user@)));
                    assert(s[i as int].0 == uid);
                    lemma_map_of_update(s, i as int, user@);
                    assert(final(self).wf()) by {
                        assert(forall|x: int|
                            0 <= x < s.len() && x != i ==> #[trigger] s.update(
                                i as int,
                                (uid, user@),
                            )[x] == s[x]);
                    }
                }
            },
            None => {
                self.entries.push((uid, user));
                proof {
                    assert(self.entries_view() =~= s.push((uid, user@)));
                    lemma_map_of_push(s, (uid, user@));
                    assert(final(self).wf()) by {
                        assert(forall|x: int|
                            0 <= x < s.len() ==> #[trigger] s.push((uid, user@))[x] == s[x]);
                        assert(s.push((uid, user@))[s.len() as int] == (uid, user@));
                    }
                }
            },
        }
    }

    /// Remove the entry stored under `uid`, if any.
    pub fn remove_key(&mut self, uid: Uid)
        requires
            old(self).wf(),
        ensures
            final(self).wf(),
            final(self)@ == old(self)@.remove(uid),
    {
        let ghost s = self.entries_view();
        match self.find(uid) {
            Some(i) => {
                self.entries.remove(i);
                proof {
                    assert(self.entries_view() =~= s.remove(i as int));
                    assert(s[i as int].0 == uid);
                    lemma_map_of_remove(s, i as int);
                    assert(final(self).wf()) by {
                        assert(forall|x: int|
                            0 <= x < s.remove(i as int).len() ==> (#[trigger] s.remove(
                                i as int,
                            )[x]) == (if x < i { s[x] } else { s[x + 1] }));
                    }
                }
            },
            None => {
                proof {
                    lemma_map_of_contains(s, uid);
                    assert(map_of(s).remove(uid) =~= map_of(s));
                }
            },
        }
    }

    /// A full copy of the entry list, as the payload of a `Users` snapshot.
    pub fn snapshot(&self) -> (r: Vec<(Uid, WsUser)>)
        ensures
            r@.len() == self.entries_view().len(),
            pairs_view(r@) == self.entries_view(),
    {
        let mut out: Vec<(Uid, WsUser)> = Vec::new();
        let mut i: usize = 0;
        while i < self.entries.len()
            invariant
                i <= self.entries@.len(),
                out@ =~= self.entries@.take(i as int),
            decreases self.entries@.len() - i,
        {
            let uid = self.entries[i].0;
            let user = self.entries[i].1.duplicate();
            out.push((uid, user));
            i = i + 1;
        }
        proof {
            assert(out@ =~= self.entries@);
            assert(pairs_view(out@) =~= self.entries_view());
        }
        out
    }
}

/// The entry list of a well-formed `UserMap` has unique keys and describes
/// exactly the map it is viewed as; a `Users` snapshot therefore lets a
/// client rebuild that map.
pub proof fn lemma_snapshot_map(m: &UserMap)
    requires
        m.wf(),
    ensures
        unique_keys(m.entries_view()),
        map_of(m.entries_view()) == m@,
{
}

/// A client's local copy of the user map, built from a `Users` snapshot and
/// kept current by applying each received `UserDiff` in order. The applied
/// diffs are remembered in ghost state so that convergence with the server
/// can be stated.
pub struct ClientUsers {
    map: UserMap,
    base: Ghost<Map<Uid, UserView>>,
    applied: Ghost<Seq<(Uid, Option<UserView>)>>,
}

impl ClientUsers {
    /// The snapshot this client started from.
    pub closed spec fn base_map(&self) -> Map<Uid, UserView> {
        self.base@
    }

    /// Every diff applied since the snapshot, oldest first.
    pub closed spec fn applied_diffs(&self) -> Seq<(Uid, Option<UserView>)> {
        self.applied@
    }

    /// The client's current local user map.
    pub closed spec fn users(&self) -> Map<Uid, UserView> {
        self.map@
    }

    pub closed spec fn inv(&self) -> bool {
        self.map.wf() && self.map@ == apply_diffs(self.base@, self.applied@)
    }

    /// Initialize local state from the entry list of a `Users` snapshot.
    pub fn from_snapshot(users: &Vec<(Uid, WsUser)>) -> (c: ClientUsers)
        ensures
            c.inv(),
            c.base_map() == map_of(pairs_view(users@)),
            c.applied_diffs() == Seq::<(Uid, Option<UserView>)>::empty(),
            c.users() == map_of(pairs_view(users@)),
    {
        let mut map = UserMap::new();
        let mut i: usize = 0;
        while i < users.len()
            invariant
                i <= users@.len(),
                map.wf(),
                map@ == map_of(pairs_view(users@.take(i as int))),
            decreases users@.len() - i,
        {
            let uid = users[i].0;
            let user = users[i].1.duplicate();
            proof {
                assert(pairs_view(users@.take(i + 1)) =~= pairs_view(users@.take(i as int)).push(
                    (users@[i as int].0, users@[i as int].1@),
                ));
                lemma_map_of_push(
                    pairs_view(users@.take(i as int)),
                    (users@[i as int].0, users@[i as int].1@),
                );
            }
            map.upsert(uid, user);
            i = i + 1;
        }
        proof {
            assert(users@.take(users@.len() as int) =~= users@);
        }
        ClientUsers { map, base: Ghost(map_of(pairs_view(users@))), applied: Ghost(Seq::empty()) }
    }

    /// Look up the presence this client currently holds for `uid`.
    pub fn get(&self, uid: Uid) -> (r: Option<&WsUser>)
        requires
            self.inv(),
        ensures
            match r {
                Some(u) => self.users().contains_key(uid) && u@ == self.users()[uid],
                None => !self.users().contains_key(uid),
            },
    {
        self.map.get(uid)
    }

    /// Apply one `UserDiff` message: upsert on `Some`, delete on `None`.
    /// Ordering across diffs for the same `Uid` is significant, so diffs must
    /// be applied in the order received (last write wins).
    pub fn apply(&mut self, uid: Uid, user: Option<WsUser>)
        requires
            old(self).inv(),
        ensures
            final(self).inv(),
            final(self).users() == apply_diff(old(self).users(), uid, view_opt(user)),
            final(self).base_map() == old(self).base_map(),
            final(self).applied_diffs() == old(self).applied_diffs().push(
                (uid, view_opt(user)),
            ),
    {
        let ghost d = (uid, view_opt(user));
        match user {
            Some(u) => {
                self.map.upsert(uid, u);
            },
            None => {
                self.map.remove_key(uid);
            },
        }
        proof {
            lemma_apply_diffs_push(self.base@, self.applied@, d);
        }
        self.applied = Ghost(self.applied@.push(d));
    }
}

/// Convergence of a client's local map with the server's authoritative one:
/// a client that starts from a `Users` snapshot and applies, in order, every
/// diff the server emitted after that snapshot holds exactly the map the
/// server holds, namely the same diffs folded over the same snapshot.
pub proof fn lemma_user_diff_convergence(c: &ClientUsers, server: Map<Uid, UserView>)
    requires
        c.inv(),
        server == apply_diffs(c.base_map(), c.applied_diffs()),
    ensures
        c.users() == server,
{
}

} // verus!
