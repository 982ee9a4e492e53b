//! Room membership and socket selection for one namespace.

use vstd::prelude::*;

verus! {

/// The identifier of a connected socket inside the process.
pub type Sid = u64;

/// A room name.
pub type Room = String;

/// The views of a sequence of rooms.
pub open spec fn room_views(v: Seq<Room>) -> Seq<Seq<char>> {
    v.map_values(|r: Room| r@)
}

/// Whether the membership list `ms` puts socket `s` in the room named `r`.
pub open spec fn lists_member(ms: Seq<(Sid, Room)>, s: Sid, r: Seq<char>) -> bool {
    exists|i: int| 0 <= i < ms.len() && #[trigger] ms[i] == (s, ms[i].1) && ms[i].1@ == r
}

/// What a terminal operation applies to, and how.
pub struct BroadcastOptions {
    /// The emitting socket, if the selection started from one.
    pub sid: Option<Sid>,
    /// Rooms whose members are selected; none selects every socket.
    pub rooms: Vec<Room>,
    /// Rooms whose members are left out.
    pub except: Vec<Room>,
    /// Leave out the emitting socket.
    pub broadcast: bool,
    /// Only sockets attached to this node.
    pub local: bool,
    /// Ack timeout in milliseconds, when one was set.
    pub timeout_ms: Option<u64>,
}

impl BroadcastOptions {
    /// Options that select every socket of the namespace.
    pub fn new(sid: Option<Sid>) -> (r: BroadcastOptions)
        ensures
            r.sid == sid,
            r.rooms@.len() == 0,
            r.except@.len() == 0,
            !r.broadcast,
            !r.local,
            r.timeout_ms.is_none(),
    {
        BroadcastOptions {
            sid,
            rooms: Vec::new(),
            except: Vec::new(),
            broadcast: false,
            local: false,
            timeout_ms: None,
        }
    }
}

/// The sockets of a namespace and the rooms they belong to.
pub struct Namespace {
    path: String,
    sockets: Vec<Sid>,
    memberships: Vec<(Sid, Room)>,
}

impl Namespace {
    /// The namespace path, such as `/` or `/chat`.
    pub closed spec fn spec_path(&self) -> Seq<char> {
        self.path@
    }

    /// The namespace path.
    pub fn path(&self) -> (r: &String)
        ensures
            r@ == self.spec_path(),
    {
        &self.path
    }

    /// The connected sockets, in the order they connected.
    pub closed spec fn socket_seq(&self) -> Seq<Sid> {
        self.sockets@
    }

    /// Whether socket `s` is in the room named `r`.
    pub closed spec fn is_member(&self, s: Sid, r: Seq<char>) -> bool {
        lists_member(self.memberships@, s, r)
    }

    /// Each socket is listed once.
    pub open spec fn wf(&self) -> bool {
        self.socket_seq().no_duplicates()
    }

    /// Whether `opts` selects the connected socket `s`.
    pub open spec fn selected(&self, opts: &BroadcastOptions, s: Sid) -> bool {
        &&& (opts.rooms@.len() == 0 || exists|i: int|
            0 <= i < opts.rooms@.len() && self.is_member(s, #[trigger] opts.rooms@[i]@))
        &&& forall|j: int|
            0 <= j < opts.except@.len() ==> !self.is_member(s, #[trigger] opts.except@[j]@)
        &&& !(opts.broadcast && opts.sid == Some(s))
    }

    /// The sockets that `opts` selects, in connection order.
    pub open spec fn resolve(&self, opts: &BroadcastOptions) -> Seq<Sid> {
        self.socket_seq().filter(|s: Sid| self.selected(opts, s))
    }

    /// An empty namespace.
    pub fn new(path: String) -> (r: Namespace)
        ensures
            r.spec_path() == path@,
            r.wf(),
            r.socket_seq().len() == 0,
            forall|s: Sid, room: Seq<char>| !r.is_member(s, room),
    {
        Namespace { path, sockets: Vec::new(), memberships: Vec::new() }
    }

    /// Whether `s` is connected to the namespace.
    pub fn has_socket(&self, s: Sid) -> (r: bool)
        ensures
            r == self.socket_seq().contains(s),
    {
        let mut i: usize = 0;
        while i < self.sockets.len()
            invariant
                i <= self.sockets@.len(),
                forall|k: int| 0 <= k < i ==> self.sockets@[k] != s,
            decreases self.sockets@.len() - i,
        {
            if self.sockets[i] == s {
                return true;
            }
            i = i + 1;
        }
        false
    }

    /// Whether `s` is in `room`.
    pub fn in_room(&self, s: Sid, room: &Room) -> (r: bool)
        ensures
            r == self.is_member(s, room@),
    {
        let mut i: usize = 0;
        while i < self.memberships.len()
            invariant
                i <= self.memberships@.len(),
                forall|k: int|
                    0 <= k < i ==> !(#[trigger] self.memberships@[k] == (s, self.memberships@[k].1)
                        && self.memberships@[k].1@ == room@),
            decreases self.memberships@.len() - i,
        {
            if self.memberships[i].0 == s && self.memberships[i].1 == *room {
                proof {
                    let ms = self.memberships@;
                    assert(ms[i as int] == (s, ms[i as int].1));
                }
                return true;
            }
            i = i + 1;
        }
        false
    }

    /// Connect `s` to the namespace; nothing changes if it already is.
    pub fn add_socket(&mut self, s: Sid)
        requires
            old(self).wf(),
        ensures
            final(self).wf(),
            final(self).spec_path() == old(self).spec_path(),
            final(self).socket_seq() == if old(self).socket_seq().contains(s) {
                old(self).socket_seq()
            } else {
                old(self).socket_seq().push(s)
            },
            forall|t: Sid, room: Seq<char>|
                #[trigger] final(self).is_member(t, room) == old(self).is_member(t, room),
    {
        if !self.has_socket(s) {
            self.sockets.push(s);
        }
    }

    /// Disconnect `s`: it leaves the namespace and all of its rooms.
    pub fn remove_socket(&mut self, s: Sid)
        requires
            old(self).wf(),
        ensures
            final(self).wf(),
            final(self).spec_path() == old(self).spec_path(),
            final(self).socket_seq() == old(self).socket_seq().filter(|t: Sid| t != s),
            forall|t: Sid, room: Seq<char>|
                #[trigger] final(self).is_member(t, room) == (old(self).is_member(t, room) && t
                    != s),
    {
        self.del_all(s);
        let ghost mid = *self;
        let ghost before = self.sockets@;
        let mut kept: Vec<Sid> = Vec::new();
        let mut i: usize = 0;
        while i < self.sockets.len()
            invariant
                i <= self.sockets@.len(),
                self.sockets@ == before,
                before.no_duplicates(),
                kept@ == before.take(i as int).filter(|t: Sid| t != s),
                kept@.no_duplicates(),
                forall|x: Sid| kept@.contains(x) ==> before.take(i as int).contains(x),
            decreases self.sockets@.len() - i,
        {
            let t = self.sockets[i];
            let ghost prev = kept@;
            proof {
                assert(before.take(i + 1) == before.take(i as int).push(t));
                before.take(i as int).lemma_filter_push(t, |t: Sid| t != s);
                assert(!before.take(i as int).contains(t)) by {
                    if before.take(i as int).contains(t) {
                        let k = choose|k: int| 0 <= k < i && before.take(i as int)[k] == t;
                        assert(before[k] == before[i as int]);
                    }
                }
            }
            if t != s {
                kept.push(t);
                proof {
                    assert forall|a: int, b: int|
                        0 <= a < kept@.len() && 0 <= b < kept@.len() && a != b implies kept@[a]
                            != kept@[b] by {
                        if a < prev.len() && b < prev.len() {
                            assert(prev[a] != prev[b]);
                        } else if a < prev.len() {
                            assert(prev.contains(prev[a]));
                        } else {
                            assert(prev.contains(prev[b]));
                        }
                    }
                }
            }
            proof {
                assert forall|x: Sid| kept@.contains(x) implies before.take(i + 1).contains(x) by {
                    if prev.contains(x) {
                        let k = choose|k: int| 0 <= k < i && before.take(i as int)[k] == x;
                        assert(before.take(i + 1)[k] == x);
                    } else {
                        assert(before.take(i + 1)[i as int] == x);
                    }
                }
            }
            i = i + 1;
        }
        assert(before.take(before.len() as int) == before);
        self.sockets = kept;
        assert(self.memberships@ == mid.memberships@);
        assert forall|t: Sid, room: Seq<char>|
            #[trigger] self.is_member(t, room) == mid.is_member(t, room) by {}
    }

    /// Put `s` in each of `rooms`.
    pub fn add_all(&mut self, s: Sid, rooms: &Vec<Room>)
        requires
            old(self).wf(),
        ensures
            final(self).wf(),
            final(self).spec_path() == old(self).spec_path(),
            final(self).socket_seq() == old(self).socket_seq(),
            forall|t: Sid, room: Seq<char>|
                #[trigger] final(self).is_member(t, room) == (old(self).is_member(t, room) || (t
                    == s && room_views(rooms@).contains(room))),
    {
        let ghost start = *self;
        let mut j: usize = 0;
        while j < rooms.len()
            invariant
                j <= rooms@.len(),
                self.wf(),
                self.spec_path() == start.spec_path(),
                self.socket_seq() == start.socket_seq(),
                forall|t: Sid, room: Seq<char>|
                    #[trigger] self.is_member(t, room) == (start.is_member(t, room) || (t == s
                        && room_views(rooms@).take(j as int).contains(room))),
            decreases rooms@.len() - j,
        {
            let ghost prev = self.memberships@;
            let ghost prev_self = *self;
            if !self.in_room(s, &rooms[j]) {
                self.memberships.push((s, rooms[j].clone()));
                proof {
                    lemma_lists_member_push(prev, (s, rooms@[j as int]));
                }
            }
            proof {
                let rv = room_views(rooms@);
                assert(rv.take(j + 1) == rv.take(j as int).push(rooms@[j as int]@));
                assert forall|t: Sid, room: Seq<char>|
                    #[trigger] self.is_member(t, room) == (start.is_member(t, room) || (t == s
                        && rv.take(j + 1).contains(room))) by {
                    assert(rv.take(j + 1)[j as int] == rooms@[j as int]@);
                    if t == s && room == rooms@[j as int]@ {
                        assert(lists_member(self.memberships@, t, room));
                    } else {
                        assert(lists_member(self.memberships@, t, room) == lists_member(
                            prev,
                            t,
                            room,
                        ));
                        assert(prev_self.is_member(t, room) == lists_member(prev, t, room));
                    }
                    if room != rooms@[j as int]@ {
                        if rv.take(j + 1).contains(room) {
                            let k = choose|k: int| 0 <= k < j + 1 && #[trigger] rv.take(j + 1)[k] == room;
                            assert(rv.take(j as int)[k] == room);
                        }
                        if rv.take(j as int).contains(room) {
                            let k = choose|k: int| 0 <= k < j && #[trigger] rv.take(j as int)[k] == room;
                            assert(rv.take(j + 1)[k] == room);
                        }
                    }
                }
            }
            j = j + 1;
        }
        assert(room_views(rooms@).take(rooms@.len() as int) == room_views(rooms@));
    }

    /// Drop the memberships of `s` in `rooms`, or in every room when `all` holds.
    fn retain_memberships(&mut self, s: Sid, rooms: &Vec<Room>, all: bool)
        requires
            old(self).wf(),
        ensures
            final(self).wf(),
            final(self).spec_path() == old(self).spec_path(),
            final(self).socket_seq() == old(self).socket_seq(),
            forall|t: Sid, room: Seq<char>|
                #[trigger] final(self).is_member(t, room) == (old(self).is_member(t, room) && !(t
                    == s && (all || room_views(rooms@).contains(room)))),
    {
        let ghost before = self.memberships@;
        let ghost gone = |t: Sid, room: Seq<char>|
            t == s && (all || room_views(rooms@).contains(room));
        let mut kept: Vec<(Sid, Room)> = Vec::new();
        let mut i: usize = 0;
        while i < self.memberships.len()
            invariant
                i <= before.len(),
                self.memberships@ == before,
                gone == (|t: Sid, room: Seq<char>|
                    t == s && (all || room_views(rooms@).contains(room))),
                forall|t: Sid, room: Seq<char>|
                    #[trigger] lists_member(kept@, t, room) == (lists_member(
                        before.take(i as int),
                        t,
                        room,
                    ) && !gone(t, room)),
            decreases before.len() - i,
        {
            let ghost prev = kept@;
            let drop = self.memberships[i].0 == s && (all || self.names_room(
                rooms,
                &self.memberships[i].1,
            ));
            let x = (self.memberships[i].0, self.memberships[i].1.clone());
            proof {
                assert(before.take(i + 1) == before.take(i as int).push(before[i as int]));
                lemma_lists_member_push(before.take(i as int), before[i as int]);
            }
            if !drop {
                kept.push(x);
                proof {
                    lemma_lists_member_push(prev, x);
                }
            }
            i = i + 1;
        }
        assert(before.take(before.len() as int) == before);
        self.memberships = kept;
    }

    /// Whether `room` is one of `rooms`.
    fn names_room(&self, rooms: &Vec<Room>, room: &Room) -> (r: bool)
        ensures
            r == room_views(rooms@).contains(room@),
    {
        let mut j: usize = 0;
        while j < rooms.len()
            invariant
                j <= rooms@.len(),
                forall|k: int| 0 <= k < j ==> rooms@[k]@ != room@,
            decreases rooms@.len() - j,
        {
            if rooms[j] == *room {
                proof {
                    assert(room_views(rooms@)[j as int] == room@);
                }
                return true;
            }
            j = j + 1;
        }
        proof {
            if room_views(rooms@).contains(room@) {
                let k = choose|k: int|
                    0 <= k < room_views(rooms@).len() && room_views(rooms@)[k] == room@;
                assert(rooms@[k]@ == room@);
            }
        }
        false
    }

    /// Take `s` out of each of `rooms`.
    pub fn del(&mut self, s: Sid, rooms: &Vec<Room>)
        requires
            old(self).wf(),
        ensures
            final(self).wf(),
            final(self).spec_path() == old(self).spec_path(),
            final(self).socket_seq() == old(self).socket_seq(),
            forall|t: Sid, room: Seq<char>|
                #[trigger] final(self).is_member(t, room) == (old(self).is_member(t, room) && !(t
                    == s && room_views(rooms@).contains(room))),
    {
        self.retain_memberships(s, rooms, false);
    }

    /// Take `s` out of every room.
    pub fn del_all(&mut self, s: Sid)
        requires
            old(self).wf(),
        ensures
            final(self).wf(),
            final(self).spec_path() == old(self).spec_path(),
            final(self).socket_seq() == old(self).socket_seq(),
            forall|t: Sid, room: Seq<char>|
                #[trigger] final(self).is_member(t, room) == (old(self).is_member(t, room) && t
                    != s),
    {
        let none: Vec<Room> = Vec::new();
        self.retain_memberships(s, &none, true);
    }
    /// Whether `opts` selects `s`.
    pub fn is_selected(&self, opts: &BroadcastOptions, s: Sid) -> (r: bool)
        ensures
            r == self.selected(opts, s),
    {
        if opts.broadcast && opts.sid == Some(s) {
            return false;
        }
        let mut in_rooms = opts.rooms.len() == 0;
        let mut i: usize = 0;
        while i < opts.rooms.len() && !in_rooms
            invariant
                i <= opts.rooms@.len(),
                in_rooms == (opts.rooms@.len() == 0 || exists|k: int|
                    0 <= k < i && self.is_member(s, #[trigger] opts.rooms@[k]@)),
            decreases opts.rooms@.len() - i,
        {
            if self.in_room(s, &opts.rooms[i]) {
                in_rooms = true;
            }
            i = i + 1;
        }
        if !in_rooms {
            return false;
        }
        let mut j: usize = 0;
        while j < opts.except.len()
            invariant
                j <= opts.except@.len(),
                forall|k: int| 0 <= k < j ==> !self.is_member(s, #[trigger] opts.except@[k]@),
            decreases opts.except@.len() - j,
        {
            if self.in_room(s, &opts.except[j]) {
                return false;
            }
            j = j + 1;
        }
        true
    }

    /// The sockets that `opts` selects, in connection order.
    pub fn sockets(&self, opts: &BroadcastOptions) -> (r: Vec<Sid>)
        requires
            self.wf(),
        ensures
            r@ == self.resolve(opts),
            r@.no_duplicates(),
    {
        let ghost pred = |t: Sid| self.selected(opts, t);
        let mut out: Vec<Sid> = Vec::new();
        let mut i: usize = 0;
        while i < self.sockets.len()
            invariant
                i <= self.sockets@.len(),
                self.wf(),
                pred == (|t: Sid| self.selected(opts, t)),
                out@ == self.sockets@.take(i as int).filter(pred),
            decreases self.sockets@.len() - i,
        {
            let t = self.sockets[i];
            proof {
                assert(self.sockets@.take(i + 1) == self.sockets@.take(i as int).push(t));
                self.sockets@.take(i as int).lemma_filter_push(t, pred);
            }
            if self.is_selected(opts, t) {
                out.push(t);
            }
            i = i + 1;
        }
        assert(self.sockets@.take(self.sockets@.len() as int) == self.sockets@);
        proof {
            lemma_filter_no_duplicates(self.sockets@, pred);
        }
        out
    }

    /// Put every socket that `opts` selects in each of `rooms`.
    pub fn add_sockets(&mut self, opts: &BroadcastOptions, rooms: &Vec<Room>)
        requires
            old(self).wf(),
        ensures
            final(self).wf(),
            final(self).spec_path() == old(self).spec_path(),
            final(self).socket_seq() == old(self).socket_seq(),
            forall|t: Sid, room: Seq<char>|
                #[trigger] final(self).is_member(t, room) == (old(self).is_member(t, room) || (
                old(self).resolve(opts).contains(t) && room_views(rooms@).contains(room))),
    {
        let targets = self.sockets(opts);
        let ghost start = *self;
        let mut i: usize = 0;
        while i < targets.len()
            invariant
                i <= targets@.len(),
                self.wf(),
                self.spec_path() == start.spec_path(),
                self.socket_seq() == start.socket_seq(),
                forall|t: Sid, room: Seq<char>|
                    #[trigger] self.is_member(t, room) == (start.is_member(t, room) || (
                    targets@.take(i as int).contains(t) && room_views(rooms@).contains(room))),
            decreases targets@.len() - i,
        {
            let ghost prev = *self;
            self.add_all(targets[i], rooms);
            proof {
                lemma_take_push_contains(targets@, i as int);
                assert forall|t: Sid, room: Seq<char>|
                    #[trigger] self.is_member(t, room) == (start.is_member(t, room) || (
                    targets@.take(i + 1).contains(t) && room_views(rooms@).contains(room))) by {
                    assert(prev.is_member(t, room) == (start.is_member(t, room) || (targets@.take(
                        i as int,
                    ).contains(t) && room_views(rooms@).contains(room))));
                }
            }
            i = i + 1;
        }
        assert(targets@.take(targets@.len() as int) == targets@);
    }

    /// Take every socket that `opts` selects out of each of `rooms`.
    pub fn del_sockets(&mut self, opts: &BroadcastOptions, rooms: &Vec<Room>)
        requires
            old(self).wf(),
        ensures
            final(self).wf(),
            final(self).spec_path() == old(self).spec_path(),
            final(self).socket_seq() == old(self).socket_seq(),
            forall|t: Sid, room: Seq<char>|
                #[trigger] final(self).is_member(t, room) == (old(self).is_member(t, room) && !(
                old(self).resolve(opts).contains(t) && room_views(rooms@).contains(room))),
    {
        let targets = self.sockets(opts);
        let ghost start = *self;
        let mut i: usize = 0;
        while i < targets.len()
            invariant
                i <= targets@.len(),
                self.wf(),
                self.spec_path() == start.spec_path(),
                self.socket_seq() == start.socket_seq(),
                forall|t: Sid, room: Seq<char>|
                    #[trigger] self.is_member(t, room) == (start.is_member(t, room) && !(
                    targets@.take(i as int).contains(t) && room_views(rooms@).contains(room))),
            decreases targets@.len() - i,
        {
            let ghost prev = *self;
            self.del(targets[i], rooms);
            proof {
                lemma_take_push_contains(targets@, i as int);
                assert forall|t: Sid, room: Seq<char>|
                    #[trigger] self.is_member(t, room) == (start.is_member(t, room) && !(
                    targets@.take(i + 1).contains(t) && room_views(rooms@).contains(room))) by {
                    assert(prev.is_member(t, room) == (start.is_member(t, room) && !(targets@.take(
                        i as int,
                    ).contains(t) && room_views(rooms@).contains(room))));
                }
            }
            i = i + 1;
        }
        assert(targets@.take(targets@.len() as int) == targets@);
    }

    /// Disconnect every socket that `opts` selects and return them.
    pub fn disconnect_socket(&mut self, opts: &BroadcastOptions) -> (r: Vec<Sid>)
        requires
            old(self).wf(),
        ensures
            r@ == old(self).resolve(opts),
            final(self).wf(),
            final(self).spec_path() == old(self).spec_path(),
            forall|t: Sid|
                #[trigger] final(self).socket_seq().contains(t) == (old(self).socket_seq().contains(
                    t,
                ) && !r@.contains(t)),
            forall|t: Sid, room: Seq<char>|
                #[trigger] final(self).is_member(t, room) == (old(self).is_member(t, room)
                    && !r@.contains(t)),
    {
        let targets = self.sockets(opts);
        let ghost start = *self;
        let mut i: usize = 0;
        while i < targets.len()
            invariant
                i <= targets@.len(),
                self.wf(),
                self.spec_path() == start.spec_path(),
                forall|t: Sid|
                    #[trigger] self.socket_seq().contains(t) == (start.socket_seq().contains(t)
                        && !targets@.take(i as int).contains(t)),
                forall|t: Sid, room: Seq<char>|
                    #[trigger] self.is_member(t, room) == (start.is_member(t, room)
                        && !targets@.take(i as int).contains(t)),
            decreases targets@.len() - i,
        {
            let ghost prev = *self;
            let victim = targets[i];
            self.remove_socket(victim);
            proof {
                lemma_take_push_contains(targets@, i as int);
                assert forall|t: Sid| #[trigger]
                    self.socket_seq().contains(t) == (start.socket_seq().contains(t)
                        && !targets@.take(i + 1).contains(t)) by {
                    assert(prev.socket_seq().contains(t) == (start.socket_seq().contains(t)
                        && !targets@.take(i as int).contains(t)));
                    if self.socket_seq().contains(t) {
                        let k = choose|k: int| 0 <= k < self.socket_seq().len() && #[trigger] self.socket_seq()[k] == t;
                        prev.socket_seq().lemma_filter_pred(|u: Sid| u != victim, k);
                        prev.socket_seq().lemma_filter_contains_rev(|u: Sid| u != victim, t);
                    } else if prev.socket_seq().contains(t) && t != victim {
                        let k = choose|k: int| 0 <= k < prev.socket_seq().len() && #[trigger] prev.socket_seq()[k] == t;
                        prev.socket_seq().lemma_filter_contains(|u: Sid| u != victim, k);
                    }
                }
                assert forall|t: Sid, room: Seq<char>|
                    #[trigger] self.is_member(t, room) == (start.is_member(t, room)
                        && !targets@.take(i + 1).contains(t)) by {
                    assert(prev.is_member(t, room) == (start.is_member(t, room)
                        && !targets@.take(i as int).contains(t)));
                }
            }
            i = i + 1;
        }
        assert(targets@.take(targets@.len() as int) == targets@);
        targets
    }
}

/// `s.take(i + 1)` holds what `s.take(i)` holds, and `s[i]`.
proof fn lemma_take_push_contains(s: Seq<Sid>, i: int)
    requires
        0 <= i < s.len(),
    ensures
        forall|t: Sid| #[trigger] s.take(i + 1).contains(t) == (s.take(i).contains(t) || t == s[i]),
{
    assert(s.take(i + 1) == s.take(i).push(s[i]));
    assert forall|t: Sid| #[trigger] s.take(i + 1).contains(t) == (s.take(i).contains(t) || t == s[i]) by {
        if s.take(i + 1).contains(t) {
            let k = choose|k: int| 0 <= k < i + 1 && #[trigger] s.take(i + 1)[k] == t;
            if k < i {
                assert(s.take(i)[k] == t);
            }
        }
        if s.take(i).contains(t) {
            let k = choose|k: int| 0 <= k < i && #[trigger] s.take(i)[k] == t;
            assert(s.take(i + 1)[k] == t);
        }
        assert(s.take(i + 1)[i] == s[i]);
    }
}

/// Filtering keeps a sequence free of duplicates.
proof fn lemma_filter_no_duplicates(s: Seq<Sid>, p: spec_fn(Sid) -> bool)
    requires
        s.no_duplicates(),
    ensures
        s.filter(p).no_duplicates(),
    decreases s.len(),
{
    reveal(Seq::filter);
    if s.len() > 0 {
        let d = s.drop_last();
        assert(d.no_duplicates());
        lemma_filter_no_duplicates(d, p);
        if p(s.last()) {
            assert(!d.filter(p).contains(s.last())) by {
                if d.filter(p).contains(s.last()) {
                    d.lemma_filter_contains_rev(p, s.last());
                    let k = choose|k: int| 0 <= k < d.len() && #[trigger] d[k] == s.last();
                    assert(s[k] == s[s.len() - 1]);
                }
            }
            let f = d.filter(p).push(s.last());
            assert forall|a: int, b: int| 0 <= a < f.len() && 0 <= b < f.len() && a != b implies f[a] != f[b] by {
                if a < f.len() - 1 && b < f.len() - 1 {
                } else if a < f.len() - 1 {
                    assert(d.filter(p).contains(f[a]));
                } else {
                    assert(d.filter(p).contains(f[b]));
                }
            }
        }
    }
}

/// A selection lists each socket once.
pub proof fn lemma_resolve_no_duplicates(ns: &Namespace, opts: &BroadcastOptions)
    requires
        ns.wf(),
    ensures
        ns.resolve(opts).no_duplicates(),
{
    lemma_filter_no_duplicates(ns.socket_seq(), |s: Sid| ns.selected(opts, s));
}

/// Every selected socket is connected, and an emitter that excludes itself
/// is never selected.
pub proof fn lemma_resolve_within_namespace(ns: &Namespace, opts: &BroadcastOptions)
    ensures
        ns.resolve(opts).to_set().subset_of(ns.socket_seq().to_set()),
        opts.broadcast && opts.sid.is_some() ==> !ns.resolve(opts).contains(opts.sid.unwrap()),
{
    let p = |t: Sid| ns.selected(opts, t);
    assert forall|t: Sid| ns.resolve(opts).to_set().contains(t) implies ns.socket_seq().to_set().contains(t) by {
        ns.socket_seq().lemma_filter_contains_rev(p, t);
    }
    if opts.broadcast && opts.sid.is_some() && ns.resolve(opts).contains(opts.sid.unwrap()) {
        let k = choose|k: int| 0 <= k < ns.resolve(opts).len() && #[trigger] ns.resolve(opts)[k] == opts.sid.unwrap();
        ns.socket_seq().lemma_filter_pred(p, k);
    }
}

proof fn lemma_lists_member_push(ms: Seq<(Sid, Room)>, x: (Sid, Room))
    ensures
        forall|t: Sid, room: Seq<char>|
            #[trigger] lists_member(ms.push(x), t, room) == (lists_member(ms, t, room) || (x.0
                == t && x.1@ == room)),
{
    assert forall|t: Sid, room: Seq<char>|
        #[trigger] lists_member(ms.push(x), t, room) == (lists_member(ms, t, room) || (x.0 == t
            && x.1@ == room)) by {
        let m = ms.push(x);
        if lists_member(m, t, room) {
            let k = choose|k: int| 0 <= k < m.len() && #[trigger] m[k] == (t, m[k].1) && m[k].1@ == room;
            if k < ms.len() {
                assert(ms[k] == (t, ms[k].1));
            }
        }
        if lists_member(ms, t, room) {
            let k = choose|k: int| 0 <= k < ms.len() && #[trigger] ms[k] == (t, ms[k].1) && ms[k].1@ == room;
            assert(m[k] == (t, m[k].1));
        }
        if x.0 == t && x.1@ == room {
            assert(m[ms.len() as int] == (t, m[ms.len() as int].1));
        }
    }
}

} // verus!
