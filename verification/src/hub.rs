//! The real-time room/broadcast hub.
//!
//! A `Hub` owns the room registry (room id to topic, created lazily, room id
//! 0 is never registered), the global delivery counter and the ping-pong
//! game state.  A `Subscription` is one subscriber's cursor into a room's
//! message log: subscribing starts at the end of the log (no replay), and
//! `next_message` hands out logged messages in publish order, skipping to
//! the oldest still-buffered message when the subscriber lags behind the
//! bounded backlog.
//!
//! The surrounding tasks — one reader and one writer per connection — live
//! outside the library; they feed frames to `handle_frame`, drain messages
//! with `next_message` (reporting each send that succeeded back through
//! `record_delivery`), and run the ping-pong loop through `pingpong_step`.

use vstd::prelude::*;
use crate::wire;
use vstd::string::StringExecFns;
use crate::numfmt;

verus! {

/// Bounded backlog: how many pending messages a lagging subscriber can
/// still receive.
pub const BACKLOG: usize = 1000;

/// Longest message, in Unicode scalar values, that is ever forwarded.
pub const MAX_MESSAGE_LEN: usize = 128;

/// One room: its id and the log of every envelope published to it, together
/// with the (ghost) user/message pairs the envelopes were built from.
struct Room {
    id: i32,
    log: Vec<String>,
    hist: Ghost<Seq<(Seq<char>, Seq<char>)>>,
}

/// The process-wide state of the hub.
pub struct Hub {
    rooms: Vec<Room>,
    views: u32,
    serving: bool,
}

/// A subscriber's handle on one room: the index of the next log entry it
/// has not yet received.
pub struct Subscription {
    room_id: i32,
    cursor: usize,
}

/// Index of the first room with the given id, or -1 if there is none.
spec fn room_find(rooms: Seq<Room>, id: i32) -> int
    decreases rooms.len(),
{
    if rooms.len() == 0 {
        -1
    } else if rooms[0].id == id {
        0
    } else {
        let r = room_find(rooms.drop_first(), id);
        if r < 0 {
            -1
        } else {
            r + 1
        }
    }
}

proof fn lemma_room_find_props(rooms: Seq<Room>, id: i32)
    ensures
        room_find(rooms, id) == -1 ==> forall|k: int|
            0 <= k < rooms.len() ==> (#[trigger] rooms[k]).id != id,
        room_find(rooms, id) != -1 ==> {
            let r = room_find(rooms, id);
            &&& 0 <= r < rooms.len()
            &&& rooms[r].id == id
            &&& forall|k: int| 0 <= k < r ==> (#[trigger] rooms[k]).id != id
        },
    decreases rooms.len(),
{
    if rooms.len() > 0 && rooms[0].id != id {
        let tail = rooms.drop_first();
        lemma_room_find_props(tail, id);
        if room_find(rooms, id) == -1 {
            assert forall|k: int| 0 <= k < rooms.len() implies (#[trigger] rooms[k]).id
                != id by {
                if k > 0 {
                    assert(tail[k - 1] == rooms[k]);
                }
            }
        } else {
            let r = room_find(rooms, id);
            assert(tail[r - 1] == rooms[r]);
            assert forall|k: int| 0 <= k < r implies (#[trigger] rooms[k]).id != id by {
                if k > 0 {
                    assert(tail[k - 1] == rooms[k]);
                }
            }
        }
    }
}

proof fn lemma_room_find_at(rooms: Seq<Room>, id: i32, i: int)
    requires
        0 <= i < rooms.len(),
        rooms[i].id == id,
        forall|k: int| 0 <= k < i ==> (#[trigger] rooms[k]).id != id,
    ensures
        room_find(rooms, id) == i,
    decreases i,
{
    if i > 0 {
        let tail = rooms.drop_first();
        assert(tail[i - 1] == rooms[i]);
        assert forall|k: int| 0 <= k < i - 1 implies (#[trigger] tail[k]).id != id by {
            assert(tail[k] == rooms[k + 1]);
        }
        lemma_room_find_at(tail, id, i - 1);
    }
}

proof fn lemma_room_find_none(rooms: Seq<Room>, id: i32)
    requires
        forall|k: int| 0 <= k < rooms.len() ==> (#[trigger] rooms[k]).id != id,
    ensures
        room_find(rooms, id) == -1,
    decreases rooms.len(),
{
    if rooms.len() > 0 {
        let tail = rooms.drop_first();
        assert forall|k: int| 0 <= k < tail.len() implies (#[trigger] tail[k]).id != id by {
            assert(tail[k] == rooms[k + 1]);
        }
        lemma_room_find_none(tail, id);
    }
}

/// The log entries and the history agree: every logged frame is the
/// envelope of its recorded user/message pair, and no recorded message is
/// over-long.
spec fn room_inv(r: Room) -> bool {
    &&& r.hist@.len() == r.log@.len()
    &&& forall|k: int|
        0 <= k < r.log@.len() ==> (#[trigger] r.log@[k])@ == wire::envelope_text(
            r.hist@[k].0,
            r.hist@[k].1,
        ) && r.hist@[k].1.len() <= MAX_MESSAGE_LEN
}

impl Subscription {
    /// The room this subscription listens to.
    pub closed spec fn spec_room_id(self) -> i32 {
        self.room_id
    }

    /// The index of the next log entry this subscriber has not received.
    pub closed spec fn spec_cursor(self) -> int {
        self.cursor as int
    }
}

impl Hub {
    /// The global delivery counter.
    pub closed spec fn spec_views(self) -> u32 {
        self.views
    }

    /// The shared ping-pong game state: true once some connection served.
    pub closed spec fn spec_serving(self) -> bool {
        self.serving
    }

    /// Whether a topic exists for the room id.
    pub closed spec fn has_room(self, id: i32) -> bool {
        room_find(self.rooms@, id) >= 0
    }

    /// The frames published to a room so far, in publish order.
    pub closed spec fn log_of(self, id: i32) -> Seq<Seq<char>> {
        if self.has_room(id) {
            self.rooms@[room_find(self.rooms@, id)].log@.map_values(|m: String| m@)
        } else {
            Seq::empty()
        }
    }

    /// The user/message pairs published to a room so far, in publish order.
    pub closed spec fn messages_of(self, id: i32) -> Seq<(Seq<char>, Seq<char>)> {
        if self.has_room(id) {
            self.rooms@[room_find(self.rooms@, id)].hist@
        } else {
            Seq::empty()
        }
    }

    /// Well-formedness: room ids are distinct and never 0, and each room's
    /// log is the envelope-encoding of its history of short-enough messages.
    pub closed spec fn inv(self) -> bool {
        &&& forall|p: int, q: int|
            0 <= p < q < self.rooms@.len() ==> (#[trigger] self.rooms@[p].id) != (
            #[trigger] self.rooms@[q].id)
        &&& forall|p: int|
            0 <= p < self.rooms@.len() ==> (#[trigger] self.rooms@[p]).id != 0 && room_inv(
                self.rooms@[p],
            )
    }

    /// A fresh hub: no rooms, a zero counter, not serving.
    pub fn new() -> (h: Hub)
        ensures
            h.inv(),
            h.spec_views() == 0,
            !h.spec_serving(),
            forall|id: i32| !h.has_room(id),
            forall|id: i32| h.messages_of(id) == Seq::<(Seq<char>, Seq<char>)>::empty(),
            forall|id: i32| h.log_of(id) == Seq::<Seq<char>>::empty(),
    {
        let h = Hub { rooms: Vec::new(), views: 0, serving: false };
        proof {
            assert(forall|id: i32| room_find(h.rooms@, id) == -1);
        }
        h
    }

    /// Index of the room with the given id in the registry.
    fn find_room_idx(&self, id: i32) -> (r: Option<usize>)
        ensures
            match r {
                Some(ix) => ix as int == room_find(self.rooms@, id) && ix < self.rooms@.len()
                    && self.rooms@[ix as int].id == id,
                None => room_find(self.rooms@, id) == -1,
            },
    {
        let mut i: usize = 0;
        while i < self.rooms.len()
            invariant
                i <= self.rooms@.len(),
                forall|k: int| 0 <= k < i ==> (#[trigger] self.rooms@[k]).id != id,
            decreases self.rooms@.len() - i,
        {
            if self.rooms[i].id == id {
                proof {
                    lemma_room_find_at(self.rooms@, id, i as int);
                }
                return Some(i);
            }
            i = i + 1;
        }
        proof {
            lemma_room_find_none(self.rooms@, id);
        }
        None
    }

    /// Registers a topic for the room if the id is not 0 and none exists
    /// yet: the double-checked creation collapses to a single re-checked
    /// insert on the owned registry.
    pub fn ensure_room(&mut self, room_id: i32)
        requires
            old(self).inv(),
        ensures
            final(self).inv(),
            final(self).spec_views() == old(self).spec_views(),
            final(self).spec_serving() == old(self).spec_serving(),
            final(self).has_room(room_id) <==> (room_id != 0 || old(self).has_room(room_id)),
            forall|id: i32|
                id != room_id ==> (final(self).has_room(id) <==> old(self).has_room(id)),
            forall|id: i32| #[trigger] final(self).messages_of(id) == old(self).messages_of(id),
            forall|id: i32| #[trigger] final(self).log_of(id) == old(self).log_of(id),
    {
        if room_id == 0 {
            return ;
        }
        let found = self.find_room_idx(room_id);
        if found.is_none() {
            let ghost old_self = *old(self);
            let ghost old_rooms = old_self.rooms@;
            let room = Room { id: room_id, log: Vec::new(), hist: Ghost(Seq::empty()) };
            self.rooms.push(room);
            proof {
                let rooms = self.rooms@;
                lemma_room_find_props(old_rooms, room_id);
                lemma_room_find_at(rooms, room_id, old_rooms.len() as int);
                assert(rooms[old_rooms.len() as int].log@.map_values(|m: String| m@)
                    =~= Seq::<Seq<char>>::empty());
                assert forall|id: i32| id != room_id implies room_find(rooms, id) == room_find(
                    old_rooms,
                    id,
                ) by {
                    lemma_room_find_props(old_rooms, id);
                    if room_find(old_rooms, id) == -1 {
                        lemma_room_find_none(rooms, id);
                    } else {
                        lemma_room_find_at(rooms, id, room_find(old_rooms, id));
                    }
                }
                assert forall|id: i32| #[trigger] self.messages_of(id) == old_self.messages_of(
                    id,
                ) by {
                    if id == room_id {
                        assert(self.messages_of(id) =~= old_self.messages_of(id));
                    } else if room_find(old_rooms, id) >= 0 {
                        lemma_room_find_props(old_rooms, id);
                        assert(rooms[room_find(rooms, id)] == old_rooms[room_find(old_rooms, id)]);
                    }
                }
                assert forall|id: i32| #[trigger] self.log_of(id) == old_self.log_of(id) by {
                    if id == room_id {
                        assert(self.log_of(id) =~= old_self.log_of(id));
                    } else if room_find(old_rooms, id) >= 0 {
                        lemma_room_find_props(old_rooms, id);
                        assert(rooms[room_find(rooms, id)] == old_rooms[room_find(old_rooms, id)]);
                    }
                }
            }
        }
    }

    /// A new subscriber for the room: its cursor starts at the end of the
    /// log, so nothing published earlier is ever replayed.  Yields nothing
    /// when the room has no topic (in particular for room id 0).
    pub fn subscribe(&self, room_id: i32) -> (s: Option<Subscription>)
        ensures
            match s {
                Some(sub) => self.has_room(room_id) && sub.spec_room_id() == room_id
                    && sub.spec_cursor() == self.log_of(room_id).len(),
                None => !self.has_room(room_id),
            },
    {
        match self.find_room_idx(room_id) {
            Some(ix) => Some(Subscription { room_id, cursor: self.rooms[ix].log.len() }),
            None => None,
        }
    }

    /// Appends the envelope for `user` and `msg` to the room's log, if the
    /// room exists.
    fn append_message(&mut self, room_id: i32, user: &str, msg: &str)
        requires
            old(self).inv(),
            msg@.len() <= MAX_MESSAGE_LEN,
        ensures
            final(self).inv(),
            final(self).spec_views() == old(self).spec_views(),
            final(self).spec_serving() == old(self).spec_serving(),
            forall|id: i32| (final(self).has_room(id) <==> old(self).has_room(id)),
            forall|id: i32|
                id != room_id ==> #[trigger] final(self).messages_of(id) == old(self).messages_of(
                    id,
                ),
            forall|id: i32|
                id != room_id ==> #[trigger] final(self).log_of(id) == old(self).log_of(id),
            old(self).has_room(room_id) ==> final(self).messages_of(room_id) == old(self).messages_of(room_id).push((user@, msg@)) && final(self).log_of(room_id) == old(self).log_of(room_id).push(wire::envelope_text(user@, msg@)),
            !old(self).has_room(room_id) ==> final(self).messages_of(room_id) == old(self).messages_of(room_id) && final(self).log_of(room_id) == old(self).log_of(room_id),
    {
        let found = self.find_room_idx(room_id);
        match found {
            None => {},
            Some(ix) => {
                let ghost old_self = *old(self);
                let ghost old_rooms = old_self.rooms@;
                let entry = wire::encode_envelope(user, msg);
                let mut room = self.rooms.remove(ix);
                let ghost old_room = room;
                room.log.push(entry);
                proof {
                    room.hist@ = room.hist@.push((user@, msg@));
                }
                self.rooms.insert(ix, room);
                proof {
                    let rooms = self.rooms@;
                    assert(rooms =~= old_rooms.update(ix as int, room));
                    assert(room_inv(room)) by {
                        assert(forall|k: int|
                            0 <= k < old_room.log@.len() ==> room.log@[k] == old_room.log@[k]);
                    }
                    assert forall|id: i32| room_find(rooms, id) == room_find(old_rooms, id) by {
                        lemma_room_find_props(old_rooms, id);
                        if room_find(old_rooms, id) == -1 {
                            lemma_room_find_none(rooms, id);
                        } else {
                            lemma_room_find_at(rooms, id, room_find(old_rooms, id));
                        }
                    }
                    assert forall|id: i32|
                        id != room_id implies #[trigger] self.messages_of(id)
                        == old_self.messages_of(id) by {
                        if room_find(old_rooms, id) >= 0 {
                            lemma_room_find_props(old_rooms, id);
                            assert(rooms[room_find(rooms, id)] == old_rooms[room_find(
                                old_rooms,
                                id,
                            )]);
                        }
                    }
                    assert forall|id: i32|
                        id != room_id implies #[trigger] self.log_of(id) == old_self.log_of(
                        id,
                    ) by {
                        if room_find(old_rooms, id) >= 0 {
                            lemma_room_find_props(old_rooms, id);
                            assert(rooms[room_find(rooms, id)] == old_rooms[room_find(
                                old_rooms,
                                id,
                            )]);
                        }
                    }
                    assert(room.log@.map_values(|m: String| m@) =~= old_room.log@.map_values(
                        |m: String| m@,
                    ).push(wire::envelope_text(user@, msg@)));
                    assert(self.log_of(room_id) =~= old_self.log_of(room_id).push(
                        wire::envelope_text(user@, msg@),
                    ));
                    assert(self.messages_of(room_id) =~= old_self.messages_of(room_id).push(
                        (user@, msg@),
                    ));
                }
            },
        }
    }

    /// Handles one inbound text frame from a session's reader half: parse
    /// the envelope, silently discard over-long messages, publish the rest
    /// to the room.  A frame outside the grammar means the session must end.
    pub fn handle_frame(&mut self, room_id: i32, user: &str, frame: &str) -> (o: FrameOutcome)
        requires
            old(self).inv(),
        ensures
            final(self).inv(),
            final(self).spec_views() == old(self).spec_views(),
            final(self).spec_serving() == old(self).spec_serving(),
            forall|id: i32| (final(self).has_room(id) <==> old(self).has_room(id)),
            (o is Malformed) <==> wire::spec_parse_envelope(frame@) is None,
            (o is Discarded) <==> (wire::spec_parse_envelope(frame@) matches Some(m) && m.len()
                > MAX_MESSAGE_LEN),
            (o is Published) <==> (wire::spec_parse_envelope(frame@) matches Some(m) && m.len()
                <= MAX_MESSAGE_LEN),
            forall|id: i32|
                id != room_id ==> #[trigger] final(self).messages_of(id) == old(self).messages_of(
                    id,
                ),
            forall|id: i32|
                id != room_id ==> #[trigger] final(self).log_of(id) == old(self).log_of(id),
            o is Published && old(self).has_room(room_id) ==> final(self).messages_of(room_id)
                == old(self).messages_of(room_id).push(
                (user@, wire::spec_parse_envelope(frame@)->0),
            ) && final(self).log_of(room_id) == old(self).log_of(room_id).push(
                wire::envelope_text(user@, wire::spec_parse_envelope(frame@)->0),
            ),
            !(o is Published && old(self).has_room(room_id)) ==> final(self).messages_of(room_id) == old(self).messages_of(room_id) && final(self).log_of(room_id) == old(self).log_of(room_id),
    {
        match wire::parse_envelope(frame) {
            None => FrameOutcome::Malformed,
            Some(msg) => {
                if msg.as_str().unicode_len() > MAX_MESSAGE_LEN {
                    FrameOutcome::Discarded
                } else {
                    self.append_message(room_id, user, msg.as_str());
                    FrameOutcome::Published
                }
            },
        }
    }

    /// Hands the subscriber the next message of its room, in publish order.
    /// A subscriber more than `BACKLOG` entries behind resumes from the
    /// oldest still-buffered entry.  The delivery counter is untouched: it
    /// counts sends that succeeded, which only the caller can see, so the
    /// caller records each success with `record_delivery` afterwards.
    pub fn next_message(&mut self, sub: &mut Subscription) -> (m: Option<String>)
        requires
            old(self).inv(),
        ensures
            final(self).inv(),
            final(self).spec_serving() == old(self).spec_serving(),
            final(self).spec_views() == old(self).spec_views(),
            forall|id: i32| (final(self).has_room(id) <==> old(self).has_room(id)),
            forall|id: i32| #[trigger] final(self).messages_of(id) == old(self).messages_of(id),
            forall|id: i32| #[trigger] final(self).log_of(id) == old(self).log_of(id),
            final(sub).spec_room_id() == old(sub).spec_room_id(),
            ({
                let log = old(self).log_of(old(sub).spec_room_id());
                let st = start_index(log.len() as int, old(sub).spec_cursor());
                if st < log.len() {
                    &&& m matches Some(t) && t@ == log[st]
                    &&& final(sub).spec_cursor() == st + 1
                } else {
                    &&& m is None
                    &&& final(sub).spec_cursor() == old(sub).spec_cursor()
                }
            }),
    {
        let found = self.find_room_idx(sub.room_id);
        match found {
            None => None,
            Some(ix) => {
                let len = self.rooms[ix].log.len();
                let st = if len > BACKLOG && sub.cursor < len - BACKLOG {
                    len - BACKLOG
                } else {
                    sub.cursor
                };
                if st < len {
                    let text = self.rooms[ix].log[st].clone();
                    sub.cursor = st + 1;
                    Some(text)
                } else {
                    None
                }
            },
        }
    }

    /// Records one successful per-subscriber delivery: the send to the
    /// client came back without error, and the counter rises by exactly
    /// one.  A failed send records nothing.
    pub fn record_delivery(&mut self)
        requires
            old(self).inv(),
            old(self).spec_views() < u32::MAX,
        ensures
            final(self).inv(),
            final(self).spec_views() == old(self).spec_views() + 1,
            final(self).spec_serving() == old(self).spec_serving(),
            forall|id: i32| (final(self).has_room(id) <==> old(self).has_room(id)),
            forall|id: i32| #[trigger] final(self).messages_of(id) == old(self).messages_of(id),
            forall|id: i32| #[trigger] final(self).log_of(id) == old(self).log_of(id),
    {
        self.views = self.views + 1;
    }

    /// One step of the ping-pong protocol for one inbound frame, on the
    /// game state shared by every ping-pong connection.
    pub fn pingpong_step(&mut self, frame: &str) -> (reply: Option<String>)
        requires
            old(self).inv(),
        ensures
            final(self).inv(),
            final(self).spec_views() == old(self).spec_views(),
            final(self).spec_serving() == pingpong_next(old(self).spec_serving(), frame@),
            forall|id: i32| (final(self).has_room(id) <==> old(self).has_room(id)),
            forall|id: i32| #[trigger] final(self).messages_of(id) == old(self).messages_of(id),
            forall|id: i32| #[trigger] final(self).log_of(id) == old(self).log_of(id),
            reply matches Some(p) ==> pingpong_reply(old(self).spec_serving(), frame@) == Some(
                p@,
            ),
            reply is None ==> pingpong_reply(old(self).spec_serving(), frame@) is None,
    {
        proof {
            reveal_strlit("serve");
            reveal_strlit("ping");
        }
        if wire::str_eq(frame, "serve") {
            self.serving = true;
            proof {
                // with both literals revealed, "serve" is no "ping"
                assert("serve"@.len() == 5 && "ping"@.len() == 4);
                assert(frame@ != "ping"@);
            }
            None
        } else if wire::str_eq(frame, "ping") && self.serving {
            Some(String::from_str("pong"))
        } else {
            None
        }
    }

    /// Resets the delivery counter and the game state; rooms are kept.
    pub fn reset(&mut self)
        requires
            old(self).inv(),
        ensures
            final(self).inv(),
            final(self).spec_views() == 0,
            !final(self).spec_serving(),
            forall|id: i32| (final(self).has_room(id) <==> old(self).has_room(id)),
            forall|id: i32| #[trigger] final(self).messages_of(id) == old(self).messages_of(id),
            forall|id: i32| #[trigger] final(self).log_of(id) == old(self).log_of(id),
    {
        self.views = 0;
        self.serving = false;
    }

    /// The delivery counter.
    pub fn current_views(&self) -> (r: u32)
        ensures
            r == self.spec_views(),
    {
        self.views
    }

    /// The delivery counter, rendered as a decimal string.
    pub fn views_text(&self) -> (s: String)
        ensures
            s@ == numfmt::dec_str(self.spec_views() as nat),
    {
        numfmt::u64_to_string(self.views as u64)
    }
}

/// What a session's reader half does with one inbound frame.
pub enum FrameOutcome {
    /// The message was published to the room.
    Published,
    /// The message was over-long and silently dropped.
    Discarded,
    /// The frame was outside the grammar: the session terminates.
    Malformed,
}

/// The log index a delivery starts from: the subscriber's cursor, or the
/// oldest still-buffered entry if the subscriber lags behind the backlog.
pub open spec fn start_index(log_len: int, cursor: int) -> int {
    if log_len > BACKLOG && cursor < log_len - BACKLOG {
        log_len - BACKLOG
    } else {
        cursor
    }
}

/// The ping-pong game state after one frame: serving once `"serve"` has
/// been received, on this or any other connection.
pub open spec fn pingpong_next(serving: bool, frame: Seq<char>) -> bool {
    serving || frame == "serve"@
}

/// The reply to one ping-pong frame: `"pong"` exactly for a `"ping"` while
/// serving.
pub open spec fn pingpong_reply(serving: bool, frame: Seq<char>) -> Option<Seq<char>> {
    if frame == "ping"@ && serving {
        Some("pong"@)
    } else {
        None
    }
}

/// The stream of messages a subscriber with the given cursor receives from
/// a room's log, as long as it keeps up with the backlog: every logged
/// entry from its cursor on, in publish order.
pub open spec fn received_stream(log: Seq<Seq<char>>, cursor: int) -> Seq<Seq<char>> {
    log.skip(cursor)
}

/// A subscriber that is not behind by more than the backlog is handed
/// exactly the entry at its cursor: nothing is skipped.
pub proof fn lemma_keeps_up_within_backlog(log_len: int, cursor: int)
    requires
        0 <= cursor,
        log_len - cursor <= BACKLOG,
    ensures
        start_index(log_len, cursor) == cursor,
{
}

/// Two subscribers whose cursors stand at or before a publish both receive
/// that publish, and both see any two publishes in publish order: entry
/// `i` of the log stands in each subscriber's stream, and before entry
/// `j` for `i <= j`.
pub proof fn lemma_subscribers_receive_in_order(
    log: Seq<Seq<char>>,
    c1: int,
    c2: int,
    i: int,
    j: int,
)
    requires
        0 <= c1 <= i,
        0 <= c2 <= i,
        i <= j < log.len(),
    ensures
        received_stream(log, c1)[i - c1] == log[i],
        received_stream(log, c2)[i - c2] == log[i],
        received_stream(log, c1)[j - c1] == log[j],
        received_stream(log, c2)[j - c2] == log[j],
        i - c1 <= j - c1,
        i - c2 <= j - c2,
{
}

/// A subscriber that joins when the log has `join_len` entries (as
/// `subscribe` arranges) only ever receives entries published after the
/// join: every element of its stream stands strictly after any earlier
/// publish `i < join_len`.
pub proof fn lemma_late_join_no_replay(log: Seq<Seq<char>>, join_len: int, i: int, k: int)
    requires
        0 <= i < join_len <= log.len(),
        0 <= k < received_stream(log, join_len).len(),
    ensures
        received_stream(log, join_len)[k] == log[join_len + k],
        join_len + k > i,
{
}

/// Every message in a well-formed hub's log is the envelope of a recorded
/// message of at most `MAX_MESSAGE_LEN` scalar values: since subscribers
/// only ever receive log entries, no over-long message is ever received.
pub proof fn lemma_no_overlong_message(h: Hub, id: i32, k: int)
    requires
        h.inv(),
        0 <= k < h.log_of(id).len(),
    ensures
        h.messages_of(id).len() == h.log_of(id).len(),
        h.log_of(id)[k] == wire::envelope_text(h.messages_of(id)[k].0, h.messages_of(id)[k].1),
        h.messages_of(id)[k].1.len() <= MAX_MESSAGE_LEN,
{
    lemma_room_find_props(h.rooms@, id);
}

/// The game state after a sequence of frames, each handled by
/// `pingpong_step`, starting from state `s0`.
pub open spec fn serving_after(s0: bool, frames: Seq<Seq<char>>) -> bool
    decreases frames.len(),
{
    if frames.len() == 0 {
        s0
    } else {
        serving_after(pingpong_next(s0, frames[0]), frames.drop_first())
    }
}

/// The game state is exactly "some connection has sent `"serve"`": it is
/// set once any frame equals `"serve"` and never falls back (absent a
/// reset), whichever connection the frames came from.
pub proof fn lemma_serving_after(s0: bool, frames: Seq<Seq<char>>)
    ensures
        serving_after(s0, frames) <==> (s0 || exists|k: int|
            0 <= k < frames.len() && frames[k] == "serve"@),
    decreases frames.len(),
{
    if frames.len() > 0 {
        lemma_serving_after(pingpong_next(s0, frames[0]), frames.drop_first());
        if serving_after(s0, frames) {
            if !s0 {
                if frames[0] == "serve"@ {
                    assert(0 <= 0 < frames.len() && frames[0] == "serve"@);
                } else {
                    let k = choose|k: int|
                        0 <= k < frames.drop_first().len() && frames.drop_first()[k] == "serve"@;
                    assert(frames[k + 1] == "serve"@);
                }
            }
        } else {
            assert(!s0 && frames[0] != "serve"@);
            assert forall|k: int| 0 <= k < frames.len() implies frames[k] != "serve"@ by {
                if k > 0 {
                    assert(frames.drop_first()[k - 1] == frames[k]);
                }
            }
        }
    }
}

/// Before any `"serve"`, a `"ping"` yields no reply; after a `"serve"` on
/// any connection, every later `"ping"` yields exactly one `"pong"`,
/// whatever frames came in between.
pub proof fn lemma_ping_pong(s0: bool, frames: Seq<Seq<char>>)
    ensures
        !s0 && (forall|k: int| 0 <= k < frames.len() ==> frames[k] != "serve"@) ==> pingpong_reply(
            serving_after(s0, frames),
            "ping"@,
        ) is None,
        s0 || (exists|k: int| 0 <= k < frames.len() && frames[k] == "serve"@) ==> pingpong_reply(
            serving_after(s0, frames),
            "ping"@,
        ) == Some("pong"@),
{
    lemma_serving_after(s0, frames);
}

/// After a reset the counter renders as `"0"` and a `"ping"` without a new
/// `"serve"` yields no reply.
pub proof fn lemma_reset_state()
    ensures
        numfmt::dec_str(0) == seq!['0'],
        pingpong_reply(false, "ping"@) is None,
{
}

} // verus!
