//! The per-room poll registry and the four poll commands.
//!
//! The registry maps a room identifier to an id-recycling store of polls.
//! Each command is a function from registry state and command text to the
//! response text, with the state change pinned down over the registry's
//! view: a map from room name to a map from poll id to poll.

use vstd::prelude::*;
use vstd::string::StringExecFns;
use crate::poll::{
    bump_count, created_str, distinct_options, has_question, is_parsed_poll, list_poll_str,
    parse_poll, render_created, render_list_entry, vote_lines, CreateError, Poll, PollItem,
};
use crate::text::{chars_vec, dec_str, find_ws, find_ws_vec, is_numeric, num_body, dec_val,
    parse_usize, subvec, trim_spec, trim_vec, string_from_chars};
use crate::unique_id_list::{id_listed, strictly_sorted, vec_index_mut, UniqueIdList};

verus! {

/// The mapping described by a sequence of (room, store) entries.
spec fn rooms_map(s: Seq<(String, UniqueIdList<Poll>)>) -> Map<Seq<char>, Map<nat, Poll>>
    decreases s.len(),
{
    if s.len() == 0 {
        Map::empty()
    } else {
        rooms_map(s.drop_last()).insert(s.last().0@, s.last().1@)
    }
}

/// True when some entry carries the room key `key`.
spec fn room_listed(s: Seq<(String, UniqueIdList<Poll>)>, key: Seq<char>) -> bool {
    exists|i: int| 0 <= i < s.len() && (#[trigger] s[i]).0@ == key
}

/// True when no two entries share a room key and every store is
/// well-formed.
spec fn rooms_wf(s: Seq<(String, UniqueIdList<Poll>)>) -> bool {
    &&& (forall|i: int, j: int|
        0 <= i < j < s.len() ==> (#[trigger] s[i]).0@ != (#[trigger] s[j]).0@)
    &&& (forall|i: int| 0 <= i < s.len() ==> (#[trigger] s[i]).1.wf())
}

proof fn lemma_rm_contains(s: Seq<(String, UniqueIdList<Poll>)>)
    ensures
        forall|key: Seq<char>| #[trigger]
            rooms_map(s).dom().contains(key) <==> room_listed(s, key),
    decreases s.len(),
{
    if s.len() > 0 {
        lemma_rm_contains(s.drop_last());
        assert forall|key: Seq<char>| #[trigger]
            rooms_map(s).dom().contains(key) <==> room_listed(s, key) by {
            if rooms_map(s).dom().contains(key) {
                if key == s.last().0@ {
                    let w: int = s.len() as int - 1;
                    assert(0 <= w < s.len() && s[w].0@ == key);
                } else {
                    assert(rooms_map(s.drop_last()).dom().contains(key));
                    assert(room_listed(s.drop_last(), key));
                    let i = choose|i: int| 0 <= i < s.drop_last().len()
                        && (#[trigger] s.drop_last()[i]).0@ == key;
                    assert(s.drop_last()[i] == s[i]);
                    assert(0 <= i < s.len() && s[i].0@ == key);
                }
                assert(room_listed(s, key));
            }
            if room_listed(s, key) {
                let i = choose|i: int| 0 <= i < s.len() && (#[trigger] s[i]).0@ == key;
                if i < s.len() - 1 {
                    assert(s.drop_last()[i] == s[i]);
                    assert(0 <= i < s.drop_last().len() && s.drop_last()[i].0@ == key);
                    assert(room_listed(s.drop_last(), key));
                    assert(rooms_map(s.drop_last()).dom().contains(key));
                }
                assert(rooms_map(s).dom().contains(key));
            }
        }
    }
}

proof fn lemma_rm_value(s: Seq<(String, UniqueIdList<Poll>)>, i: int)
    requires
        forall|a: int, b: int| 0 <= a < b < s.len() ==> (#[trigger] s[a]).0@ != (#[trigger] s[b]).0@,
        0 <= i < s.len(),
    ensures
        rooms_map(s).dom().contains(s[i].0@),
        rooms_map(s)[s[i].0@] == s[i].1@,
    decreases s.len(),
{
    if i == s.len() - 1 {
    } else {
        assert forall|a: int, b: int| 0 <= a < b < s.drop_last().len() implies (
        #[trigger] s.drop_last()[a]).0@ != (#[trigger] s.drop_last()[b]).0@ by {
            assert(s.drop_last()[a] == s[a] && s.drop_last()[b] == s[b]);
        }
        lemma_rm_value(s.drop_last(), i);
        assert(s.drop_last()[i] == s[i]);
        assert(s[i].0@ != s.last().0@);
    }
}

/// For every replacement store, updating entry `i` in place updates the
/// mapping at that entry's room, and keeps the keys unique.
proof fn lemma_rm_update_all(s: Seq<(String, UniqueIdList<Poll>)>, i: int)
    requires
        forall|a: int, b: int| 0 <= a < b < s.len() ==> (#[trigger] s[a]).0@ != (#[trigger] s[b]).0@,
        0 <= i < s.len(),
    ensures
        forall|a: UniqueIdList<Poll>|
            #[trigger] rooms_map(s.update(i, (s[i].0, a))) =~= rooms_map(s).insert(s[i].0@, a@),
        forall|a: UniqueIdList<Poll>|
            (forall|j: int|
                0 <= j < s.len() && j != i ==> (#[trigger] s[j]).1.wf()) && a.wf() ==> rooms_wf(
                #[trigger] s.update(i, (s[i].0, a)),
            ),
{
    assert forall|a: UniqueIdList<Poll>|
        #[trigger] rooms_map(s.update(i, (s[i].0, a))) =~= rooms_map(s).insert(s[i].0@, a@) by {
        lemma_rm_update_one(s, i, a);
    }
    assert forall|a: UniqueIdList<Poll>|
        (forall|j: int| 0 <= j < s.len() && j != i ==> (#[trigger] s[j]).1.wf())
            && a.wf() implies rooms_wf(#[trigger] s.update(i, (s[i].0, a))) by {
        let s2 = s.update(i, (s[i].0, a));
        assert forall|x: int, y: int| 0 <= x < y < s2.len() implies (#[trigger] s2[x]).0@ != (
        #[trigger] s2[y]).0@ by {
            assert(s2[x].0 == s[x].0 && s2[y].0 == s[y].0);
        }
        assert forall|j: int| 0 <= j < s2.len() implies (#[trigger] s2[j]).1.wf() by {
            if j != i {
                assert(s2[j] == s[j]);
            }
        }
    }
}

proof fn lemma_rm_update_one(s: Seq<(String, UniqueIdList<Poll>)>, i: int, a: UniqueIdList<Poll>)
    requires
        forall|x: int, y: int| 0 <= x < y < s.len() ==> (#[trigger] s[x]).0@ != (#[trigger] s[y]).0@,
        0 <= i < s.len(),
    ensures
        rooms_map(s.update(i, (s[i].0, a))) =~= rooms_map(s).insert(s[i].0@, a@),
    decreases s.len(),
{
    let s2 = s.update(i, (s[i].0, a));
    if i == s.len() - 1 {
        assert(s2.drop_last() =~= s.drop_last());
        assert(s2.last() == (s[i].0, a));
    } else {
        assert forall|x: int, y: int| 0 <= x < y < s.drop_last().len() implies (
        #[trigger] s.drop_last()[x]).0@ != (#[trigger] s.drop_last()[y]).0@ by {
            assert(s.drop_last()[x] == s[x] && s.drop_last()[y] == s[y]);
        }
        lemma_rm_update_one(s.drop_last(), i, a);
        assert(s2.drop_last() =~= s.drop_last().update(i, (s[i].0, a)));
        assert(s2.last() == s.last());
        assert(s[i].0@ != s.last().0@);
    }
}

/// The room's poll map, or the empty map for an unknown room.
pub open spec fn room_map(reg: Map<Seq<char>, Map<nat, Poll>>, room: Seq<char>) -> Map<nat, Poll> {
    if reg.dom().contains(room) {
        reg[room]
    } else {
        Map::empty()
    }
}

/// True while one more poll can still be numbered: every occupied id in
/// the room is below the largest id the machine can represent.
pub open spec fn can_create(m: Map<nat, Poll>) -> bool {
    forall|k: nat| #[trigger] m.dom().contains(k) ==> k < usize::MAX as nat
}

/// True when `ids` lists exactly the occupied ids of `m`, in increasing
/// order.
pub open spec fn sorted_ids_of(ids: Seq<usize>, m: Map<nat, Poll>) -> bool {
    &&& strictly_sorted(ids)
    &&& (forall|j: int| 0 <= j < ids.len() ==> m.dom().contains(#[trigger] ids[j] as nat))
    &&& (forall|k: nat| #[trigger] m.dom().contains(k) ==> id_listed(ids, k))
}

/// Two increasing listings of the same occupied ids are the same
/// sequence, so a rendering over such a listing is uniquely determined.
pub proof fn lemma_sorted_ids_unique(a: Seq<usize>, b: Seq<usize>, m: Map<nat, Poll>)
    requires
        sorted_ids_of(a, m),
        sorted_ids_of(b, m),
    ensures
        a == b,
    decreases a.len(),
{
    if a.len() == 0 {
        if b.len() > 0 {
            assert(m.dom().contains(b[0] as nat));
        }
        assert(a =~= b);
    } else {
        assert(m.dom().contains(a.last() as nat));
        if b.len() == 0 {
            assert(!id_listed(b, a.last() as nat));
        }
        let la = a.last();
        let lb = b.last();
        assert(id_listed(b, la as nat));
        let jb = choose|j: int| 0 <= j < b.len() && #[trigger] b[j] as nat == la as nat;
        assert(b[jb] <= lb) by {
            if jb < b.len() - 1 {
                assert(b[jb] < b[b.len() - 1]);
            }
        }
        assert(id_listed(a, lb as nat));
        let ja = choose|j: int| 0 <= j < a.len() && #[trigger] a[j] as nat == lb as nat;
        assert(a[ja] <= la) by {
            if ja < a.len() - 1 {
                assert(a[ja] < a[a.len() - 1]);
            }
        }
        assert(la == lb);
        let m2 = m.remove(la as nat);
        assert(sorted_ids_of(a.drop_last(), m2)) by {
            assert forall|j: int| 0 <= j < a.drop_last().len() implies m2.dom().contains(
                #[trigger] a.drop_last()[j] as nat,
            ) by {
                assert(a.drop_last()[j] == a[j]);
                assert(a[j] < a[a.len() - 1]);
            }
            assert forall|k: nat| #[trigger] m2.dom().contains(k) implies id_listed(
                a.drop_last(),
                k,
            ) by {
                let j = choose|j: int| 0 <= j < a.len() && #[trigger] a[j] as nat == k;
                assert(j < a.len() - 1);
                assert(a.drop_last()[j] == a[j]);
            }
        }
        assert(sorted_ids_of(b.drop_last(), m2)) by {
            assert forall|j: int| 0 <= j < b.drop_last().len() implies m2.dom().contains(
                #[trigger] b.drop_last()[j] as nat,
            ) by {
                assert(b.drop_last()[j] == b[j]);
                assert(b[j] < b[b.len() - 1]);
            }
            assert forall|k: nat| #[trigger] m2.dom().contains(k) implies id_listed(
                b.drop_last(),
                k,
            ) by {
                let j = choose|j: int| 0 <= j < b.len() && #[trigger] b[j] as nat == k;
                assert(j < b.len() - 1);
                assert(b.drop_last()[j] == b[j]);
            }
        }
        lemma_sorted_ids_unique(a.drop_last(), b.drop_last(), m2);
        assert(a =~= b) by {
            assert(a.drop_last().len() == b.drop_last().len());
            assert forall|j: int| 0 <= j < a.len() implies a[j] == b[j] by {
                if j < a.len() - 1 {
                    assert(a.drop_last()[j] == a[j] && b.drop_last()[j] == b[j]);
                }
            }
        }
    }
}

/// The list command's rendering of the polls under `ids`.
pub open spec fn render_polls(ids: Seq<usize>, m: Map<nat, Poll>) -> Seq<char>
    decreases ids.len(),
{
    if ids.len() == 0 {
        Seq::empty()
    } else {
        render_polls(ids.drop_last(), m) + list_poll_str(ids.last() as nat, m[ids.last() as nat])
    }
}

/// The shared per-room poll registry.
pub struct PollRegistry {
    rooms: Vec<(String, UniqueIdList<Poll>)>,
}

impl View for PollRegistry {
    type V = Map<Seq<char>, Map<nat, Poll>>;

    closed spec fn view(&self) -> Map<Seq<char>, Map<nat, Poll>> {
        rooms_map(self.rooms@)
    }
}

impl PollRegistry {
    /// Room keys unique, every store well-formed.
    pub closed spec fn wf(&self) -> bool {
        rooms_wf(self.rooms@)
    }

    /// A fresh registry with no rooms.
    pub fn new() -> (r: PollRegistry)
        ensures
            r.wf(),
            r@ =~= Map::<Seq<char>, Map<nat, Poll>>::empty(),
    {
        PollRegistry { rooms: Vec::new() }
    }

    /// Index of the room's entry, if the room is known.
    fn room_index(&self, room: &String) -> (r: Option<usize>)
        requires
            self.wf(),
        ensures
            r matches Some(i) ==> i < self.rooms@.len() && self.rooms@[i as int].0@ == room@
                && self@.dom().contains(room@) && self@[room@] == self.rooms@[i as int].1@,
            r is None ==> !self@.dom().contains(room@),
    {
        proof {
            lemma_rm_contains(self.rooms@);
        }
        let mut i: usize = 0;
        while i < self.rooms.len()
            invariant
                self.wf(),
                i <= self.rooms@.len(),
                forall|j: int| 0 <= j < i ==> (#[trigger] self.rooms@[j]).0@ != room@,
            decreases self.rooms@.len() - i,
        {
            if self.rooms[i].0 == *room {
                proof {
                    lemma_rm_value(self.rooms@, i as int);
                }
                return Some(i);
            }
            i += 1;
        }
        None
    }

    /// Mutably borrow the store of room entry `i`; the final registry is
    /// the old one with that store replaced, and stays well-formed as
    /// long as the store is handed back well-formed.
    fn room_alloc_mut(&mut self, i: usize) -> (r: &mut UniqueIdList<Poll>)
        requires
            old(self).wf(),
            i < old(self).rooms@.len(),
        ensures
            *r == old(self).rooms@[i as int].1,
            final(self).rooms@ == old(self).rooms@.update(
                i as int,
                (old(self).rooms@[i as int].0, *final(r)),
            ),
            final(self)@ == old(self)@.insert(old(self).rooms@[i as int].0@, (*final(r))@),
            final(r).wf() ==> final(self).wf(),
    {
        proof {
            lemma_rm_update_all(self.rooms@, i as int);
        }
        let entry = vec_index_mut(&mut self.rooms, i);
        pair_snd_mut(entry)
    }

    /// True when the room's id space is exhausted, so that a caller can
    /// refuse one more poll instead of breaking `poll_new`'s
    /// precondition.
    pub fn room_at_capacity(&self, room: &str) -> (r: bool)
        requires
            self.wf(),
        ensures
            r == !can_create(room_map(self@, room@)),
    {
        let room_s = String::from_str(room);
        match self.room_index(&room_s) {
            None => {
                proof {
                    assert(room_map(self@, room@) =~= Map::<nat, Poll>::empty());
                }
                false
            },
            Some(ri) => {
                let alloc = &self.rooms[ri].1;
                let full = alloc.at_capacity();
                proof {
                    alloc.lemma_bound_tight();
                    if full {
                        assert(alloc@.dom().contains(alloc.bound()));
                    } else {
                        assert forall|k: nat| #[trigger]
                            alloc@.dom().contains(k) implies k < usize::MAX as nat by {}
                    }
                }
                full
            },
        }
    }

    /// Create a poll from the command text: the trimmed text up to and
    /// including the first `?` is the question, and the non-empty
    /// trimmed lines after it, duplicates dropped, are the options. The
    /// poll is stored in the room (created lazily) under the lowest free
    /// id and announced with its id, question and numbered options. Text
    /// without a `?`, or with fewer than two distinct options, is
    /// rejected and changes nothing.
    pub fn poll_new(&mut self, room: &str, tail: &str) -> (r: String)
        requires
            old(self).wf(),
            can_create(room_map(old(self)@, room@)),
        ensures
            final(self).wf(),
            !has_question(tail@) ==> r@ == "Didn't detect a question."@ && final(self)@ == old(
                self,
            )@,
            has_question(tail@) && distinct_options(tail@).len() < 2 ==> r@
                == "Need at least two options!"@ && final(self)@ == old(self)@,
            has_question(tail@) && distinct_options(tail@).len() >= 2 ==> (exists|
                id: nat,
                p: Poll,
            |
                {
                    &&& is_parsed_poll(p, tail@)
                    &&& 1 <= id
                    &&& !room_map(old(self)@, room@).dom().contains(id)
                    &&& (forall|k: nat|
                        1 <= k < id ==> room_map(old(self)@, room@).dom().contains(k))
                    &&& final(self)@ == old(self)@.insert(
                        room@,
                        room_map(old(self)@, room@).insert(id, p),
                    )
                    &&& r@ == created_str(id, p)
                }),
    {
        match parse_poll(tail) {
            Err(CreateError::MalformedPoll) => String::from_str("Didn't detect a question."),
            Err(CreateError::InsufficientOptions) => String::from_str(
                "Need at least two options!",
            ),
            Ok(poll) => {
                let ghost gpoll = poll;
                let ghost rm = room_map(old(self)@, room@);
                let room_s = String::from_str(room);
                let ri: usize = match self.room_index(&room_s) {
                    Some(i) => i,
                    None => {
                        let idx = self.rooms.len();
                        proof {
                            lemma_rm_contains(self.rooms@);
                        }
                        let ghost pre_rooms = self.rooms@;
                        let fresh = UniqueIdList::new();
                        self.rooms.push((room_s, fresh));
                        proof {
                            assert(self.rooms@.drop_last() =~= pre_rooms);
                            assert(self.rooms@.last() == (room_s, fresh));
                            assert forall|a: int, b: int|
                                0 <= a < b < self.rooms@.len() implies (
                            #[trigger] self.rooms@[a]).0@ != (#[trigger] self.rooms@[b]).0@ by {
                                if b < self.rooms@.len() - 1 {
                                    assert(self.rooms@[a] == pre_rooms[a]);
                                    assert(self.rooms@[b] == pre_rooms[b]);
                                } else {
                                    assert(self.rooms@[a] == pre_rooms[a]);
                                    assert(!room_listed(pre_rooms, room@));
                                }
                            }
                            assert forall|j: int| 0 <= j < self.rooms@.len() implies (
                            #[trigger] self.rooms@[j]).1.wf() by {
                                if j < self.rooms@.len() - 1 {
                                    assert(self.rooms@[j] == pre_rooms[j]);
                                }
                            }
                            assert(self@ == rooms_map(pre_rooms).insert(room@, fresh@));
                            assert(fresh@ =~= rm);
                        }
                        idx
                    },
                };
                let ghost mid = *self;
                proof {
                    assert(mid.rooms@[ri as int].1@ == rm);
                    assert(mid@ =~= old(self)@.insert(room@, rm)) by {
                        if old(self)@.dom().contains(room@) {
                            assert(old(self)@.insert(room@, rm) =~= old(self)@);
                        }
                    }
                }
                let palloc = self.room_alloc_mut(ri);
                proof {
                    palloc.lemma_bound_tight();
                    if palloc.bound() > 0 {
                        assert(rm.dom().contains(palloc.bound()));
                    }
                }
                let id = palloc.insert(poll);
                let out = match palloc.get(id) {
                    Some(stored) => render_created(id, stored),
                    None => {
                        proof {
                            assert(false);
                        }
                        String::new()
                    },
                };
                proof {
                    assert(final(self)@ == mid@.insert(room@, rm.insert(id as nat, gpoll)));
                    assert(final(self)@ =~= old(self)@.insert(
                        room@,
                        rm.insert(id as nat, gpoll),
                    ));
                }
                out
            },
        }
    }

    /// Vote on a poll. The arguments must be exactly two words: the poll
    /// id and either an option index, which counts one vote for exactly
    /// that option, or option text, which counts one vote for every
    /// option whose description equals the case-folded text. Validation
    /// failures change nothing.
    pub fn poll_vote(&mut self, room: &str, sender: &str, tail: &str) -> (r: String)
        requires
            old(self).wf(),
        ensures
            final(self).wf(),
            ({
                let rm = room_map(old(self)@, room@);
                let tok1 = vote_tok1(tail@);
                let tok2 = vote_tok2(tail@);
                let bad = !old(self)@.dom().contains(room@) || !vote_has_two_args(tail@)
                    || !parses_usize(tok1);
                &&& bad ==> r@ == "Vote takes 2 arguments, poll number and choice"@ && final(self)@
                    == old(self)@
                &&& !bad && parses_usize(tok2) ==> ({
                    let pid = dec_val(num_body(tok1));
                    let oid = dec_val(num_body(tok2));
                    &&& !rm.dom().contains(pid) ==> r@ == "Invalid poll"@ && final(self)@ == old(
                        self,
                    )@
                    &&& rm.dom().contains(pid) && oid >= rm[pid].options@.len() ==> r@
                        == "Invalid vote option"@ && final(self)@ == old(self)@
                    &&& rm.dom().contains(pid) && oid < rm[pid].options@.len() ==> ({
                        let p2 = final(self)@[room@][pid];
                        &&& p2.question == rm[pid].question
                        &&& p2.options@ == rm[pid].options@.update(
                            oid as int,
                            (PollItem {
                                description: rm[pid].options@[oid as int].description,
                                count: bump_count(rm[pid].options@[oid as int].count),
                            }),
                        )
                        &&& final(self)@ == old(self)@.insert(room@, rm.insert(pid, p2))
                        &&& r@ == sender@ + " voted for "@ + rm[pid].options@[oid as int].description@
                            + "\n"@
                    })
                })
                &&& !bad && !parses_usize(tok2) ==> ({
                    let pid = dec_val(num_body(tok1));
                    let vs = crate::text::lower_of(tok2);
                    &&& !rm.dom().contains(pid) ==> r@ == Seq::<char>::empty() && final(self)@
                        == old(self)@
                    &&& rm.dom().contains(pid) ==> ({
                        let p2 = final(self)@[room@][pid];
                        &&& p2.question == rm[pid].question
                        &&& p2.options@.len() == rm[pid].options@.len()
                        &&& (forall|j: int|
                            0 <= j < rm[pid].options@.len() ==> p2.options@[j] == (if rm[pid].options@[j].description@
                                == vs {
                                (PollItem {
                                    description: rm[pid].options@[j].description,
                                    count: bump_count(rm[pid].options@[j].count),
                                })
                            } else {
                                rm[pid].options@[j]
                            }))
                        &&& final(self)@ == old(self)@.insert(room@, rm.insert(pid, p2))
                        &&& r@ == vote_lines(rm[pid].options@, vs, sender@)
                    })
                })
            }),
    {
        let ghost rm = room_map(old(self)@, room@);
        let room_s = String::from_str(room);
        let ri_opt = self.room_index(&room_s);
        let v = chars_vec(tail);
        let t = trim_vec(&v);
        let a = find_ws_vec(&t);
        proof {
            crate::text::lemma_find_ws(t@);
        }
        let mut b: usize = a;
        while b < t.len() && crate::text::is_ws_char(t[b])
            invariant
                a <= b <= t@.len(),
                forall|j: int| a <= j < b ==> crate::text::is_ws(t@[j]),
            decreases t@.len() - b,
        {
            b += 1;
        }
        let tok2v = subvec(&t, b, t.len());
        proof {
            crate::text::lemma_trim_start_skip(t@.skip(a as int), b - a);
            assert(t@.skip(a as int).skip(b - a) =~= t@.subrange(b as int, t@.len() as int));
            assert(tok2v@ == vote_tok2(tail@));
        }
        let ri: usize = match ri_opt {
            None => {
                return String::from_str("Vote takes 2 arguments, poll number and choice");
            },
            Some(i) => i,
        };
        if a == t.len() {
            return String::from_str("Vote takes 2 arguments, poll number and choice");
        }
        let w = find_ws_vec(&tok2v);
        if w < tok2v.len() {
            proof {
                crate::text::lemma_find_ws(tok2v@);
            }
            return String::from_str("Vote takes 2 arguments, poll number and choice");
        }
        let tok1v = subvec(&t, 0, a);
        proof {
            assert(tok1v@ =~= vote_tok1(tail@));
            crate::text::lemma_find_ws(tok2v@);
        }
        let pid = match parse_usize(&tok1v) {
            None => {
                return String::from_str("Vote takes 2 arguments, poll number and choice");
            },
            Some(pid) => pid,
        };
        match parse_usize(&tok2v) {
            Some(oid) => {
                let desc: String;
                {
                    let alloc = &self.rooms[ri].1;
                    match alloc.get(pid) {
                        None => {
                            return String::from_str("Invalid poll");
                        },
                        Some(p) => {
                            if oid >= p.options.len() {
                                return String::from_str("Invalid vote option");
                            }
                            desc = p.options[oid].description.clone();
                        },
                    }
                }
                let palloc = self.room_alloc_mut(ri);
                let p = palloc.get_mut(pid);
                p.bump(oid);
                let mut out = String::from_str(sender);
                out.append(" voted for ");
                out.append(desc.as_str());
                out.append("\n");
                proof {
                    assert(out@ =~= sender@ + " voted for "@ + rm[pid as nat].options@[oid as int].description@
                        + "\n"@);
                }
                out
            },
            None => {
                let vs = crate::text::lowercase(string_from_chars(&tok2v).as_str());
                {
                    let alloc = &self.rooms[ri].1;
                    if alloc.get(pid).is_none() {
                        return String::new();
                    }
                }
                let palloc = self.room_alloc_mut(ri);
                let p = palloc.get_mut(pid);
                let out = p.vote_matching(&vs, sender);
                out
            },
        }
    }

    /// Close polls. A numeric selector removes exactly that poll; any
    /// other selector removes every poll whose question case-folds to
    /// the same text as the selector, in increasing id order. Each
    /// removed poll's final tally is reported.
    pub fn poll_close(&mut self, room: &str, tail: &str) -> (r: String)
        requires
            old(self).wf(),
        ensures
            final(self).wf(),
            !old(self)@.dom().contains(room@) ==> r@ == "No polls in this room.\n"@ && final(self)@
                == old(self)@,
            old(self)@.dom().contains(room@) ==> ({
                let rm = old(self)@[room@];
                let t = trim_spec(tail@);
                &&& parses_usize(t) ==> ({
                    let pid = dec_val(num_body(t));
                    &&& rm.dom().contains(pid) ==> final(self)@ == old(self)@.insert(
                        room@,
                        rm.remove(pid),
                    ) && r@ == "Poll "@ + dec_str(pid) + " removed.\n"@ + crate::poll::results_str(
                        rm[pid],
                    )
                    &&& !rm.dom().contains(pid) ==> final(self)@ == old(self)@ && r@
                        == "Invalid Index.\n"@
                })
                &&& !parses_usize(t) ==> ({
                    &&& (forall|k: nat| !matches_sel(rm, k, tail@)) ==> final(self)@ == old(self)@
                        && r@ == "Couldn't find matching poll.\n"@
                    &&& (exists|k: nat| matches_sel(rm, k, tail@)) ==> ({
                        &&& final(self)@ == old(self)@.insert(
                            room@,
                            rm.remove_keys(Set::new(|k: nat| matches_sel(rm, k, tail@))),
                        )
                        &&& (exists|ids: Seq<usize>|
                            sorted_matched_ids(ids, rm, tail@) && r@ == close_render(ids, rm))
                    })
                })
            }),
    {
        let ghost rm = room_map(old(self)@, room@);
        let room_s = String::from_str(room);
        let ri: usize = match self.room_index(&room_s) {
            None => {
                return String::from_str("No polls in this room.\n");
            },
            Some(i) => i,
        };
        let v = chars_vec(tail);
        let t = trim_vec(&v);
        match parse_usize(&t) {
            Some(pid) => {
                let palloc = self.room_alloc_mut(ri);
                match palloc.remove(pid) {
                    Some(poll) => {
                        let mut out = String::from_str("Poll ");
                        crate::text::push_dec(&mut out, pid as u128);
                        out.append(" removed.\n");
                        let res = crate::poll::get_poll_results_string(&poll);
                        out.append(res.as_str());
                        proof {
                            assert(out@ =~= "Poll "@ + dec_str(pid as nat) + " removed.\n"@
                                + crate::poll::results_str(rm[pid as nat]));
                        }
                        out
                    },
                    None => {
                        proof {
                            assert(old(self)@.insert(room@, rm) =~= old(self)@);
                        }
                        String::from_str("Invalid Index.\n")
                    },
                }
            },
            None => {
                let target = crate::text::lowercase(tail);
                let mut matched: Vec<usize> = Vec::new();
                {
                    let alloc = &self.rooms[ri].1;
                    let ids = alloc.iter();
                    let n = ids.len();
                    let mut j: usize = 0;
                    while j < n
                        invariant
                            n == ids@.len(),
                            j <= n,
                            alloc.wf(),
                            alloc@ == rm,
                            target@ == crate::text::lower_of(tail@),
                            sorted_ids_of(ids@, rm),
                            strictly_sorted(matched@),
                            forall|q: int|
                                0 <= q < matched@.len() ==> matches_sel(
                                    rm,
                                    #[trigger] matched@[q] as nat,
                                    tail@,
                                ),
                            forall|q: int|
                                0 <= q < matched@.len() ==> (exists|q2: int|
                                    0 <= q2 < j && ids@[q2] == #[trigger] matched@[q]),
                            forall|q2: int|
                                0 <= q2 < j && matches_sel(rm, #[trigger] ids@[q2] as nat, tail@)
                                    ==> id_listed(matched@, ids@[q2] as nat),
                        decreases n - j,
                    {
                        let id = ids[j];
                        match alloc.get(id) {
                            Some(p) => {
                                let lq = crate::text::lowercase(p.question.as_str());
                                let ghost pre_matched = matched@;
                                if lq == target {
                                    matched.push(id);
                                    proof {
                                        assert forall|x: int, y: int|
                                            0 <= x < y < matched@.len() implies #[trigger] matched@[x]
                                            < #[trigger] matched@[y] by {
                                            if y < matched@.len() - 1 {
                                                assert(matched@[x] == pre_matched[x]);
                                                assert(matched@[y] == pre_matched[y]);
                                            } else {
                                                assert(matched@[x] == pre_matched[x]);
                                                let q2 = choose|q2: int|
                                                    0 <= q2 < j && ids@[q2] == pre_matched[x];
                                                assert(ids@[q2] < ids@[j as int]);
                                            }
                                        }
                                    }
                                }
                                proof {
                                    assert forall|q2: int|
                                        0 <= q2 < j + 1 && matches_sel(
                                            rm,
                                            #[trigger] ids@[q2] as nat,
                                            tail@,
                                        ) implies id_listed(matched@, ids@[q2] as nat) by {
                                        if q2 < j {
                                            let q = choose|q: int|
                                                0 <= q < pre_matched.len()
                                                    && #[trigger] pre_matched[q] as nat == ids@[q2] as nat;
                                            assert(matched@[q] as nat == ids@[q2] as nat);
                                        } else {
                                            assert(matched@[matched@.len() - 1] as nat
                                                == ids@[j as int] as nat);
                                        }
                                    }
                                }
                            },
                            None => {
                                proof {
                                    assert(false);
                                }
                            },
                        }
                        j += 1;
                    }
                    proof {
                        assert forall|k: nat| #[trigger] matches_sel(rm, k, tail@) implies id_listed(
                            matched@,
                            k,
                        ) by {
                            assert(rm.dom().contains(k));
                            assert(id_listed(ids@, k));
                            let q2 = choose|q2: int|
                                0 <= q2 < ids@.len() && #[trigger] ids@[q2] as nat == k;
                        }
                    }
                }
                if matched.len() == 0 {
                    proof {
                        assert forall|k: nat| !matches_sel(rm, k, tail@) by {
                            if matches_sel(rm, k, tail@) {
                                assert(id_listed(matched@, k));
                            }
                        }
                    }
                    return String::from_str("Couldn't find matching poll.\n");
                }
                let n = matched.len();
                let mut out = String::new();
                let mut j: usize = 0;
                proof {
                    assert(old(self)@.insert(room@, rm) =~= old(self)@);
                    assert(matched@.take(0) =~= Seq::<usize>::empty());
                    assert(rm.remove_keys(ids_set(matched@.take(0))) =~= rm);
                }
                while j < n
                    invariant
                        self.wf(),
                        j <= n,
                        n == matched@.len(),
                        room@ == room_s@,
                        rm == room_map(old(self)@, room@),
                        old(self)@.dom().contains(room@),
                        sorted_matched_ids(matched@, rm, tail@),
                        ri < self.rooms@.len(),
                        self.rooms@[ri as int].0@ == room@,
                        self@ == old(self)@.insert(room@, rm.remove_keys(ids_set(matched@.take(j as int)))),
                        out@ == close_render(matched@.take(j as int), rm),
                    decreases n - j,
                {
                    proof {
                        lemma_rm_contains(self.rooms@);
                        lemma_rm_value(self.rooms@, ri as int);
                    }
                    let id = matched[j];
                    let ghost prefix = ids_set(matched@.take(j as int));
                    proof {
                        assert(matches_sel(rm, id as nat, tail@));
                        if id_listed(matched@.take(j as int), id as nat) {
                            let q = choose|q: int|
                                0 <= q < j && #[trigger] matched@.take(j as int)[q] as nat
                                    == id as nat;
                            assert(matched@[q] < matched@[j as int]);
                        }
                        assert(rm.remove_keys(prefix).dom().contains(id as nat));
                    }
                    let palloc = self.room_alloc_mut(ri);
                    match palloc.remove(id) {
                        Some(poll) => {
                            out.append("Poll ");
                            out.append(poll.question.as_str());
                            out.append(" removed.\n");
                            let res = crate::poll::get_poll_results_string(&poll);
                            out.append(res.as_str());
                        },
                        None => {
                            proof {
                                assert(false);
                            }
                        },
                    }
                    proof {
                        let t2 = matched@.take(j + 1);
                        assert(t2.drop_last() =~= matched@.take(j as int));
                        assert(t2.last() == matched@[j as int]);
                        assert(rm.remove_keys(prefix).remove(id as nat) =~= rm.remove_keys(
                            ids_set(t2),
                        )) by {
                            assert forall|k: nat| #[trigger] ids_set(t2).contains(k) implies
                                id_listed(matched@.take(j as int), k) || k == id as nat by {
                                let q = choose|q: int|
                                    0 <= q < t2.len() && #[trigger] t2[q] as nat == k;
                                if q < j {
                                    assert(matched@.take(j as int)[q] as nat == k);
                                }
                            }
                            assert forall|k: nat|
                                id_listed(matched@.take(j as int), k) implies ids_set(
                                t2,
                            ).contains(k) by {
                                let q = choose|q: int|
                                    0 <= q < j && #[trigger] matched@.take(j as int)[q] as nat
                                        == k;
                                assert(t2[q] as nat == k);
                            }
                            assert(ids_set(t2).contains(id as nat)) by {
                                assert(t2[j as int] as nat == id as nat);
                            }
                        }
                        assert(self@ =~= old(self)@.insert(
                            room@,
                            rm.remove_keys(ids_set(matched@.take(j + 1))),
                        ));
                        assert(out@ =~= close_render(matched@.take(j + 1), rm));
                    }
                    j += 1;
                }
                proof {
                    assert(matched@.take(n as int) =~= matched@);
                    assert(ids_set(matched@) =~= Set::new(|k: nat| matches_sel(rm, k, tail@))) by {
                        assert forall|k: nat| #[trigger] id_listed(matched@, k) implies matches_sel(
                            rm,
                            k,
                            tail@,
                        ) by {
                            let q = choose|q: int|
                                0 <= q < matched@.len() && #[trigger] matched@[q] as nat == k;
                        }
                    }
                    assert(matches_sel(rm, matched@[0] as nat, tail@));
                }
                out
            },
        }
    }

    /// List every poll of the room in increasing id order: id, question
    /// and options with their indices; a fixed message when the room has
    /// no polls.
    pub fn poll_list(&self, room: &str) -> (r: String)
        requires
            self.wf(),
        ensures
            (!self@.dom().contains(room@) || room_map(self@, room@).dom() =~= Set::empty())
                ==> r@ == "No active polls."@,
            self@.dom().contains(room@) && !(room_map(self@, room@).dom() =~= Set::empty()) ==> (
            exists|ids: Seq<usize>|
                sorted_ids_of(ids, room_map(self@, room@)) && r@ == render_polls(
                    ids,
                    room_map(self@, room@),
                )),
    {
        let room_s = String::from_str(room);
        let mut statement = String::new();
        match self.room_index(&room_s) {
            None => {},
            Some(ri) => {
                let alloc = &self.rooms[ri].1;
                let ghost rm = room_map(self@, room@);
                let ids = alloc.iter();
                let n = ids.len();
                let mut j: usize = 0;
                while j < n
                    invariant
                        n == ids@.len(),
                        j <= n,
                        alloc.wf(),
                        alloc@ == rm,
                        sorted_ids_of(ids@, rm),
                        statement@ == render_polls(ids@.take(j as int), rm),
                    decreases n - j,
                {
                    let id = ids[j];
                    match alloc.get(id) {
                        Some(p) => {
                            let entry = render_list_entry(id, p);
                            statement.append(entry.as_str());
                        },
                        None => {
                            proof {
                                assert(false);
                            }
                        },
                    }
                    proof {
                        let t = ids@.take(j + 1);
                        assert(t.drop_last() =~= ids@.take(j as int));
                        assert(t.last() == ids@[j as int]);
                    }
                    j += 1;
                }
                proof {
                    assert(ids@.take(n as int) =~= ids@);
                    if rm.dom() =~= Set::<nat>::empty() {
                        if ids@.len() > 0 {
                            assert(rm.dom().contains(ids@[0] as nat));
                        }
                        assert(ids@.take(0) =~= Seq::<usize>::empty());
                    } else {
                        let k = choose|k: nat| rm.dom().contains(k);
                        assert(id_listed(ids@, k));
                        assert(ids@.len() > 0);
                        reveal_strlit("Poll ");
                        assert(render_polls(ids@, rm).len() >= list_poll_str(
                            ids@.last() as nat,
                            rm[ids@.last() as nat],
                        ).len());
                        assert(list_poll_str(ids@.last() as nat, rm[ids@.last() as nat]).len()
                            >= 5);
                    }
                }
            },
        }
        if statement.as_str().is_empty() {
            proof {
                reveal_strlit("No active polls.");
            }
            statement.append("No active polls.");
            proof {
                assert(Seq::<char>::empty() + "No active polls."@ =~= "No active polls."@);
            }
        }
        statement
    }
}

/// The first whitespace-delimited word of the trimmed vote arguments.
pub open spec fn vote_tok1(s: Seq<char>) -> Seq<char> {
    trim_spec(s).take(find_ws(trim_spec(s)))
}

/// What follows that word, without the whitespace between them.
pub open spec fn vote_tok2(s: Seq<char>) -> Seq<char> {
    crate::text::trim_start_spec(trim_spec(s).skip(find_ws(trim_spec(s))))
}

/// True when the vote arguments are exactly two whitespace-delimited
/// words.
pub open spec fn vote_has_two_args(s: Seq<char>) -> bool {
    &&& find_ws(trim_spec(s)) < trim_spec(s).len()
    &&& find_ws(vote_tok2(s)) == vote_tok2(s).len()
}

/// True when `str::parse::<usize>` accepts the text.
pub open spec fn parses_usize(s: Seq<char>) -> bool {
    is_numeric(s) && dec_val(num_body(s)) <= usize::MAX as nat
}

/// True when poll `k` of `m` exists and its question case-folds to the
/// same text as the selector.
pub open spec fn matches_sel(m: Map<nat, Poll>, k: nat, sel: Seq<char>) -> bool {
    m.dom().contains(k) && crate::text::lower_of(m[k].question@) == crate::text::lower_of(sel)
}

/// The set of ids an id sequence lists.
pub open spec fn ids_set(s: Seq<usize>) -> Set<nat> {
    Set::new(|k: nat| id_listed(s, k))
}

/// True when `ids` lists, in increasing order, exactly the polls of `m`
/// whose question matches the selector.
pub open spec fn sorted_matched_ids(ids: Seq<usize>, m: Map<nat, Poll>, sel: Seq<char>) -> bool {
    &&& strictly_sorted(ids)
    &&& (forall|j: int| 0 <= j < ids.len() ==> matches_sel(m, #[trigger] ids[j] as nat, sel))
    &&& (forall|k: nat| #[trigger] matches_sel(m, k, sel) ==> id_listed(ids, k))
}

/// The close command's report over the removed ids: one removal line and
/// one final tally per poll.
pub open spec fn close_render(ids: Seq<usize>, m: Map<nat, Poll>) -> Seq<char>
    decreases ids.len(),
{
    if ids.len() == 0 {
        Seq::empty()
    } else {
        close_render(ids.drop_last(), m) + "Poll "@ + m[ids.last() as nat].question@
            + " removed.\n"@ + crate::poll::results_str(m[ids.last() as nat])
    }
}

/// Where a poll command is routed: the three subcommands with their
/// argument text, the bare list command, or the help text for anything
/// else.
pub enum PollCmd {
    Vote(String),
    Close(String),
    New(String),
    List,
    Help,
}

/// Split the command tail as the poll command handler does: the first
/// whitespace-delimited word picks the subcommand and the rest (with its
/// leading whitespace) is the argument text; an unknown word makes the
/// whole trimmed tail a new-poll text; without any whitespace only
/// `list` is a command and everything else asks for help.
pub fn route_poll_command(tail: &str) -> (r: PollCmd)
    ensures
        ({
            let t = trim_spec(tail@);
            let a = find_ws(t);
            &&& a < t.len() && t.take(a) == "vote"@ ==> (r matches PollCmd::Vote(s) && s@ == t.skip(
                a,
            ))
            &&& a < t.len() && t.take(a) == "close"@ ==> (r matches PollCmd::Close(s) && s@
                == t.skip(a))
            &&& a < t.len() && t.take(a) == "new"@ ==> (r matches PollCmd::New(s) && s@ == t.skip(
                a,
            ))
            &&& a < t.len() && t.take(a) != "vote"@ && t.take(a) != "close"@ && t.take(a) != "new"@
                ==> (r matches PollCmd::New(s) && s@ == t)
            &&& a == t.len() && t == "list"@ ==> r is List
            &&& a == t.len() && t != "list"@ ==> r is Help
        }),
{
    let v = chars_vec(tail);
    let t = trim_vec(&v);
    let a = find_ws_vec(&t);
    proof {
        crate::text::lemma_find_ws(t@);
        reveal_strlit("vote");
        reveal_strlit("close");
        reveal_strlit("new");
        assert("vote"@.len() == 4 && "close"@.len() == 5 && "new"@.len() == 3);
        assert("vote"@ != "close"@ && "vote"@ != "new"@ && "close"@ != "new"@);
    }
    if a < t.len() {
        let cmd = string_from_chars(&subvec(&t, 0, a));
        let rest = string_from_chars(&subvec(&t, a, t.len()));
        proof {
            assert(t@.subrange(0, a as int) =~= t@.take(a as int));
            assert(t@.subrange(a as int, t@.len() as int) =~= t@.skip(a as int));
        }
        if cmd == String::from_str("vote") {
            PollCmd::Vote(rest)
        } else if cmd == String::from_str("close") {
            PollCmd::Close(rest)
        } else if cmd == String::from_str("new") {
            PollCmd::New(rest)
        } else {
            PollCmd::New(string_from_chars(&t))
        }
    } else {
        if string_from_chars(&t) == String::from_str("list") {
            PollCmd::List
        } else {
            PollCmd::Help
        }
    }
}

/// The help text the bot answers with.
pub fn help_message() -> (r: String)
    ensures
        r@ == (
        "help - print this help message.\necho - repeat all text after command.\nroll - return a random number between 1 and the given number (inclusive)\nvote - takes one subcommand out of new, vote, close, or list\n    new - start a new poll. Requires a question and at least 2 options separated by lines\n    vote - vote on a poll. Takes the poll number and the option.\n    close - close a poll. Takes the poll number or question and prints the results\n    list - lists the current active polls")@,
{
    String::from_str(
        "help - print this help message.\necho - repeat all text after command.\nroll - return a random number between 1 and the given number (inclusive)\nvote - takes one subcommand out of new, vote, close, or list\n    new - start a new poll. Requires a question and at least 2 options separated by lines\n    vote - vote on a poll. Takes the poll number and the option.\n    close - close a poll. Takes the poll number or question and prints the results\n    list - lists the current active polls",
    )
}

/// Mutably borrow the second half of a pair.
fn pair_snd_mut<A, B>(e: &mut (A, B)) -> (r: &mut B)
    ensures
        *r == old(e).1,
        *final(e) == (old(e).0, *final(r)),
{
    &mut e.1
}

} // verus!
