//! The queue store: an ordered pending list with derived predictions, a
//! bounded play history, intermission statistics, a listener registry, and
//! the "apply change" step every structural mutation funnels into.
//!
//! A store value is pure data. Mutations return [`Effects`]: the encoded
//! snapshot its surroundings must persist and then broadcast to the listed
//! recipients, in mutation order. The caller performing the deliveries owns
//! the clock as well, and passes the current time in as milliseconds since
//! the unix epoch.

use vstd::prelude::*;
use crate::audit::{
    RFC3339_MS_LIMIT, bug_log_record, csv_record_of, ms_to_ns, rfc3339_of, song_log_record,
};
use crate::catalog::{Catalog, SongView, lookup};
use crate::codec::{
    PersistState, StateView, dec_state, decode_state, enc_state, encode_state, wf_state,
};
use crate::entry::{EntryView, PlaylistEntry, find_song_in_queue, has_id, views_of};
use crate::predict::{
    all_resolvable, average_intermission, lemma_recompute_nondecreasing, nondecreasing_ends,
    recompute, recompute_from, sat64,
};

verus! {

/// Capacity of the recently-played history.
pub const MAX_PLAY_HISTORY: usize = 3;

/// Intermission gaps at or above this bound (five minutes) are not
/// representative and never enter the statistics.
pub const MAX_INTERMISSION_MS: u64 = 300000;

/// The digest a removal secret is stored and compared as.
pub uninterp spec fn digest_of(s: Seq<char>) -> Seq<char>;

/// Relies on sha256::digest: the hex digest of the text, a function of its
/// characters alone.
#[verifier::external_body]
fn sha256_digest(s: &str) -> (r: String)
    ensures
        r@ == digest_of(s@),
{
    sha256::digest(s)
}

/// Relies on uuid::Uuid::new_v4 (read back with `as_u128`) for a fresh
/// random identifier; nothing is promised of the value. The call aborts the
/// process if the operating system's randomness source fails, an
/// environmental failure no input can avoid.
#[verifier::external_body]
fn fresh_id() -> u128 {
    uuid::Uuid::new_v4().as_u128()
}

/// What one successful mutation asks its surroundings to do: overwrite the
/// persisted file with `snapshot`, then deliver `snapshot` to every id in
/// `recipients`.
pub struct Effects {
    pub snapshot: Vec<u64>,
    pub recipients: Vec<u128>,
}

/// The obligations every mutation's effects meet: the snapshot is the
/// encoding of the state just produced, and the recipients are exactly the
/// registered listeners, in registration order.
pub open spec fn effects_ok(fx: &Effects, post: StateView, listeners: Seq<u128>) -> bool {
    &&& fx.snapshot@ == enc_state(post)
    &&& fx.recipients@ == listeners
}

/// `song` is in the valid song set `valid`.
pub open spec fn song_ok(valid: Seq<i64>, song: int) -> bool {
    exists|i: int| 0 <= i < valid.len() && valid[i] == song
}

/// Where the prediction walk starts: the predicted end of the newest history
/// entry, or `now` on an empty history.
pub open spec fn start_of(v: StateView, now: int) -> int {
    if v.play_history.len() > 0 {
        v.play_history.last().predicted_end
    } else {
        now
    }
}

/// The state after the apply-change step: all predictions recomputed,
/// everything else untouched.
pub open spec fn after_change(v: StateView, cat: Seq<SongView>, now: int) -> StateView {
    StateView {
        list: recompute_from(
            v.list,
            cat,
            start_of(v, now),
            average_intermission(v.intermission_duration, v.intermission_count),
        ),
        ..v
    }
}

/// `i` is the position the queue walk finds `id` at: the first match.
pub open spec fn is_first_id(q: Seq<EntryView>, id: int, i: int) -> bool {
    &&& 0 <= i < q.len()
    &&& q[i].id == id
    &&& forall|j: int| 0 <= j < i ==> q[j].id != id
}

/// The same state with another pending list.
pub open spec fn with_list(v: StateView, l: Seq<EntryView>) -> StateView {
    StateView { list: l, ..v }
}

/// The predicted end a submission is first given: past the current tail, or
/// `now` on an empty queue.
pub open spec fn submit_end(v: StateView, dur: int, now: int) -> int {
    if v.list.len() == 0 {
        now
    } else {
        sat64(v.list.last().predicted_end + dur)
    }
}

/// The entry a submission appends.
pub open spec fn submitted_entry(
    v: StateView,
    id: int,
    song: int,
    singer: Seq<char>,
    password: Seq<char>,
    dur: int,
    now: int,
) -> EntryView {
    EntryView {
        id: id,
        song: song,
        singer: singer,
        password_hash: digest_of(password),
        predicted_end: submit_end(v, dur, now),
    }
}

/// The state right after an entry at `i` is advanced to history: oldest
/// history entry evicted at capacity, the played entry appended, and the
/// measured intermission gap applied to the statistics when it lies in
/// `[0, MAX_INTERMISSION_MS)`.
pub open spec fn play_transform(v: StateView, i: int, now: int) -> StateView {
    let entry = v.list[i];
    let hist0 = if v.play_history.len() >= MAX_PLAY_HISTORY {
        v.play_history.drop_first()
    } else {
        v.play_history
    };
    let measured = hist0.len() > 0
        && 0 <= now - hist0.last().predicted_end < MAX_INTERMISSION_MS;
    StateView {
        list: v.list.remove(i),
        play_history: hist0.push(entry),
        intermission_duration: if measured {
            sat64(v.intermission_duration + (now - hist0.last().predicted_end))
        } else {
            v.intermission_duration
        },
        intermission_count: if measured {
            sat64(v.intermission_count + 1)
        } else {
            v.intermission_count
        },
    }
}

/// The pending list after `MoveAfter`: the moved entry ends directly after
/// the target when it preceded it, and directly after the target's original
/// position when it followed it.
pub open spec fn move_after_seq(l: Seq<EntryView>, i: int, j: int) -> Seq<EntryView> {
    if i < j {
        l.remove(i).insert(j, l[i])
    } else {
        l.remove(i).insert(j + 1, l[i])
    }
}

/// The state a fresh store starts from.
pub open spec fn empty_state() -> StateView {
    StateView {
        list: Seq::<EntryView>::empty(),
        play_history: Seq::<EntryView>::empty(),
        intermission_duration: 0,
        intermission_count: 0,
    }
}

/// Result of a submission.
pub enum AddOutcome {
    /// The song is outside the valid song set; nothing happened.
    Rejected,
    /// The song is valid but could not be added: the catalog cannot resolve
    /// it, or the drawn id is already taken. Nothing happened.
    Fault,
    /// Appended at the queue tail under `id`.
    Added { id: u128, effects: Effects },
}

/// Result of advancing an entry to the play history.
pub enum PlayOutcome {
    NotFound,
    Played { effects: Effects, log_record: Option<Vec<u8>> },
}

/// Result of a removal or reorder.
pub enum ChangeOutcome {
    NotFound,
    Changed { effects: Effects },
}

/// Result of a subscription.
pub enum SubscribeOutcome {
    /// Registered under `id`; `snapshot` must be delivered to it at once.
    Subscribed { id: u128, snapshot: Vec<u64> },
    /// The drawn id is already registered; nothing happened.
    Fault,
}

/// A persisted document that could not be decoded.
#[derive(Debug)]
pub enum LoadError {
    Malformed,
}

/// The queue store.
pub struct Playlist {
    pub valid_songs: Vec<i64>,
    pub state: PersistState,
    pub listeners: Vec<u128>,
}

impl Playlist {
    /// The store's invariant: the history stays within its capacity and no
    /// listener is registered twice.
    pub open spec fn wf(&self) -> bool {
        &&& self.state.play_history@.len() <= MAX_PLAY_HISTORY
        &&& forall|i: int, j: int|
            0 <= i < j < self.listeners@.len() ==> self.listeners@[i] != self.listeners@[j]
    }

    pub open spec fn valid_song(&self, song: int) -> bool {
        song_ok(self.valid_songs@, song)
    }

    fn is_valid_song(&self, song: i64) -> (r: bool)
        ensures
            r == self.valid_song(song as int),
    {
        contains_song(&self.valid_songs, song)
    }

    /// Recompute predictions, then hand back what must be persisted and
    /// broadcast. Every mutation ends here.
    fn apply_change(&mut self, cat: &Catalog, now: u64) -> (fx: Effects)
        ensures
            final(self).state@ == after_change(old(self).state@, cat@, now as int),
            final(self).valid_songs@ == old(self).valid_songs@,
            final(self).listeners@ == old(self).listeners@,
            effects_ok(&fx, final(self).state@, final(self).listeners@),
            wf_state(final(self).state@),
            final(self).state.play_history@ == old(self).state.play_history@,
    {
        let hist_len = self.state.play_history.len();
        let start: u64 = if hist_len > 0 {
            self.state.play_history[hist_len - 1].predicted_end
        } else {
            now
        };
        assert(start as int == start_of(old(self).state@, now as int));
        let avg: u64 = if self.state.intermission_count == 0 {
            0
        } else {
            self.state.intermission_duration / self.state.intermission_count
        };
        assert(avg as int == average_intermission(
            old(self).state@.intermission_duration,
            old(self).state@.intermission_count,
        ));
        recompute(&mut self.state.list, cat, start, avg);
        assert(self.state@ =~= after_change(old(self).state@, cat@, now as int));
        let snapshot = encode_state(&self.state);
        let mut recipients: Vec<u128> = Vec::new();
        let mut i: usize = 0;
        while i < self.listeners.len()
            invariant
                i <= self.listeners@.len(),
                recipients@ == self.listeners@.take(i as int),
            decreases self.listeners@.len() - i,
        {
            recipients.push(self.listeners[i]);
            i += 1;
        }
        assert(self.listeners@.take(i as int) =~= self.listeners@);
        Effects { snapshot: snapshot, recipients: recipients }
    }

    /// Submit a performance request: rejected outside the valid song set,
    /// a fault when the catalog cannot resolve a valid song, otherwise
    /// appended at the queue tail with a digest of the removal secret.
    pub fn add(
        &mut self,
        song: i64,
        singer: String,
        password: String,
        cat: &Catalog,
        now: u64,
    ) -> (r: AddOutcome)
        requires
            old(self).wf(),
        ensures
            final(self).wf(),
            final(self).valid_songs@ == old(self).valid_songs@,
            final(self).listeners@ == old(self).listeners@,
            !old(self).valid_song(song as int) ==> r is Rejected,
            old(self).valid_song(song as int) && lookup(cat@, song as int) is None ==> r is Fault,
            match r {
                AddOutcome::Rejected => {
                    &&& !old(self).valid_song(song as int)
                    &&& final(self).state@ == old(self).state@
                },
                AddOutcome::Fault => {
                    &&& old(self).valid_song(song as int)
                    &&& final(self).state@ == old(self).state@
                    &&& lookup(cat@, song as int) is Some
                        ==> old(self).state@.list.len() > 0
                },
                AddOutcome::Added { id, effects } => {
                    &&& old(self).valid_song(song as int)
                    &&& !has_id(old(self).state@.list, id as int)
                    &&& lookup(cat@, song as int) matches Some(s)
                        && final(self).state@ == after_change(
                            with_list(
                                old(self).state@,
                                old(self).state@.list.push(
                                    submitted_entry(
                                        old(self).state@,
                                        id as int,
                                        song as int,
                                        singer@,
                                        password@,
                                        s.duration_ms,
                                        now as int,
                                    ),
                                ),
                            ),
                            cat@,
                            now as int,
                        )
                    &&& effects_ok(&effects, final(self).state@, final(self).listeners@)
                },
            },
    {
        if !self.is_valid_song(song) {
            return AddOutcome::Rejected;
        }
        let dur = match cat.find(song) {
            Some(rec) => rec.duration_ms,
            None => {
                return AddOutcome::Fault;
            },
        };
        let id = fresh_id();
        if find_song_in_queue(&self.state.list, id).is_some() {
            assert(self.state@.list.len() > 0);
            return AddOutcome::Fault;
        }
        let list_len = self.state.list.len();
        let predicted_end: u64 = if list_len == 0 {
            now
        } else {
            self.state.list[list_len - 1].predicted_end.saturating_add(dur)
        };
        let hash = sha256_digest(password.as_str());
        let ghost pre = self.state@;
        let entry = PlaylistEntry {
            id: id,
            song: song,
            singer: singer,
            password_hash: hash,
            predicted_end: predicted_end,
        };
        proof {
            let s = lookup(cat@, song as int)->Some_0;
            assert(entry@ =~= submitted_entry(
                pre, id as int, song as int, entry.singer@, password@, s.duration_ms, now as int,
            ));
        }
        self.state.list.push(entry);
        assert(self.state@ =~= with_list(pre, pre.list.push(entry@)));
        let effects = self.apply_change(cat, now);
        AddOutcome::Added { id: id, effects: effects }
    }

    /// Advance the entry carrying `id` to the play history, measure the
    /// intermission gap, recompute predictions, and build the song-log
    /// record when the song resolves.
    pub fn play(&mut self, id: u128, cat: &Catalog, now: u64) -> (r: PlayOutcome)
        requires
            old(self).wf(),
        ensures
            final(self).wf(),
            final(self).valid_songs@ == old(self).valid_songs@,
            final(self).listeners@ == old(self).listeners@,
            match r {
                PlayOutcome::NotFound => {
                    &&& !has_id(old(self).state@.list, id as int)
                    &&& final(self).state@ == old(self).state@
                },
                PlayOutcome::Played { effects, log_record } => {
                    &&& has_id(old(self).state@.list, id as int)
                    &&& forall|i: int|
                        is_first_id(old(self).state@.list, id as int, i) ==> final(self).state@
                            == after_change(
                            play_transform(old(self).state@, i, now as int),
                            cat@,
                            now as int,
                        )
                    &&& effects_ok(&effects, final(self).state@, final(self).listeners@)
                    &&& forall|i: int|
                        is_first_id(old(self).state@.list, id as int, i) ==> {
                            &&& (lookup(cat@, old(self).state@.list[i].song) is None
                                ==> log_record is None)
                            &&& (lookup(cat@, old(self).state@.list[i].song) is Some
                                && now < RFC3339_MS_LIMIT ==> log_record is Some)
                            &&& (log_record matches Some(b)
                                ==> lookup(cat@, old(self).state@.list[i].song) matches Some(s)
                                    && b@ == csv_record_of(
                                    seq![rfc3339_of(ms_to_ns(now as int)), s.artist, s.title],
                                ))
                        }
                },
            },
    {
        let idx = match find_song_in_queue(&self.state.list, id) {
            Some(i) => i,
            None => {
                return PlayOutcome::NotFound;
            },
        };
        let ghost pre = self.state@;
        assert(has_id(pre.list, id as int));
        if self.state.play_history.len() >= MAX_PLAY_HISTORY {
            self.state.play_history.remove(0);
            assert(views_of(self.state.play_history@) =~= pre.play_history.drop_first());
        }
        let hist0_len = self.state.play_history.len();
        let prev_end: Option<u64> = if hist0_len > 0 {
            Some(self.state.play_history[hist0_len - 1].predicted_end)
        } else {
            None
        };
        let entry = self.state.list.remove(idx);
        let song = entry.song;
        self.state.play_history.push(entry);
        if let Some(pe) = prev_end {
            if now >= pe && now - pe < MAX_INTERMISSION_MS {
                self.state.intermission_duration =
                    self.state.intermission_duration.saturating_add(now - pe);
                self.state.intermission_count = self.state.intermission_count.saturating_add(1);
            }
        }
        proof {
            assert(self.state@.list =~= pre.list.remove(idx as int));
            assert(self.state@ =~= play_transform(pre, idx as int, now as int));
            assert forall|i: int| is_first_id(pre.list, id as int, i) implies i == idx as int by {
                if i < idx as int {
                    assert(pre.list[i].id != id as int);
                } else if i > idx as int {
                    assert(pre.list[idx as int].id != id as int);
                }
            }
        }
        let effects = self.apply_change(cat, now);
        let log_record = match cat.find(song) {
            Some(rec) => song_log_record(&rec.artist, &rec.title, now),
            None => None,
        };
        PlayOutcome::Played { effects: effects, log_record: log_record }
    }

    /// Unconditional delete of the entry carrying `id`.
    pub fn remove(&mut self, id: u128, cat: &Catalog, now: u64) -> (r: ChangeOutcome)
        requires
            old(self).wf(),
        ensures
            final(self).wf(),
            final(self).valid_songs@ == old(self).valid_songs@,
            final(self).listeners@ == old(self).listeners@,
            match r {
                ChangeOutcome::NotFound => {
                    &&& !has_id(old(self).state@.list, id as int)
                    &&& final(self).state@ == old(self).state@
                },
                ChangeOutcome::Changed { effects } => {
                    &&& has_id(old(self).state@.list, id as int)
                    &&& forall|i: int|
                        is_first_id(old(self).state@.list, id as int, i) ==> final(self).state@
                            == after_change(
                            with_list(old(self).state@, old(self).state@.list.remove(i)),
                            cat@,
                            now as int,
                        )
                    &&& effects_ok(&effects, final(self).state@, final(self).listeners@)
                },
            },
    {
        let idx = match find_song_in_queue(&self.state.list, id) {
            Some(i) => i,
            None => {
                return ChangeOutcome::NotFound;
            },
        };
        let ghost pre = self.state@;
        self.state.list.remove(idx);
        proof {
            assert(self.state@ =~= with_list(pre, pre.list.remove(idx as int)));
            assert forall|i: int| is_first_id(pre.list, id as int, i) implies i == idx as int by {
                if i > idx as int {
                    assert(pre.list[idx as int].id != id as int);
                }
            }
        }
        let effects = self.apply_change(cat, now);
        ChangeOutcome::Changed { effects: effects }
    }

    /// Delete the entry carrying `id` only when the digest of `password`
    /// matches the digest stored at submission; a wrong secret or a missing
    /// id both leave the store untouched.
    pub fn remove_if_password_correct(
        &mut self,
        id: u128,
        password: String,
        cat: &Catalog,
        now: u64,
    ) -> (r: ChangeOutcome)
        requires
            old(self).wf(),
        ensures
            final(self).wf(),
            final(self).valid_songs@ == old(self).valid_songs@,
            final(self).listeners@ == old(self).listeners@,
            match r {
                ChangeOutcome::NotFound => {
                    &&& final(self).state@ == old(self).state@
                    &&& forall|i: int|
                        is_first_id(old(self).state@.list, id as int, i)
                            ==> old(self).state@.list[i].password_hash != digest_of(password@)
                },
                ChangeOutcome::Changed { effects } => {
                    &&& has_id(old(self).state@.list, id as int)
                    &&& forall|i: int|
                        is_first_id(old(self).state@.list, id as int, i) ==> {
                            &&& old(self).state@.list[i].password_hash == digest_of(password@)
                            &&& final(self).state@ == after_change(
                                with_list(old(self).state@, old(self).state@.list.remove(i)),
                                cat@,
                                now as int,
                            )
                        }
                    &&& effects_ok(&effects, final(self).state@, final(self).listeners@)
                },
            },
    {
        let idx = match find_song_in_queue(&self.state.list, id) {
            Some(i) => i,
            None => {
                return ChangeOutcome::NotFound;
            },
        };
        let digest = sha256_digest(password.as_str());
        if !string_eq(&digest, &self.state.list[idx].password_hash) {
            proof {
                assert forall|i: int| is_first_id(self.state@.list, id as int, i)
                    implies i == idx as int by {
                    if i > idx as int {
                        assert(self.state@.list[idx as int].id != id as int);
                    }
                }
            }
            return ChangeOutcome::NotFound;
        }
        let ghost pre = self.state@;
        self.state.list.remove(idx);
        proof {
            assert(self.state@ =~= with_list(pre, pre.list.remove(idx as int)));
            assert forall|i: int| is_first_id(pre.list, id as int, i) implies i == idx as int by {
                if i > idx as int {
                    assert(pre.list[idx as int].id != id as int);
                }
            }
        }
        let effects = self.apply_change(cat, now);
        ChangeOutcome::Changed { effects: effects }
    }

    /// Exchange the positions of two distinct entries.
    pub fn swap(&mut self, id1: u128, id2: u128, cat: &Catalog, now: u64) -> (r: ChangeOutcome)
        requires
            old(self).wf(),
        ensures
            final(self).wf(),
            final(self).valid_songs@ == old(self).valid_songs@,
            final(self).listeners@ == old(self).listeners@,
            match r {
                ChangeOutcome::NotFound => {
                    &&& (id1 == id2 || !has_id(old(self).state@.list, id1 as int)
                        || !has_id(old(self).state@.list, id2 as int))
                    &&& final(self).state@ == old(self).state@
                },
                ChangeOutcome::Changed { effects } => {
                    &&& id1 != id2
                    &&& has_id(old(self).state@.list, id1 as int)
                    &&& has_id(old(self).state@.list, id2 as int)
                    &&& forall|i: int, j: int|
                        is_first_id(old(self).state@.list, id1 as int, i)
                            && is_first_id(old(self).state@.list, id2 as int, j)
                            ==> final(self).state@ == after_change(
                            with_list(
                                old(self).state@,
                                old(self).state@.list.update(i, old(self).state@.list[j]).update(
                                    j,
                                    old(self).state@.list[i],
                                ),
                            ),
                            cat@,
                            now as int,
                        )
                    &&& effects_ok(&effects, final(self).state@, final(self).listeners@)
                },
            },
    {
        if id1 == id2 {
            return ChangeOutcome::NotFound;
        }
        let idx1 = match find_song_in_queue(&self.state.list, id1) {
            Some(i) => i,
            None => {
                return ChangeOutcome::NotFound;
            },
        };
        let idx2 = match find_song_in_queue(&self.state.list, id2) {
            Some(i) => i,
            None => {
                return ChangeOutcome::NotFound;
            },
        };
        let ghost pre = self.state@;
        assert(idx1 != idx2);
        let (a, b) = if idx1 < idx2 {
            (idx1, idx2)
        } else {
            (idx2, idx1)
        };
        let eb = self.state.list.remove(b);
        let ea = self.state.list.remove(a);
        self.state.list.insert(a, eb);
        self.state.list.insert(b, ea);
        proof {
            assert(views_of(self.state.list@) =~= pre.list.update(
                a as int,
                pre.list[b as int],
            ).update(b as int, pre.list[a as int]));
            assert(self.state@ =~= with_list(
                pre,
                pre.list.update(idx1 as int, pre.list[idx2 as int]).update(
                    idx2 as int,
                    pre.list[idx1 as int],
                ),
            ));
            assert forall|i: int| is_first_id(pre.list, id1 as int, i)
                implies i == idx1 as int by {
                if i > idx1 as int {
                    assert(pre.list[idx1 as int].id != id1 as int);
                }
            }
            assert forall|j: int| is_first_id(pre.list, id2 as int, j)
                implies j == idx2 as int by {
                if j > idx2 as int {
                    assert(pre.list[idx2 as int].id != id2 as int);
                }
            }
        }
        let effects = self.apply_change(cat, now);
        ChangeOutcome::Changed { effects: effects }
    }

    /// Move the entry carrying `id` to stand directly after the entry
    /// carrying `after`.
    pub fn move_after(&mut self, id: u128, after: u128, cat: &Catalog, now: u64) -> (r:
        ChangeOutcome)
        requires
            old(self).wf(),
        ensures
            final(self).wf(),
            final(self).valid_songs@ == old(self).valid_songs@,
            final(self).listeners@ == old(self).listeners@,
            match r {
                ChangeOutcome::NotFound => {
                    &&& (id == after || !has_id(old(self).state@.list, id as int)
                        || !has_id(old(self).state@.list, after as int))
                    &&& final(self).state@ == old(self).state@
                },
                ChangeOutcome::Changed { effects } => {
                    &&& id != after
                    &&& has_id(old(self).state@.list, id as int)
                    &&& has_id(old(self).state@.list, after as int)
                    &&& forall|i: int, j: int|
                        is_first_id(old(self).state@.list, id as int, i)
                            && is_first_id(old(self).state@.list, after as int, j)
                            ==> final(self).state@ == after_change(
                            with_list(old(self).state@, move_after_seq(old(self).state@.list, i, j)),
                            cat@,
                            now as int,
                        )
                    &&& effects_ok(&effects, final(self).state@, final(self).listeners@)
                },
            },
    {
        if id == after {
            return ChangeOutcome::NotFound;
        }
        let idx = match find_song_in_queue(&self.state.list, id) {
            Some(i) => i,
            None => {
                return ChangeOutcome::NotFound;
            },
        };
        let after_idx = match find_song_in_queue(&self.state.list, after) {
            Some(i) => i,
            None => {
                return ChangeOutcome::NotFound;
            },
        };
        let ghost pre = self.state@;
        assert(idx != after_idx);
        let entry = self.state.list.remove(idx);
        if idx < after_idx {
            self.state.list.insert(after_idx, entry);
        } else {
            self.state.list.insert(after_idx + 1, entry);
        }
        proof {
            assert(self.state@ =~= with_list(
                pre,
                move_after_seq(pre.list, idx as int, after_idx as int),
            ));
            assert forall|i: int| is_first_id(pre.list, id as int, i) implies i == idx as int by {
                if i > idx as int {
                    assert(pre.list[idx as int].id != id as int);
                }
            }
            assert forall|j: int| is_first_id(pre.list, after as int, j)
                implies j == after_idx as int by {
                if j > after_idx as int {
                    assert(pre.list[after_idx as int].id != after as int);
                }
            }
        }
        let effects = self.apply_change(cat, now);
        ChangeOutcome::Changed { effects: effects }
    }

    /// Relocate the entry carrying `id` to the queue head.
    pub fn move_top(&mut self, id: u128, cat: &Catalog, now: u64) -> (r: ChangeOutcome)
        requires
            old(self).wf(),
        ensures
            final(self).wf(),
            final(self).valid_songs@ == old(self).valid_songs@,
            final(self).listeners@ == old(self).listeners@,
            match r {
                ChangeOutcome::NotFound => {
                    &&& !has_id(old(self).state@.list, id as int)
                    &&& final(self).state@ == old(self).state@
                },
                ChangeOutcome::Changed { effects } => {
                    &&& has_id(old(self).state@.list, id as int)
                    &&& forall|i: int|
                        is_first_id(old(self).state@.list, id as int, i) ==> final(self).state@
                            == after_change(
                            with_list(
                                old(self).state@,
                                old(self).state@.list.remove(i).insert(
                                    0,
                                    old(self).state@.list[i],
                                ),
                            ),
                            cat@,
                            now as int,
                        )
                    &&& effects_ok(&effects, final(self).state@, final(self).listeners@)
                },
            },
    {
        let idx = match find_song_in_queue(&self.state.list, id) {
            Some(i) => i,
            None => {
                return ChangeOutcome::NotFound;
            },
        };
        let ghost pre = self.state@;
        let entry = self.state.list.remove(idx);
        self.state.list.insert(0, entry);
        proof {
            assert(self.state@ =~= with_list(
                pre,
                pre.list.remove(idx as int).insert(0, pre.list[idx as int]),
            ));
            assert forall|i: int| is_first_id(pre.list, id as int, i) implies i == idx as int by {
                if i > idx as int {
                    assert(pre.list[idx as int].id != id as int);
                }
            }
        }
        let effects = self.apply_change(cat, now);
        ChangeOutcome::Changed { effects: effects }
    }

    /// Register a listener. The returned snapshot must be delivered to it
    /// before anything else; every later mutation's snapshot follows through
    /// [`Effects::recipients`].
    pub fn subscribe(&mut self) -> (r: SubscribeOutcome)
        requires
            old(self).wf(),
        ensures
            final(self).wf(),
            final(self).state@ == old(self).state@,
            final(self).valid_songs@ == old(self).valid_songs@,
            match r {
                SubscribeOutcome::Subscribed { id, snapshot } => {
                    &&& !old(self).listeners@.contains(id)
                    &&& final(self).listeners@ == old(self).listeners@.push(id)
                    &&& snapshot@ == enc_state(old(self).state@)
                },
                SubscribeOutcome::Fault => {
                    &&& final(self).listeners@ == old(self).listeners@
                    &&& old(self).listeners@.len() > 0
                },
            },
    {
        let id = fresh_id();
        if contains_u128(&self.listeners, id) {
            proof {
                let k = choose|k: int|
                    0 <= k < self.listeners@.len() && self.listeners@[k] == id;
                assert(self.listeners@.len() > 0);
            }
            return SubscribeOutcome::Fault;
        }
        let snapshot = encode_state(&self.state);
        self.listeners.push(id);
        SubscribeOutcome::Subscribed { id: id, snapshot: snapshot }
    }

    /// Drop a listener registration; unknown ids are ignored.
    pub fn unsubscribe(&mut self, id: u128)
        requires
            old(self).wf(),
        ensures
            final(self).wf(),
            final(self).state@ == old(self).state@,
            final(self).valid_songs@ == old(self).valid_songs@,
            !old(self).listeners@.contains(id) ==> final(self).listeners@ == old(self).listeners@,
            forall|i: int|
                (0 <= i < old(self).listeners@.len() && old(self).listeners@[i] == id
                    && (forall|j: int| 0 <= j < i ==> old(self).listeners@[j] != id))
                    ==> final(self).listeners@ == old(self).listeners@.remove(i),
    {
        let mut i: usize = 0;
        while i < self.listeners.len()
            invariant
                old(self).wf(),
                i <= self.listeners@.len(),
                forall|j: int| 0 <= j < i ==> self.listeners@[j] != id,
                self.listeners@ == old(self).listeners@,
                self.state@ == old(self).state@,
                self.state.play_history@ == old(self).state.play_history@,
                self.valid_songs@ == old(self).valid_songs@,
            decreases self.listeners@.len() - i,
        {
            if self.listeners[i] == id {
                let ghost pre = self.listeners@;
                self.listeners.remove(i);
                proof {
                    pre.remove_ensures(i as int);
                    assert forall|a: int, b: int|
                        0 <= a < b < self.listeners@.len()
                        implies self.listeners@[a] != self.listeners@[b] by {
                        let a2 = if a < i as int { a } else { a + 1 };
                        let b2 = if b < i as int { b } else { b + 1 };
                        assert(self.listeners@[a] == pre[a2]);
                        assert(self.listeners@[b] == pre[b2]);
                        assert(0 <= a2 < b2 < pre.len());
                        assert(old(self).listeners@[a2] != old(self).listeners@[b2]);
                    }
                }
                return;
            }
            i += 1;
        }
        assert(!old(self).listeners@.contains(id));
    }

    /// Build a bug-report record for a valid, resolvable song; anything else
    /// is dropped with no effect on the caller.
    pub fn report_bug(&self, song: i64, report: &str, cat: &Catalog, now: u64) -> (r: Option<
        Vec<u8>,
    >)
        ensures
            !self.valid_song(song as int) ==> r is None,
            lookup(cat@, song as int) is None ==> r is None,
            self.valid_song(song as int) && lookup(cat@, song as int) is Some
                && now < RFC3339_MS_LIMIT ==> r is Some,
            r matches Some(b) ==> self.valid_song(song as int)
                && (lookup(cat@, song as int) matches Some(s) && b@ == csv_record_of(
                seq![rfc3339_of(ms_to_ns(now as int)), s.artist, s.title, report@],
            )),
    {
        if !self.is_valid_song(song) {
            return None;
        }
        match cat.find(song) {
            Some(rec) => bug_log_record(&rec.artist, &rec.title, report, now),
            None => None,
        }
    }

    /// Start from a persisted snapshot: absent means the empty default
    /// state, a decodable one is filtered against the valid song set and
    /// trimmed to the history capacity, and anything else is fatal.
    pub fn load(words: Option<&Vec<u64>>, valid_songs: Vec<i64>) -> (r: Result<
        Playlist,
        LoadError,
    >)
        ensures
            match r {
                Ok(p) => {
                    &&& p.wf()
                    &&& p.valid_songs@ == valid_songs@
                    &&& p.listeners@.len() == 0
                    &&& match words {
                        None => p.state@ == empty_state(),
                        Some(w) => dec_state(w@) matches Some(v) && p.state@ == loaded_state(
                            v,
                            valid_songs@,
                        ),
                    }
                },
                Err(_) => words matches Some(w) && dec_state(w@) is None,
            },
    {
        let st = match words {
            None => {
                let p = Playlist {
                    valid_songs: valid_songs,
                    state: PersistState {
                        list: Vec::new(),
                        play_history: Vec::new(),
                        intermission_duration: 0,
                        intermission_count: 0,
                    },
                    listeners: Vec::new(),
                };
                assert(p.state@ =~= empty_state());
                return Ok(p);
            },
            Some(w) => match decode_state(w) {
                Some(st) => st,
                None => {
                    return Err(LoadError::Malformed);
                },
            },
        };
        let ghost decoded = st@;
        let list = filter_entries(st.list, &valid_songs);
        let mut hist = filter_entries(st.play_history, &valid_songs);
        let ghost filtered_hist = views_of(hist@);
        assert(views_of(hist@) =~= filtered_hist.skip(0));
        while hist.len() > MAX_PLAY_HISTORY
            invariant
                views_of(hist@) == filtered_hist.skip(filtered_hist.len() - hist@.len()),
                hist@.len() <= filtered_hist.len(),
                hist@.len() >= MAX_PLAY_HISTORY || hist@.len() == filtered_hist.len(),
            decreases hist@.len(),
        {
            let ghost pre = views_of(hist@);
            hist.remove(0);
            assert(views_of(hist@) =~= pre.drop_first());
            assert(pre.drop_first() =~= filtered_hist.skip(
                filtered_hist.len() - pre.len() + 1,
            ));
        }
        proof {
            if filtered_hist.len() <= MAX_PLAY_HISTORY {
                assert(views_of(hist@) =~= keep_newest(filtered_hist, MAX_PLAY_HISTORY as int));
            } else {
                assert(hist@.len() == MAX_PLAY_HISTORY);
                assert(views_of(hist@) =~= keep_newest(filtered_hist, MAX_PLAY_HISTORY as int));
            }
        }
        let p = Playlist {
            valid_songs: valid_songs,
            state: PersistState {
                list: list,
                play_history: hist,
                intermission_duration: st.intermission_duration,
                intermission_count: st.intermission_count,
            },
            listeners: Vec::new(),
        };
        assert(p.state@ =~= loaded_state(decoded, p.valid_songs@));
        Ok(p)
    }
}

/// Entries whose song stays in the valid set, in their original order.
pub open spec fn filter_valid(q: Seq<EntryView>, valid: Seq<i64>) -> Seq<EntryView>
    decreases q.len(),
{
    if q.len() == 0 {
        Seq::<EntryView>::empty()
    } else if song_ok(valid, q[0].song) {
        seq![q[0]] + filter_valid(q.drop_first(), valid)
    } else {
        filter_valid(q.drop_first(), valid)
    }
}

/// The newest `cap` elements, oldest evicted first.
pub open spec fn keep_newest(h: Seq<EntryView>, cap: int) -> Seq<EntryView> {
    if h.len() <= cap {
        h
    } else {
        h.skip(h.len() - cap)
    }
}

/// What a decoded snapshot becomes under a valid song set.
pub open spec fn loaded_state(v: StateView, valid: Seq<i64>) -> StateView {
    StateView {
        list: filter_valid(v.list, valid),
        play_history: keep_newest(filter_valid(v.play_history, valid), MAX_PLAY_HISTORY as int),
        ..v
    }
}

/// `MoveAfter`'s asymmetry, exactly: an entry moved forward ends directly
/// after its target's post-removal position; an entry moved backward ends
/// directly after the target's original position without displacing it.
pub proof fn lemma_move_after_positions(l: Seq<EntryView>, i: int, j: int)
    requires
        0 <= i < l.len(),
        0 <= j < l.len(),
        i != j,
    ensures
        move_after_seq(l, i, j).len() == l.len(),
        i < j ==> move_after_seq(l, i, j)[j - 1] == l[j] && move_after_seq(l, i, j)[j] == l[i],
        i > j ==> move_after_seq(l, i, j)[j] == l[j] && move_after_seq(l, i, j)[j + 1] == l[i],
{
    l.remove_ensures(i);
    let mid = l.remove(i);
    if i < j {
        mid.insert_ensures(j, l[i]);
        assert(mid[j - 1] == l[j]);
    } else {
        mid.insert_ensures(j + 1, l[i]);
        assert(mid[j] == l[j]);
    }
}

/// Whenever every queued song resolves, the apply-change step every
/// mutation ends in leaves the predicted end times non-decreasing in queue
/// order.
pub proof fn lemma_predictions_nondecreasing(v: StateView, cat: Seq<SongView>, now: int)
    requires
        0 <= now <= u64::MAX,
        wf_state(v),
        forall|i: int| 0 <= i < cat.len() ==> (#[trigger] cat[i]).duration_ms >= 0,
        all_resolvable(v.list, cat),
    ensures
        nondecreasing_ends(after_change(v, cat, now).list),
{
    lemma_recompute_nondecreasing(
        v.list,
        cat,
        start_of(v, now),
        average_intermission(v.intermission_duration, v.intermission_count),
    );
}

/// A measured intermission gap within `[0, MAX_INTERMISSION_MS)` — a gap of
/// exactly 4:59, say — updates the running statistics by exactly that gap
/// and one count (up to the machine limit the crate saturates at); a gap of
/// five minutes or more, a song started early, or an empty history leaves
/// them untouched. This is the statistics part of every advance, before the
/// prediction recompute, which never touches them.
pub proof fn lemma_intermission_update(v: StateView, i: int, now: int)
    requires
        0 <= i < v.list.len(),
    ensures
        ({
            let hist0 = if v.play_history.len() >= MAX_PLAY_HISTORY {
                v.play_history.drop_first()
            } else {
                v.play_history
            };
            let r = play_transform(v, i, now);
            &&& (hist0.len() > 0 && 0 <= now - hist0.last().predicted_end < MAX_INTERMISSION_MS
                && v.intermission_count < u64::MAX
                && v.intermission_duration + (now - hist0.last().predicted_end) <= u64::MAX) ==> {
                &&& r.intermission_count == v.intermission_count + 1
                &&& r.intermission_duration == v.intermission_duration + (now
                    - hist0.last().predicted_end)
            }
            &&& (hist0.len() == 0 || now - hist0.last().predicted_end < 0 || now
                - hist0.last().predicted_end >= MAX_INTERMISSION_MS) ==> {
                &&& r.intermission_count == v.intermission_count
                &&& r.intermission_duration == v.intermission_duration
            }
        }),
{
}

/// One mutation notifies each registered listener exactly once, with the
/// snapshot of the very state it produced; subscription order never admits
/// a second delivery.
pub proof fn lemma_fanout_exactly_once(
    fx: &Effects,
    post: StateView,
    listeners: Seq<u128>,
    x: u128,
)
    requires
        effects_ok(fx, post, listeners),
        forall|i: int, j: int| 0 <= i < j < listeners.len() ==> listeners[i] != listeners[j],
        listeners.contains(x),
    ensures
        fx.snapshot@ == enc_state(post),
        exists|i: int| 0 <= i < fx.recipients@.len() && fx.recipients@[i] == x,
        forall|i: int, j: int|
            (0 <= i < fx.recipients@.len() && 0 <= j < fx.recipients@.len()
                && fx.recipients@[i] == x && fx.recipients@[j] == x) ==> i == j,
{
    let k = choose|k: int| 0 <= k < listeners.len() && listeners[k] == x;
    assert(fx.recipients@[k] == x);
}

/// When every entry's song stays valid, a filtered queue is the queue.
proof fn lemma_filter_all_valid(q: Seq<EntryView>, valid: Seq<i64>)
    requires
        forall|i: int| 0 <= i < q.len() ==> song_ok(valid, (#[trigger] q[i]).song),
    ensures
        filter_valid(q, valid) == q,
    decreases q.len(),
{
    if q.len() > 0 {
        assert(forall|i: int| 0 <= i < q.drop_first().len()
            ==> #[trigger] q.drop_first()[i] == q[i + 1]);
        lemma_filter_all_valid(q.drop_first(), valid);
        assert(filter_valid(q, valid) =~= q);
    }
}

/// Persisting a state and loading the snapshot back under the same valid
/// song set reproduces the same pending queue and history: decoding inverts
/// encoding, and filtering drops nothing whose song is still valid.
pub proof fn lemma_persist_then_load(v: StateView, valid: Seq<i64>)
    requires
        wf_state(v),
        v.play_history.len() <= MAX_PLAY_HISTORY,
        forall|i: int| 0 <= i < v.list.len() ==> song_ok(valid, (#[trigger] v.list[i]).song),
        forall|i: int|
            0 <= i < v.play_history.len() ==> song_ok(valid, (#[trigger] v.play_history[i]).song),
    ensures
        dec_state(enc_state(v)) == Some(v),
        loaded_state(v, valid) == v,
{
    crate::codec::lemma_codec_round_trip(v);
    lemma_filter_all_valid(v.list, valid);
    lemma_filter_all_valid(v.play_history, valid);
    assert(loaded_state(v, valid) =~= v);
}

fn contains_song(valid: &Vec<i64>, song: i64) -> (r: bool)
    ensures
        r == song_ok(valid@, song as int),
{
    let mut i: usize = 0;
    while i < valid.len()
        invariant
            i <= valid@.len(),
            forall|j: int| 0 <= j < i ==> valid@[j] != song as int,
        decreases valid@.len() - i,
    {
        if valid[i] == song {
            return true;
        }
        i += 1;
    }
    false
}

fn contains_u128(v: &Vec<u128>, x: u128) -> (r: bool)
    ensures
        r == v@.contains(x),
{
    let mut i: usize = 0;
    while i < v.len()
        invariant
            i <= v@.len(),
            forall|j: int| 0 <= j < i ==> v@[j] != x,
        decreases v@.len() - i,
    {
        if v[i] == x {
            return true;
        }
        i += 1;
    }
    false
}

fn string_eq(a: &String, b: &String) -> (r: bool)
    ensures
        r == (a@ == b@),
{
    <String as PartialEq>::eq(a, b)
}

fn filter_entries(q: Vec<PlaylistEntry>, valid: &Vec<i64>) -> (r: Vec<PlaylistEntry>)
    ensures
        views_of(r@) == filter_valid(views_of(q@), valid@),
{
    let ghost orig = views_of(q@);
    let mut q = q;
    let mut out: Vec<PlaylistEntry> = Vec::new();
    assert(views_of(out@) + filter_valid(views_of(q@), valid@)
        =~= filter_valid(orig, valid@));
    while q.len() > 0
        invariant
            filter_valid(orig, valid@) == views_of(out@) + filter_valid(views_of(q@), valid@),
        decreases q@.len(),
    {
        let ghost pre = views_of(q@);
        let e = q.remove(0);
        assert(views_of(q@) =~= pre.drop_first());
        let keep = contains_song(valid, e.song);
        if keep {
            let ghost out_pre = views_of(out@);
            out.push(e);
            assert(views_of(out@) =~= out_pre.push(pre[0]));
            assert(out_pre.push(pre[0]) + filter_valid(pre.drop_first(), valid@)
                =~= out_pre + (seq![pre[0]] + filter_valid(pre.drop_first(), valid@)));
        }
        proof {
            if song_ok(valid@, pre[0].song) {
                assert(filter_valid(pre, valid@)
                    == seq![pre[0]] + filter_valid(pre.drop_first(), valid@));
            } else {
                assert(filter_valid(pre, valid@) == filter_valid(pre.drop_first(), valid@));
            }
        }
    }
    assert(views_of(q@).len() == 0);
    assert(filter_valid(views_of(q@), valid@) == Seq::<EntryView>::empty());
    assert(views_of(out@) =~= views_of(out@) + filter_valid(views_of(q@), valid@));
    out
}

} // verus!
