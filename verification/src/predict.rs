//! The prediction engine: recompute every pending entry's predicted end time
//! from queue order, the history tail, and the intermission average.
//!
//! The walk is deterministic in its inputs, so recomputing on unchanged
//! inputs is idempotent. Time arithmetic saturates at the top of the
//! millisecond clock rather than wrapping.

use vstd::prelude::*;
use crate::entry::{EntryView, PlaylistEntry, views_of};
use crate::catalog::{Catalog, SongView, lookup};

verus! {

/// Clamp to the range of a millisecond timestamp.
pub open spec fn sat64(x: int) -> int {
    if x > u64::MAX {
        u64::MAX as int
    } else {
        x
    }
}

/// Predicted end of one entry: the running timestamp advanced by the average
/// intermission and the song's duration, saturating.
pub open spec fn step_end(ts: int, avg: int, dur: int) -> int {
    sat64(sat64(ts + avg) + dur)
}

/// Average intermission in milliseconds: cumulative over count, zero when
/// nothing has been measured.
pub open spec fn average_intermission(total: int, count: int) -> int {
    if count == 0 {
        0
    } else {
        total / count
    }
}

/// One full prediction walk: entries whose song resolves get the advanced
/// running timestamp as their predicted end; unresolved entries keep their
/// stale value and do not advance the clock.
pub open spec fn recompute_from(q: Seq<EntryView>, cat: Seq<SongView>, ts: int, avg: int) -> Seq<EntryView>
    decreases q.len(),
{
    if q.len() == 0 {
        Seq::<EntryView>::empty()
    } else {
        match lookup(cat, q[0].song) {
            Some(s) => {
                let t2 = step_end(ts, avg, s.duration_ms);
                seq![EntryView { predicted_end: t2, ..q[0] }]
                    + recompute_from(q.drop_first(), cat, t2, avg)
            },
            None => seq![q[0]] + recompute_from(q.drop_first(), cat, ts, avg),
        }
    }
}

/// Executable prediction walk over the pending list.
pub fn recompute(list: &mut Vec<PlaylistEntry>, cat: &Catalog, start: u64, avg: u64)
    ensures
        views_of(final(list)@) == recompute_from(views_of(old(list)@), cat@, start as int, avg as int),
{
    let ghost orig = views_of(old(list)@);
    let mut ts: u64 = start;
    let mut i: usize = 0;
    assert(views_of(list@).skip(0) =~= orig);
    assert(views_of(list@).take(0) + recompute_from(orig, cat@, start as int, avg as int)
        =~= recompute_from(orig, cat@, start as int, avg as int));
    while i < list.len()
        invariant
            i <= list@.len(),
            list@.len() == old(list)@.len(),
            forall|j: int| i <= j < list@.len() ==> list@[j] == old(list)@[j],
            recompute_from(orig, cat@, start as int, avg as int)
                =~= views_of(list@).take(i as int)
                    + recompute_from(views_of(list@).skip(i as int), cat@, ts as int, avg as int),
        decreases list@.len() - i,
    {
        let ghost pre = views_of(list@);
        assert(pre.skip(i as int)[0] == pre[i as int]);
        assert(pre.skip(i as int).drop_first() =~= pre.skip(i as int + 1));
        let song = list[i].song;
        match cat.find(song) {
            Some(rec) => {
                let dur = rec.duration_ms;
                ts = ts.saturating_add(avg).saturating_add(dur);
                let e = list.remove(i);
                list.insert(i, PlaylistEntry { predicted_end: ts, ..e });
                assert(views_of(list@) =~= pre.update(i as int, EntryView { predicted_end: ts as int, ..pre[i as int] }));
                assert(views_of(list@).take(i as int + 1)
                    =~= views_of(list@).take(i as int).push(views_of(list@)[i as int]));
                assert(views_of(list@).take(i as int) =~= pre.take(i as int));
                assert(views_of(list@).skip(i as int + 1) =~= pre.skip(i as int + 1));
            },
            None => {
                assert(views_of(list@).take(i as int + 1)
                    =~= views_of(list@).take(i as int).push(views_of(list@)[i as int]));
            },
        }
        i += 1;
    }
    assert(views_of(list@).skip(i as int).len() == 0);
    assert(views_of(list@).take(i as int) =~= views_of(list@));
}

/// A prediction walk only rewrites predicted ends: length and entry bases
/// are untouched.
pub proof fn lemma_recompute_bases(q: Seq<EntryView>, cat: Seq<SongView>, ts: int, avg: int)
    ensures
        recompute_from(q, cat, ts, avg).len() == q.len(),
        forall|i: int| 0 <= i < q.len()
            ==> (#[trigger] recompute_from(q, cat, ts, avg)[i]).base() == q[i].base(),
    decreases q.len(),
{
    if q.len() > 0 {
        let r = recompute_from(q, cat, ts, avg);
        match lookup(cat, q[0].song) {
            Some(s) => {
                let t2 = step_end(ts, avg, s.duration_ms);
                lemma_recompute_bases(q.drop_first(), cat, t2, avg);
                assert(r[0].base() =~= q[0].base());
                assert(forall|i: int| 1 <= i < q.len()
                    ==> r[i] == recompute_from(q.drop_first(), cat, t2, avg)[i - 1]);
                assert(forall|i: int| 1 <= i < q.len()
                    ==> q.drop_first()[i - 1] == q[i]);
            },
            None => {
                lemma_recompute_bases(q.drop_first(), cat, ts, avg);
                assert(forall|i: int| 1 <= i < q.len()
                    ==> r[i] == recompute_from(q.drop_first(), cat, ts, avg)[i - 1]);
                assert(forall|i: int| 1 <= i < q.len()
                    ==> q.drop_first()[i - 1] == q[i]);
            },
        }
    }
}

/// Every queued song resolves against the batch.
pub open spec fn all_resolvable(q: Seq<EntryView>, cat: Seq<SongView>) -> bool {
    forall|i: int| 0 <= i < q.len() ==> lookup(cat, #[trigger] q[i].song) is Some
}

/// Predicted end times never step backwards along the queue.
pub open spec fn nondecreasing_ends(q: Seq<EntryView>) -> bool {
    forall|i: int, j: int| 0 <= i <= j < q.len() ==> q[i].predicted_end <= q[j].predicted_end
}

/// A successful lookup hands back a record of the batch.
pub proof fn lemma_lookup_in(cat: Seq<SongView>, song: int)
    requires
        lookup(cat, song) is Some,
    ensures
        exists|i: int| 0 <= i < cat.len() && cat[i] == lookup(cat, song)->Some_0,
    decreases cat.len(),
{
    if cat.len() > 0 && cat[0].song != song {
        lemma_lookup_in(cat.drop_first(), song);
        let i = choose|i: int| 0 <= i < cat.drop_first().len()
            && cat.drop_first()[i] == lookup(cat.drop_first(), song)->Some_0;
        assert(cat[i + 1] == cat.drop_first()[i]);
    }
}

/// Whenever every queued song resolves, one prediction walk leaves the
/// predicted end times non-decreasing in queue order, all at or above the
/// starting timestamp.
pub proof fn lemma_recompute_nondecreasing(q: Seq<EntryView>, cat: Seq<SongView>, ts: int, avg: int)
    requires
        0 <= ts <= u64::MAX,
        0 <= avg,
        forall|i: int| 0 <= i < cat.len() ==> (#[trigger] cat[i]).duration_ms >= 0,
        all_resolvable(q, cat),
    ensures
        nondecreasing_ends(recompute_from(q, cat, ts, avg)),
        forall|i: int| 0 <= i < q.len()
            ==> ts <= #[trigger] recompute_from(q, cat, ts, avg)[i].predicted_end <= u64::MAX,
    decreases q.len(),
{
    lemma_recompute_bases(q, cat, ts, avg);
    if q.len() > 0 {
        assert(lookup(cat, q[0].song) is Some);
        let s = lookup(cat, q[0].song)->Some_0;
        lemma_lookup_in(cat, q[0].song);
        assert(s.duration_ms >= 0);
        let t2 = step_end(ts, avg, s.duration_ms);
        assert(ts <= t2 <= u64::MAX);
        assert(forall|i: int| 0 <= i < q.drop_first().len()
            ==> lookup(cat, #[trigger] q.drop_first()[i].song) is Some);
        lemma_recompute_nondecreasing(q.drop_first(), cat, t2, avg);
        let r = recompute_from(q, cat, ts, avg);
        let r2 = recompute_from(q.drop_first(), cat, t2, avg);
        assert(forall|i: int| 1 <= i < r.len() ==> r[i] == r2[i - 1]);
        assert(r[0].predicted_end == t2);
    }
}

} // verus!
