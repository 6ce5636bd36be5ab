//! The queue's element type and the spec-level vocabulary for reasoning
//! about sequences of entries.

use vstd::prelude::*;

verus! {

/// Mathematical image of one queued performance request.
#[verifier::ext_equal]
pub ghost struct EntryView {
    pub id: int,
    pub song: int,
    pub singer: Seq<char>,
    pub password_hash: Seq<char>,
    pub predicted_end: int,
}

/// The fields that reordering and prediction recomputes never touch:
/// everything but the derived predicted end time.
#[verifier::ext_equal]
pub ghost struct EntryBase {
    pub id: int,
    pub song: int,
    pub singer: Seq<char>,
    pub password_hash: Seq<char>,
}

impl EntryView {
    pub open spec fn base(self) -> EntryBase {
        EntryBase {
            id: self.id,
            song: self.song,
            singer: self.singer,
            password_hash: self.password_hash,
        }
    }
}

/// Some entry in `q` carries `id`.
pub open spec fn has_id(q: Seq<EntryView>, id: int) -> bool {
    exists|i: int| 0 <= i < q.len() && q[i].id == id
}

/// No two entries of `q` share an id.
pub open spec fn unique_ids(q: Seq<EntryView>) -> bool {
    forall|i: int, j: int| 0 <= i < j < q.len() ==> q[i].id != q[j].id
}

/// One queued performance request: who sings what, a one-way digest of the
/// secret that allows its removal, and the cached predicted end time in
/// milliseconds since the unix epoch.
pub struct PlaylistEntry {
    pub id: u128,
    pub song: i64,
    pub singer: String,
    pub password_hash: String,
    pub predicted_end: u64,
}

impl View for PlaylistEntry {
    type V = EntryView;

    open spec fn view(&self) -> EntryView {
        EntryView {
            id: self.id as int,
            song: self.song as int,
            singer: self.singer@,
            password_hash: self.password_hash@,
            predicted_end: self.predicted_end as int,
        }
    }
}

impl Clone for PlaylistEntry {
    fn clone(&self) -> (r: Self)
        ensures
            r@ == self@,
    {
        PlaylistEntry {
            id: self.id,
            song: self.song,
            singer: self.singer.clone(),
            password_hash: self.password_hash.clone(),
            predicted_end: self.predicted_end,
        }
    }
}

/// Locate the first entry carrying `id`, as the original queue walk does.
pub fn find_song_in_queue(playlist: &Vec<PlaylistEntry>, id: u128) -> (r: Option<usize>)
    ensures
        match r {
            Some(i) => i < playlist@.len() && views_of(playlist@)[i as int].id == id as int
                && forall|j: int| 0 <= j < i ==> views_of(playlist@)[j].id != id as int,
            None => !has_id(views_of(playlist@), id as int),
        },
{
    let mut i: usize = 0;
    assert(forall|j: int|
        0 <= j < playlist@.len() ==> #[trigger] views_of(playlist@)[j] == playlist@[j]@);
    while i < playlist.len()
        invariant
            i <= playlist@.len(),
            forall|j: int| 0 <= j < i ==> views_of(playlist@)[j].id != id as int,
            forall|j: int|
                0 <= j < playlist@.len() ==> #[trigger] views_of(playlist@)[j] == playlist@[j]@,
        decreases playlist@.len() - i,
    {
        if playlist[i].id == id {
            return Some(i);
        }
        i += 1;
    }
    None
}

/// Lift a concrete entry sequence to its mathematical image.
pub open spec fn views_of(q: Seq<PlaylistEntry>) -> Seq<EntryView> {
    q.map_values(|e: PlaylistEntry| e@)
}

} // verus!
