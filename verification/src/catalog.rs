//! Resolved song data handed in by the caller.
//!
//! The search engine that resolves song keys is an external collaborator;
//! callers run the lookup and pass its results in as plain records. A key
//! absent from the batch is an unresolved song, which the queue logic
//! tolerates wherever the design allows.

use vstd::prelude::*;

verus! {

/// Mathematical image of one resolved song record.
#[verifier::ext_equal]
pub ghost struct SongView {
    pub song: int,
    pub duration_ms: int,
    pub artist: Seq<char>,
    pub title: Seq<char>,
}

/// One resolved song: its catalog key, playing time in milliseconds, and the
/// display fields used for audit records.
pub struct SongRecord {
    pub song: i64,
    pub duration_ms: u64,
    pub artist: String,
    pub title: String,
}

impl View for SongRecord {
    type V = SongView;

    open spec fn view(&self) -> SongView {
        SongView {
            song: self.song as int,
            duration_ms: self.duration_ms as int,
            artist: self.artist@,
            title: self.title@,
        }
    }
}

/// A batch of resolved songs, in the order the resolver returned them.
pub struct Catalog {
    pub records: Vec<SongRecord>,
}

impl View for Catalog {
    type V = Seq<SongView>;

    open spec fn view(&self) -> Seq<SongView> {
        self.records@.map_values(|r: SongRecord| r@)
    }
}

/// First record in the batch carrying `song`, if any: the resolution the
/// queue logic goes by.
pub open spec fn lookup(cat: Seq<SongView>, song: int) -> Option<SongView>
    decreases cat.len(),
{
    if cat.len() == 0 {
        None
    } else if cat[0].song == song {
        Some(cat[0])
    } else {
        lookup(cat.drop_first(), song)
    }
}

impl Catalog {
    /// Walk the batch for the first record matching `song`.
    pub fn find(&self, song: i64) -> (r: Option<&SongRecord>)
        ensures
            match r {
                Some(rec) => lookup(self@, song as int) == Some(rec@),
                None => lookup(self@, song as int) is None,
            },
    {
        let mut i: usize = 0;
        assert(self@.skip(0) =~= self@);
        while i < self.records.len()
            invariant
                i <= self.records@.len(),
                lookup(self@, song as int) == lookup(self@.skip(i as int), song as int),
            decreases self.records@.len() - i,
        {
            assert(self@.skip(i as int)[0] == self@[i as int]);
            assert(self@.skip(i as int).drop_first() =~= self@.skip(i as int + 1));
            if self.records[i].song == song {
                return Some(&self.records[i]);
            }
            i += 1;
        }
        assert(self@.skip(i as int).len() == 0);
        None
    }
}

} // verus!
