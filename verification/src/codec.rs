//! Whole-state snapshot encoding.
//!
//! The persisted part of the queue state (pending list, play history,
//! intermission statistics) is laid out as a flat sequence of 64-bit words:
//! counts and numeric fields directly, strings as a length word followed by
//! one word per character. The decoder is the exact inverse of the encoder,
//! which is what makes whole-file persistence crash-tolerant: a loaded
//! snapshot reproduces the state that was written.

use vstd::prelude::*;
use crate::entry::{EntryView, PlaylistEntry, views_of};

verus! {

/// The persisted image of the queue state.
#[verifier::ext_equal]
pub ghost struct StateView {
    pub list: Seq<EntryView>,
    pub play_history: Seq<EntryView>,
    pub intermission_duration: int,
    pub intermission_count: int,
}

/// The persisted part of the queue state, as it is held in memory.
pub struct PersistState {
    pub list: Vec<PlaylistEntry>,
    pub play_history: Vec<PlaylistEntry>,
    pub intermission_duration: u64,
    pub intermission_count: u64,
}

impl View for PersistState {
    type V = StateView;

    open spec fn view(&self) -> StateView {
        StateView {
            list: views_of(self.list@),
            play_history: views_of(self.play_history@),
            intermission_duration: self.intermission_duration as int,
            intermission_count: self.intermission_count as int,
        }
    }
}

/// An entry whose fields fit their encoded width. Every entry built from a
/// concrete `PlaylistEntry` satisfies this.
pub open spec fn wf_entry(e: EntryView) -> bool {
    &&& 0 <= e.id < 0x100000000000000000000000000000000
    &&& -0x8000000000000000 <= e.song < 0x8000000000000000
    &&& 0 <= e.predicted_end <= u64::MAX
    &&& e.singer.len() <= u64::MAX
    &&& e.password_hash.len() <= u64::MAX
}

pub open spec fn wf_state(v: StateView) -> bool {
    &&& forall|i: int| 0 <= i < v.list.len() ==> wf_entry(#[trigger] v.list[i])
    &&& forall|i: int| 0 <= i < v.play_history.len() ==> wf_entry(#[trigger] v.play_history[i])
    &&& v.list.len() <= u64::MAX
    &&& v.play_history.len() <= u64::MAX
    &&& 0 <= v.intermission_duration <= u64::MAX
    &&& 0 <= v.intermission_count <= u64::MAX
}

/// Songs are stored shifted into the non-negative range.
pub open spec fn word_of_song(song: int) -> int {
    song + 0x8000000000000000
}

pub open spec fn valid_char_word(w: u64) -> bool {
    w < 0xD800 || (0xE000 <= w && w <= 0x10FFFF)
}

pub open spec fn enc_chars(s: Seq<char>) -> Seq<u64> {
    seq![s.len() as u64] + s.map_values(|c: char| (c as u32) as u64)
}

/// A character always fits its word, and the word casts back to it.
proof fn lemma_char_word(c: char)
    ensures
        valid_char_word((c as u32) as u64),
        ((((c as u32) as u64) as u32) as char) == c,
{
    broadcast use vstd::utf8::char_is_scalar;
    broadcast use vstd::utf8::char_u32_cast;
    assert(vstd::utf8::is_scalar(c as u32));
}

pub open spec fn enc_entry(e: EntryView) -> Seq<u64> {
    seq![
        (e.id % 0x10000000000000000) as u64,
        (e.id / 0x10000000000000000) as u64,
        word_of_song(e.song) as u64,
        e.predicted_end as u64,
    ] + enc_chars(e.singer) + enc_chars(e.password_hash)
}

pub open spec fn enc_entries(es: Seq<EntryView>) -> Seq<u64>
    decreases es.len(),
{
    if es.len() == 0 {
        Seq::<u64>::empty()
    } else {
        enc_entry(es[0]) + enc_entries(es.drop_first())
    }
}

pub open spec fn enc_list(es: Seq<EntryView>) -> Seq<u64> {
    seq![es.len() as u64] + enc_entries(es)
}

/// The on-disk layout: pending list, play history, then the two statistic
/// words.
pub open spec fn enc_state(v: StateView) -> Seq<u64> {
    enc_list(v.list) + enc_list(v.play_history)
        + seq![v.intermission_duration as u64, v.intermission_count as u64]
}

// ---------------------------------------------------------------------------
// Spec decoder: sequential reads at a word offset, each returning the decoded
// value and the offset just past it.

pub open spec fn dec_u64(w: Seq<u64>, i: int) -> Option<(u64, int)> {
    if 0 <= i < w.len() {
        Some((w[i], i + 1))
    } else {
        None
    }
}

pub open spec fn dec_chars(w: Seq<u64>, i: int) -> Option<(Seq<char>, int)> {
    if 0 <= i < w.len() {
        let n = w[i] as int;
        if i + 1 + n <= w.len() && (forall|j: int| i + 1 <= j < i + 1 + n ==> valid_char_word(#[trigger] w[j])) {
            Some((Seq::new(n as nat, |k: int| (w[i + 1 + k] as u32) as char), i + 1 + n))
        } else {
            None
        }
    } else {
        None
    }
}

pub open spec fn dec_entry(w: Seq<u64>, i: int) -> Option<(EntryView, int)> {
    match dec_u64(w, i) {
        None => None,
        Some((lo, i1)) => match dec_u64(w, i1) {
            None => None,
            Some((hi, i2)) => match dec_u64(w, i2) {
                None => None,
                Some((sw, i3)) => match dec_u64(w, i3) {
                    None => None,
                    Some((pe, i4)) => match dec_chars(w, i4) {
                        None => None,
                        Some((singer, i5)) => match dec_chars(w, i5) {
                            None => None,
                            Some((hash, i6)) => Some((
                                EntryView {
                                    id: lo + hi * 0x10000000000000000,
                                    song: sw - 0x8000000000000000,
                                    singer: singer,
                                    password_hash: hash,
                                    predicted_end: pe as int,
                                },
                                i6,
                            )),
                        },
                    },
                },
            },
        },
    }
}

pub open spec fn dec_entries(w: Seq<u64>, i: int, n: nat) -> Option<(Seq<EntryView>, int)>
    decreases n,
{
    if n == 0 {
        Some((Seq::<EntryView>::empty(), i))
    } else {
        match dec_entry(w, i) {
            None => None,
            Some((e, i2)) => match dec_entries(w, i2, (n - 1) as nat) {
                None => None,
                Some((rest, i3)) => Some((seq![e] + rest, i3)),
            },
        }
    }
}

pub open spec fn dec_list(w: Seq<u64>, i: int) -> Option<(Seq<EntryView>, int)> {
    match dec_u64(w, i) {
        None => None,
        Some((n, i1)) => dec_entries(w, i1, n as nat),
    }
}

/// Full decode; trailing words make the document invalid.
pub open spec fn dec_state(w: Seq<u64>) -> Option<StateView> {
    match dec_list(w, 0) {
        None => None,
        Some((list, i1)) => match dec_list(w, i1) {
            None => None,
            Some((hist, i2)) => match dec_u64(w, i2) {
                None => None,
                Some((dur, i3)) => match dec_u64(w, i3) {
                    None => None,
                    Some((cnt, i4)) => if i4 == w.len() {
                        Some(StateView {
                            list: list,
                            play_history: hist,
                            intermission_duration: dur as int,
                            intermission_count: cnt as int,
                        })
                    } else {
                        None
                    },
                },
            },
        },
    }
}

// ---------------------------------------------------------------------------
// Round trip: decoding an encoding yields the encoded state.

proof fn lemma_dec_chars_at(w: Seq<u64>, i: int, s: Seq<char>)
    requires
        0 <= i,
        i + 1 + s.len() <= w.len(),
        s.len() <= u64::MAX,
        w.subrange(i, i + 1 + s.len()) =~= enc_chars(s),
    ensures
        dec_chars(w, i) == Some((s, i + 1 + s.len() as int)),
{
    assert forall|j: int| 0 <= j < 1 + s.len() implies w[i + j] == enc_chars(s)[j] by {
        assert(w.subrange(i, i + 1 + s.len())[j] == w[i + j]);
    }
    assert(w[i + 0] == enc_chars(s)[0]);
    assert(w[i] == s.len() as u64);
    assert forall|j: int| i + 1 <= j < i + 1 + s.len() implies valid_char_word(#[trigger] w[j]) by {
        let c = s[j - i - 1];
        assert(enc_chars(s)[j - i] == (c as u32) as u64);
        assert(w[j] == w[i + (j - i)]);
        assert(w[j] == (c as u32) as u64);
        lemma_char_word(c);
    }
    let decoded = Seq::new(s.len(), |k: int| (w[i + 1 + k] as u32) as char);
    assert forall|k: int| 0 <= k < s.len() implies decoded[k] == s[k] by {
        assert(enc_chars(s)[1 + k] == (s[k] as u32) as u64);
        assert(w[i + (1 + k)] == (s[k] as u32) as u64);
        assert(w[i + 1 + k] == (s[k] as u32) as u64);
        lemma_char_word(s[k]);
    }
    assert(decoded =~= s);
    assert(dec_chars(w, i) == Some((s, i + 1 + s.len() as int)));
}

proof fn lemma_dec_entry_at(w: Seq<u64>, i: int, e: EntryView)
    requires
        0 <= i,
        wf_entry(e),
        i + enc_entry(e).len() <= w.len(),
        w.subrange(i, i + enc_entry(e).len()) =~= enc_entry(e),
    ensures
        dec_entry(w, i) == Some((e, i + enc_entry(e).len())),
{
    let len = enc_entry(e).len() as int;
    assert(len == 6 + e.singer.len() + e.password_hash.len());
    assert forall|j: int| 0 <= j < len implies w[i + j] == enc_entry(e)[j] by {
        assert(w.subrange(i, i + len)[j] == w[i + j]);
    }
    assert(w[i + 0] == enc_entry(e)[0]);
    assert(w[i + 1] == enc_entry(e)[1]);
    assert(w[i + 2] == enc_entry(e)[2]);
    assert(w[i + 3] == enc_entry(e)[3]);
    assert(w[i] == (e.id % 0x10000000000000000) as u64);
    assert(w[i + 1] == (e.id / 0x10000000000000000) as u64);
    assert(w[i + 2] == word_of_song(e.song) as u64);
    assert(w[i + 3] == e.predicted_end as u64);
    let singer_at = i + 4;
    assert(w.subrange(singer_at, singer_at + 1 + e.singer.len()) =~= enc_chars(e.singer)) by {
        assert forall|j: int| 0 <= j < 1 + e.singer.len()
            implies w.subrange(singer_at, singer_at + 1 + e.singer.len())[j] == enc_chars(e.singer)[j] by {
            assert(w.subrange(singer_at, singer_at + 1 + e.singer.len())[j] == w[i + (4 + j)]);
            assert(w[i + (4 + j)] == enc_entry(e)[4 + j]);
            assert(enc_entry(e)[4 + j] == enc_chars(e.singer)[j]);
        }
    }
    lemma_dec_chars_at(w, singer_at, e.singer);
    let hash_at = i + 5 + e.singer.len() as int;
    assert(w.subrange(hash_at, hash_at + 1 + e.password_hash.len()) =~= enc_chars(e.password_hash)) by {
        assert forall|j: int| 0 <= j < 1 + e.password_hash.len()
            implies w.subrange(hash_at, hash_at + 1 + e.password_hash.len())[j] == enc_chars(e.password_hash)[j] by {
            assert(w.subrange(hash_at, hash_at + 1 + e.password_hash.len())[j]
                == w[i + (5 + e.singer.len() + j)]);
            assert(w[i + (5 + e.singer.len() + j)] == enc_entry(e)[5 + e.singer.len() + j]);
            assert(enc_entry(e)[5 + e.singer.len() + j] == enc_chars(e.password_hash)[j]);
        }
    }
    lemma_dec_chars_at(w, hash_at, e.password_hash);
    let r = dec_entry(w, i)->Some_0.0;
    assert(r.id == e.id % 0x10000000000000000 + (e.id / 0x10000000000000000) * 0x10000000000000000);
    assert(e.id == 0x10000000000000000 * (e.id / 0x10000000000000000) + e.id % 0x10000000000000000);
    assert(r.id == e.id);
    assert(r.song == e.song);
    assert(r.predicted_end == e.predicted_end);
    assert(r =~= e);
}

proof fn lemma_dec_entries_at(w: Seq<u64>, i: int, es: Seq<EntryView>)
    requires
        0 <= i,
        forall|k: int| 0 <= k < es.len() ==> wf_entry(#[trigger] es[k]),
        i + enc_entries(es).len() <= w.len(),
        w.subrange(i, i + enc_entries(es).len()) =~= enc_entries(es),
    ensures
        dec_entries(w, i, es.len()) == Some((es, i + enc_entries(es).len())),
    decreases es.len(),
{
    if es.len() == 0 {
        assert(dec_entries(w, i, 0) == Some((Seq::<EntryView>::empty(), i)));
        assert(es =~= Seq::<EntryView>::empty());
    } else {
        let e = es[0];
        let head_len = enc_entry(e).len() as int;
        let total = enc_entries(es).len() as int;
        assert(enc_entries(es) == enc_entry(e) + enc_entries(es.drop_first()));
        assert(head_len <= total);
        assert(w.subrange(i, i + head_len) =~= enc_entry(e)) by {
            assert forall|j: int| 0 <= j < head_len
                implies w.subrange(i, i + head_len)[j] == enc_entry(e)[j] by {
                assert(w.subrange(i, i + head_len)[j] == w[i + j]);
                assert(w.subrange(i, i + total)[j] == w[i + j]);
                assert(w[i + j] == enc_entries(es)[j]);
                assert(enc_entries(es)[j] == enc_entry(e)[j]);
            }
        }
        lemma_dec_entry_at(w, i, e);
        let i2 = i + head_len;
        assert(w.subrange(i2, i2 + enc_entries(es.drop_first()).len()) =~= enc_entries(es.drop_first())) by {
            assert forall|j: int| 0 <= j < enc_entries(es.drop_first()).len()
                implies w.subrange(i2, i2 + enc_entries(es.drop_first()).len())[j]
                    == enc_entries(es.drop_first())[j] by {
                assert(w.subrange(i2, i2 + enc_entries(es.drop_first()).len())[j]
                    == w[i + (head_len + j)]);
                assert(w.subrange(i, i + total)[head_len + j] == w[i + (head_len + j)]);
                assert(w[i + (head_len + j)] == enc_entries(es)[head_len + j]);
                assert(enc_entries(es)[head_len + j] == enc_entries(es.drop_first())[j]);
            }
        }
        lemma_dec_entries_at(w, i2, es.drop_first());
        assert(seq![e] + es.drop_first() =~= es);
    }
}

proof fn lemma_dec_list_at(w: Seq<u64>, i: int, es: Seq<EntryView>)
    requires
        0 <= i,
        es.len() <= u64::MAX,
        forall|k: int| 0 <= k < es.len() ==> wf_entry(#[trigger] es[k]),
        i + enc_list(es).len() <= w.len(),
        w.subrange(i, i + enc_list(es).len()) =~= enc_list(es),
    ensures
        dec_list(w, i) == Some((es, i + enc_list(es).len())),
{
    let total = enc_list(es).len() as int;
    assert(w.subrange(i, i + total)[0] == w[i + 0]);
    assert(w[i] == enc_list(es)[0]);
    assert(w[i] == es.len() as u64);
    let i1 = i + 1;
    assert(w.subrange(i1, i1 + enc_entries(es).len()) =~= enc_entries(es)) by {
        assert forall|j: int| 0 <= j < enc_entries(es).len()
            implies w.subrange(i1, i1 + enc_entries(es).len())[j] == enc_entries(es)[j] by {
            assert(w.subrange(i1, i1 + enc_entries(es).len())[j] == w[i + (1 + j)]);
            assert(w.subrange(i, i + total)[1 + j] == w[i + (1 + j)]);
            assert(w[i + (1 + j)] == enc_list(es)[1 + j]);
            assert(enc_list(es)[1 + j] == enc_entries(es)[j]);
        }
    }
    lemma_dec_entries_at(w, i1, es);
}

/// Decoding is the exact inverse of encoding: a persisted snapshot, read
/// back, is the state that was written.
pub proof fn lemma_codec_round_trip(v: StateView)
    requires
        wf_state(v),
    ensures
        dec_state(enc_state(v)) == Some(v),
{
    let w = enc_state(v);
    let l1 = enc_list(v.list).len() as int;
    let l2 = enc_list(v.play_history).len() as int;
    assert(w.len() == l1 + l2 + 2);
    assert(w.subrange(0, l1) =~= enc_list(v.list)) by {
        assert forall|j: int| 0 <= j < l1 implies w.subrange(0, l1)[j] == enc_list(v.list)[j] by {
            assert(w[j] == enc_list(v.list)[j]);
        }
    }
    lemma_dec_list_at(w, 0, v.list);
    assert(w.subrange(l1, l1 + l2) =~= enc_list(v.play_history)) by {
        assert forall|j: int| 0 <= j < l2
            implies w.subrange(l1, l1 + l2)[j] == enc_list(v.play_history)[j] by {
            assert(w[l1 + j] == enc_list(v.play_history)[j]);
        }
    }
    lemma_dec_list_at(w, l1, v.play_history);
    assert(w[l1 + l2] == v.intermission_duration as u64);
    assert(w[l1 + l2 + 1] == v.intermission_count as u64);
    let got = dec_state(w)->Some_0;
    assert(got =~= v);
}

// ---------------------------------------------------------------------------
// Executable encoder.

/// Relies on std's `String::push`: appends the character at the end.
pub assume_specification[ String::push ](s: &mut String, ch: char)
    ensures
        final(s)@ == old(s)@.push(ch),
;

/// Relies on std's `char::from_u32`: `Some` exactly on unicode scalar values
/// (not a surrogate, at most 0x10FFFF), carrying the given code point.
pub assume_specification[ char::from_u32 ](v: u32) -> (r: Option<char>)
    ensures
        r is Some <==> (v < 0xD800 || (0xE000 <= v && v <= 0x10FFFF)),
        r matches Some(c) ==> c as u32 == v,
;

fn encode_chars(out: &mut Vec<u64>, s: &String)
    ensures
        final(out)@ == old(out)@ + enc_chars(s@),
        s@.len() <= u64::MAX,
{
    let n = s.as_str().unicode_len();
    out.push(n as u64);
    let mut k: usize = 0;
    while k < n
        invariant
            k <= n,
            n == s@.len(),
            out@ == old(out)@ + seq![n as u64]
                + s@.take(k as int).map_values(|c: char| (c as u32) as u64),
        decreases n - k,
    {
        let c = s.as_str().get_char(k);
        out.push((c as u32) as u64);
        assert(s@.take(k as int + 1).map_values(|c: char| (c as u32) as u64)
            =~= s@.take(k as int).map_values(|c: char| (c as u32) as u64)
                .push((s@[k as int] as u32) as u64));
        k += 1;
    }
    assert(s@.take(n as int) =~= s@);
    assert(final(out)@ =~= old(out)@ + enc_chars(s@));
}

fn encode_entry(out: &mut Vec<u64>, e: &PlaylistEntry)
    ensures
        final(out)@ == old(out)@ + enc_entry(e@),
        wf_entry(e@),
{
    out.push((e.id % 0x10000000000000000) as u64);
    out.push((e.id / 0x10000000000000000) as u64);
    let sw: u64 = if e.song >= 0 {
        (e.song as u64) + 0x8000000000000000
    } else {
        (e.song - i64::MIN) as u64
    };
    assert(sw == word_of_song(e@.song) as u64);
    out.push(sw);
    out.push(e.predicted_end);
    encode_chars(out, &e.singer);
    encode_chars(out, &e.password_hash);
    assert(final(out)@ =~= old(out)@ + enc_entry(e@));
}

proof fn lemma_enc_entries_snoc(es: Seq<EntryView>, e: EntryView)
    ensures
        enc_entries(es.push(e)) == enc_entries(es) + enc_entry(e),
    decreases es.len(),
{
    if es.len() == 0 {
        assert(es.push(e)[0] == e);
        assert(es.push(e).drop_first() =~= Seq::<EntryView>::empty());
        assert(enc_entries(es.push(e).drop_first()) == Seq::<u64>::empty());
        assert(enc_entries(es.push(e)) == enc_entry(e) + enc_entries(es.push(e).drop_first()));
        assert(enc_entries(es) == Seq::<u64>::empty());
        assert(enc_entries(es.push(e)) =~= enc_entries(es) + enc_entry(e));
    } else {
        assert(es.push(e)[0] == es[0]);
        assert(es.push(e).drop_first() =~= es.drop_first().push(e));
        lemma_enc_entries_snoc(es.drop_first(), e);
        assert(enc_entries(es.push(e)) =~= enc_entries(es) + enc_entry(e));
    }
}

fn encode_entry_list(out: &mut Vec<u64>, es: &Vec<PlaylistEntry>)
    ensures
        final(out)@ == old(out)@ + enc_list(views_of(es@)),
        forall|i: int| 0 <= i < es@.len() ==> wf_entry(#[trigger] views_of(es@)[i]),
        es@.len() <= u64::MAX,
{
    out.push(es.len() as u64);
    let mut i: usize = 0;
    while i < es.len()
        invariant
            i <= es@.len(),
            out@ == old(out)@ + seq![es@.len() as u64]
                + enc_entries(views_of(es@).take(i as int)),
            forall|j: int| 0 <= j < i ==> wf_entry(#[trigger] views_of(es@)[j]),
        decreases es@.len() - i,
    {
        let ghost pre = views_of(es@).take(i as int);
        encode_entry(out, &es[i]);
        proof {
            lemma_enc_entries_snoc(pre, es@[i as int]@);
            assert(views_of(es@).take(i as int + 1) =~= pre.push(es@[i as int]@));
        }
        i += 1;
    }
    assert(views_of(es@).take(es@.len() as int) =~= views_of(es@));
    assert(final(out)@ =~= old(out)@ + enc_list(views_of(es@)));
}

/// Serialize the persisted state into its word layout.
pub fn encode_state(st: &PersistState) -> (r: Vec<u64>)
    ensures
        r@ == enc_state(st@),
        wf_state(st@),
{
    let mut out: Vec<u64> = Vec::new();
    encode_entry_list(&mut out, &st.list);
    encode_entry_list(&mut out, &st.play_history);
    out.push(st.intermission_duration);
    out.push(st.intermission_count);
    assert(out@ =~= enc_state(st@));
    out
}

// ---------------------------------------------------------------------------
// Executable decoder: mirrors the spec decoder read for read.

fn read_u64(w: &Vec<u64>, i: usize) -> (r: Option<(u64, usize)>)
    ensures
        match r {
            Some((v, j)) => dec_u64(w@, i as int) == Some((v, j as int)),
            None => dec_u64(w@, i as int) is None,
        },
{
    if i < w.len() {
        Some((w[i], i + 1))
    } else {
        None
    }
}

fn decode_chars(w: &Vec<u64>, i: usize) -> (r: Option<(String, usize)>)
    ensures
        match r {
            Some((s, j)) => dec_chars(w@, i as int) == Some((s@, j as int)),
            None => dec_chars(w@, i as int) is None,
        },
{
    if i >= w.len() {
        return None;
    }
    let n = w[i];
    if n > (w.len() - i - 1) as u64 {
        return None;
    }
    let n_us = n as usize;
    let mut s = String::new();
    let mut k: usize = 0;
    while k < n_us
        invariant
            k <= n_us,
            n_us == n,
            i < w@.len(),
            n == w@[i as int],
            i + 1 + n_us <= w@.len(),
            w@.len() <= usize::MAX,
            s@.len() == k,
            forall|t: int| 0 <= t < k ==> valid_char_word(#[trigger] w@[i + 1 + t]),
            forall|t: int| 0 <= t < k ==> s@[t] == (w@[i + 1 + t] as u32) as char,
        decreases n_us - k,
    {
        let cw = w[i + 1 + k];
        if cw > 0x10FFFF {
            assert(!valid_char_word(w@[i as int + 1 + k as int]));
            return None;
        }
        match char::from_u32(cw as u32) {
            None => {
                assert(!valid_char_word(w@[i as int + 1 + k as int]));
                return None;
            },
            Some(c) => {
                proof {
                    assert(c as u32 == cw as u32);
                    vstd::utf8::char_u32_cast(c, cw as u32);
                    assert((cw as u32) as char == c);
                    assert(valid_char_word(cw));
                }
                s.push(c);
            },
        }
        k += 1;
    }
    assert forall|j: int| i + 1 <= j < i + 1 + n implies valid_char_word(#[trigger] w@[j]) by {
        assert(valid_char_word(w@[i + 1 + (j - i - 1)]));
    }
    assert(s@ =~= Seq::new(n as nat, |t: int| (w@[i + 1 + t] as u32) as char));
    assert(dec_chars(w@, i as int) == Some((s@, i + 1 + n_us as int)));
    Some((s, i + 1 + n_us))
}

fn decode_entry(w: &Vec<u64>, i: usize) -> (r: Option<(PlaylistEntry, usize)>)
    ensures
        match r {
            Some((e, j)) => dec_entry(w@, i as int) == Some((e@, j as int)),
            None => dec_entry(w@, i as int) is None,
        },
{
    let (lo, i1) = match read_u64(w, i) { Some(x) => x, None => { return None; } };
    let (hi, i2) = match read_u64(w, i1) { Some(x) => x, None => { return None; } };
    let (sw, i3) = match read_u64(w, i2) { Some(x) => x, None => { return None; } };
    let (pe, i4) = match read_u64(w, i3) { Some(x) => x, None => { return None; } };
    let (singer, i5) = match decode_chars(w, i4) { Some(x) => x, None => { return None; } };
    let (hash, i6) = match decode_chars(w, i5) { Some(x) => x, None => { return None; } };
    let id: u128 = (lo as u128) + (hi as u128) * 0x10000000000000000;
    let song: i64 = if sw >= 0x8000000000000000 {
        (sw - 0x8000000000000000) as i64
    } else {
        -((0x8000000000000000u64 - sw - 1) as i64) - 1
    };
    let e = PlaylistEntry {
        id: id,
        song: song,
        singer: singer,
        password_hash: hash,
        predicted_end: pe,
    };
    assert(e@ =~= dec_entry(w@, i as int)->Some_0.0);
    Some((e, i6))
}

fn decode_entries(w: &Vec<u64>, i: usize, n: u64) -> (r: Option<(Vec<PlaylistEntry>, usize)>)
    ensures
        match r {
            Some((es, j)) => dec_entries(w@, i as int, n as nat) == Some((views_of(es@), j as int)),
            None => dec_entries(w@, i as int, n as nat) is None,
        },
    decreases n,
{
    if n == 0 {
        let es: Vec<PlaylistEntry> = Vec::new();
        assert(views_of(es@) =~= Seq::<EntryView>::empty());
        return Some((es, i));
    }
    match decode_entry(w, i) {
        None => None,
        Some((e, i2)) => match decode_entries(w, i2, n - 1) {
            None => None,
            Some((mut rest, i3)) => {
                let ghost tail = views_of(rest@);
                let ghost ev = e@;
                rest.insert(0, e);
                assert(views_of(rest@) =~= seq![ev] + tail);
                Some((rest, i3))
            },
        },
    }
}

/// Parse a word snapshot back into a state; `None` on any malformed input.
pub fn decode_state(w: &Vec<u64>) -> (r: Option<PersistState>)
    ensures
        match r {
            Some(st) => dec_state(w@) == Some(st@),
            None => dec_state(w@) is None,
        },
{
    let (n1, i1) = match read_u64(w, 0) { Some(x) => x, None => { return None; } };
    let (list, i2) = match decode_entries(w, i1, n1) { Some(x) => x, None => { return None; } };
    let (n2, i3) = match read_u64(w, i2) { Some(x) => x, None => { return None; } };
    let (hist, i4) = match decode_entries(w, i3, n2) { Some(x) => x, None => { return None; } };
    let (dur, i5) = match read_u64(w, i4) { Some(x) => x, None => { return None; } };
    let (cnt, i6) = match read_u64(w, i5) { Some(x) => x, None => { return None; } };
    if i6 != w.len() {
        return None;
    }
    let st = PersistState {
        list: list,
        play_history: hist,
        intermission_duration: dur,
        intermission_count: cnt,
    };
    assert(st@ =~= dec_state(w@)->Some_0);
    Some(st)
}

} // verus!
