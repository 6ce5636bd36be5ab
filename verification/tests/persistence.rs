use karaoke_queue::codec::{PersistState, decode_state, encode_state};
use karaoke_queue::entry::PlaylistEntry;
use karaoke_queue::store::Playlist;

fn entry(id: u128, song: i64, singer: &str, hash: &str, end: u64) -> PlaylistEntry {
    PlaylistEntry {
        id,
        song,
        singer: singer.to_string(),
        password_hash: hash.to_string(),
        predicted_end: end,
    }
}

fn sample_state() -> PersistState {
    PersistState {
        list: vec![
            entry(7, 1, "alice", "h1", 1_000),
            entry(u128::MAX, i64::MIN, "Ünïcødé 🎤 singer", "", u64::MAX),
            entry(0, i64::MAX, "", "h3", 0),
        ],
        play_history: vec![entry(42, 2, "bob", "h4", 500)],
        intermission_duration: 123_456,
        intermission_count: 9,
    }
}

fn assert_states_equal(a: &PersistState, b: &PersistState) {
    assert_eq!(a.list.len(), b.list.len());
    assert_eq!(a.play_history.len(), b.play_history.len());
    for (x, y) in a.list.iter().zip(b.list.iter()) {
        assert_eq!(x.id, y.id);
        assert_eq!(x.song, y.song);
        assert_eq!(x.singer, y.singer);
        assert_eq!(x.password_hash, y.password_hash);
        assert_eq!(x.predicted_end, y.predicted_end);
    }
    for (x, y) in a.play_history.iter().zip(b.play_history.iter()) {
        assert_eq!(x.id, y.id);
        assert_eq!(x.song, y.song);
        assert_eq!(x.singer, y.singer);
        assert_eq!(x.password_hash, y.password_hash);
        assert_eq!(x.predicted_end, y.predicted_end);
    }
    assert_eq!(a.intermission_duration, b.intermission_duration);
    assert_eq!(a.intermission_count, b.intermission_count);
}

#[test]
fn encode_then_decode_reproduces_the_state() {
    let st = sample_state();
    let words = encode_state(&st);
    let back = decode_state(&words).expect("an encoding must decode");
    assert_states_equal(&st, &back);
}

#[test]
fn truncated_and_padded_documents_are_malformed() {
    let st = sample_state();
    let words = encode_state(&st);
    for cut in [0, 1, words.len() / 2, words.len() - 1] {
        let broken: Vec<u64> = words[..cut].to_vec();
        assert!(decode_state(&broken).is_none());
    }
    let mut padded = words.clone();
    padded.push(0);
    assert!(decode_state(&padded).is_none());
}

#[test]
fn load_reproduces_queue_and_history_under_the_same_valid_set() {
    let st = sample_state();
    let words = encode_state(&st);
    // All three songs valid: nothing is filtered.
    let p = Playlist::load(Some(&words), vec![1, 2, i64::MIN, i64::MAX]).unwrap();
    assert_states_equal(&st, &p.state);
    assert!(p.listeners.is_empty());
}

#[test]
fn load_filters_entries_whose_song_left_the_valid_set() {
    let st = sample_state();
    let words = encode_state(&st);
    let p = Playlist::load(Some(&words), vec![1, 2]).unwrap();
    let songs: Vec<i64> = p.state.list.iter().map(|e| e.song).collect();
    assert_eq!(songs, vec![1]);
    assert_eq!(p.state.play_history.len(), 1);
    assert_eq!(p.state.play_history[0].song, 2);
    // Statistics survive untouched.
    assert_eq!(p.state.intermission_duration, 123_456);
    assert_eq!(p.state.intermission_count, 9);
}

#[test]
fn load_trims_an_oversized_history_to_the_newest_three() {
    let st = PersistState {
        list: vec![],
        play_history: vec![
            entry(1, 1, "a", "h", 1),
            entry(2, 1, "b", "h", 2),
            entry(3, 1, "c", "h", 3),
            entry(4, 1, "d", "h", 4),
            entry(5, 1, "e", "h", 5),
        ],
        intermission_duration: 0,
        intermission_count: 0,
    };
    let words = encode_state(&st);
    let p = Playlist::load(Some(&words), vec![1]).unwrap();
    let ids: Vec<u128> = p.state.play_history.iter().map(|e| e.id).collect();
    assert_eq!(ids, vec![3, 4, 5]);
}

#[test]
fn missing_document_loads_the_empty_default() {
    let p = Playlist::load(None, vec![1, 2]).unwrap();
    assert!(p.state.list.is_empty());
    assert!(p.state.play_history.is_empty());
    assert_eq!(p.state.intermission_duration, 0);
    assert_eq!(p.state.intermission_count, 0);
    assert_eq!(p.valid_songs, vec![1, 2]);
}

#[test]
fn garbage_document_is_fatal() {
    let garbage: Vec<u64> = vec![u64::MAX, 3, 1];
    assert!(Playlist::load(Some(&garbage), vec![1]).is_err());
}
