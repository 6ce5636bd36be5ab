use karaoke_queue::catalog::{Catalog, SongRecord};
use karaoke_queue::store::{AddOutcome, ChangeOutcome, PlayOutcome, Playlist, SubscribeOutcome};

fn catalog() -> Catalog {
    Catalog {
        records: vec![
            SongRecord {
                song: 1,
                duration_ms: 60_000,
                artist: String::from("Artist One"),
                title: String::from("Title One"),
            },
            SongRecord {
                song: 2,
                duration_ms: 120_000,
                artist: String::from("Artist Two"),
                title: String::from("Title Two"),
            },
            SongRecord {
                song: 3,
                duration_ms: 30_000,
                artist: String::from("Artist Three"),
                title: String::from("Title Three"),
            },
        ],
    }
}

fn empty_store() -> Playlist {
    Playlist::load(None, vec![1, 2, 3]).unwrap()
}

fn add_ok(p: &mut Playlist, song: i64, singer: &str, pw: &str, cat: &Catalog, now: u64) -> u128 {
    match p.add(song, singer.to_string(), pw.to_string(), cat, now) {
        AddOutcome::Added { id, .. } => id,
        _ => panic!("expected Added"),
    }
}

fn queue_ids(p: &Playlist) -> Vec<u128> {
    p.state.list.iter().map(|e| e.id).collect()
}

#[test]
fn submit_on_empty_queue_predicts_now_plus_duration() {
    let cat = catalog();
    let mut p = empty_store();
    let id = add_ok(&mut p, 1, "alice", "pw", &cat, 1_000);
    assert_eq!(p.state.list.len(), 1);
    assert_eq!(p.state.list[0].id, id);
    assert_eq!(p.state.list[0].song, 1);
    assert_eq!(p.state.list[0].singer, "alice");
    // Recompute starts at `now` with an empty history and no measured
    // intermissions: 1000 + 0 + 60000.
    assert_eq!(p.state.list[0].predicted_end, 61_000);
}

#[test]
fn second_submit_recomputes_whole_queue_from_now() {
    let cat = catalog();
    let mut p = empty_store();
    add_ok(&mut p, 1, "alice", "pw", &cat, 1_000);
    add_ok(&mut p, 2, "bob", "pw", &cat, 2_000);
    assert_eq!(p.state.list[0].predicted_end, 62_000);
    assert_eq!(p.state.list[1].predicted_end, 182_000);
}

#[test]
fn submit_outside_valid_set_is_rejected_and_mutates_nothing() {
    let cat = catalog();
    let mut p = empty_store();
    add_ok(&mut p, 1, "alice", "pw", &cat, 1_000);
    let before_ids = queue_ids(&p);
    let before_end = p.state.list[0].predicted_end;
    match p.add(99, "mallory".to_string(), "pw".to_string(), &cat, 9_999) {
        AddOutcome::Rejected => {},
        _ => panic!("expected Rejected"),
    }
    assert_eq!(queue_ids(&p), before_ids);
    assert_eq!(p.state.list[0].predicted_end, before_end);
    assert_eq!(p.state.play_history.len(), 0);
}

#[test]
fn submit_valid_but_unresolvable_song_is_a_fault() {
    let cat = catalog();
    let mut p = Playlist::load(None, vec![1, 2, 3, 4]).unwrap();
    match p.add(4, "carol".to_string(), "pw".to_string(), &cat, 1_000) {
        AddOutcome::Fault => {},
        _ => panic!("expected Fault"),
    }
    assert_eq!(p.state.list.len(), 0);
}

#[test]
fn operation_sequence_keeps_exactly_the_surviving_entries_in_implied_order() {
    let cat = catalog();
    let mut p = empty_store();
    let id1 = add_ok(&mut p, 1, "alice", "pw", &cat, 0);
    let id2 = add_ok(&mut p, 2, "bob", "pw", &cat, 0);
    let id3 = add_ok(&mut p, 3, "carol", "pw", &cat, 0);
    assert_eq!(queue_ids(&p), vec![id1, id2, id3]);
    assert!(matches!(p.swap(id1, id3, &cat, 0), ChangeOutcome::Changed { .. }));
    assert_eq!(queue_ids(&p), vec![id3, id2, id1]);
    assert!(matches!(p.move_after(id3, id2, &cat, 0), ChangeOutcome::Changed { .. }));
    assert_eq!(queue_ids(&p), vec![id2, id3, id1]);
    assert!(matches!(p.move_top(id1, &cat, 0), ChangeOutcome::Changed { .. }));
    assert_eq!(queue_ids(&p), vec![id1, id2, id3]);
    assert!(matches!(p.remove(id2, &cat, 0), ChangeOutcome::Changed { .. }));
    assert_eq!(queue_ids(&p), vec![id1, id3]);
}

#[test]
fn self_and_missing_targets_change_nothing() {
    let cat = catalog();
    let mut p = empty_store();
    let id1 = add_ok(&mut p, 1, "alice", "pw", &cat, 0);
    let ghost_id = id1.wrapping_add(1);
    assert!(matches!(p.swap(id1, id1, &cat, 0), ChangeOutcome::NotFound));
    assert!(matches!(p.swap(id1, ghost_id, &cat, 0), ChangeOutcome::NotFound));
    assert!(matches!(p.move_after(id1, id1, &cat, 0), ChangeOutcome::NotFound));
    assert!(matches!(p.move_after(ghost_id, id1, &cat, 0), ChangeOutcome::NotFound));
    assert!(matches!(p.move_top(ghost_id, &cat, 0), ChangeOutcome::NotFound));
    assert!(matches!(p.remove(ghost_id, &cat, 0), ChangeOutcome::NotFound));
    assert!(matches!(p.play(ghost_id, &cat, 0), PlayOutcome::NotFound));
    assert_eq!(queue_ids(&p), vec![id1]);
}

#[test]
fn move_after_forward_lands_directly_after_target_post_removal() {
    let cat = catalog();
    let mut p = empty_store();
    let a = add_ok(&mut p, 1, "a", "pw", &cat, 0);
    let b = add_ok(&mut p, 2, "b", "pw", &cat, 0);
    let c = add_ok(&mut p, 3, "c", "pw", &cat, 0);
    let d = add_ok(&mut p, 1, "d", "pw", &cat, 0);
    assert!(matches!(p.move_after(a, c, &cat, 0), ChangeOutcome::Changed { .. }));
    assert_eq!(queue_ids(&p), vec![b, c, a, d]);
}

#[test]
fn move_after_backward_lands_after_target_original_position() {
    let cat = catalog();
    let mut p = empty_store();
    let a = add_ok(&mut p, 1, "a", "pw", &cat, 0);
    let b = add_ok(&mut p, 2, "b", "pw", &cat, 0);
    let c = add_ok(&mut p, 3, "c", "pw", &cat, 0);
    let d = add_ok(&mut p, 1, "d", "pw", &cat, 0);
    assert!(matches!(p.move_after(d, a, &cat, 0), ChangeOutcome::Changed { .. }));
    assert_eq!(queue_ids(&p), vec![a, d, b, c]);
}

#[test]
fn history_is_bounded_at_three_and_ordered_oldest_first() {
    let cat = catalog();
    let mut p = empty_store();
    let id1 = add_ok(&mut p, 1, "a", "pw", &cat, 0);
    let id2 = add_ok(&mut p, 2, "b", "pw", &cat, 0);
    let id3 = add_ok(&mut p, 3, "c", "pw", &cat, 0);
    let id4 = add_ok(&mut p, 1, "d", "pw", &cat, 0);
    for id in [id1, id2, id3, id4] {
        assert!(matches!(p.play(id, &cat, 0), PlayOutcome::Played { .. }));
        assert!(p.state.play_history.len() <= 3);
    }
    let hist: Vec<u128> = p.state.play_history.iter().map(|e| e.id).collect();
    assert_eq!(hist, vec![id2, id3, id4]);
    assert_eq!(p.state.list.len(), 0);
}

#[test]
fn predicted_ends_are_nondecreasing_when_all_songs_resolve() {
    let cat = catalog();
    let mut p = empty_store();
    for (song, now) in [(2, 10), (1, 20), (3, 30), (1, 40), (2, 50)] {
        add_ok(&mut p, song, "s", "pw", &cat, now);
        let ends: Vec<u64> = p.state.list.iter().map(|e| e.predicted_end).collect();
        for w in ends.windows(2) {
            assert!(w[0] <= w[1]);
        }
    }
}

#[test]
fn gap_of_four_fifty_nine_updates_the_average_five_minutes_does_not() {
    let cat = catalog();
    let mut p = empty_store();
    let id1 = add_ok(&mut p, 1, "a", "pw", &cat, 1_000);
    let id2 = add_ok(&mut p, 2, "b", "pw", &cat, 1_000);
    let id3 = add_ok(&mut p, 3, "c", "pw", &cat, 1_000);
    assert!(matches!(p.play(id1, &cat, 1_000), PlayOutcome::Played { .. }));
    assert_eq!(p.state.intermission_count, 0);
    // The history tail keeps the predicted end it had when it was played:
    // 1000 + 60000.
    let tail_end = p.state.play_history.last().unwrap().predicted_end;
    assert_eq!(tail_end, 61_000);
    // A measured gap of exactly 4:59 (299000 ms) counts.
    assert!(matches!(p.play(id2, &cat, tail_end + 299_000), PlayOutcome::Played { .. }));
    assert_eq!(p.state.intermission_count, 1);
    assert_eq!(p.state.intermission_duration, 299_000);
    // A gap of exactly 5:00 from the new tail does not.
    let tail_end = p.state.play_history.last().unwrap().predicted_end;
    assert!(matches!(p.play(id3, &cat, tail_end + 300_000), PlayOutcome::Played { .. }));
    assert_eq!(p.state.intermission_count, 1);
    assert_eq!(p.state.intermission_duration, 299_000);
}

#[test]
fn early_start_is_not_a_measured_intermission() {
    let cat = catalog();
    let mut p = empty_store();
    let id1 = add_ok(&mut p, 1, "a", "pw", &cat, 1_000);
    let id2 = add_ok(&mut p, 2, "b", "pw", &cat, 1_000);
    assert!(matches!(p.play(id1, &cat, 1_000), PlayOutcome::Played { .. }));
    let tail_end = p.state.play_history.last().unwrap().predicted_end;
    // The next song starts before the predicted end: a negative gap.
    assert!(matches!(p.play(id2, &cat, tail_end - 1), PlayOutcome::Played { .. }));
    assert_eq!(p.state.intermission_count, 0);
}

#[test]
fn average_intermission_enters_later_predictions() {
    let cat = catalog();
    let mut p = empty_store();
    let id1 = add_ok(&mut p, 1, "a", "pw", &cat, 1_000);
    let id2 = add_ok(&mut p, 2, "b", "pw", &cat, 1_000);
    assert!(matches!(p.play(id1, &cat, 1_000), PlayOutcome::Played { .. }));
    let tail = p.state.play_history.last().unwrap().predicted_end;
    assert!(matches!(p.play(id2, &cat, tail + 100_000), PlayOutcome::Played { .. }));
    assert_eq!(p.state.intermission_duration, 100_000);
    assert_eq!(p.state.intermission_count, 1);
    // New submission: recompute starts from the history tail's predicted end
    // and adds average intermission + duration.
    let id3 = add_ok(&mut p, 3, "c", "pw", &cat, 1_000);
    let tail = p.state.play_history.last().unwrap().predicted_end;
    assert_eq!(
        p.state.list[0].predicted_end,
        tail + 100_000 + 30_000,
    );
    assert_eq!(p.state.list[0].id, id3);
}

#[test]
fn remove_with_secret_needs_the_right_secret() {
    let cat = catalog();
    let mut p = empty_store();
    let id = add_ok(&mut p, 1, "alice", "open sesame", &cat, 0);
    match p.remove_if_password_correct(id, "wrong".to_string(), &cat, 0) {
        ChangeOutcome::NotFound => {},
        _ => panic!("wrong secret must not remove"),
    }
    assert_eq!(p.state.list.len(), 1);
    // The stored digest itself is not the secret either.
    let stored = p.state.list[0].password_hash.clone();
    match p.remove_if_password_correct(id, stored, &cat, 0) {
        ChangeOutcome::NotFound => {},
        _ => panic!("digest text must not remove"),
    }
    assert_eq!(p.state.list.len(), 1);
    match p.remove_if_password_correct(id, "open sesame".to_string(), &cat, 0) {
        ChangeOutcome::Changed { .. } => {},
        _ => panic!("correct secret must remove"),
    }
    assert_eq!(p.state.list.len(), 0);
}

#[test]
fn secrets_are_stored_as_their_sha256_digest() {
    let cat = catalog();
    let mut p = empty_store();
    add_ok(&mut p, 1, "alice", "open sesame", &cat, 0);
    assert_eq!(p.state.list[0].password_hash, sha256::digest("open sesame"));
    assert_ne!(p.state.list[0].password_hash, "open sesame");
}

#[test]
fn submissions_draw_distinct_ids() {
    let cat = catalog();
    let mut p = empty_store();
    let id1 = add_ok(&mut p, 1, "a", "pw", &cat, 0);
    let id2 = add_ok(&mut p, 1, "a", "pw", &cat, 0);
    assert_ne!(id1, id2);
}

#[test]
fn subscribe_delivers_one_snapshot_then_one_per_mutation() {
    let cat = catalog();
    let mut p = empty_store();
    add_ok(&mut p, 1, "a", "pw", &cat, 0);
    let (sub, snapshot) = match p.subscribe() {
        SubscribeOutcome::Subscribed { id, snapshot } => (id, snapshot),
        SubscribeOutcome::Fault => panic!("expected Subscribed"),
    };
    // The immediate snapshot is the current state.
    let decoded = karaoke_queue::codec::decode_state(&snapshot).unwrap();
    assert_eq!(decoded.list.len(), 1);
    assert_eq!(decoded.list[0].singer, "a");
    // Each successful mutation then addresses the subscriber exactly once.
    match p.add(2, "b".to_string(), "pw".to_string(), &cat, 0) {
        AddOutcome::Added { effects, .. } => {
            assert_eq!(effects.recipients, vec![sub]);
            let st = karaoke_queue::codec::decode_state(&effects.snapshot).unwrap();
            assert_eq!(st.list.len(), 2);
        },
        _ => panic!("expected Added"),
    }
    let (sub2, _) = match p.subscribe() {
        SubscribeOutcome::Subscribed { id, snapshot } => (id, snapshot),
        SubscribeOutcome::Fault => panic!("expected Subscribed"),
    };
    match p.remove_if_password_correct(p.state.list[0].id, "pw".to_string(), &cat, 0) {
        ChangeOutcome::Changed { effects } => {
            assert_eq!(effects.recipients, vec![sub, sub2]);
        },
        _ => panic!("expected Changed"),
    }
    p.unsubscribe(sub);
    match p.move_top(p.state.list[0].id, &cat, 0) {
        ChangeOutcome::Changed { effects } => {
            assert_eq!(effects.recipients, vec![sub2]);
        },
        _ => panic!("expected Changed"),
    }
    // A rejected submission notifies nobody: it returns no effects at all.
    assert!(matches!(
        p.add(99, "x".to_string(), "pw".to_string(), &cat, 0),
        AddOutcome::Rejected
    ));
}

#[test]
fn play_emits_a_timestamped_song_log_record() {
    let cat = catalog();
    let mut p = empty_store();
    let id = add_ok(&mut p, 1, "alice", "pw", &cat, 0);
    match p.play(id, &cat, 0) {
        PlayOutcome::Played { log_record, .. } => {
            let bytes = log_record.expect("resolvable song must yield a record");
            assert_eq!(
                String::from_utf8(bytes).unwrap(),
                "1970-01-01T00:00:00Z,Artist One,Title One\n",
            );
        },
        PlayOutcome::NotFound => panic!("expected Played"),
    }
}

#[test]
fn report_bug_builds_a_record_only_for_valid_resolvable_songs() {
    let cat = catalog();
    let p = Playlist::load(None, vec![1, 2, 3, 4]).unwrap();
    let record = p.report_bug(2, "skips halfway", &cat, 0).unwrap();
    assert_eq!(
        String::from_utf8(record).unwrap(),
        "1970-01-01T00:00:00Z,Artist Two,Title Two,skips halfway\n",
    );
    assert!(p.report_bug(99, "bad", &cat, 0).is_none());
    assert!(p.report_bug(4, "valid but unresolvable", &cat, 0).is_none());
}
