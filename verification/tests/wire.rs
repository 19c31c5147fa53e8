use senklot::codec::decode_response;
use senklot::codec::decode_state;
use senklot::codec::encode_response;
use senklot::config::Config;
use senklot::config::Entry;
use senklot::config::Restriction;
use senklot::event::LoopEvent;
use senklot::event::step;
use senklot::hosts::Hosts;
use senklot::message::UnlockResponse;
use senklot::state::State;
use senklot::util::MutDict;
use senklot::util::StrMap;
use senklot::LocalTime;

fn dynamic_config(name: &str) -> Config {
    let entry = Entry::new(
        vec![String::from("news.example")],
        Restriction::Dynamic { period: 60, cool_time: 30 },
    )
    .unwrap();
    let mut entries: StrMap<Entry> = StrMap::new();
    entries.set(name, entry);
    Config::new(None, None, 60, entries)
}

#[test]
fn the_state_blob_round_trips() {
    let config = dynamic_config("news");
    let mut state = State::read_with_config(&config, None);
    let entry = Entry::new(
        vec![String::from("news.example")],
        Restriction::Dynamic { period: 60, cool_time: 30 },
    )
    .unwrap();
    let mut hosts = Hosts::parse(String::new());
    let now = LocalTime::new(123456, 10);
    state.unlock("news", &entry, &None, &now, &mut hosts).unwrap();
    let blob = state.export();

    let restored = State::read_with_config(&config, Some(&blob));
    assert_eq!(restored.export(), blob);
}

#[test]
fn a_corrupt_blob_decodes_to_the_empty_state() {
    let config = dynamic_config("news");
    let junk = vec![9u8, 1, 204, 255, 3];
    let state = State::read_with_config(&config, Some(&junk));
    let empty = State::read_with_config(&config, None);
    assert_eq!(state.export(), empty.export());
    assert!(decode_state(&junk).is_none());
}

#[test]
fn a_truncated_blob_is_rejected() {
    let config = dynamic_config("news");
    let mut state = State::read_with_config(&config, None);
    let entry = Entry::new(
        vec![String::from("news.example")],
        Restriction::Dynamic { period: 60, cool_time: 30 },
    )
    .unwrap();
    let mut hosts = Hosts::parse(String::new());
    state
        .unlock("news", &entry, &None, &LocalTime::new(5, 0), &mut hosts)
        .unwrap();
    let mut blob = state.export();
    blob.pop();
    assert!(decode_state(&blob).is_none());
    let mut extended = state.export();
    extended.push(0);
    assert!(decode_state(&extended).is_none());
}

#[test]
fn responses_round_trip() {
    let ok = UnlockResponse::Success { locked_at: Some(-7) };
    match decode_response(&encode_response(&ok)) {
        Some(UnlockResponse::Success { locked_at }) => assert_eq!(locked_at, Some(-7)),
        _ => panic!("a success response should decode back"),
    }
    let fail = UnlockResponse::Fail {
        cause: String::from("Not have been cool down yet"),
        unlocked_at: None,
    };
    match decode_response(&encode_response(&fail)) {
        Some(UnlockResponse::Fail { cause, unlocked_at }) => {
            assert_eq!(cause, "Not have been cool down yet");
            assert_eq!(unlocked_at, None);
        },
        _ => panic!("a failure response should decode back"),
    }
    assert!(decode_response(&[7u8, 0]).is_none());
}

#[test]
fn an_unknown_entry_gets_a_failure_and_changes_nothing() {
    let config = dynamic_config("news");
    let mut state = State::read_with_config(&config, None);
    let before = state.export();
    let out = step(
        &mut state,
        &config,
        LoopEvent::UnlockRequest { name: String::from("nosuch") },
        &LocalTime::new(50, 0),
        String::from("127.0.0.1 news.example"),
    );
    assert!(!out.exit);
    assert!(out.write_hosts.is_none());
    assert!(out.persist.is_none());
    assert!(out.triggers.is_empty());
    let bytes = out.response.expect("a response is always produced");
    match decode_response(&bytes) {
        Some(UnlockResponse::Fail { cause, unlocked_at }) => {
            assert_eq!(cause, "unknown entry");
            assert_eq!(unlocked_at, None);
        },
        _ => panic!("an unknown entry should fail"),
    }
    assert_eq!(state.export(), before);
}

#[test]
fn a_known_entry_unlocks_through_the_loop() {
    let config = dynamic_config("news");
    let mut state = State::read_with_config(&config, None);
    let out = step(
        &mut state,
        &config,
        LoopEvent::UnlockRequest { name: String::from("news") },
        &LocalTime::new(50, 0),
        String::from("127.0.0.1 news.example"),
    );
    let text = out.write_hosts.expect("the document should change");
    assert_eq!(text, "# 127.0.0.1 news.example");
    assert!(out.persist.is_some());
    let bytes = out.response.unwrap();
    match decode_response(&bytes) {
        Some(UnlockResponse::Success { locked_at }) => assert_eq!(locked_at, None),
        _ => panic!("the unlock should succeed"),
    }
}

#[test]
fn a_cooldown_rejection_reports_the_last_unlock_time() {
    let config = dynamic_config("news");
    let mut state = State::read_with_config(&config, None);
    // unlock at t, lock again, then ask again within the cooldown
    let first = step(
        &mut state,
        &config,
        LoopEvent::UnlockRequest { name: String::from("news") },
        &LocalTime::new(1000, 0),
        String::from("127.0.0.1 news.example"),
    );
    let text = first.write_hosts.unwrap();
    let entry = Entry::new(
        vec![String::from("news.example")],
        Restriction::Dynamic { period: 60, cool_time: 30 },
    )
    .unwrap();
    let mut hosts = Hosts::parse(text.clone());
    state.lock("news", &entry, &None, &LocalTime::new(1100, 0), &mut hosts);
    let again = step(
        &mut state,
        &config,
        LoopEvent::UnlockRequest { name: String::from("news") },
        &LocalTime::new(1000 + 600, 0),
        hosts.export(),
    );
    assert!(again.write_hosts.is_none());
    match decode_response(&again.response.unwrap()) {
        Some(UnlockResponse::Fail { cause, unlocked_at }) => {
            assert_eq!(cause, "Not have been cool down yet");
            assert_eq!(unlocked_at, Some(1000));
        },
        _ => panic!("the second unlock should be refused"),
    }
}

#[test]
fn shutdown_asks_for_persistence_and_exit() {
    let config = dynamic_config("news");
    let mut state = State::read_with_config(&config, None);
    let blob = state.export();
    let out = step(
        &mut state,
        &config,
        LoopEvent::Shutdown,
        &LocalTime::new(0, 0),
        String::new(),
    );
    assert!(out.exit);
    assert_eq!(out.persist, Some(blob));
    assert!(out.write_hosts.is_none());
}

#[test]
fn a_tick_reconciles_and_reports() {
    let config = dynamic_config("news");
    let mut state = State::read_with_config(&config, None);
    let out = step(
        &mut state,
        &config,
        LoopEvent::Tick,
        &LocalTime::new(0, 0),
        String::from("127.0.0.1 news.example"),
    );
    assert!(!out.exit);
    assert!(out.failures.is_empty());
    // never unlocked: the tick drives the entry to unlocked
    assert_eq!(out.write_hosts.as_deref(), Some("# 127.0.0.1 news.example"));
}

#[test]
fn an_external_edit_is_resynced() {
    let config = dynamic_config("news");
    let mut state = State::read_with_config(&config, None);
    let entry = Entry::new(
        vec![String::from("news.example")],
        Restriction::Dynamic { period: 60, cool_time: 30 },
    )
    .unwrap();
    let mut hosts = Hosts::parse(String::new());
    state.lock("news", &entry, &None, &LocalTime::new(0, 0), &mut hosts);
    // someone uncommented the line by hand: the watcher event restores it
    let out = step(
        &mut state,
        &config,
        LoopEvent::HostsModified,
        &LocalTime::new(10, 0),
        String::from("# 127.0.0.1 news.example"),
    );
    assert_eq!(out.write_hosts.as_deref(), Some("127.0.0.1 news.example"));
}
