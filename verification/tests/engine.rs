use senklot::config::Config;
use senklot::config::Entry;
use senklot::config::Restriction;
use senklot::config::StaticDuration;
use senklot::hosts::Hosts;
use senklot::state::LockError;
use senklot::state::State;
use senklot::util::MutDict;
use senklot::util::StrMap;
use senklot::LocalTime;

fn dynamic_entry(period_min: u64, cool_min: u64) -> Entry {
    Entry::new(
        vec![String::from("news.example")],
        Restriction::Dynamic { period: period_min, cool_time: cool_min },
    )
    .unwrap()
}

fn config_with(name: &str, entry: Entry) -> Config {
    let mut entries: StrMap<Entry> = StrMap::new();
    entries.set(name, entry);
    Config::new(None, None, 60, entries)
}

fn at_secs(secs: i64) -> LocalTime {
    LocalTime::new(secs, 0)
}

#[test]
fn cooldown_blocks_a_recent_unlock() {
    let entry = dynamic_entry(60, 30);
    let config = config_with("news", entry);
    let mut state = State::read_with_config(&config, None);
    let entry = dynamic_entry(60, 30);
    let mut hosts = Hosts::parse(String::new());

    // unlock at t, lock again, then try again ten minutes later
    let r = state.unlock("news", &entry, &None, &at_secs(1000), &mut hosts);
    assert!(r.is_ok());
    state.lock("news", &entry, &None, &at_secs(1100), &mut hosts);
    let r = state.unlock("news", &entry, &None, &at_secs(1000 + 10 * 60), &mut hosts);
    assert_eq!(r.err(), Some(LockError::CooldownActive));
}

#[test]
fn an_elapsed_cooldown_allows_the_unlock() {
    let entry = dynamic_entry(60, 30);
    let config = config_with("news", entry);
    let mut state = State::read_with_config(&config, None);
    let entry = dynamic_entry(60, 30);
    let mut hosts = Hosts::parse(String::new());

    let r = state.unlock("news", &entry, &None, &at_secs(1000), &mut hosts);
    assert!(r.is_ok());
    state.lock("news", &entry, &None, &at_secs(1100), &mut hosts);
    let r = state.unlock("news", &entry, &None, &at_secs(1000 + 40 * 60), &mut hosts);
    assert!(r.is_ok());
}

#[test]
fn a_second_unlock_is_a_no_op() {
    let entry = dynamic_entry(60, 30);
    let config = config_with("news", entry);
    let mut state = State::read_with_config(&config, None);
    let entry = dynamic_entry(60, 30);
    let mut hosts = Hosts::parse(String::from("127.0.0.1 news.example"));

    let first = state.unlock("news", &entry, &None, &at_secs(1000), &mut hosts).unwrap();
    assert!(first.changed);
    let text_after_first = hosts.export();
    let blob_after_first = state.export();

    let second = state.unlock("news", &entry, &None, &at_secs(1005), &mut hosts).unwrap();
    assert!(!second.changed);
    assert_eq!(hosts.export(), text_after_first);
    assert_eq!(state.export(), blob_after_first);
}

#[test]
fn update_reports_the_blocked_entry_and_moves_the_eligible_one() {
    // one dynamic entry blocked by its cooldown, one static entry whose
    // window contains the evaluation time
    let blocked = dynamic_entry(60, 30);
    let open_all_day = Entry::new(
        vec![String::from("video.example")],
        Restriction::Static { unlock: vec![StaticDuration { begin: 0, end: 1439 }] },
    )
    .unwrap();
    let mut entries: StrMap<Entry> = StrMap::new();
    entries.set("news", blocked);
    entries.set("video", open_all_day);
    let config = Config::new(None, None, 60, entries);
    let mut state = State::read_with_config(&config, None);
    let mut hosts = Hosts::parse(String::from(
        "127.0.0.1 news.example\n127.0.0.1 video.example",
    ));

    // leave the dynamic entry locked with a fresh last-unlock stamp
    let entry = dynamic_entry(60, 30);
    state.unlock("news", &entry, &None, &at_secs(1000), &mut hosts).unwrap();
    state.lock("news", &entry, &None, &at_secs(1010), &mut hosts);
    assert!(hosts.is_locked("news.example"));

    let report = state.update(&config, &at_secs(1020), &mut hosts);
    assert_eq!(report.failures.len(), 1);
    assert_eq!(report.failures[0].name, "news");
    assert_eq!(report.failures[0].error, LockError::CooldownActive);
    let fresh = Hosts::parse(hosts.export());
    assert!(!fresh.is_locked("video.example"));
    assert!(fresh.is_locked("news.example"));
}

#[test]
fn update_locks_outside_the_window() {
    let night_only = Entry::new(
        vec![String::from("video.example")],
        Restriction::Static {
            unlock: vec![StaticDuration { begin: 22 * 60, end: 6 * 60 }],
        },
    )
    .unwrap();
    let mut entries: StrMap<Entry> = StrMap::new();
    entries.set("video", night_only);
    let config = Config::new(None, None, 60, entries);
    let mut state = State::read_with_config(&config, None);
    let mut hosts = Hosts::parse(String::from("# stray comment"));

    // noon: outside the window, the entry is driven to locked
    let noon = LocalTime::new(5000, 12 * 60);
    let report = state.update(&config, &noon, &mut hosts);
    assert!(report.failures.is_empty());
    assert!(report.changed);
    let mut hosts = Hosts::parse(hosts.export());
    assert!(hosts.is_locked("video.example"));

    // midnight: inside the window, driven back to unlocked
    let midnight = LocalTime::new(9000, 0);
    let report = state.update(&config, &midnight, &mut hosts);
    assert!(report.failures.is_empty());
    let fresh = Hosts::parse(hosts.export());
    assert!(!fresh.is_locked("video.example"));
}

#[test]
fn triggers_carry_the_entry_name() {
    let entry = dynamic_entry(60, 30);
    let config = config_with("news", entry);
    let mut state = State::read_with_config(&config, None);
    let entry = dynamic_entry(60, 30);
    let mut hosts = Hosts::parse(String::new());

    let after = Some(String::from("notify-send unlocked"));
    let eff = state.unlock("news", &entry, &after, &at_secs(1000), &mut hosts).unwrap();
    let trigger = eff.trigger.expect("a trigger should fire on a transition");
    assert_eq!(trigger.cmd, "notify-send unlocked");
    assert_eq!(trigger.name, "news");
}

#[test]
fn update_fires_the_configured_triggers() {
    let night_only = Entry::new(
        vec![String::from("video.example")],
        Restriction::Static {
            unlock: vec![StaticDuration { begin: 22 * 60, end: 6 * 60 }],
        },
    )
    .unwrap();
    let mut entries: StrMap<Entry> = StrMap::new();
    entries.set("video", night_only);
    let config = Config::new(
        Some(String::from("echo locked")),
        Some(String::from("echo unlocked")),
        60,
        entries,
    );
    let mut state = State::read_with_config(&config, None);
    let mut hosts = Hosts::parse(String::new());

    let noon = LocalTime::new(0, 12 * 60);
    let report = state.update(&config, &noon, &mut hosts);
    assert_eq!(report.triggers.len(), 1);
    assert_eq!(report.triggers[0].cmd, "echo locked");
    assert_eq!(report.triggers[0].name, "video");

    let midnight = LocalTime::new(60, 0);
    let report = state.update(&config, &midnight, &mut hosts);
    assert_eq!(report.triggers.len(), 1);
    assert_eq!(report.triggers[0].cmd, "echo unlocked");
    assert_eq!(report.triggers[0].name, "video");
}

#[test]
fn a_fresh_dynamic_entry_counts_as_unlockable() {
    // never unlocked before: update wants it unlocked
    let entry = dynamic_entry(60, 30);
    let config = config_with("news", entry);
    let mut state = State::read_with_config(&config, None);
    let mut hosts = Hosts::parse(String::from("127.0.0.1 news.example"));
    let report = state.update(&config, &at_secs(0), &mut hosts);
    assert!(report.failures.is_empty());
    let fresh = Hosts::parse(hosts.export());
    assert!(!fresh.is_locked("news.example"));
}

#[test]
fn an_expired_period_locks_the_entry() {
    let entry = dynamic_entry(60, 30);
    let config = config_with("news", entry);
    let mut state = State::read_with_config(&config, None);
    let entry = dynamic_entry(60, 30);
    let mut hosts = Hosts::parse(String::new());
    state.unlock("news", &entry, &None, &at_secs(1000), &mut hosts).unwrap();
    // 61 minutes later: past the one-hour period
    let report = state.update(&config, &at_secs(1000 + 61 * 60), &mut hosts);
    assert!(report.failures.is_empty());
    let fresh = Hosts::parse(hosts.export());
    assert!(fresh.is_locked("news.example"));
}
