use senklot::config::Config;
use senklot::config::Entry;
use senklot::config::Restriction;
use senklot::hosts::Hosts;
use senklot::state::State;
use senklot::util::MutDict;
use senklot::util::StrMap;
use senklot::LocalTime;

fn two_domain_config() -> Config {
    let entry = Entry::new(
        vec![String::from("a.example"), String::from("b.example")],
        Restriction::Dynamic { period: 60, cool_time: 30 },
    )
    .unwrap();
    let mut entries: StrMap<Entry> = StrMap::new();
    entries.set("sites", entry);
    Config::new(None, None, 60, entries)
}

#[test]
fn hosts_lines_classify_and_report_lock_state() {
    let text = String::from(
        "# a comment\n127.0.0.1 a.example\n  # 10.0.0.1 b.example trailing\nplain garbage",
    );
    let hosts = Hosts::parse(text);
    assert!(hosts.is_locked("a.example"));
    assert!(!hosts.is_locked("b.example"));
    assert!(!hosts.is_locked("c.example"));
}

#[test]
fn host_line_keeps_the_known_address() {
    let hosts = Hosts::parse(String::from("10.1.2.3 a.example"));
    assert_eq!(hosts.host_line("a.example", false), "# 10.1.2.3 a.example");
    assert_eq!(hosts.host_line("a.example", true), "10.1.2.3 a.example");
    assert_eq!(hosts.host_line("new.example", true), "127.0.0.1 new.example");
    assert_eq!(hosts.host_line("new.example", false), "# 127.0.0.1 new.example");
}

#[test]
fn write_state_rewrites_in_place_and_appends() {
    let mut hosts = Hosts::parse(String::from("127.0.0.1 a.example\nkeep me"));
    hosts.write_state("a.example", false);
    hosts.write_state("b.example", true);
    assert_eq!(
        hosts.export(),
        "# 127.0.0.1 a.example\nkeep me\n127.0.0.1 b.example"
    );
}

#[test]
fn later_lines_win_for_a_repeated_domain() {
    let hosts = Hosts::parse(String::from("127.0.0.1 a.example\n# 127.0.0.1 a.example"));
    assert!(!hosts.is_locked("a.example"));
}

#[test]
fn export_preserves_unmanaged_text_verbatim() {
    let text = String::from("# leading note\n\nsome free-form line\n127.0.0.1 a.example");
    let hosts = Hosts::parse(text.clone());
    assert_eq!(hosts.export(), text);
}

#[test]
fn commit_is_a_fixed_point() {
    let config = two_domain_config();
    let mut state = State::read_with_config(&config, None);
    let entry_ref = Entry::new(
        vec![String::from("a.example"), String::from("b.example")],
        Restriction::Dynamic { period: 60, cool_time: 30 },
    )
    .unwrap();
    let mut hosts = Hosts::parse(String::from(
        "# a comment\n# 127.0.0.1 a.example\nunrelated line",
    ));
    // drive the entry locked so both domains must be blocked
    let now = LocalTime::new(100, 0);
    state.lock("sites", &entry_ref, &None, &now, &mut hosts);
    let written = hosts.export();

    // a second pass over the freshly written text changes nothing
    let mut hosts2 = Hosts::parse(written.clone());
    let changed = state.commit(&mut hosts2);
    assert!(!changed);
    assert_eq!(hosts2.export(), written);
}

#[test]
fn commit_only_reports_change_when_a_line_differs() {
    let config = two_domain_config();
    let state = State::read_with_config(&config, None);
    // desired state: unlocked (never seen); document already agrees
    let mut hosts = Hosts::parse(String::from(
        "# 127.0.0.1 a.example\n# 127.0.0.1 b.example",
    ));
    let changed = state.commit(&mut hosts);
    assert!(!changed);
}

#[test]
fn stale_managed_lines_for_unknown_domains_are_left_alone() {
    let config = two_domain_config();
    let state = State::read_with_config(&config, None);
    let mut hosts = Hosts::parse(String::from("127.0.0.1 removed.example"));
    let changed = state.commit(&mut hosts);
    // the removed domain is not in the index, so its line stays locked
    assert!(!changed);
    assert!(hosts.is_locked("removed.example"));
    assert_eq!(hosts.export(), "127.0.0.1 removed.example");
}
