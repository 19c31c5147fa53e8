//! The access-state engine: which entry is locked, when it last changed,
//! and how the block-list document is reconciled against that.

use vstd::prelude::*;
use crate::LocalTime;
use crate::codec;
use crate::codec::spec_decode_state;
use crate::codec::spec_encode_state;
use crate::config::Config;
use crate::config::Entry;
use crate::config::Restriction;
use crate::config::spec_any_window_contains;
use crate::hosts::Hosts;
use crate::hosts::LineInfo;
use crate::hosts::spec_doc_locked;
use crate::hosts::spec_write;
use crate::hosts::valid_token;
use crate::hosts::is_token_char;
use crate::hosts::line_domain_is;
use crate::hosts::lemma_classify_host_line;
use crate::hosts::lemma_classify_tokens;
use crate::hosts::lemma_host_line_valid;
use crate::hosts::lemma_parse_index_props;
use crate::hosts::lemma_parse_index_update;
use crate::hosts::lemma_split_join;
use crate::hosts::default_addr;
use crate::hosts::spec_addr_of;
use crate::hosts::spec_classify;
use crate::hosts::spec_host_line;
use crate::hosts::spec_join_lines;
use crate::hosts::spec_parse_index;
use crate::hosts::spec_split_lines;
use crate::message::UnlockResponse;
use crate::util::MutDict;
use crate::util::StrMap;
use crate::util::pairs_to_map;

verus! {

/// Why a lock-state change was refused.
#[derive(Clone, Copy, PartialEq, Eq, Structural, Debug)]
pub enum LockError {
    /// A dynamic entry was unlocked too recently: its cooldown has not
    /// elapsed yet.
    CooldownActive,
}

/// An external trigger the caller should fire: the configured command and
/// the entry name it receives.
pub struct Trigger {
    pub cmd: String,
    pub name: String,
}

/// What a lock-state change asks of the caller: whether the block-list
/// document changed (and so should be written back, with the state
/// persisted alongside), and which trigger to fire, if any.
pub struct Effects {
    pub changed: bool,
    pub trigger: Option<Trigger>,
}

/// One entry's failure during `update`.
pub struct UpdateFailure {
    pub name: String,
    pub error: LockError,
}

/// Everything one `update` pass asks of the caller.
pub struct UpdateReport {
    pub changed: bool,
    pub triggers: Vec<Trigger>,
    pub failures: Vec<UpdateFailure>,
}

/// The engine's state as the contracts see it.
pub struct StateModel {
    pub last_unlocked: Map<Seq<char>, i64>,
    pub last_locked: Map<Seq<char>, i64>,
    pub is_locked: Map<Seq<char>, bool>,
}

/// The timestamp recorded under `k`, if any.
pub open spec fn spec_stamp(m: Map<Seq<char>, i64>, k: Seq<char>) -> Option<i64> {
    if m.contains_key(k) {
        Some(m[k])
    } else {
        None
    }
}

/// Whether the engine already holds `name` unlocked.
pub open spec fn spec_already_unlocked(m: StateModel, name: Seq<char>) -> bool {
    m.is_locked.contains_key(name) && m.is_locked[name] == false
}

/// Whether the engine already holds `name` locked.
pub open spec fn spec_already_locked(m: StateModel, name: Seq<char>) -> bool {
    m.is_locked.contains_key(name) && m.is_locked[name] == true
}

/// Whether unlocking `name` now would break its cooldown: the entry is
/// dynamic, a last-unlock time is recorded, and `now` is still within
/// `cool_time` of it.
pub open spec fn spec_cooldown_active(
    m: StateModel,
    name: Seq<char>,
    entry: Entry,
    now: LocalTime,
) -> bool {
    match entry.restriction {
        Restriction::Dynamic { cool_time, .. } => m.last_unlocked.contains_key(name) && (
        now.secs as int) < m.last_unlocked[name] + cool_time * 60,
        Restriction::Static { .. } => false,
    }
}

/// The state after recording an unlock of `name`.
pub open spec fn spec_apply_unlock(
    m: StateModel,
    name: Seq<char>,
    entry: Entry,
    now: LocalTime,
) -> StateModel {
    StateModel {
        is_locked: m.is_locked.insert(name, false),
        last_unlocked: if entry.restriction is Dynamic {
            m.last_unlocked.insert(name, now.secs)
        } else {
            m.last_unlocked
        },
        last_locked: m.last_locked,
    }
}

/// The state after recording a lock of `name`.
pub open spec fn spec_apply_lock(
    m: StateModel,
    name: Seq<char>,
    entry: Entry,
    now: LocalTime,
) -> StateModel {
    StateModel {
        is_locked: m.is_locked.insert(name, true),
        last_locked: if entry.restriction is Dynamic {
            m.last_locked.insert(name, now.secs)
        } else {
            m.last_locked
        },
        last_unlocked: m.last_unlocked,
    }
}

/// Whether the state wants the domains of `owner` blocked: only a
/// recorded `true` counts, an entry never seen is treated as unlocked
/// here (the document side defaults open; `update` is what closes it).
pub open spec fn spec_desired_locked(m: StateModel, owner: Seq<char>) -> bool {
    m.is_locked.contains_key(owner) && m.is_locked[owner]
}

/// One reconciliation pass: walks the domain index in order, rewrites
/// every domain whose documented state disagrees with the desired one,
/// and reports whether anything changed.  The document's parse-time
/// index is fixed throughout the pass.
pub open spec fn spec_commit_rec(
    m: StateModel,
    pairs: Seq<(Seq<char>, Seq<char>)>,
    index: Map<Seq<char>, LineInfo>,
    lines: Seq<Seq<char>>,
    changed: bool,
) -> (Seq<Seq<char>>, bool)
    decreases pairs.len(),
{
    if pairs.len() == 0 {
        (lines, changed)
    } else {
        let d = pairs.first().0;
        let owner = pairs.first().1;
        let desired = spec_desired_locked(m, owner);
        let current = spec_doc_locked(index, d);
        if desired != current {
            spec_commit_rec(
                m,
                pairs.drop_first(),
                index,
                spec_write(lines, index, d, desired),
                true,
            )
        } else {
            spec_commit_rec(m, pairs.drop_first(), index, lines, changed)
        }
    }
}

/// Everything one unlock call does, as a value: the state and document
/// it leaves behind, whether the document changed, whether the call
/// succeeded, and whether it actually transitioned the entry.
pub struct UnlockStep {
    pub state: StateModel,
    pub lines: Seq<Seq<char>>,
    pub wrote: bool,
    pub ok: bool,
    pub transitioned: bool,
}

/// What one unlock call does: nothing when the entry is already
/// unlocked; a refusal while a dynamic cooldown runs; otherwise the
/// recorded unlock followed by one reconciliation pass.
pub open spec fn spec_unlock_step(
    m: StateModel,
    name: Seq<char>,
    entry: Entry,
    now: LocalTime,
    dpairs: Seq<(Seq<char>, Seq<char>)>,
    index: Map<Seq<char>, LineInfo>,
    lines: Seq<Seq<char>>,
) -> UnlockStep {
    if spec_already_unlocked(m, name) {
        UnlockStep { state: m, lines, wrote: false, ok: true, transitioned: false }
    } else if spec_cooldown_active(m, name, entry, now) {
        UnlockStep { state: m, lines, wrote: false, ok: false, transitioned: false }
    } else {
        let m1 = spec_apply_unlock(m, name, entry, now);
        let c = spec_commit_rec(m1, dpairs, index, lines, false);
        UnlockStep { state: m1, lines: c.0, wrote: c.1, ok: true, transitioned: true }
    }
}

/// Unlocking twice in a row, with no intervening lock, gives the same
/// final state and document as unlocking once, and at most one of the
/// two calls writes the block list: a successful first call leaves the
/// entry unlocked, so the second changes nothing and writes nothing; a
/// refused first call changed nothing, so only the second can write.
/// The second call may come at any later time and see any re-parse of
/// the document the first call left.
pub proof fn lemma_unlock_twice(
    m: StateModel,
    name: Seq<char>,
    entry: Entry,
    now: LocalTime,
    now2: LocalTime,
    dpairs: Seq<(Seq<char>, Seq<char>)>,
    index: Map<Seq<char>, LineInfo>,
    index2: Map<Seq<char>, LineInfo>,
    lines: Seq<Seq<char>>,
)
    ensures
        ({
            let s1 = spec_unlock_step(m, name, entry, now, dpairs, index, lines);
            let s2 = spec_unlock_step(s1.state, name, entry, now2, dpairs, index2, s1.lines);
            &&& (s1.ok ==> s2.state == s1.state && s2.lines == s1.lines && !s2.wrote && s2.ok)
            &&& (!s1.ok ==> s1.state == m && s1.lines == lines && !s1.wrote)
        }),
{
    let s1 = spec_unlock_step(m, name, entry, now, dpairs, index, lines);
    if s1.ok && !spec_already_unlocked(m, name) {
        assert(spec_already_unlocked(s1.state, name));
    }
}

/// Whether `update` wants `name` unlocked at `now`: inside some window
/// for a static entry; within the usage period, or never yet unlocked,
/// for a dynamic one.
pub open spec fn spec_desired_unlocked(
    m: StateModel,
    name: Seq<char>,
    entry: Entry,
    now: LocalTime,
) -> bool {
    match entry.restriction {
        Restriction::Static { unlock } => spec_any_window_contains(unlock@, now.mins_of_day),
        Restriction::Dynamic { period, .. } => !m.last_unlocked.contains_key(name) || (
        now.secs as int) < m.last_unlocked[name] + period * 60,
    }
}

/// What one whole `update` pass produces.
pub struct UpdateModel {
    pub state: StateModel,
    pub lines: Seq<Seq<char>>,
    pub changed: bool,
    /// Triggers to fire, each a command and the entry name.
    pub triggers: Seq<(Seq<char>, Seq<char>)>,
    /// Names of the entries whose transition was refused.
    pub failures: Seq<Seq<char>>,
}

/// One `update` pass over the entries in order: each entry is driven
/// toward its desired state, a cooldown rejection is recorded and the
/// pass goes on, and every transition runs one reconciliation pass
/// against the document as freshly re-read.
pub open spec fn spec_update_rec(
    m: StateModel,
    entries: Seq<(Seq<char>, Entry)>,
    after_lock: Option<Seq<char>>,
    after_unlock: Option<Seq<char>>,
    now: LocalTime,
    dpairs: Seq<(Seq<char>, Seq<char>)>,
    lines: Seq<Seq<char>>,
    changed: bool,
    triggers: Seq<(Seq<char>, Seq<char>)>,
    failures: Seq<Seq<char>>,
) -> UpdateModel
    decreases entries.len(),
{
    if entries.len() == 0 {
        UpdateModel { state: m, lines, changed, triggers, failures }
    } else {
        let name = entries.first().0;
        let entry = entries.first().1;
        let rest = entries.drop_first();
        if spec_desired_unlocked(m, name, entry, now) {
            if spec_already_unlocked(m, name) {
                spec_update_rec(
                    m,
                    rest,
                    after_lock,
                    after_unlock,
                    now,
                    dpairs,
                    lines,
                    changed,
                    triggers,
                    failures,
                )
            } else if spec_cooldown_active(m, name, entry, now) {
                spec_update_rec(
                    m,
                    rest,
                    after_lock,
                    after_unlock,
                    now,
                    dpairs,
                    lines,
                    changed,
                    triggers,
                    failures.push(name),
                )
            } else {
                let m1 = spec_apply_unlock(m, name, entry, now);
                let c = spec_commit_rec(m1, dpairs, spec_parse_index(lines), lines, false);
                let t1 = match after_unlock {
                    Some(cmd) => triggers.push((cmd, name)),
                    None => triggers,
                };
                spec_update_rec(
                    m1,
                    rest,
                    after_lock,
                    after_unlock,
                    now,
                    dpairs,
                    c.0,
                    changed || c.1,
                    t1,
                    failures,
                )
            }
        } else {
            if spec_already_locked(m, name) {
                spec_update_rec(
                    m,
                    rest,
                    after_lock,
                    after_unlock,
                    now,
                    dpairs,
                    lines,
                    changed,
                    triggers,
                    failures,
                )
            } else {
                let m1 = spec_apply_lock(m, name, entry, now);
                let c = spec_commit_rec(m1, dpairs, spec_parse_index(lines), lines, false);
                let t1 = match after_lock {
                    Some(cmd) => triggers.push((cmd, name)),
                    None => triggers,
                };
                spec_update_rec(
                    m1,
                    rest,
                    after_lock,
                    after_unlock,
                    now,
                    dpairs,
                    c.0,
                    changed || c.1,
                    t1,
                    failures,
                )
            }
        }
    }
}

/// The conditions one reconciliation pass needs and keeps: the index
/// describes lines below `base_len`, each record's line still carries its
/// domain and no later line does, and every pair key and recorded token
/// is valid.
pub open spec fn commit_pass_pre(
    pairs: Seq<(Seq<char>, Seq<char>)>,
    index: Map<Seq<char>, LineInfo>,
    base_len: int,
    lines: Seq<Seq<char>>,
) -> bool {
    &&& (forall|i: int, j: int| 0 <= i < j < pairs.len() ==> (#[trigger] pairs[i]).0 != (
    #[trigger] pairs[j]).0)
    &&& (forall|i: int| 0 <= i < pairs.len() ==> valid_token((#[trigger] pairs[i]).0))
    &&& base_len <= lines.len()
    &&& (forall|d: Seq<char>|
        #[trigger] index.contains_key(d) ==> 0 <= index[d].line < base_len && valid_token(
            index[d].addr,
        ) && valid_token(d))
    &&& (forall|d1: Seq<char>, d2: Seq<char>|
        index.contains_key(d1) && index.contains_key(d2) && d1 != d2 ==> (#[trigger] index[d1]).line
            != (#[trigger] index[d2]).line)
    &&& (forall|d: Seq<char>|
        #[trigger] index.contains_key(d) ==> line_domain_is(lines[index[d].line], d))
    &&& (forall|d: Seq<char>, k: int|
        #[trigger] index.contains_key(d) && index[d].line < k < lines.len()
            ==> !line_domain_is(#[trigger] lines[k], d))
    &&& (forall|i: int|
        0 <= i < pairs.len() ==> spec_doc_locked(
            spec_parse_index(lines),
            (#[trigger] pairs[i]).0,
        ) == spec_doc_locked(index, pairs[i].0))
}

/// After one reconciliation pass, every walked domain's documented state
/// is the desired one, every other domain's state is untouched, and the
/// document keeps its shape (no shorter, still separator-free).
proof fn lemma_commit_pass(
    m: StateModel,
    pairs: Seq<(Seq<char>, Seq<char>)>,
    index: Map<Seq<char>, LineInfo>,
    base_len: int,
    lines: Seq<Seq<char>>,
    ch: bool,
)
    requires
        commit_pass_pre(pairs, index, base_len, lines),
    ensures
        ({
            let c = spec_commit_rec(m, pairs, index, lines, ch);
            &&& (forall|i: int|
                0 <= i < pairs.len() ==> spec_doc_locked(
                    spec_parse_index(c.0),
                    (#[trigger] pairs[i]).0,
                ) == spec_desired_locked(m, pairs[i].1))
            &&& (forall|d: Seq<char>|
                (forall|i: int| 0 <= i < pairs.len() ==> (#[trigger] pairs[i]).0 != d)
                    ==> #[trigger] spec_doc_locked(spec_parse_index(c.0), d) == spec_doc_locked(
                    spec_parse_index(lines),
                    d,
                ))
            &&& c.0.len() >= lines.len()
            &&& ((forall|i: int, j: int|
                0 <= i < lines.len() && 0 <= j < lines[i].len() ==> #[trigger] lines[i][j]
                    != '\n') ==> (forall|i: int, j: int|
                0 <= i < c.0.len() && 0 <= j < c.0[i].len() ==> #[trigger] c.0[i][j] != '\n'))
        }),
    decreases pairs.len(),
{
    if pairs.len() == 0 {
    } else {
        let d0 = pairs.first().0;
        let ow0 = pairs.first().1;
        let rest = pairs.drop_first();
        let desired = spec_desired_locked(m, ow0);
        let current = spec_doc_locked(index, d0);
        assert(pairs[0] == pairs.first());
        assert(forall|i: int| 0 <= i < rest.len() ==> #[trigger] rest[i] == pairs[i + 1]);
        if desired == current {
            assert(spec_commit_rec(m, pairs, index, lines, ch) == spec_commit_rec(
                m,
                rest,
                index,
                lines,
                ch,
            ));
            assert(commit_pass_pre(rest, index, base_len, lines));
            lemma_commit_pass(m, rest, index, base_len, lines, ch);
            let c = spec_commit_rec(m, rest, index, lines, ch);
            assert forall|i: int| 0 <= i < pairs.len() implies spec_doc_locked(
                spec_parse_index(c.0),
                (#[trigger] pairs[i]).0,
            ) == spec_desired_locked(m, pairs[i].1) by {
                if i == 0 {
                    assert(forall|k: int|
                        0 <= k < rest.len() ==> (#[trigger] rest[k]).0 != d0);
                    assert(spec_doc_locked(spec_parse_index(c.0), d0) == spec_doc_locked(
                        spec_parse_index(lines),
                        d0,
                    ));
                } else {
                    assert(rest[i - 1] == pairs[i]);
                }
            }
        } else {
            let content = spec_host_line(spec_addr_of(index, d0), d0, desired);
            let lines1 = spec_write(lines, index, d0, desired);
            assert(valid_token(d0));
            assert(spec_commit_rec(m, pairs, index, lines, ch) == spec_commit_rec(
                m,
                rest,
                index,
                lines1,
                true,
            ));
            if index.contains_key(d0) {
                let j = index[d0].line;
                assert(valid_token(index[d0].addr));
                assert(spec_addr_of(index, d0) == index[d0].addr);
                lemma_classify_host_line(index[d0].addr, d0, desired);
                assert(line_domain_is(content, d0));
                assert(lines1 == lines.update(j, content));
                lemma_parse_index_update(lines, j, content, d0);
                assert(spec_doc_locked(spec_parse_index(lines1), d0) == desired);
                // the index keeps describing lines1
                assert forall|d: Seq<char>| #[trigger] index.contains_key(d) implies
                    line_domain_is(lines1[index[d].line], d) by {
                    if d == d0 {
                        assert(lines1[j] == content);
                    } else {
                        assert(index[d].line != j);
                        assert(lines1[index[d].line] == lines[index[d].line]);
                    }
                }
                assert forall|d: Seq<char>, k: int|
                    #[trigger] index.contains_key(d) && index[d].line < k < lines1.len() implies
                    !line_domain_is(#[trigger] lines1[k], d) by {
                    if k == j {
                        assert(lines1[k] == content);
                        if d != d0 {
                            assert(line_domain_is(content, d0));
                        } else {
                            assert(!(index[d0].line < j));
                        }
                    } else {
                        assert(lines1[k] == lines[k]);
                    }
                }
                assert forall|i: int| 0 <= i < rest.len() implies spec_doc_locked(
                    spec_parse_index(lines1),
                    (#[trigger] rest[i]).0,
                ) == spec_doc_locked(index, rest[i].0) by {
                    assert(rest[i] == pairs[i + 1]);
                    assert(pairs[i + 1].0 != d0);
                    assert(spec_doc_locked(spec_parse_index(lines1), rest[i].0)
                        == spec_doc_locked(spec_parse_index(lines), rest[i].0));
                }
                assert(commit_pass_pre(rest, index, base_len, lines1));
                lemma_commit_pass(m, rest, index, base_len, lines1, true);
                let c = spec_commit_rec(m, rest, index, lines1, true);
                assert forall|i: int| 0 <= i < pairs.len() implies spec_doc_locked(
                    spec_parse_index(c.0),
                    (#[trigger] pairs[i]).0,
                ) == spec_desired_locked(m, pairs[i].1) by {
                    if i == 0 {
                        assert(forall|k: int|
                            0 <= k < rest.len() ==> (#[trigger] rest[k]).0 != d0);
                        assert(spec_doc_locked(spec_parse_index(c.0), d0) == spec_doc_locked(
                            spec_parse_index(lines1),
                            d0,
                        ));
                    } else {
                        assert(rest[i - 1] == pairs[i]);
                    }
                }
                assert forall|i: int, j2: int|
                    (forall|i3: int, j3: int|
                        0 <= i3 < lines.len() && 0 <= j3 < lines[i3].len()
                            ==> #[trigger] lines[i3][j3] != '\n') && 0 <= i < lines1.len() && 0
                    <= j2 < lines1[i].len() implies #[trigger] lines1[i][j2] != '\n' by {
                    if i == j {
                        assert(lines1[i] == content);
                        lemma_host_line_valid(index[d0].addr, d0, desired);
                    } else {
                        assert(lines1[i] == lines[i]);
                    }
                }
            } else {
                // no line yet: append one
                assert(lines1 == lines.push(content));
                assert(spec_addr_of(index, d0) == default_addr());
                assert(valid_token(default_addr())) by {
                    assert(default_addr().len() == 9);
                    assert forall|k: int| 0 <= k < default_addr().len() implies is_token_char(
                        #[trigger] default_addr()[k],
                    ) by {}
                }
                lemma_classify_host_line(default_addr(), d0, desired);
                assert(line_domain_is(content, d0));
                assert(lines1.drop_last() =~= lines);
                assert(lines1.last() == content);
                assert(spec_parse_index(lines1) == spec_parse_index(lines).insert(
                    d0,
                    LineInfo { line: lines.len() as int, locked: desired, addr: default_addr() },
                ));
                assert(spec_doc_locked(spec_parse_index(lines1), d0) == desired);
                assert forall|d: Seq<char>| #[trigger] index.contains_key(d) implies
                    line_domain_is(lines1[index[d].line], d) by {
                    assert(lines1[index[d].line] == lines[index[d].line]);
                }
                assert forall|d: Seq<char>, k: int|
                    #[trigger] index.contains_key(d) && index[d].line < k < lines1.len() implies
                    !line_domain_is(#[trigger] lines1[k], d) by {
                    if k == lines.len() {
                        assert(lines1[k] == content);
                        assert(d != d0);
                    } else {
                        assert(lines1[k] == lines[k]);
                    }
                }
                assert forall|i: int| 0 <= i < rest.len() implies spec_doc_locked(
                    spec_parse_index(lines1),
                    (#[trigger] rest[i]).0,
                ) == spec_doc_locked(index, rest[i].0) by {
                    assert(rest[i] == pairs[i + 1]);
                    assert(pairs[i + 1].0 != d0);
                }
                assert(commit_pass_pre(rest, index, base_len, lines1));
                lemma_commit_pass(m, rest, index, base_len, lines1, true);
                let c = spec_commit_rec(m, rest, index, lines1, true);
                assert forall|i: int| 0 <= i < pairs.len() implies spec_doc_locked(
                    spec_parse_index(c.0),
                    (#[trigger] pairs[i]).0,
                ) == spec_desired_locked(m, pairs[i].1) by {
                    if i == 0 {
                        assert(forall|k: int|
                            0 <= k < rest.len() ==> (#[trigger] rest[k]).0 != d0);
                        assert(spec_doc_locked(spec_parse_index(c.0), d0) == spec_doc_locked(
                            spec_parse_index(lines1),
                            d0,
                        ));
                    } else {
                        assert(rest[i - 1] == pairs[i]);
                    }
                }
                assert forall|i: int, j2: int|
                    (forall|i3: int, j3: int|
                        0 <= i3 < lines.len() && 0 <= j3 < lines[i3].len()
                            ==> #[trigger] lines[i3][j3] != '\n') && 0 <= i < lines1.len() && 0
                    <= j2 < lines1[i].len() implies #[trigger] lines1[i][j2] != '\n' by {
                    if i == lines.len() {
                        assert(lines1[i] == content);
                        lemma_host_line_valid(default_addr(), d0, desired);
                    } else {
                        assert(lines1[i] == lines[i]);
                    }
                }
            }
        }
    }
}

/// A pass over domains whose documented state is already the desired one
/// writes nothing.
proof fn lemma_commit_noop(
    m: StateModel,
    pairs: Seq<(Seq<char>, Seq<char>)>,
    index: Map<Seq<char>, LineInfo>,
    lines: Seq<Seq<char>>,
    ch: bool,
)
    requires
        forall|i: int|
            0 <= i < pairs.len() ==> spec_doc_locked(index, (#[trigger] pairs[i]).0)
                == spec_desired_locked(m, pairs[i].1),
    ensures
        spec_commit_rec(m, pairs, index, lines, ch) == (lines, ch),
    decreases pairs.len(),
{
    if pairs.len() > 0 {
        assert(pairs[0] == pairs.first());
        assert(forall|i: int|
            0 <= i < pairs.drop_first().len() ==> #[trigger] pairs.drop_first()[i] == pairs[i
                + 1]);
        lemma_commit_noop(m, pairs.drop_first(), index, lines, ch);
    }
}

/// Reconciliation is a fixed point: one pass makes the document agree
/// with the desired state, so a second pass over the freshly written
/// text, re-parsed, changes nothing.
pub proof fn lemma_commit_fixed_point(
    m: StateModel,
    pairs: Seq<(Seq<char>, Seq<char>)>,
    lines0: Seq<Seq<char>>,
)
    requires
        forall|i: int, j: int|
            0 <= i < j < pairs.len() ==> (#[trigger] pairs[i]).0 != (#[trigger] pairs[j]).0,
        forall|i: int| 0 <= i < pairs.len() ==> valid_token((#[trigger] pairs[i]).0),
        lines0.len() >= 1,
        forall|i: int, j: int|
            0 <= i < lines0.len() && 0 <= j < lines0[i].len() ==> #[trigger] lines0[i][j] != '\n',
    ensures
        ({
            let index0 = spec_parse_index(lines0);
            let c1 = spec_commit_rec(m, pairs, index0, lines0, false);
            let relines = spec_split_lines(spec_join_lines(c1.0));
            let c2 = spec_commit_rec(m, pairs, spec_parse_index(relines), relines, false);
            &&& relines == c1.0
            &&& c2.0 == c1.0
            &&& c2.1 == false
        }),
{
    let index0 = spec_parse_index(lines0);
    lemma_parse_index_props(lines0);
    assert forall|d: Seq<char>| #[trigger] index0.contains_key(d) implies 0 <= index0[d].line
        < lines0.len() && valid_token(index0[d].addr) && valid_token(d) by {
        lemma_classify_tokens(lines0[index0[d].line]);
    }
    assert forall|d1: Seq<char>, d2: Seq<char>|
        index0.contains_key(d1) && index0.contains_key(d2) && d1 != d2 implies (
    #[trigger] index0[d1]).line != (#[trigger] index0[d2]).line by {
        if index0[d1].line == index0[d2].line {
            assert(spec_classify(lines0[index0[d1].line]) == Some(
                (index0[d1].addr, d1, index0[d1].locked),
            ));
            assert(spec_classify(lines0[index0[d2].line]) == Some(
                (index0[d2].addr, d2, index0[d2].locked),
            ));
            assert(false);
        }
    }
    assert forall|d: Seq<char>| #[trigger] index0.contains_key(d) implies line_domain_is(
        lines0[index0[d].line],
        d,
    ) by {}
    assert(commit_pass_pre(pairs, index0, lines0.len() as int, lines0));
    lemma_commit_pass(m, pairs, index0, lines0.len() as int, lines0, false);
    let c1 = spec_commit_rec(m, pairs, index0, lines0, false);
    let lines1 = c1.0;
    lemma_split_join(lines1);
    let relines = spec_split_lines(spec_join_lines(lines1));
    assert(relines == lines1);
    let index1 = spec_parse_index(lines1);
    assert forall|i: int| 0 <= i < pairs.len() implies spec_doc_locked(
        index1,
        (#[trigger] pairs[i]).0,
    ) == spec_desired_locked(m, pairs[i].1) by {}
    lemma_commit_noop(m, pairs, index1, lines1, false);
}

/// Inserts every domain of one entry into the index, the entry's name as
/// the value.
pub open spec fn spec_insert_domains(
    m: Map<Seq<char>, Seq<char>>,
    name: Seq<char>,
    ds: Seq<Seq<char>>,
) -> Map<Seq<char>, Seq<char>>
    decreases ds.len(),
{
    if ds.len() == 0 {
        m
    } else {
        spec_insert_domains(m.insert(ds.first(), name), name, ds.drop_first())
    }
}

/// The domain index a configuration induces: domain to owning entry, a
/// later entry silently winning a shared domain.
pub open spec fn spec_domain_index_rec(
    m: Map<Seq<char>, Seq<char>>,
    entries: Seq<(Seq<char>, Entry)>,
) -> Map<Seq<char>, Seq<char>>
    decreases entries.len(),
{
    if entries.len() == 0 {
        m
    } else {
        spec_domain_index_rec(
            spec_insert_domains(
                m,
                entries.first().0,
                entries.first().1.domains@.map_values(|d: String| d@),
            ),
            entries.drop_first(),
        )
    }
}

/// The domain index of a configuration.
pub open spec fn spec_domain_index(entries: Seq<(Seq<char>, Entry)>) -> Map<Seq<char>, Seq<char>> {
    spec_domain_index_rec(Map::empty(), entries)
}

/// The per-entry lock state and timestamps, plus the domain index built
/// from the configuration at load.
pub struct State {
    last_unlocked: StrMap<i64>,
    last_locked: StrMap<i64>,
    is_locked: StrMap<bool>,
    domain_map: StrMap<String>,
}

impl State {
    /// The state the contracts speak of.
    pub closed spec fn model(&self) -> StateModel {
        StateModel {
            last_unlocked: self.last_unlocked.as_map(),
            last_locked: self.last_locked.as_map(),
            is_locked: self.is_locked.as_map(),
        }
    }

    /// The domain index as ordered pairs: reconciliation walks them in
    /// this order.
    pub closed spec fn domain_pairs(&self) -> Seq<(Seq<char>, Seq<char>)> {
        self.domain_map@.map_values(|p: (Seq<char>, String)| (p.0, p.1@))
    }

    /// The last-unlocked pairs, in insertion order.
    pub closed spec fn lu_pairs(&self) -> Seq<(Seq<char>, i64)> {
        self.last_unlocked@
    }

    /// The last-locked pairs, in insertion order.
    pub closed spec fn ll_pairs(&self) -> Seq<(Seq<char>, i64)> {
        self.last_locked@
    }

    /// The lock-flag pairs, in insertion order.
    pub closed spec fn il_pairs(&self) -> Seq<(Seq<char>, bool)> {
        self.is_locked@
    }

    /// Unique keys everywhere, and every domain a usable token.
    pub closed spec fn wf(&self) -> bool {
        &&& self.last_unlocked.wf()
        &&& self.last_locked.wf()
        &&& self.is_locked.wf()
        &&& self.domain_map.wf()
        &&& forall|i: int|
            0 <= i < self.domain_map@.len() ==> valid_token((#[trigger] self.domain_map@[i]).0)
    }

    fn empty() -> (r: State)
        ensures
            r.wf(),
            r.lu_pairs().len() == 0,
            r.ll_pairs().len() == 0,
            r.il_pairs().len() == 0,
            r.domain_pairs().len() == 0,
    {
        State {
            last_unlocked: StrMap::new(),
            last_locked: StrMap::new(),
            is_locked: StrMap::new(),
            domain_map: StrMap::new(),
        }
    }

    /// Builds the state at startup: the domain index from the
    /// configuration, and the per-entry records from the persisted blob.
    /// A missing, truncated or otherwise unreadable blob silently gives
    /// the empty state.
    pub fn read_with_config(config: &Config, blob: Option<&Vec<u8>>) -> (r: State)
        requires
            config.wf(),
        ensures
            r.wf(),
            pairs_to_map(r.domain_pairs()) == spec_domain_index(config.entries@),
            match blob {
                Some(b) => match spec_decode_state(b@) {
                    Some(t) => r.lu_pairs() == t.0 && r.ll_pairs() == t.1 && r.il_pairs() == t.2,
                    None => r.lu_pairs().len() == 0 && r.ll_pairs().len() == 0
                        && r.il_pairs().len() == 0,
                },
                None => r.lu_pairs().len() == 0 && r.ll_pairs().len() == 0 && r.il_pairs().len()
                    == 0,
            },
    {
        let mut base = match blob {
            Some(b) => match codec::decode_state(b.as_slice()) {
                Some(t) => {
                    let (lu, ll, il) = t;
                    State {
                        last_unlocked: lu,
                        last_locked: ll,
                        is_locked: il,
                        domain_map: StrMap::new(),
                    }
                },
                None => State::empty(),
            },
            None => State::empty(),
        };
        let dm = build_domain_index(config);
        base.domain_map = dm;
        base
    }
    /// The persisted form of the state: the three maps in the fixed
    /// binary encoding.
    pub fn export(&self) -> (r: Vec<u8>)
        ensures
            r@ == spec_encode_state(self.lu_pairs(), self.ll_pairs(), self.il_pairs()),
    {
        codec::encode_state(&self.last_unlocked, &self.last_locked, &self.is_locked)
    }

    /// One reconciliation pass over the whole domain index, against the
    /// document as it was parsed.  Returns whether any line changed, in
    /// which case the caller writes the document back and persists the
    /// state alongside.
    pub fn commit(&self, hosts: &mut Hosts) -> (changed: bool)
        requires
            self.wf(),
            old(hosts).wf(),
        ensures
            final(hosts).wf(),
            final(hosts).index_info() == old(hosts).index_info(),
            (final(hosts).lines_view(), changed) == spec_commit_rec(
                self.model(),
                self.domain_pairs(),
                old(hosts).index_info(),
                old(hosts).lines_view(),
                false,
            ),
    {
        let ghost dpairs = self.domain_pairs();
        let ghost index0 = old(hosts).index_info();
        let ghost lines0 = old(hosts).lines_view();
        let mut changed = false;
        let n = self.domain_map.len();
        let mut i: usize = 0;
        proof {
            assert(dpairs.skip(0) =~= dpairs);
        }
        while i < n
            invariant
                i <= n,
                n == self.domain_map@.len(),
                self.wf(),
                hosts.wf(),
                dpairs == self.domain_pairs(),
                hosts.index_info() == index0,
                spec_commit_rec(self.model(), dpairs.skip(i as int), index0, hosts.lines_view(), changed)
                    == spec_commit_rec(self.model(), dpairs, index0, lines0, false),
            decreases n - i,
        {
            let ghost rest = dpairs.skip(i as int);
            let p = self.domain_map.pair_at(i);
            let domain: &String = p.0;
            let owner: &String = p.1;
            proof {
                assert(rest.first() == dpairs[i as int]);
                assert(dpairs[i as int] == (self.domain_map@[i as int].0, self.domain_map@[i as int].1@));
                assert(rest.drop_first() =~= dpairs.skip(i as int + 1));
                assert(valid_token(domain@));
            }
            let desired = match self.is_locked.get(owner.as_str()) {
                Some(b) => *b,
                None => false,
            };
            proof {
                assert(desired == spec_desired_locked(self.model(), owner@));
            }
            if desired != hosts.is_locked(domain.as_str()) {
                hosts.write_state(domain.as_str(), desired);
                changed = true;
            }
            i = i + 1;
        }
        proof {
            assert(dpairs.skip(n as int) =~= Seq::<(Seq<char>, Seq<char>)>::empty());
        }
        changed
    }

    /// Sets `name` unlocked: a no-op when it already is; refused while a
    /// dynamic entry's cooldown runs; otherwise the state records the
    /// unlock (and, for a dynamic entry, the time), the document is
    /// reconciled, and the configured trigger is handed back.
    pub fn unlock(
        &mut self,
        name: &str,
        entry: &Entry,
        after_unlock: &Option<String>,
        now: &LocalTime,
        hosts: &mut Hosts,
    ) -> (r: Result<Effects, LockError>)
        requires
            old(self).wf(),
            old(hosts).wf(),
        ensures
            final(self).wf(),
            final(hosts).wf(),
            final(self).domain_pairs() == old(self).domain_pairs(),
            final(hosts).index_info() == old(hosts).index_info(),
            match r {
                Ok(eff) => if spec_already_unlocked(old(self).model(), name@) {
                    final(self).model() == old(self).model() && *final(hosts) == *old(hosts)
                        && eff.changed == false && eff.trigger is None
                } else {
                    &&& !spec_cooldown_active(old(self).model(), name@, *entry, *now)
                    &&& final(self).model() == spec_apply_unlock(
                        old(self).model(),
                        name@,
                        *entry,
                        *now,
                    )
                    &&& (final(hosts).lines_view(), eff.changed) == spec_commit_rec(
                        final(self).model(),
                        old(self).domain_pairs(),
                        old(hosts).index_info(),
                        old(hosts).lines_view(),
                        false,
                    )
                    &&& match after_unlock {
                        Some(cmd) => eff.trigger matches Some(t) && t.cmd@ == cmd@ && t.name@
                            == name@,
                        None => eff.trigger is None,
                    }
                },
                Err(e) => {
                    &&& e == LockError::CooldownActive
                    &&& !spec_already_unlocked(old(self).model(), name@)
                    &&& spec_cooldown_active(old(self).model(), name@, *entry, *now)
                    &&& final(self).model() == old(self).model()
                    &&& *final(hosts) == *old(hosts)
                },
            },
            ({
                let st = spec_unlock_step(
                    old(self).model(),
                    name@,
                    *entry,
                    *now,
                    old(self).domain_pairs(),
                    old(hosts).index_info(),
                    old(hosts).lines_view(),
                );
                &&& final(self).model() == st.state
                &&& final(hosts).lines_view() == st.lines
                &&& (match r {
                    Ok(eff) => st.ok && eff.changed == st.wrote,
                    Err(_) => !st.ok,
                })
            }),
    {
        let already = match self.is_locked.get(name) {
            Some(b) => !*b,
            None => false,
        };
        if already {
            return Ok(Effects { changed: false, trigger: None });
        }
        if let Restriction::Dynamic { cool_time, .. } = &entry.restriction {
            if let Some(last) = self.last_unlocked.get(name) {
                if (now.secs as i128) < (*last as i128) + (*cool_time as i128) * 60 {
                    return Err(LockError::CooldownActive);
                }
            }
        }
        self.is_locked.set(name, false);
        if entry.restriction.is_dynamic() {
            self.last_unlocked.set(name, now.secs);
        }
        proof {
            assert(self.model() == spec_apply_unlock(old(self).model(), name@, *entry, *now));
            assert(self.domain_pairs() == old(self).domain_pairs());
        }
        let changed = self.commit(hosts);
        let trigger = match after_unlock {
            Some(cmd) => Some(Trigger { cmd: cmd.clone(), name: name.to_owned() }),
            None => None,
        };
        Ok(Effects { changed, trigger })
    }

    /// Sets `name` locked: a no-op when it already is; otherwise the
    /// state records the lock (and, for a dynamic entry, the time), the
    /// document is reconciled, and the configured trigger is handed back.
    /// Locking is never refused.
    pub fn lock(
        &mut self,
        name: &str,
        entry: &Entry,
        after_lock: &Option<String>,
        now: &LocalTime,
        hosts: &mut Hosts,
    ) -> (eff: Effects)
        requires
            old(self).wf(),
            old(hosts).wf(),
        ensures
            final(self).wf(),
            final(hosts).wf(),
            final(self).domain_pairs() == old(self).domain_pairs(),
            final(hosts).index_info() == old(hosts).index_info(),
            if spec_already_locked(old(self).model(), name@) {
                final(self).model() == old(self).model() && *final(hosts) == *old(hosts)
                    && eff.changed == false && eff.trigger is None
            } else {
                &&& final(self).model() == spec_apply_lock(old(self).model(), name@, *entry, *now)
                &&& (final(hosts).lines_view(), eff.changed) == spec_commit_rec(
                    final(self).model(),
                    old(self).domain_pairs(),
                    old(hosts).index_info(),
                    old(hosts).lines_view(),
                    false,
                )
                &&& match after_lock {
                    Some(cmd) => eff.trigger matches Some(t) && t.cmd@ == cmd@ && t.name@ == name@,
                    None => eff.trigger is None,
                }
            },
    {
        let already = match self.is_locked.get(name) {
            Some(b) => *b,
            None => false,
        };
        if already {
            return Effects { changed: false, trigger: None };
        }
        self.is_locked.set(name, true);
        if entry.restriction.is_dynamic() {
            self.last_locked.set(name, now.secs);
        }
        proof {
            assert(self.model() == spec_apply_lock(old(self).model(), name@, *entry, *now));
            assert(self.domain_pairs() == old(self).domain_pairs());
        }
        let changed = self.commit(hosts);
        let trigger = match after_lock {
            Some(cmd) => Some(Trigger { cmd: cmd.clone(), name: name.to_owned() }),
            None => None,
        };
        Effects { changed, trigger }
    }

    /// Re-evaluates every entry against the configuration and `now`,
    /// driving each toward its desired state.  A refused transition is
    /// recorded and never stops the pass; the report carries everything
    /// the caller must do afterwards.
    pub fn update(&mut self, config: &Config, now: &LocalTime, hosts: &mut Hosts) -> (r:
        UpdateReport)
        requires
            old(self).wf(),
            old(hosts).wf(),
        ensures
            final(self).wf(),
            final(hosts).wf(),
            final(self).domain_pairs() == old(self).domain_pairs(),
            ({
                let u = spec_update_rec(
                    old(self).model(),
                    config.entries@,
                    match config.after_lock {
                        Some(c) => Some(c@),
                        None => None,
                    },
                    match config.after_unlock {
                        Some(c) => Some(c@),
                        None => None,
                    },
                    *now,
                    old(self).domain_pairs(),
                    old(hosts).lines_view(),
                    false,
                    Seq::empty(),
                    Seq::empty(),
                );
                &&& final(self).model() == u.state
                &&& final(hosts).lines_view() == u.lines
                &&& r.changed == u.changed
                &&& r.triggers@.map_values(|t: Trigger| (t.cmd@, t.name@)) == u.triggers
                &&& r.failures@.map_values(|f: UpdateFailure| f.name@) == u.failures
                &&& forall|k: int|
                    0 <= k < r.failures@.len() ==> (#[trigger] r.failures@[k]).error
                        == LockError::CooldownActive
            }),
    {
        let ghost al = match &config.after_lock {
            Some(c) => Some(c@),
            None => None,
        };
        let ghost au = match &config.after_unlock {
            Some(c) => Some(c@),
            None => None,
        };
        let ghost dpairs = old(self).domain_pairs();
        let ghost entries = config.entries@;
        let ghost lines0 = old(hosts).lines_view();
        let mut changed = false;
        let mut triggers: Vec<Trigger> = Vec::new();
        let mut failures: Vec<UpdateFailure> = Vec::new();
        let n = config.entries.len();
        let mut i: usize = 0;
        proof {
            assert(entries.skip(0) =~= entries);
            assert(triggers@.map_values(|t: Trigger| (t.cmd@, t.name@)) =~= Seq::<(Seq<char>,
                Seq<char>)>::empty());
            assert(failures@.map_values(|f: UpdateFailure| f.name@) =~= Seq::<Seq<char>>::empty());
        }
        while i < n
            invariant
                i <= n,
                n == config.entries@.len(),
                entries == config.entries@,
                al == (match config.after_lock {
                    Some(c) => Some(c@),
                    None => None,
                }),
                au == (match config.after_unlock {
                    Some(c) => Some(c@),
                    None => None,
                }),
                self.wf(),
                hosts.wf(),
                self.domain_pairs() == dpairs,
                forall|k: int|
                    0 <= k < failures@.len() ==> (#[trigger] failures@[k]).error
                        == LockError::CooldownActive,
                spec_update_rec(
                    self.model(),
                    entries.skip(i as int),
                    al,
                    au,
                    *now,
                    dpairs,
                    hosts.lines_view(),
                    changed,
                    triggers@.map_values(|t: Trigger| (t.cmd@, t.name@)),
                    failures@.map_values(|f: UpdateFailure| f.name@),
                ) == spec_update_rec(
                    old(self).model(),
                    entries,
                    al,
                    au,
                    *now,
                    dpairs,
                    lines0,
                    false,
                    Seq::empty(),
                    Seq::empty(),
                ),
            decreases n - i,
        {
            let ghost rest = entries.skip(i as int);
            let ghost tv0 = triggers@.map_values(|t: Trigger| (t.cmd@, t.name@));
            let ghost fv0 = failures@.map_values(|f: UpdateFailure| f.name@);
            // work against the document as freshly read, like every
            // reconciliation pass does
            let ghost lines_pre = hosts.lines_view();
            let text = hosts.export();
            *hosts = Hosts::parse(text);
            proof {
                lemma_split_join(lines_pre);
                assert(hosts.lines_view() == lines_pre);
            }
            let p = config.entries.pair_at(i);
            let name: &String = p.0;
            let entry: &Entry = p.1;
            proof {
                assert(rest.first() == entries[i as int]);
                assert(rest.drop_first() =~= entries.skip(i as int + 1));
            }
            let want_unlock = match &entry.restriction {
                Restriction::Static { unlock } => crate::config::any_window_contains(unlock, now),
                Restriction::Dynamic { period, .. } => {
                    match self.last_unlocked.get(name.as_str()) {
                        None => true,
                        Some(last) => (now.secs as i128) < (*last as i128) + (*period as i128)
                            * 60,
                    }
                },
            };
            proof {
                assert(want_unlock == spec_desired_unlocked(self.model(), name@, *entry, *now));
            }
            if want_unlock {
                match self.unlock(name.as_str(), entry, &config.after_unlock, now, hosts) {
                    Ok(eff) => {
                        if eff.changed {
                            changed = true;
                        }
                        match eff.trigger {
                            Some(t) => {
                                triggers.push(t);
                                proof {
                                    assert(triggers@.map_values(|t: Trigger| (t.cmd@, t.name@))
                                        =~= tv0.push((triggers@.last().cmd@, triggers@.last().name@)));
                                }
                            },
                            None => {},
                        }
                    },
                    Err(e) => {
                        failures.push(UpdateFailure { name: name.clone(), error: e });
                        proof {
                            assert(failures@.map_values(|f: UpdateFailure| f.name@) =~= fv0.push(
                                name@,
                            ));
                        }
                    },
                }
            } else {
                let eff = self.lock(name.as_str(), entry, &config.after_lock, now, hosts);
                if eff.changed {
                    changed = true;
                }
                match eff.trigger {
                    Some(t) => {
                        triggers.push(t);
                        proof {
                            assert(triggers@.map_values(|t: Trigger| (t.cmd@, t.name@)) =~= tv0.push(
                                (triggers@.last().cmd@, triggers@.last().name@),
                            ));
                        }
                    },
                    None => {},
                }
            }
            i = i + 1;
        }
        proof {
            assert(entries.skip(n as int) =~= Seq::<(Seq<char>, Entry)>::empty());
        }
        UpdateReport { changed, triggers, failures }
    }

    /// Answers an unlock request: on success, or when the entry was
    /// already unlocked, the most recent lock time; on a cooldown
    /// rejection, the cause and the most recent unlock time.  A request
    /// never fails the engine itself.
    pub fn request_unlock(
        &mut self,
        name: &str,
        entry: &Entry,
        after_unlock: &Option<String>,
        now: &LocalTime,
        hosts: &mut Hosts,
    ) -> (r: (UnlockResponse, Effects))
        requires
            old(self).wf(),
            old(hosts).wf(),
        ensures
            final(self).wf(),
            final(hosts).wf(),
            final(self).domain_pairs() == old(self).domain_pairs(),
            final(hosts).index_info() == old(hosts).index_info(),
            if !spec_already_unlocked(old(self).model(), name@) && spec_cooldown_active(
                old(self).model(),
                name@,
                *entry,
                *now,
            ) {
                &&& r.0 matches UnlockResponse::Fail { cause, unlocked_at } && cause@
                    == "Not have been cool down yet"@ && unlocked_at == spec_stamp(
                    old(self).model().last_unlocked,
                    name@,
                )
                &&& final(self).model() == old(self).model()
                &&& *final(hosts) == *old(hosts)
                &&& r.1.changed == false && r.1.trigger is None
            } else {
                &&& r.0 matches UnlockResponse::Success { locked_at } && locked_at == spec_stamp(
                    old(self).model().last_locked,
                    name@,
                )
                &&& if spec_already_unlocked(old(self).model(), name@) {
                    final(self).model() == old(self).model() && *final(hosts) == *old(hosts)
                        && r.1.changed == false && r.1.trigger is None
                } else {
                    &&& final(self).model() == spec_apply_unlock(
                        old(self).model(),
                        name@,
                        *entry,
                        *now,
                    )
                    &&& (final(hosts).lines_view(), r.1.changed) == spec_commit_rec(
                        final(self).model(),
                        old(self).domain_pairs(),
                        old(hosts).index_info(),
                        old(hosts).lines_view(),
                        false,
                    )
                    &&& match after_unlock {
                        Some(cmd) => r.1.trigger matches Some(t) && t.cmd@ == cmd@ && t.name@
                            == name@,
                        None => r.1.trigger is None,
                    }
                }
            },
    {
        let locked_at = match self.last_locked.get(name) {
            Some(v) => Some(*v),
            None => None,
        };
        let unlocked_at = match self.last_unlocked.get(name) {
            Some(v) => Some(*v),
            None => None,
        };
        match self.unlock(name, entry, after_unlock, now, hosts) {
            Ok(eff) => (UnlockResponse::Success { locked_at }, eff),
            Err(_) => (
                UnlockResponse::Fail {
                    cause: "Not have been cool down yet".to_owned(),
                    unlocked_at,
                },
                Effects { changed: false, trigger: None },
            ),
        }
    }
}

/// The viewed pairs of a domain index container.
pub open spec fn viewed_pairs(ps: Seq<(Seq<char>, String)>) -> Seq<(Seq<char>, Seq<char>)> {
    ps.map_values(|p: (Seq<char>, String)| (p.0, p.1@))
}

/// The denoted map of a name-valued container, with names viewed.
pub open spec fn viewed_map(m: Map<Seq<char>, String>) -> Map<Seq<char>, Seq<char>> {
    m.map_values(|v: String| v@)
}

/// Reading the pairs as a map commutes with viewing the names.
proof fn lemma_viewed_pairs_to_map(ps: Seq<(Seq<char>, String)>)
    ensures
        pairs_to_map(viewed_pairs(ps)) =~= viewed_map(pairs_to_map(ps)),
    decreases ps.len(),
{
    if ps.len() == 0 {
        assert(viewed_pairs(ps) =~= Seq::<(Seq<char>, Seq<char>)>::empty());
        assert(pairs_to_map(viewed_pairs(ps)) =~= viewed_map(pairs_to_map(ps)));
    } else {
        assert(viewed_pairs(ps).drop_last() =~= viewed_pairs(ps.drop_last()));
        lemma_viewed_pairs_to_map(ps.drop_last());
        assert(viewed_pairs(ps).last() == (ps.last().0, ps.last().1@));
        assert(pairs_to_map(viewed_pairs(ps)) == pairs_to_map(viewed_pairs(ps.drop_last())).insert(
            ps.last().0,
            ps.last().1@,
        ));
        assert(pairs_to_map(ps) == pairs_to_map(ps.drop_last()).insert(ps.last().0, ps.last().1));
        assert(pairs_to_map(viewed_pairs(ps)) =~= viewed_map(pairs_to_map(ps)));
    }
}

/// Builds the domain index of a configuration: for each entry in order,
/// each of its domains maps to the entry's name, later writes winning.
fn build_domain_index(config: &Config) -> (dm: StrMap<String>)
    requires
        config.wf(),
    ensures
        dm.wf(),
        forall|k: int| 0 <= k < dm@.len() ==> valid_token((#[trigger] dm@[k]).0),
        pairs_to_map(viewed_pairs(dm@)) == spec_domain_index(config.entries@),
{
    let mut dm: StrMap<String> = StrMap::new();
    let n = config.entries.len();
    let mut i: usize = 0;
    proof {
        assert(viewed_map(dm.as_map()) =~= Map::<Seq<char>, Seq<char>>::empty());
        assert(config.entries@.subrange(0, n as int) =~= config.entries@);
    }
    while i < n
        invariant
            i <= n,
            n == config.entries@.len(),
            config.wf(),
            dm.wf(),
            forall|k: int| 0 <= k < dm@.len() ==> valid_token((#[trigger] dm@[k]).0),
            spec_domain_index_rec(
                viewed_map(dm.as_map()),
                config.entries@.subrange(i as int, n as int),
            ) == spec_domain_index(config.entries@),
        decreases n - i,
    {
        let ghost pre_entries = config.entries@.subrange(i as int, n as int);
        let p = config.entries.pair_at(i);
        let name: &String = p.0;
        let entry: &Entry = p.1;
        let ghost ds = entry.domains@.map_values(|d: String| d@);
        let ghost dmv0 = viewed_map(dm.as_map());
        proof {
            assert(config.entries@[i as int].1.wf());
            assert(pre_entries.first() == config.entries@[i as int]);
            assert(pre_entries.drop_first() =~= config.entries@.subrange(i as int + 1, n as int));
            assert(ds.subrange(0, ds.len() as int) =~= ds);
        }
        let m = entry.domains.len();
        let mut j: usize = 0;
        while j < m
            invariant
                j <= m,
                m == entry.domains@.len(),
                ds == entry.domains@.map_values(|d: String| d@),
                entry.wf(),
                name@ == config.entries@[i as int].0,
                dm.wf(),
                forall|k: int| 0 <= k < dm@.len() ==> valid_token((#[trigger] dm@[k]).0),
                spec_insert_domains(
                    viewed_map(dm.as_map()),
                    name@,
                    ds.subrange(j as int, m as int),
                ) == spec_insert_domains(dmv0, name@, ds),
            decreases m - j,
        {
            let ghost rest = ds.subrange(j as int, m as int);
            let ghost pre_map = viewed_map(dm.as_map());
            let d = &entry.domains[j];
            proof {
                assert(valid_token(d@));
                assert(rest.first() == ds[j as int]);
                assert(ds[j as int] == d@);
                assert(rest.drop_first() =~= ds.subrange(j as int + 1, m as int));
            }
            let owner = name.clone();
            dm.set(d.as_str(), owner);
            proof {
                assert(viewed_map(dm.as_map()) =~= pre_map.insert(d@, name@));
                assert(spec_insert_domains(pre_map, name@, rest) == spec_insert_domains(
                    pre_map.insert(d@, name@),
                    name@,
                    rest.drop_first(),
                ));
            }
            j = j + 1;
        }
        proof {
            assert(ds.subrange(m as int, m as int) =~= Seq::<Seq<char>>::empty());
        }
        i = i + 1;
    }
    proof {
        assert(config.entries@.subrange(n as int, n as int) =~= Seq::<(Seq<char>, Entry)>::empty());
        lemma_viewed_pairs_to_map(dm@);
        assert(dm.as_map() == pairs_to_map(dm@));
    }
    dm
}

} // verus!