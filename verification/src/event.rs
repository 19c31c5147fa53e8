//! The coordinator's decisions: what one event loop iteration does to
//! the state, the block-list document, and the outside world.
//!
//! The surrounding program owns the actual event sources and the I/O: it
//! reads the block-list text before a step, and afterwards performs
//! exactly what the outcome asks — writes the document, persists the
//! state, sends the response, fires the triggers, or exits.

use vstd::prelude::*;
use crate::LocalTime;
use crate::codec;
use crate::codec::spec_encode_response;
use crate::codec::spec_encode_state;
use crate::config::Config;
use crate::hosts::Hosts;
use crate::hosts::spec_join_lines;
use crate::hosts::spec_parse_index;
use crate::hosts::spec_split_lines;
use crate::message::ResponseModel;
use crate::message::UnlockResponse;
use crate::state::State;
use crate::state::Trigger;
use crate::state::UpdateFailure;
use crate::state::spec_already_unlocked;
use crate::state::spec_apply_unlock;
use crate::state::spec_commit_rec;
use crate::state::spec_cooldown_active;
use crate::state::spec_stamp;
use crate::state::spec_update_rec;

verus! {

/// One event the loop can be woken by.
pub enum LoopEvent {
    /// The periodic re-evaluation timer fired.
    Tick,
    /// The block-list file was modified from outside.
    HostsModified,
    /// A client asked to unlock the named entry.
    UnlockRequest { name: String },
    /// The process was asked to shut down.
    Shutdown,
}

/// What the caller must do after a step.
pub struct StepOutcome {
    /// The new block-list text, present exactly when a line changed.
    pub write_hosts: Option<String>,
    /// The state blob to persist, present when the document was written
    /// or the loop is shutting down.
    pub persist: Option<Vec<u8>>,
    /// The encoded response to send back over the requesting connection.
    pub response: Option<Vec<u8>>,
    /// External triggers to fire, in order.
    pub triggers: Vec<Trigger>,
    /// Entries whose transition was refused, for logging.
    pub failures: Vec<UpdateFailure>,
    /// Whether the loop terminates after this step.
    pub exit: bool,
}

/// Handles one event: re-evaluates on a tick, re-syncs on an external
/// edit, answers an unlock request (an unknown name gets a failure
/// response and changes nothing), and prepares persistence on shutdown.
pub fn step(state: &mut State, config: &Config, event: LoopEvent, now: &LocalTime,
    hosts_text: String) -> (r: StepOutcome)
    requires
        old(state).wf(),
        config.wf(),
    ensures
        final(state).wf(),
        final(state).domain_pairs() == old(state).domain_pairs(),
        match event {
            LoopEvent::Shutdown => {
                &&& r.exit == true
                &&& *final(state) == *old(state)
                &&& r.persist matches Some(b) && b@ == spec_encode_state(
                    old(state).lu_pairs(),
                    old(state).ll_pairs(),
                    old(state).il_pairs(),
                )
                &&& r.write_hosts is None && r.response is None
                &&& r.triggers@.len() == 0 && r.failures@.len() == 0
            },
            LoopEvent::Tick => {
                let lines = spec_split_lines(hosts_text@);
                let u = spec_update_rec(
                    old(state).model(),
                    config.entries@,
                    match config.after_lock {
                        Some(c) => Some(c@),
                        None => None,
                    },
                    match config.after_unlock {
                        Some(c) => Some(c@),
                        None => None,
                    },
                    *now,
                    old(state).domain_pairs(),
                    lines,
                    false,
                    Seq::empty(),
                    Seq::empty(),
                );
                &&& r.exit == false && r.response is None
                &&& final(state).model() == u.state
                &&& (match r.write_hosts {
                    Some(t) => u.changed && t@ == spec_join_lines(u.lines),
                    None => !u.changed,
                })
                &&& (match r.persist {
                    Some(b) => u.changed && b@ == spec_encode_state(
                        final(state).lu_pairs(),
                        final(state).ll_pairs(),
                        final(state).il_pairs(),
                    ),
                    None => !u.changed,
                })
                &&& r.triggers@.map_values(|t: Trigger| (t.cmd@, t.name@)) == u.triggers
                &&& r.failures@.map_values(|f: UpdateFailure| f.name@) == u.failures
            },
            LoopEvent::HostsModified => {
                let lines = spec_split_lines(hosts_text@);
                let c = spec_commit_rec(
                    old(state).model(),
                    old(state).domain_pairs(),
                    spec_parse_index(lines),
                    lines,
                    false,
                );
                &&& r.exit == false && r.response is None
                &&& *final(state) == *old(state)
                &&& (match r.write_hosts {
                    Some(t) => c.1 && t@ == spec_join_lines(c.0),
                    None => !c.1,
                })
                &&& (match r.persist {
                    Some(b) => c.1 && b@ == spec_encode_state(
                        old(state).lu_pairs(),
                        old(state).ll_pairs(),
                        old(state).il_pairs(),
                    ),
                    None => !c.1,
                })
                &&& r.triggers@.len() == 0 && r.failures@.len() == 0
            },
            LoopEvent::UnlockRequest { name } => {
                &&& r.exit == false && r.failures@.len() == 0
                &&& if !config.entries.as_map().contains_key(name@) {
                    &&& *final(state) == *old(state)
                    &&& r.response matches Some(b) && b@ == spec_encode_response(
                        ResponseModel::Fail { cause: "unknown entry"@, unlocked_at: None },
                    )
                    &&& r.write_hosts is None && r.persist is None && r.triggers@.len() == 0
                } else {
                    let entry = config.entries.as_map()[name@];
                    let lines = spec_split_lines(hosts_text@);
                    if !spec_already_unlocked(old(state).model(), name@) && spec_cooldown_active(
                        old(state).model(),
                        name@,
                        entry,
                        *now,
                    ) {
                        &&& final(state).model() == old(state).model()
                        &&& r.response matches Some(b) && b@ == spec_encode_response(
                            ResponseModel::Fail {
                                cause: "Not have been cool down yet"@,
                                unlocked_at: spec_stamp(old(state).model().last_unlocked, name@),
                            },
                        )
                        &&& r.write_hosts is None && r.persist is None && r.triggers@.len() == 0
                    } else {
                        &&& r.response matches Some(b) && b@ == spec_encode_response(
                            ResponseModel::Success {
                                locked_at: spec_stamp(old(state).model().last_locked, name@),
                            },
                        )
                        &&& if spec_already_unlocked(old(state).model(), name@) {
                            &&& final(state).model() == old(state).model()
                            &&& r.write_hosts is None && r.persist is None && r.triggers@.len()
                                == 0
                        } else {
                            let m1 = spec_apply_unlock(old(state).model(), name@, entry, *now);
                            let c = spec_commit_rec(
                                m1,
                                old(state).domain_pairs(),
                                spec_parse_index(lines),
                                lines,
                                false,
                            );
                            &&& final(state).model() == m1
                            &&& (match r.write_hosts {
                                Some(t) => c.1 && t@ == spec_join_lines(c.0),
                                None => !c.1,
                            })
                            &&& (match r.persist {
                                Some(b) => c.1 && b@ == spec_encode_state(
                                    final(state).lu_pairs(),
                                    final(state).ll_pairs(),
                                    final(state).il_pairs(),
                                ),
                                None => !c.1,
                            })
                            &&& (match config.after_unlock {
                                Some(cmd) => r.triggers@.len() == 1 && r.triggers@[0].cmd@ == cmd@
                                    && r.triggers@[0].name@ == name@,
                                None => r.triggers@.len() == 0,
                            })
                        }
                    }
                }
            },
        },
{
    match event {
        LoopEvent::Shutdown => StepOutcome {
            write_hosts: None,
            persist: Some(state.export()),
            response: None,
            triggers: Vec::new(),
            failures: Vec::new(),
            exit: true,
        },
        LoopEvent::Tick => {
            let mut hosts = Hosts::parse(hosts_text);
            let rep = state.update(config, now, &mut hosts);
            let write_hosts = if rep.changed {
                Some(hosts.export())
            } else {
                None
            };
            let persist = if rep.changed {
                Some(state.export())
            } else {
                None
            };
            StepOutcome {
                write_hosts,
                persist,
                response: None,
                triggers: rep.triggers,
                failures: rep.failures,
                exit: false,
            }
        },
        LoopEvent::HostsModified => {
            let mut hosts = Hosts::parse(hosts_text);
            let changed = state.commit(&mut hosts);
            let write_hosts = if changed {
                Some(hosts.export())
            } else {
                None
            };
            let persist = if changed {
                Some(state.export())
            } else {
                None
            };
            StepOutcome {
                write_hosts,
                persist,
                response: None,
                triggers: Vec::new(),
                failures: Vec::new(),
                exit: false,
            }
        },
        LoopEvent::UnlockRequest { name } => {
            match config.entries.get(name.as_str()) {
                None => {
                    let resp = UnlockResponse::Fail {
                        cause: "unknown entry".to_owned(),
                        unlocked_at: None,
                    };
                    StepOutcome {
                        write_hosts: None,
                        persist: None,
                        response: Some(codec::encode_response(&resp)),
                        triggers: Vec::new(),
                        failures: Vec::new(),
                        exit: false,
                    }
                },
                Some(entry) => {
                    let mut hosts = Hosts::parse(hosts_text);
                    let (resp, eff) = state.request_unlock(
                        name.as_str(),
                        entry,
                        &config.after_unlock,
                        now,
                        &mut hosts,
                    );
                    let write_hosts = if eff.changed {
                        Some(hosts.export())
                    } else {
                        None
                    };
                    let persist = if eff.changed {
                        Some(state.export())
                    } else {
                        None
                    };
                    let mut triggers: Vec<Trigger> = Vec::new();
                    match eff.trigger {
                        Some(t) => {
                            triggers.push(t);
                        },
                        None => {},
                    }
                    StepOutcome {
                        write_hosts,
                        persist,
                        response: Some(codec::encode_response(&resp)),
                        triggers,
                        failures: Vec::new(),
                        exit: false,
                    }
                },
            }
        },
    }
}

} // verus!
