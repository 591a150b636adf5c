use ci_master::cap::CapSet;
use ci_master::master::Master;
use ci_master::message::PendingCommand;
use ci_master::message::Request;
use ci_master::message::Response;
use ci_master::registry::SlaveId;
use ci_master::registry::SlaveRegistry;
use ci_master::registry::SlaveState;

fn caps(tokens: &[&str]) -> CapSet {
    let mut v: Vec<String> = Vec::new();
    for t in tokens {
        v.push(t.to_string());
    }
    CapSet::from_tokens(v)
}

fn command(tokens: &[&str], payload: &str) -> PendingCommand {
    PendingCommand { required: caps(tokens), payload: payload.to_string() }
}

#[test]
fn end_to_end_best_fit_scenario() {
    let mut m = Master::new();
    let s1 = SlaveId([1, 0, 0, 0, 0]);
    let s2 = SlaveId([2, 0, 0, 0, 0]);
    assert!(m.handle_message(s1, Some(Request::IDLE(caps(&["amd64"])))).is_none());
    assert!(m.handle_message(s2, Some(Request::IDLE(caps(&["amd64", "gpu"])))).is_none());

    let d = m.submit(command(&["amd64"], "run build")).expect("a slave qualifies");
    assert_eq!(d.to, s1);
    assert_eq!(d.response, Response::COMMAND);
    assert_eq!(d.command.payload, "run build");
    assert_eq!(m.slave_state(&s1), Some(SlaveState::Dispatched));
    assert_eq!(m.slave_state(&s2), Some(SlaveState::Idle));
    assert_eq!(m.pending_count(), 0);
}

#[test]
fn unmatched_command_waits_then_dispatches_eagerly() {
    let mut m = Master::new();
    let s1 = SlaveId([1, 0, 0, 0, 0]);
    assert!(m.handle_message(s1, Some(Request::IDLE(caps(&["amd64"])))).is_none());

    let d = m.submit(command(&["arm"], "cross build"));
    assert!(d.is_none());
    assert_eq!(m.pending_count(), 1);
    assert_eq!(m.slave_state(&s1), Some(SlaveState::Idle));

    let s2 = SlaveId([2, 0, 0, 0, 0]);
    let d2 = m
        .handle_message(s2, Some(Request::IDLE(caps(&["arm", "docker"]))))
        .expect("the queued command now has a qualifying slave");
    assert_eq!(d2.to, s2);
    assert_eq!(d2.response, Response::COMMAND);
    assert_eq!(d2.command.payload, "cross build");
    assert_eq!(m.pending_count(), 0);
    assert_eq!(m.slave_state(&s2), Some(SlaveState::Dispatched));
}

#[test]
fn rejected_message_changes_nothing_and_answers_nothing() {
    let mut m = Master::new();
    let s1 = SlaveId([1, 0, 0, 0, 0]);
    assert!(m.handle_message(s1, Some(Request::IDLE(caps(&["amd64"])))).is_none());
    assert!(m.submit(command(&["arm"], "queued")).is_none());

    let stranger = SlaveId([9, 9, 9, 9, 9]);
    assert!(m.handle_message(stranger, None).is_none());
    assert!(m.handle_message(s1, None).is_none());

    assert_eq!(m.slave_state(&stranger), None);
    assert_eq!(m.slave_state(&s1), Some(SlaveState::Idle));
    assert_eq!(m.pending_count(), 1);
}

#[test]
fn eager_dispatch_takes_the_oldest_matching_command() {
    let mut m = Master::new();
    assert!(m.submit(command(&["arm"], "first")).is_none());
    assert!(m.submit(command(&["arm"], "second")).is_none());
    assert_eq!(m.pending_count(), 2);

    let s = SlaveId([3, 0, 0, 0, 0]);
    let d = m.handle_message(s, Some(Request::IDLE(caps(&["arm"])))).expect("a match exists");
    assert_eq!(d.command.payload, "first");
    assert_eq!(m.pending_count(), 1);
    assert_eq!(m.slave_state(&s), Some(SlaveState::Dispatched));
}

#[test]
fn dispatched_slave_returns_to_idle_on_next_idle_message() {
    let mut m = Master::new();
    let s = SlaveId([4, 0, 0, 0, 0]);
    assert!(m.handle_message(s, Some(Request::IDLE(caps(&["amd64"])))).is_none());
    assert!(m.submit(command(&["amd64"], "build")).is_some());
    assert_eq!(m.slave_state(&s), Some(SlaveState::Dispatched));

    assert!(m.handle_message(s, Some(Request::IDLE(caps(&["amd64"])))).is_none());
    assert_eq!(m.slave_state(&s), Some(SlaveState::Idle));
}

#[test]
fn idle_message_overwrites_declared_capabilities() {
    let mut m = Master::new();
    let s = SlaveId([5, 0, 0, 0, 0]);
    assert!(m.handle_message(s, Some(Request::IDLE(caps(&["amd64"])))).is_none());
    assert_eq!(m.findIdleSlave(&caps(&["gpu"])), None);
    assert!(m.handle_message(s, Some(Request::IDLE(caps(&["amd64", "gpu"])))).is_none());
    assert_eq!(m.findIdleSlave(&caps(&["gpu"])), Some(s));
}

#[test]
fn disconnect_removes_the_slave() {
    let mut m = Master::new();
    let s = SlaveId([6, 0, 0, 0, 0]);
    assert!(m.handle_message(s, Some(Request::IDLE(caps(&["amd64"])))).is_none());
    m.on_disconnect(s);
    assert_eq!(m.slave_state(&s), None);
    assert_eq!(m.findIdleSlave(&caps(&["amd64"])), None);
}

#[test]
fn double_dispatch_is_a_detected_defect() {
    let mut reg = SlaveRegistry::new();
    let s = SlaveId([7, 0, 0, 0, 0]);
    assert!(!reg.mark_dispatched(s));
    reg.mark_idle(s, caps(&["amd64"]));
    assert!(reg.mark_dispatched(s));
    assert!(!reg.mark_dispatched(s));
    assert_eq!(reg.state_of(&s), Some(SlaveState::Dispatched));
}

#[test]
fn registry_lists_exactly_the_idle_slaves() {
    let mut reg = SlaveRegistry::new();
    let s1 = SlaveId([1, 0, 0, 0, 0]);
    let s2 = SlaveId([2, 0, 0, 0, 0]);
    reg.mark_idle(s1, caps(&["amd64"]));
    reg.mark_idle(s2, caps(&["arm"]));
    assert!(reg.mark_dispatched(s1));
    let ids = reg.idle_ids();
    assert_eq!(ids, vec![s2]);
}
