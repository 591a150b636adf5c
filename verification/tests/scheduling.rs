use ci_master::cap::CapSet;
use ci_master::master::Master;
use ci_master::message::Request;
use ci_master::registry::SlaveId;

fn caps(tokens: &[&str]) -> CapSet {
    let mut v: Vec<String> = Vec::new();
    for t in tokens {
        v.push(t.to_string());
    }
    CapSet::from_tokens(v)
}

fn idle(m: &mut Master, id: SlaveId, tokens: &[&str]) {
    let r = m.handle_message(id, Some(Request::IDLE(caps(tokens))));
    assert!(r.is_none());
}

#[test]
fn best_fit_prefers_fewest_capabilities() {
    let mut m = Master::new();
    let s1 = SlaveId([1, 1, 1, 1, 1]);
    let s2 = SlaveId([2, 2, 2, 2, 2]);
    idle(&mut m, s1, &["amd64"]);
    idle(&mut m, s2, &["amd64", "gpu"]);
    assert_eq!(m.findIdleSlave(&caps(&["amd64"])), Some(s1));
    assert_eq!(m.findIdleSlave(&caps(&["gpu"])), Some(s2));
    assert_eq!(m.findIdleSlave(&caps(&["amd64", "gpu"])), Some(s2));
    assert_eq!(m.findIdleSlave(&caps(&["arm"])), None);
}

#[test]
fn selection_requires_a_superset() {
    let mut m = Master::new();
    let s1 = SlaveId([9, 0, 0, 0, 0]);
    idle(&mut m, s1, &["amd64", "docker"]);
    assert_eq!(m.findIdleSlave(&caps(&["amd64", "docker", "gpu"])), None);
    assert_eq!(m.findIdleSlave(&caps(&["docker"])), Some(s1));
}

#[test]
fn empty_requirement_matches_any_idle_slave() {
    let mut m = Master::new();
    assert_eq!(m.findIdleSlave(&CapSet::empty()), None);
    let s1 = SlaveId([7, 7, 7, 7, 7]);
    idle(&mut m, s1, &["arm"]);
    assert_eq!(m.findIdleSlave(&CapSet::empty()), Some(s1));
}

#[test]
fn tie_break_is_deterministic_by_identity() {
    let lo = SlaveId([1, 0, 0, 0, 0]);
    let hi = SlaveId([1, 0, 0, 0, 1]);

    let mut m1 = Master::new();
    idle(&mut m1, lo, &["amd64"]);
    idle(&mut m1, hi, &["amd64"]);

    let mut m2 = Master::new();
    idle(&mut m2, hi, &["amd64"]);
    idle(&mut m2, lo, &["amd64"]);

    let want = caps(&["amd64"]);
    let first = m1.findIdleSlave(&want);
    for _ in 0..5 {
        assert_eq!(m1.findIdleSlave(&want), first);
        assert_eq!(m2.findIdleSlave(&want), first);
    }
    assert_eq!(first, Some(lo));
}

#[test]
fn selection_ignores_dispatched_slaves() {
    let mut m = Master::new();
    let s1 = SlaveId([1, 0, 0, 0, 0]);
    idle(&mut m, s1, &["amd64"]);
    let d = m.submit(ci_master::message::PendingCommand {
        required: caps(&["amd64"]),
        payload: "make".to_string(),
    });
    assert!(d.is_some());
    assert_eq!(m.findIdleSlave(&caps(&["amd64"])), None);
}
