use metacache::entry::Entry;
use metacache::list::{list_path, ListOptions};
use metacache::merge::{DiskError, DiskStream, MergeEvent, MergeOutcome, MergeState};
use metacache::tree::{Child, Node};

fn obj(name: &str, meta: &[u8]) -> Child {
    Child { name: name.as_bytes().to_vec(), node: Node::Object { meta: meta.to_vec() } }
}

fn root(children: Vec<Child>) -> Node {
    Node::Branch { children }
}

fn opts(min_disks: usize) -> ListOptions {
    ListOptions { recursive: true, min_disks, per_disk_limit: -1, filter_prefix: None, cursor: None }
}

fn event_name(ev: &MergeEvent) -> String {
    match ev {
        MergeEvent::Agreed { entry } => String::from_utf8(entry.name.clone()).unwrap(),
        MergeEvent::Partial { name, .. } => String::from_utf8(name.clone()).unwrap(),
    }
}

fn entry(name: &[u8], metadata: Option<&[u8]>) -> Entry {
    Entry { name: name.to_vec(), metadata: metadata.map(|m| m.to_vec()) }
}

fn stream(names: &[&str], broken: bool) -> DiskStream {
    let entries = names.iter().map(|n| entry(n.as_bytes(), Some(b"m"))).collect();
    DiskStream { entries, pos: 0, broken }
}

// Disk A holds {a, b, c}, disk B holds {a, b, d}.
fn two_disks() -> Vec<Option<Node>> {
    let a = root(vec![obj("a", b"m"), obj("b", b"m"), obj("c", b"m")]);
    let b = root(vec![obj("a", b"m"), obj("b", b"m"), obj("d", b"m")]);
    vec![Some(a), Some(b)]
}

#[test]
fn quorum_of_one_agrees_on_everything() {
    let disks = two_disks();
    let (events, outcome) = list_path(&disks, &vec![], &opts(1));
    assert_eq!(outcome, MergeOutcome::Success);
    let mut seen = Vec::new();
    for ev in &events {
        match ev {
            MergeEvent::Agreed { entry } => seen.push(String::from_utf8(entry.name.clone()).unwrap()),
            MergeEvent::Partial { .. } => panic!("no partial event expected with min_disks = 1"),
        }
    }
    assert_eq!(seen, vec!["a", "b", "c", "d"]);
}

#[test]
fn quorum_of_two_downgrades_single_reports_to_partial() {
    let disks = two_disks();
    let (events, outcome) = list_path(&disks, &vec![], &opts(2));
    assert_eq!(outcome, MergeOutcome::Success);
    assert_eq!(events.len(), 4);
    let kinds: Vec<(String, bool)> =
        events.iter().map(|e| (event_name(e), matches!(e, MergeEvent::Agreed { .. }))).collect();
    assert_eq!(
        kinds,
        vec![
            ("a".to_string(), true),
            ("b".to_string(), true),
            ("c".to_string(), false),
            ("d".to_string(), false),
        ]
    );
    match &events[2] {
        MergeEvent::Partial { per_disk, .. } => {
            assert!(per_disk[0].is_some());
            assert!(per_disk[1].is_none());
        },
        _ => panic!("c must be partial"),
    }
    match &events[3] {
        MergeEvent::Partial { per_disk, .. } => {
            assert!(per_disk[0].is_none());
            assert!(per_disk[1].is_some());
        },
        _ => panic!("d must be partial"),
    }
}

#[test]
fn identical_disks_agree_on_every_object() {
    let mk = || root(vec![obj("x", b"1"), obj("y", b"2"), obj("z", b"3")]);
    let disks = vec![Some(mk()), Some(mk()), Some(mk())];
    let (events, outcome) = list_path(&disks, &vec![], &opts(3));
    assert_eq!(outcome, MergeOutcome::Success);
    assert_eq!(events.len(), 3);
    for ev in &events {
        assert!(matches!(ev, MergeEvent::Agreed { .. }));
    }
}

#[test]
fn one_divergent_disk_loses_to_the_majority() {
    let good = || root(vec![obj("a", b"good")]);
    let bad = root(vec![obj("a", b"corrupt")]);
    let disks = vec![Some(good()), Some(bad), Some(good())];
    let (events, outcome) = list_path(&disks, &vec![], &opts(2));
    assert_eq!(outcome, MergeOutcome::Success);
    assert_eq!(events.len(), 1);
    match &events[0] {
        MergeEvent::Agreed { entry } => {
            assert_eq!(entry.name, b"a".to_vec());
            assert_eq!(entry.metadata, Some(b"good".to_vec()));
        },
        _ => panic!("the majority payload must win"),
    }
}

#[test]
fn even_split_without_quorum_is_partial_with_all_raw_values() {
    let one = root(vec![obj("a", b"v1")]);
    let two = root(vec![obj("a", b"v2")]);
    let disks = vec![Some(one), Some(two)];
    let (events, outcome) = list_path(&disks, &vec![], &opts(2));
    assert_eq!(outcome, MergeOutcome::Success);
    assert_eq!(events.len(), 1);
    match &events[0] {
        MergeEvent::Partial { name, per_disk, .. } => {
            assert_eq!(name, &b"a".to_vec());
            assert_eq!(per_disk.len(), 2);
            assert_eq!(per_disk[0].as_ref().unwrap().metadata, Some(b"v1".to_vec()));
            assert_eq!(per_disk[1].as_ref().unwrap().metadata, Some(b"v2".to_vec()));
        },
        _ => panic!("an even split below quorum must be partial"),
    }
}

#[test]
fn quorum_unmet_fails_before_any_event() {
    let disks = vec![Some(root(vec![obj("a", b"m")])), None];
    let (events, outcome) = list_path(&disks, &vec![], &opts(2));
    assert_eq!(outcome, MergeOutcome::QuorumUnmet);
    assert!(events.is_empty());
}

#[test]
fn fallback_disks_fill_in_for_missing_primaries() {
    let primary = vec![Some(root(vec![obj("a", b"m")])), None];
    let fallback = vec![None, Some(root(vec![obj("a", b"m")]))];
    let (events, outcome) = list_path(&primary, &fallback, &opts(2));
    assert_eq!(outcome, MergeOutcome::Success);
    assert_eq!(events.len(), 1);
    assert!(matches!(&events[0], MergeEvent::Agreed { .. }));
}

#[test]
fn per_disk_limit_zero_takes_nothing() {
    let disks = two_disks();
    let mut o = opts(1);
    o.per_disk_limit = 0;
    let (events, outcome) = list_path(&disks, &vec![], &o);
    assert_eq!(outcome, MergeOutcome::Success);
    assert!(events.is_empty());
}

#[test]
fn per_disk_limit_caps_each_disk() {
    let disks = two_disks();
    let mut o = opts(1);
    o.per_disk_limit = 2;
    let (events, _) = list_path(&disks, &vec![], &o);
    // Each disk contributes only {a, b}.
    let seen: Vec<String> = events.iter().map(event_name).collect();
    assert_eq!(seen, vec!["a", "b"]);
}

#[test]
fn filter_prefix_keeps_only_matching_names() {
    let t = root(vec![obj("log1", b"m"), obj("tmp1", b"m"), obj("tmp2", b"m")]);
    let disks = vec![Some(t)];
    let mut o = opts(1);
    o.filter_prefix = Some(b"tmp".to_vec());
    let (events, _) = list_path(&disks, &vec![], &o);
    let seen: Vec<String> = events.iter().map(event_name).collect();
    assert_eq!(seen, vec!["tmp1", "tmp2"]);
}

#[test]
fn cursor_resumes_consistently_across_disks() {
    let disks = two_disks();
    let mut o = opts(1);
    o.cursor = Some(b"b".to_vec());
    let (events, _) = list_path(&disks, &vec![], &o);
    let seen: Vec<String> = events.iter().map(event_name).collect();
    assert_eq!(seen, vec!["c", "d"]);
}

#[test]
fn cancel_halts_further_events_and_reports_cancelled() {
    let streams = vec![stream(&["a", "b", "c"], false), stream(&["a", "b", "c"], false)];
    let mut engine = MergeState::new(streams, 2);
    assert!(engine.step());
    let emitted = engine.events.len();
    assert_eq!(emitted, 1);
    engine.cancel();
    assert!(!engine.step());
    assert!(!engine.step());
    assert_eq!(engine.events.len(), emitted);
    assert_eq!(engine.finish(), MergeOutcome::Cancelled);
}

#[test]
fn run_without_cancel_finishes_successfully() {
    let streams = vec![stream(&["a", "b"], false), stream(&["a", "b"], false)];
    let mut engine = MergeState::new(streams, 2);
    engine.run();
    assert_eq!(engine.finish(), MergeOutcome::Success);
    assert_eq!(engine.events.len(), 2);
}

#[test]
fn broken_stream_is_recorded_once_exhausted() {
    // The broken disk runs out after "a"; when "b" is resolved it can no
    // longer vote and its failure is carried in the partial event.
    let streams = vec![stream(&["a", "b"], false), stream(&["a"], true)];
    let mut engine = MergeState::new(streams, 2);
    engine.run();
    assert_eq!(engine.events.len(), 2);
    assert!(matches!(&engine.events[0], MergeEvent::Agreed { .. }));
    match &engine.events[1] {
        MergeEvent::Partial { name, errors, .. } => {
            assert_eq!(name, &b"b".to_vec());
            assert_eq!(errors[0], None);
            assert_eq!(errors[1], Some(DiskError::Io));
        },
        _ => panic!("b must be partial once the second disk failed"),
    }
}

#[test]
fn events_never_go_backwards_in_name_order() {
    let a = root(vec![obj("k1", b"m"), obj("k3", b"m"), obj("k5", b"m")]);
    let b = root(vec![obj("k2", b"m"), obj("k3", b"x"), obj("k4", b"m")]);
    let (events, _) = list_path(&vec![Some(a), Some(b)], &vec![], &opts(2));
    let seen: Vec<String> = events.iter().map(event_name).collect();
    let mut sorted = seen.clone();
    sorted.sort();
    sorted.dedup();
    assert_eq!(seen, sorted);
    assert_eq!(seen, vec!["k1", "k2", "k3", "k4", "k5"]);
}
