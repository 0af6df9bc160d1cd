use eschaton::state::{State, Tallies};
use eschaton::{HospitalTable, InitStudentOption, Student, TermVacants};

fn named(name: &str) -> Student {
    let mut table = HospitalTable::new([TermVacants::zero(); 6]);
    table.init_student(InitStudentOption {
        name: name.to_string(),
        term1: None,
        term2: None,
        term3: None,
        term4: None,
        term5: None,
        term6: None,
    })
}

fn group(names: &[&str]) -> Vec<Student> {
    names.iter().map(|name| named(name)).collect()
}

fn pairs(state: &State) -> Vec<(String, usize)> {
    let mut pairs = state.fails.entries().clone();
    pairs.sort();
    pairs
}

#[test]
fn statistics_start_at_zero() {
    let state = State::default();
    assert_eq!(state.count, 0);
    assert_eq!(state.success, 0);
    assert!(state.fails.entries().is_empty());
    assert_eq!(state.fails.get("anyone"), 0);
    assert!(Tallies::new().entries().is_empty());
}

#[test]
fn merge_counts_trial_success_and_failures() {
    let mut state = State::default();
    state.merge(Vec::new());
    assert_eq!((state.count, state.success), (1, 1));
    assert!(state.fails.entries().is_empty());
    state.merge(group(&["a", "b"]));
    assert_eq!((state.count, state.success), (2, 1));
    assert_eq!(state.fails.get("a"), 1);
    assert_eq!(state.fails.get("b"), 1);
    assert_eq!(state.fails.get("c"), 0);
    state.merge(group(&["b"]));
    assert_eq!((state.count, state.success), (3, 1));
    assert_eq!(state.fails.get("a"), 1);
    assert_eq!(state.fails.get("b"), 2);
    state.merge(Vec::new());
    assert_eq!((state.count, state.success), (4, 2));
    assert_eq!(
        state.fails.entries(),
        &vec![("a".to_string(), 1), ("b".to_string(), 2)]
    );
}

#[test]
fn merge_counts_a_name_as_often_as_it_comes() {
    let mut state = State::default();
    state.merge(group(&["a", "b", "a"]));
    assert_eq!(state.fails.get("a"), 2);
    assert_eq!(state.fails.get("b"), 1);
    assert_eq!(state.count, 1);
    assert_eq!(state.success, 0);
}

#[test]
fn merge_order_does_not_matter() {
    let outcomes: [&[&str]; 4] = [&["a", "b"], &[], &["c", "a"], &["b"]];
    let mut forward = State::default();
    for names in outcomes.iter() {
        forward.merge(group(names));
    }
    let mut backward = State::default();
    for names in outcomes.iter().rev() {
        backward.merge(group(names));
    }
    assert_eq!(forward.count, backward.count);
    assert_eq!(forward.success, backward.success);
    assert_eq!(pairs(&forward), pairs(&backward));
    assert_eq!(
        pairs(&forward),
        vec![("a".to_string(), 2), ("b".to_string(), 2), ("c".to_string(), 1)]
    );
    assert_eq!((forward.count, forward.success), (4, 1));
}

#[test]
fn record_adds_to_a_tally() {
    let mut tallies = Tallies::new();
    tallies.record("x".to_string(), 3);
    tallies.record("y".to_string(), 0);
    tallies.record("x".to_string(), 4);
    assert_eq!(tallies.get("x"), 7);
    assert_eq!(tallies.get("y"), 0);
    assert_eq!(tallies.get("z"), 0);
    assert_eq!(tallies.entries(), &vec![("x".to_string(), 7), ("y".to_string(), 0)]);
}

#[test]
fn absorb_adds_trials_successes_and_tallies() {
    let mut left = State::default();
    left.merge(group(&["a"]));
    left.merge(Vec::new());
    let mut right = State::default();
    right.merge(group(&["a", "b"]));
    right.merge(Vec::new());
    right.merge(Vec::new());
    left.absorb(&right);
    assert_eq!(left.count, 5);
    assert_eq!(left.success, 3);
    assert_eq!(left.fails.get("a"), 2);
    assert_eq!(left.fails.get("b"), 1);
    assert_eq!(right.count, 3);
    assert_eq!(right.success, 2);
    assert_eq!(right.fails.get("a"), 1);
}

#[test]
fn absorb_gives_what_merging_every_trial_gives() {
    let first: [&[&str]; 3] = [&["a"], &[], &["b", "a"]];
    let second: [&[&str]; 3] = [&[], &["c", "a"], &[]];
    let mut left = State::default();
    let mut all = State::default();
    for names in first.iter() {
        left.merge(group(names));
        all.merge(group(names));
    }
    let mut right = State::default();
    for names in second.iter() {
        right.merge(group(names));
        all.merge(group(names));
    }
    left.absorb(&right);
    assert_eq!((left.count, left.success), (6, 3));
    assert_eq!((left.count, left.success), (all.count, all.success));
    assert_eq!(pairs(&left), pairs(&all));
    let mut empty = State::default();
    empty.absorb(&State::default());
    assert_eq!((empty.count, empty.success), (0, 0));
    assert!(empty.fails.entries().is_empty());
}

#[test]
fn can_merge_sees_the_limits() {
    let mut state = State::default();
    assert!(state.can_merge(&Vec::new()));
    assert!(state.can_merge(&group(&["a", "a"])));
    state.count = usize::MAX;
    assert!(!state.can_merge(&Vec::new()));
    state.count = 0;
    state.success = usize::MAX;
    assert!(!state.can_merge(&Vec::new()));
    assert!(state.can_merge(&group(&["a"])));
    state.success = 0;
    state.fails.record("a".to_string(), usize::MAX - 1);
    assert!(state.can_merge(&group(&["a"])));
    assert!(state.can_merge(&group(&["b", "b", "a"])));
    assert!(!state.can_merge(&group(&["a", "b", "a"])));
}

#[test]
fn cloned_statistics_are_the_same() {
    let mut state = State::default();
    state.merge(group(&["a", "b"]));
    state.merge(group(&["b"]));
    let copy = state.clone();
    assert_eq!(copy.count, 2);
    assert_eq!(copy.success, 0);
    assert_eq!(copy.fails.entries(), state.fails.entries());
}

#[test]
fn restore_records_each_entry() {
    let kept = Tallies::restore(vec![
        ("x".to_string(), 3),
        ("y".to_string(), 0),
        ("x".to_string(), 4),
    ])
    .unwrap();
    assert_eq!(kept.get("x"), 7);
    assert_eq!(kept.get("y"), 0);
    assert_eq!(kept.entries(), &vec![("x".to_string(), 7), ("y".to_string(), 0)]);
    assert!(Tallies::restore(Vec::new()).unwrap().entries().is_empty());
}

#[test]
fn restore_refuses_a_tally_beyond_the_counter() {
    assert!(Tallies::restore(vec![("x".to_string(), usize::MAX), ("x".to_string(), 1)]).is_none());
    assert!(Tallies::restore(vec![("x".to_string(), usize::MAX), ("y".to_string(), 1)]).is_some());
}

#[test]
fn entries_restore_to_the_same_tallies() {
    let mut state = State::default();
    state.merge(group(&["a", "b"]));
    state.merge(group(&["c", "b"]));
    let kept = Tallies::restore(state.fails.entries().clone()).unwrap();
    assert_eq!(kept.entries(), state.fails.entries());
    let mut shuffled = state.fails.entries().clone();
    shuffled.reverse();
    let kept = Tallies::restore(shuffled).unwrap();
    for name in ["a", "b", "c", "d"] {
        assert_eq!(kept.get(name), state.fails.get(name));
    }
    assert_eq!(kept.entries().len(), 3);
}

fn written(state: &State) -> Vec<u8> {
    let mut fails = serde_json::Map::new();
    for (name, times) in state.fails.entries() {
        fails.insert(name.clone(), serde_json::Value::from(*times as u64));
    }
    let mut document = serde_json::Map::new();
    document.insert("count".to_string(), serde_json::Value::from(state.count as u64));
    document.insert("success".to_string(), serde_json::Value::from(state.success as u64));
    document.insert("fails".to_string(), serde_json::Value::Object(fails));
    serde_json::to_vec_pretty(&serde_json::Value::Object(document)).unwrap()
}

fn read(bytes: &[u8]) -> State {
    let document: serde_json::Value = serde_json::from_slice(bytes).unwrap();
    let entries = document["fails"]
        .as_object()
        .unwrap()
        .iter()
        .map(|(name, times)| (name.clone(), times.as_u64().unwrap() as usize))
        .collect::<Vec<(String, usize)>>();
    State {
        count: document["count"].as_u64().unwrap() as usize,
        success: document["success"].as_u64().unwrap() as usize,
        fails: Tallies::restore(entries).unwrap(),
    }
}

#[test]
fn saved_statistics_load_as_they_were() {
    let mut state = State::default();
    state.merge(group(&["山田", "b"]));
    state.merge(Vec::new());
    state.merge(group(&["b", "c"]));
    let loaded = read(&written(&state));
    assert_eq!(loaded.count, 3);
    assert_eq!(loaded.success, 1);
    assert_eq!(pairs(&loaded), pairs(&state));
    assert_eq!(
        pairs(&loaded),
        vec![("b".to_string(), 2), ("c".to_string(), 1), ("山田".to_string(), 1)]
    );
    let empty = read(&written(&State::default()));
    assert_eq!((empty.count, empty.success), (0, 0));
    assert!(empty.fails.entries().is_empty());
}
