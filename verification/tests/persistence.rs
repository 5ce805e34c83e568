use pk::codec::{decode, encode};
use pk::state::{AddOutcome, ProjectState};

fn s(x: &str) -> String {
    x.to_string()
}

fn populated() -> ProjectState {
    let mut st = ProjectState::new();
    assert_eq!(st.add_project(&s("/home/user/alpha")), AddOutcome::Added);
    assert_eq!(st.add_project(&s("/srv/bêta-プロジェクト")), AddOutcome::Added);
    st.increment_project_priority(&s("/home/user/alpha"));
    st.manage_blacklist(&s("/tmp/scratch"), true);
    st.manage_blacklist(&s("/var/cache"), true);
    st
}

fn assert_same(a: &ProjectState, b: &ProjectState) {
    assert_eq!(a.projects.len(), b.projects.len());
    for (x, y) in a.projects.iter().zip(b.projects.iter()) {
        assert_eq!(x.name, y.name);
        assert_eq!(x.path, y.path);
        assert_eq!(x.kind, y.kind);
        assert_eq!(x.description, y.description);
        assert_eq!(x.priority, y.priority);
    }
    assert_eq!(a.blacklist, b.blacklist);
}

#[test]
fn round_trip_of_empty_state() {
    let st = ProjectState::new();
    let bytes = encode(&st);
    // Two 64-bit counts and nothing else: the zero-entry snapshot.
    assert_eq!(bytes.len(), 16);
    let back = decode(&bytes).expect("an encoding decodes");
    assert_same(&st, &back);
}

#[test]
fn round_trip_of_populated_state() {
    let st = populated();
    let bytes = encode(&st);
    let back = decode(&bytes).expect("an encoding decodes");
    assert_same(&st, &back);
}

#[test]
fn empty_input_is_not_an_encoding() {
    assert!(decode(&Vec::new()).is_none());
}

#[test]
fn garbage_is_rejected() {
    assert!(decode(&vec![1, 2, 3]).is_none());
}

#[test]
fn truncated_encoding_is_rejected() {
    let mut bytes = encode(&populated());
    bytes.pop();
    assert!(decode(&bytes).is_none());
}

#[test]
fn trailing_bytes_are_rejected() {
    let mut bytes = encode(&populated());
    bytes.push(0);
    assert!(decode(&bytes).is_none());
}

#[test]
fn duplicate_keys_are_rejected() {
    let mut st = ProjectState::new();
    st.add_project(&s("/p"));
    let twin = st.projects[0].duplicate();
    st.projects.push(twin);
    // The blob now claims two records under one path; decoding refuses it.
    let bytes = encode(&st);
    assert!(decode(&bytes).is_none());
}

#[test]
fn init_without_data_is_empty_and_wants_a_save() {
    let mut st = ProjectState::new();
    st.add_project(&s("/stale"));
    let save_needed = st.init(None);
    assert!(save_needed);
    assert!(st.projects.is_empty());
    assert!(st.blacklist.is_empty());
}

#[test]
fn init_with_empty_file_is_empty_without_a_save() {
    let mut st = ProjectState::new();
    let save_needed = st.init(Some(Vec::new()));
    assert!(!save_needed);
    assert!(st.projects.is_empty());
    assert!(st.blacklist.is_empty());
}

#[test]
fn init_with_corrupt_data_discards_it_and_wants_a_save() {
    let mut st = ProjectState::new();
    let save_needed = st.init(Some(vec![0xff, 0x00, 0x42]));
    assert!(save_needed);
    assert!(st.projects.is_empty());
    assert!(st.blacklist.is_empty());
}

#[test]
fn init_with_a_snapshot_restores_it() {
    let st = populated();
    let bytes = encode(&st);
    let mut fresh = ProjectState::new();
    let save_needed = fresh.init(Some(bytes));
    assert!(!save_needed);
    assert_same(&st, &fresh);
}
