use pk::state::{AddOutcome, ProjectState};

fn s(x: &str) -> String {
    x.to_string()
}

#[test]
fn add_names_after_final_segment() {
    let mut st = ProjectState::new();
    assert_eq!(st.add_project(&s("/home/user/work")), AddOutcome::Added);
    assert_eq!(st.projects.len(), 1);
    assert_eq!(st.projects[0].name, "work");
    assert_eq!(st.projects[0].path, "/home/user/work");
    assert_eq!(st.projects[0].kind, "");
    assert_eq!(st.projects[0].description, "");
    assert_eq!(st.projects[0].priority, 0);
}

#[test]
fn add_twice_reports_already_exists() {
    let mut st = ProjectState::new();
    assert_eq!(st.add_project(&s("/p")), AddOutcome::Added);
    assert_eq!(st.add_project(&s("/p")), AddOutcome::AlreadyExists);
    assert_eq!(st.projects.len(), 1);
    assert_eq!(st.projects[0].path, "/p");
}

#[test]
fn blacklisted_path_is_refused() {
    let mut st = ProjectState::new();
    st.manage_blacklist(&s("/evil"), true);
    assert_eq!(st.add_project(&s("/evil")), AddOutcome::Blacklisted);
    assert!(st.projects.is_empty());
}

#[test]
fn blacklist_insert_is_idempotent() {
    let mut st = ProjectState::new();
    st.manage_blacklist(&s("/b"), true);
    st.manage_blacklist(&s("/b"), true);
    assert_eq!(st.blacklist.len(), 1);
    assert_eq!(st.blacklist[0], "/b");
}

#[test]
fn blacklist_remove_of_non_member_is_a_no_op() {
    let mut st = ProjectState::new();
    st.manage_blacklist(&s("/b"), true);
    st.manage_blacklist(&s("/other"), false);
    assert_eq!(st.blacklist.len(), 1);
    st.manage_blacklist(&s("/b"), false);
    assert!(st.blacklist.is_empty());
}

#[test]
fn get_bumps_priority_and_evicts() {
    let mut st = ProjectState::new();
    assert_eq!(st.add_project(&s("/p")), AddOutcome::Added);
    let got = st.get_project(&s("/p")).expect("first lookup finds the record");
    assert_eq!(got.priority, 1);
    assert_eq!(got.path, "/p");
    assert!(st.list_projects().is_empty());
    assert!(st.get_project(&s("/p")).is_none());
}

#[test]
fn remove_project_reports_membership() {
    let mut st = ProjectState::new();
    assert_eq!(st.add_project(&s("/p")), AddOutcome::Added);
    assert!(st.remove_project(&s("/p")));
    assert!(st.projects.is_empty());
    assert!(!st.remove_project(&s("/p")));
}

#[test]
fn increment_bumps_in_place() {
    let mut st = ProjectState::new();
    assert_eq!(st.add_project(&s("/p")), AddOutcome::Added);
    assert!(st.increment_project_priority(&s("/p")));
    assert!(st.increment_project_priority(&s("/p")));
    assert_eq!(st.projects[0].priority, 2);
    assert!(!st.increment_project_priority(&s("/missing")));
}

#[test]
fn list_is_sorted_by_descending_priority() {
    let mut st = ProjectState::new();
    st.add_project(&s("/low"));
    st.add_project(&s("/high"));
    st.add_project(&s("/mid"));
    st.increment_project_priority(&s("/high"));
    st.increment_project_priority(&s("/high"));
    st.increment_project_priority(&s("/mid"));
    let listed = st.list_projects();
    assert_eq!(listed.len(), 3);
    assert_eq!(listed[0].path, "/high");
    assert_eq!(listed[1].path, "/mid");
    assert_eq!(listed[2].path, "/low");
}

#[test]
fn list_leaves_blacklisted_paths_out() {
    let mut st = ProjectState::new();
    st.add_project(&s("/keep"));
    st.add_project(&s("/hide"));
    st.manage_blacklist(&s("/hide"), true);
    let listed = st.list_projects();
    assert_eq!(listed.len(), 1);
    assert_eq!(listed[0].path, "/keep");
}

#[test]
fn show_blacklist_returns_entries() {
    let mut st = ProjectState::new();
    st.manage_blacklist(&s("/a"), true);
    st.manage_blacklist(&s("/b"), true);
    let bl = st.show_blacklist();
    assert_eq!(bl, vec![s("/a"), s("/b")]);
}
