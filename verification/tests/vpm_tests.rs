use kernelino::utils::{contains_char, is_unix_symbol, split_path, str_eq};
use kernelino::vpm::Vpm;

#[test]
fn new_identity_takes_pid_one() {
    let vpm = Vpm::new();
    assert_eq!(vpm.pid, 1);
    assert_eq!(vpm.time, 0);
    assert_eq!(vpm.children.len(), 0);
}

#[test]
fn fork_hands_out_fresh_pids() {
    let mut vpm = Vpm::new();
    let c1 = vpm.fork();
    let c2 = vpm.fork();
    assert_eq!(c1.pid, 2);
    assert_eq!(c2.pid, 3);
    assert_ne!(c1.pid, c2.pid);
    assert_ne!(c1.pid, vpm.pid);
    // forking does not record children
    assert_eq!(vpm.children.len(), 0);
}

#[test]
fn execute_scopes_a_fresh_identity() {
    let mut vpm = Vpm::new();
    let child = vpm.execute();
    assert_eq!(child.pid, 2);
    assert_eq!(vpm.children.len(), 0);
}

#[test]
fn execute_child_records_the_child() {
    let mut vpm = Vpm::new();
    let child = vpm.execute_child();
    assert_eq!(child.pid, 2);
    assert_eq!(vpm.children.len(), 1);
    assert_eq!(vpm.children[0].pid, 2);
    let other = vpm.execute_child();
    assert_eq!(other.pid, 3);
    assert_eq!(vpm.children.len(), 2);
}

#[test]
fn ticks_only_increment() {
    let mut vpm = Vpm::new();
    vpm.tick();
    vpm.tick();
    vpm.tick();
    assert_eq!(vpm.time, 3);
}

#[test]
fn process_table_rows() {
    let mut vpm = Vpm::new();
    vpm.execute_child();
    vpm.execute_child();
    vpm.tick();
    let table = vpm.process_table();
    assert_eq!(table.len(), 3);
    assert_eq!(table[0], (1, 1));
    assert_eq!(table[1], (2, 1));
    assert_eq!(table[2], (3, 1));
}

#[test]
fn reserved_path_symbols() {
    assert!(is_unix_symbol("/"));
    assert!(is_unix_symbol("."));
    assert!(is_unix_symbol(".."));
    assert!(!is_unix_symbol("a"));
    assert!(!is_unix_symbol("..."));
    assert!(!is_unix_symbol(""));
}

#[test]
fn string_helpers() {
    assert!(str_eq("abc", "abc"));
    assert!(!str_eq("abc", "abd"));
    assert!(!str_eq("abc", "ab"));
    assert!(contains_char("a/b", '/'));
    assert!(!contains_char("ab", '/'));
}

#[test]
fn path_splitting() {
    let segs = split_path("a/b/c");
    assert_eq!(segs, vec!["a".to_string(), "b".to_string(), "c".to_string()]);
    let abs = split_path("/a//b/");
    assert_eq!(abs, vec!["a".to_string(), "b".to_string()]);
    assert_eq!(split_path(""), Vec::<String>::new());
    assert_eq!(split_path("///"), Vec::<String>::new());
}
