use extutils::procop::{children_tree_from_table, exec_dir_of, pids_with_name, ProcOpError, ProcessTree};

fn tree(pid: u64, children: Vec<ProcessTree>) -> ProcessTree {
    ProcessTree { pid, children }
}

fn shape(t: &ProcessTree) -> String {
    let inner: Vec<String> = t.children.iter().map(shape).collect();
    format!("{}[{}]", t.pid, inner.join(","))
}

#[test]
fn tree_text_is_indented() {
    let t = tree(1, vec![tree(2, vec![tree(4, vec![])]), tree(3, vec![])]);
    assert_eq!(t.to_string(0), "1\n    2\n        4\n    3\n");
    assert_eq!(t.to_string(1), "    1\n        2\n            4\n        3\n");
    assert_eq!(ProcessTree::new(7).to_string(-3), "7\n");
}

#[test]
fn tree_from_table() {
    let table = vec![(2, Some(1)), (3, Some(1)), (4, Some(2)), (1, None), (9, Some(8))];
    let t = children_tree_from_table(1, &table);
    assert_eq!(shape(&t), "1[2[4[]],3[]]");
    let t = children_tree_from_table(5, &table);
    assert_eq!(shape(&t), "5[]");
}

#[test]
fn tree_with_cycle_stops() {
    let table = vec![(2, Some(1)), (1, Some(2))];
    let t = children_tree_from_table(1, &table);
    assert_eq!(shape(&t), "1[2[1[]]]");
}

#[test]
fn processes_by_name_substring() {
    let procs = vec![(1, b"bash".to_vec()), (2, b"zsh".to_vec()), (3, b"mybash-x".to_vec())];
    assert_eq!(pids_with_name(&procs, b"bash"), vec![1, 3]);
    assert_eq!(pids_with_name(&procs, b""), vec![1, 2, 3]);
    assert_eq!(pids_with_name(&procs, b"fish"), Vec::<u64>::new());
}

#[test]
fn exec_dir() {
    assert_eq!(exec_dir_of("/usr/bin/foo").unwrap(), "/usr/bin");
    assert_eq!(exec_dir_of("/"), Err(ProcOpError::NoParent));
}

#[test]
fn repeated_pid_is_expanded_once() {
    let table = vec![(2, Some(1)), (3, Some(1)), (2, Some(3)), (4, Some(2))];
    let t = children_tree_from_table(1, &table);
    assert_eq!(t.pid, 1);
    assert_eq!(shape(&t), "1[2[4[]],3[2[]]]");
}

#[test]
fn one_line_per_process() {
    let t = tree(1, vec![tree(2, vec![tree(4, vec![]), tree(5, vec![])]), tree(3, vec![])]);
    for tab in [0, 2] {
        assert_eq!(t.to_string(tab).matches('\n').count(), 5);
    }
}
