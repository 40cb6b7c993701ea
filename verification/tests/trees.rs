use process_tree::{
    build_process_tree, children_of, descends_finitely, get_process_name, get_process_tree,
    JsProcessNode, ProcessNode, ProcessRecord,
};

fn rec(pid: u32, parent_pid: u32, name: &str) -> ProcessRecord {
    ProcessRecord::new(pid, parent_pid, String::from(name))
}

fn js(pid: u32, name: &str, children: Vec<JsProcessNode>) -> JsProcessNode {
    JsProcessNode { pid, name: String::from(name), children }
}

fn sample_table() -> Vec<ProcessRecord> {
    vec![rec(1, 0, "init"), rec(2, 1, "shell"), rec(3, 2, "editor"), rec(4, 1, "browser")]
}

fn sample_tree() -> JsProcessNode {
    js(1, "init", vec![js(2, "shell", vec![js(3, "editor", vec![])]), js(4, "browser", vec![])])
}

fn collect_pids(node: &JsProcessNode, into: &mut Vec<u32>) {
    into.push(node.pid);
    for child in &node.children {
        collect_pids(child, into);
    }
}

fn collect_names(node: &JsProcessNode, into: &mut Vec<String>) {
    into.push(node.name.clone());
    for child in &node.children {
        collect_names(child, into);
    }
}

#[test]
fn new_node_has_no_children() {
    let node = ProcessNode::new(5, String::from("leaf"));
    assert_eq!(node.pid, 5);
    assert_eq!(node.name, "leaf");
    assert!(node.children.is_empty());
}

#[test]
fn tree_of_init_in_sample_table() {
    let table = sample_table();
    assert!(descends_finitely(1, &table));
    assert_eq!(get_process_tree(1, &table), Some(sample_tree()));
}

#[test]
fn tree_of_inner_node() {
    let table = sample_table();
    assert_eq!(
        get_process_tree(2, &table),
        Some(js(2, "shell", vec![js(3, "editor", vec![])]))
    );
}

#[test]
fn tree_of_leaf_has_no_children() {
    let table = sample_table();
    assert_eq!(get_process_tree(3, &table), Some(js(3, "editor", vec![])));
}

#[test]
fn absent_pid_gives_none() {
    let table = sample_table();
    assert_eq!(get_process_tree(99, &table), None);
}

#[test]
fn empty_table_gives_none() {
    assert_eq!(get_process_tree(1, &[]), None);
}

#[test]
fn absent_pid_with_recorded_children_gives_none() {
    let table = vec![rec(5, 42, "zombie"), rec(6, 5, "child")];
    assert!(descends_finitely(42, &table));
    assert_eq!(get_process_tree(42, &table), None);
}

#[test]
fn orphan_is_not_in_tree() {
    let mut table = sample_table();
    table.insert(2, rec(5, 42, "zombie"));
    let tree = get_process_tree(1, &table).unwrap();
    assert_eq!(tree, sample_tree());
    let mut names = Vec::new();
    collect_names(&tree, &mut names);
    assert!(!names.contains(&String::from("zombie")));
    let mut pids = Vec::new();
    collect_pids(&tree, &mut pids);
    assert!(!pids.contains(&5));
}

#[test]
fn root_has_queried_pid_and_recorded_name() {
    let table = sample_table();
    let tree = get_process_tree(4, &table).unwrap();
    assert_eq!(tree.pid, 4);
    assert_eq!(tree.name, "browser");
}

#[test]
fn root_name_is_that_of_first_record_with_pid() {
    let table = vec![rec(7, 0, "first"), rec(7, 0, "second")];
    let tree = get_process_tree(7, &table).unwrap();
    assert_eq!(tree.name, "first");
    assert_eq!(get_process_name(7, &table), Some(String::from("first")));
}

#[test]
fn process_name_of_present_and_absent_pid() {
    let table = sample_table();
    assert_eq!(get_process_name(3, &table), Some(String::from("editor")));
    assert_eq!(get_process_name(1, &table), Some(String::from("init")));
    assert_eq!(get_process_name(0, &table), None);
    assert_eq!(get_process_name(1, &[]), None);
}

#[test]
fn self_parent_record_is_no_child_of_itself() {
    let table = vec![rec(0, 0, "idle"), rec(4, 0, "system")];
    assert!(descends_finitely(0, &table));
    assert_eq!(
        get_process_tree(0, &table),
        Some(js(0, "idle", vec![js(4, "system", vec![])]))
    );
}

#[test]
fn self_parent_leaf_has_no_children() {
    let table = vec![rec(8, 8, "alone")];
    assert_eq!(get_process_tree(8, &table), Some(js(8, "alone", vec![])));
}

#[test]
fn children_come_in_table_order() {
    let table = vec![rec(9, 1, "z"), rec(1, 0, "root"), rec(3, 1, "a"), rec(5, 1, "m")];
    assert_eq!(
        get_process_tree(1, &table),
        Some(js(1, "root", vec![js(9, "z", vec![]), js(3, "a", vec![]), js(5, "m", vec![])]))
    );
}

#[test]
fn children_of_picks_child_records_in_order() {
    let table = vec![rec(9, 1, "z"), rec(1, 1, "self"), rec(3, 2, "other"), rec(5, 1, "m")];
    let found = children_of(1, &table);
    assert_eq!(found, vec![rec(9, 1, "z"), rec(5, 1, "m")]);
    assert!(children_of(7, &table).is_empty());
}

#[test]
fn each_child_record_gives_exactly_one_child() {
    let table = sample_table();
    let tree = get_process_tree(1, &table).unwrap();
    for record in &table {
        let same = tree.children.iter().filter(|c| c.pid == record.pid).count();
        if record.parent_pid == 1 && record.pid != 1 {
            assert_eq!(same, 1);
        } else {
            assert_eq!(same, 0);
        }
    }
}

#[test]
fn two_records_with_one_pid_give_two_children() {
    let table = vec![rec(1, 0, "root"), rec(2, 1, "twin"), rec(2, 1, "twin")];
    assert_eq!(
        get_process_tree(1, &table),
        Some(js(1, "root", vec![js(2, "twin", vec![]), js(2, "twin", vec![])]))
    );
}

#[test]
fn no_pid_twice_in_tree_of_table_with_unique_pids() {
    let table = vec![
        rec(1, 0, "a"),
        rec(2, 1, "b"),
        rec(3, 1, "c"),
        rec(4, 2, "d"),
        rec(5, 2, "e"),
        rec(6, 5, "f"),
        rec(7, 3, "g"),
        rec(8, 42, "h"),
    ];
    let tree = get_process_tree(1, &table).unwrap();
    let mut pids = Vec::new();
    collect_pids(&tree, &mut pids);
    assert_eq!(pids, vec![1, 2, 4, 5, 6, 3, 7]);
    let mut sorted = pids.clone();
    sorted.sort();
    sorted.dedup();
    assert_eq!(sorted.len(), pids.len());
}

#[test]
fn same_query_twice_gives_same_tree() {
    let table = sample_table();
    let first = get_process_tree(1, &table);
    let second = get_process_tree(1, &table);
    assert_eq!(first, second);
    assert_eq!(first, Some(sample_tree()));
}

#[test]
fn build_appends_after_children_already_there() {
    let table = sample_table();
    let mut node = ProcessNode::new(1, String::from("renamed"));
    node.children.push(ProcessNode::new(77, String::from("kept")));
    build_process_tree(&mut node, &table);
    assert_eq!(
        JsProcessNode::from(node),
        js(
            1,
            "renamed",
            vec![
                js(77, "kept", vec![]),
                js(2, "shell", vec![js(3, "editor", vec![])]),
                js(4, "browser", vec![]),
            ]
        )
    );
}

#[test]
fn build_of_pid_without_record_finds_its_children() {
    let table = vec![rec(5, 42, "zombie"), rec(6, 5, "child")];
    let mut node = ProcessNode::new(42, String::from("gone"));
    build_process_tree(&mut node, &table);
    assert_eq!(
        JsProcessNode::from(node),
        js(42, "gone", vec![js(5, "zombie", vec![js(6, "child", vec![])])])
    );
}

#[test]
fn conversion_keeps_every_node() {
    let mut root = ProcessNode::new(1, String::from("init"));
    let mut shell = ProcessNode::new(2, String::from("shell"));
    shell.children.push(ProcessNode::new(3, String::from("editor")));
    root.children.push(shell);
    root.children.push(ProcessNode::new(4, String::from("browser")));
    assert_eq!(JsProcessNode::from(root), sample_tree());
    let converted: JsProcessNode = ProcessNode::new(9, String::from("x")).into();
    assert_eq!(converted, js(9, "x", vec![]));
}

#[test]
fn descent_is_finite_without_cycle() {
    let table = sample_table();
    assert!(descends_finitely(1, &table));
    assert!(descends_finitely(3, &table));
    assert!(descends_finitely(99, &table));
    assert!(descends_finitely(1, &[]));
}

#[test]
fn descent_is_not_finite_on_cycle() {
    let table = vec![rec(2, 3, "a"), rec(3, 2, "b")];
    assert!(!descends_finitely(2, &table));
    assert!(!descends_finitely(3, &table));
}

#[test]
fn descent_is_not_finite_above_cycle() {
    let table = vec![rec(1, 0, "root"), rec(2, 1, "a"), rec(2, 3, "a"), rec(3, 2, "b")];
    assert!(!descends_finitely(1, &table));
}

#[test]
fn descent_is_finite_beside_cycle() {
    let table = vec![rec(1, 0, "root"), rec(4, 1, "leaf"), rec(2, 3, "a"), rec(3, 2, "b")];
    assert!(descends_finitely(1, &table));
    assert!(!descends_finitely(2, &table));
    assert_eq!(get_process_tree(1, &table), Some(js(1, "root", vec![js(4, "leaf", vec![])])));
}

#[test]
fn descent_as_deep_as_table_is_long() {
    let table = vec![rec(4, 3, "d"), rec(3, 2, "c"), rec(2, 1, "b"), rec(1, 0, "a")];
    assert!(descends_finitely(1, &table));
    assert!(descends_finitely(0, &table));
    assert_eq!(
        get_process_tree(1, &table),
        Some(js(1, "a", vec![js(2, "b", vec![js(3, "c", vec![js(4, "d", vec![])])])]))
    );
}
