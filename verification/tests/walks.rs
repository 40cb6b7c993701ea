use process_tree::{get_process_tree, JsProcessNode, ProcessRecord, TreeWalk};

fn record(pid: u32, parent_pid: u32, name: &str) -> ProcessRecord {
    ProcessRecord::new(pid, parent_pid, String::from(name))
}

fn node(pid: u32, name: &str, children: Vec<JsProcessNode>) -> JsProcessNode {
    JsProcessNode { pid, name: String::from(name), children }
}

fn table() -> Vec<ProcessRecord> {
    vec![
        record(1, 0, "init"),
        record(2, 1, "shell"),
        record(3, 2, "editor"),
        record(4, 1, "browser"),
    ]
}

fn walk_to_end(pid: u32, snapshot: &[ProcessRecord]) -> Option<(JsProcessNode, Vec<u32>)> {
    let mut walk = TreeWalk::start(pid, snapshot)?;
    let mut asked = Vec::new();
    while let Some(next) = walk.next_pid() {
        asked.push(next);
        walk.feed(snapshot);
    }
    walk.finish().map(|root| (JsProcessNode::from(root), asked))
}

#[test]
fn walk_over_one_table_gives_its_tree() {
    let (tree, asked) = walk_to_end(1, &table()).unwrap();
    assert_eq!(
        tree,
        node(
            1,
            "init",
            vec![node(2, "shell", vec![node(3, "editor", vec![])]), node(4, "browser", vec![])]
        )
    );
    assert_eq!(asked, vec![1, 2, 3, 4]);
}

#[test]
fn walk_agrees_with_single_look() {
    let snapshot = vec![
        record(1, 0, "a"),
        record(7, 3, "g"),
        record(2, 1, "b"),
        record(3, 1, "c"),
        record(0, 0, "idle"),
        record(4, 2, "d"),
        record(5, 2, "e"),
        record(6, 5, "f"),
        record(8, 42, "h"),
    ];
    for pid in [0, 1, 2, 3, 5, 8] {
        let walked = walk_to_end(pid, &snapshot).map(|(tree, _)| tree);
        assert_eq!(walked, get_process_tree(pid, &snapshot));
        assert!(walked.is_some());
    }
}

#[test]
fn walk_does_not_start_for_absent_pid() {
    assert!(TreeWalk::start(99, &table()).is_none());
    assert!(TreeWalk::start(1, &[]).is_none());
}

#[test]
fn walk_starts_awaiting_its_root() {
    let walk = TreeWalk::start(2, &table()).unwrap();
    assert_eq!(walk.next_pid(), Some(2));
    assert!(walk.finish().is_none());
}

#[test]
fn walk_of_leaf_ends_after_one_snapshot() {
    let mut walk = TreeWalk::start(3, &table()).unwrap();
    walk.feed(&table());
    assert_eq!(walk.next_pid(), None);
    assert_eq!(walk.finish().map(JsProcessNode::from), Some(node(3, "editor", vec![])));
}

#[test]
fn walk_that_has_ended_ignores_snapshots() {
    let mut walk = TreeWalk::start(3, &table()).unwrap();
    walk.feed(&[]);
    assert_eq!(walk.next_pid(), None);
    walk.feed(&vec![record(9, 3, "late")]);
    assert_eq!(walk.next_pid(), None);
    assert_eq!(walk.finish().map(JsProcessNode::from), Some(node(3, "editor", vec![])));
}

#[test]
fn walk_with_failed_snapshot_leaves_node_childless() {
    let mut walk = TreeWalk::start(1, &table()).unwrap();
    walk.feed(&table());
    assert_eq!(walk.next_pid(), Some(2));
    walk.feed(&[]);
    assert_eq!(walk.next_pid(), Some(4));
    walk.feed(&table());
    assert_eq!(walk.next_pid(), None);
    assert_eq!(
        walk.finish().map(JsProcessNode::from),
        Some(node(1, "init", vec![node(2, "shell", vec![]), node(4, "browser", vec![])]))
    );
}

#[test]
fn walk_sees_each_node_in_its_own_snapshot() {
    let mut walk = TreeWalk::start(1, &table()).unwrap();
    walk.feed(&table());
    assert_eq!(walk.next_pid(), Some(2));
    let later = vec![
        record(1, 0, "init"),
        record(2, 1, "shell"),
        record(5, 2, "compiler"),
        record(6, 1, "late"),
    ];
    walk.feed(&later);
    assert_eq!(walk.next_pid(), Some(5));
    walk.feed(&later);
    assert_eq!(walk.next_pid(), Some(4));
    walk.feed(&later);
    assert_eq!(walk.next_pid(), None);
    assert_eq!(
        walk.finish().map(JsProcessNode::from),
        Some(node(
            1,
            "init",
            vec![node(2, "shell", vec![node(5, "compiler", vec![])]), node(4, "browser", vec![])]
        ))
    );
}

#[test]
fn walk_keeps_root_name_of_first_snapshot() {
    let mut walk = TreeWalk::start(1, &table()).unwrap();
    walk.feed(&vec![record(1, 0, "renamed")]);
    assert_eq!(walk.finish().map(JsProcessNode::from), Some(node(1, "init", vec![])));
}

#[test]
fn walk_gives_self_parent_record_no_child_of_itself() {
    let snapshot = vec![record(0, 0, "idle"), record(4, 0, "system")];
    let (tree, asked) = walk_to_end(0, &snapshot).unwrap();
    assert_eq!(tree, node(0, "idle", vec![node(4, "system", vec![])]));
    assert_eq!(asked, vec![0, 4]);
}
