//! What holds of every fully expanded tree.

use crate::descent::{
    chain_end, chain_pid, descent_within, finite_descent, is_chain, lemma_chain_prepend,
    lemma_chain_split, lemma_descent_within_grows, lemma_no_cycle,
};
use crate::node::Tree;
use crate::record::{
    child_records, lemma_child_record_found, lemma_child_record_index,
    lemma_child_records_distinct, unique_pids, Record,
};
use crate::tree::{expands, is_process_tree};
use vstd::prelude::*;
use vstd::seq_lib::lemma_no_dup_in_concat;

verus! {

/// Whether no node of the tree has a child with the node's own pid.
pub open spec fn no_self_loops(tree: Tree) -> bool
    decreases tree,
{
    forall|i: int|
        0 <= i < tree.children.len() ==> (#[trigger] tree.children[i]).pid != tree.pid
            && no_self_loops(tree.children[i])
}

/// The pids of the nodes of the first `upto` trees of a forest, tree after
/// tree.
pub open spec fn forest_pids(forest: Seq<Tree>, upto: nat) -> Seq<u32>
    decreases forest, upto,
{
    if upto == 0 || upto > forest.len() {
        Seq::empty()
    } else {
        forest_pids(forest, (upto - 1) as nat) + pids(forest[upto - 1])
    }
}

/// The pids of the nodes of a tree, each node before its children.
pub open spec fn pids(tree: Tree) -> Seq<u32>
    decreases tree, 0nat,
{
    seq![tree.pid] + forest_pids(tree.children, tree.children.len())
}

/// Whether the record at `at` makes its process a child of `parent` and has
/// the pid and the name of the tree `child`.
pub open spec fn is_record_of_child(table: Seq<Record>, parent: u32, child: Tree, at: int) -> bool {
    &&& 0 <= at < table.len()
    &&& table[at].is_child_of(parent)
    &&& table[at].pid == child.pid
    &&& table[at].name == child.name
}

/// No child without a record: each child of a node of a fully expanded tree
/// has the pid and the name of a record that makes its process a child of
/// the node.
pub proof fn law_every_child_has_a_record(tree: Tree, table: Seq<Record>, i: int) -> (at: int)
    requires
        expands(tree, table),
        0 <= i < tree.children.len(),
    ensures
        is_record_of_child(table, tree.pid, tree.children[i], at),
{
    lemma_child_record_index(table, tree.pid, i)
}

/// No record without a child: each record that makes its process a child of
/// a node of a fully expanded tree has a child of the node with its pid and
/// its name.
pub proof fn law_every_record_has_a_child(tree: Tree, table: Seq<Record>, at: int) -> (i: int)
    requires
        expands(tree, table),
        0 <= at < table.len(),
        table[at].is_child_of(tree.pid),
    ensures
        0 <= i < tree.children.len(),
        is_record_of_child(table, tree.pid, tree.children[i], at),
{
    lemma_child_record_found(table, tree.pid, at)
}

/// No node of a fully expanded tree has a child with its own pid: a record
/// that names itself as its parent gives no child.
pub proof fn law_no_self_loops(tree: Tree, table: Seq<Record>)
    requires
        expands(tree, table),
    ensures
        no_self_loops(tree),
    decreases tree,
{
    assert forall|i: int| 0 <= i < tree.children.len() implies (#[trigger] tree.children[i]).pid
        != tree.pid && no_self_loops(tree.children[i]) by {
        let at = lemma_child_record_index(table, tree.pid, i);
        law_no_self_loops(tree.children[i], table);
    }
}

/// A table has one full expansion of a root: two fully expanded trees with
/// the same root are the same tree.
pub proof fn law_expansion_is_unique(a: Tree, b: Tree, table: Seq<Record>)
    requires
        expands(a, table),
        expands(b, table),
        a.pid == b.pid,
        a.name == b.name,
    ensures
        a == b,
    decreases a,
{
    assert forall|i: int| 0 <= i < a.children.len() implies a.children[i] == b.children[i] by {
        law_expansion_is_unique(a.children[i], b.children[i], table);
    }
    assert(a.children =~= b.children);
}

/// Two queries for one pid against one table give the same tree.
pub proof fn law_process_tree_is_unique(a: Tree, b: Tree, table: Seq<Record>, pid: u32)
    requires
        is_process_tree(a, table, pid),
        is_process_tree(b, table, pid),
    ensures
        a == b,
{
    law_expansion_is_unique(a, b, table);
}

/// A bound on the descent from each of the first `upto` children of a fully
/// expanded tree.
proof fn lemma_forest_depth(tree: Tree, table: Seq<Record>, upto: nat) -> (depth: nat)
    requires
        expands(tree, table),
        upto <= tree.children.len(),
    ensures
        forall|j: int|
            0 <= j < upto ==> descent_within(table, (#[trigger] tree.children[j]).pid, depth),
    decreases tree, upto,
{
    if upto == 0 {
        0
    } else {
        let before = lemma_forest_depth(tree, table, (upto - 1) as nat);
        let last = lemma_expansion_depth(tree.children[upto - 1], table);
        let depth = if before >= last {
            before
        } else {
            last
        };
        assert forall|j: int| 0 <= j < upto implies descent_within(
            table,
            (#[trigger] tree.children[j]).pid,
            depth,
        ) by {
            if j < upto - 1 {
                lemma_descent_within_grows(table, tree.children[j].pid, before, depth);
            } else {
                lemma_descent_within_grows(table, tree.children[j].pid, last, depth);
            }
        }
        depth
    }
}

/// A bound on the descent from the root of a fully expanded tree.
proof fn lemma_expansion_depth(tree: Tree, table: Seq<Record>) -> (depth: nat)
    requires
        expands(tree, table),
    ensures
        descent_within(table, tree.pid, depth),
    decreases tree, tree.children.len() + 1,
{
    let below = lemma_forest_depth(tree, table, tree.children.len());
    assert forall|at: int|
        0 <= at < table.len() && (#[trigger] table[at]).is_child_of(tree.pid) implies below + 1 > 0
        && descent_within(table, table[at].pid, below) by {
        let j = lemma_child_record_found(table, tree.pid, at);
        assert(tree.children[j].pid == table[at].pid);
    }
    below + 1
}

/// A table has a full expansion of a root only where the descent from the
/// root is finite.
pub proof fn law_expansion_has_finite_descent(tree: Tree, table: Seq<Record>)
    requires
        expands(tree, table),
    ensures
        finite_descent(table, tree.pid),
{
    let depth = lemma_expansion_depth(tree, table);
}

/// The full expansion of a root, as far as `depth` links reach.
spec fn expansion(table: Seq<Record>, pid: u32, name: Seq<char>, depth: nat) -> Tree
    decreases depth,
{
    let heads = child_records(table, pid);
    Tree {
        pid,
        name,
        children: Seq::new(
            heads.len(),
            |i: int|
                if depth > 0 {
                    expansion(table, heads[i].pid, heads[i].name, (depth - 1) as nat)
                } else {
                    Tree { pid: heads[i].pid, name: heads[i].name, children: Seq::empty() }
                },
        ),
    }
}

/// Where the descent from a root fits into `depth` links, so does its full
/// expansion.
proof fn lemma_expansion_expands(table: Seq<Record>, pid: u32, name: Seq<char>, depth: nat)
    requires
        descent_within(table, pid, depth),
    ensures
        expands(expansion(table, pid, name, depth), table),
    decreases depth,
{
    let heads = child_records(table, pid);
    let tree = expansion(table, pid, name, depth);
    assert forall|i: int| 0 <= i < tree.children.len() implies {
        &&& (#[trigger] tree.children[i]).pid == heads[i].pid
        &&& tree.children[i].name == heads[i].name
        &&& expands(tree.children[i], table)
    } by {
        let at = lemma_child_record_index(table, pid, i);
        lemma_expansion_expands(table, heads[i].pid, heads[i].name, (depth - 1) as nat);
    }
}

/// Where the descent from a root is finite, the table has a full expansion
/// of the root, under any name for it.
pub proof fn law_finite_descent_has_expansion(table: Seq<Record>, pid: u32, name: Seq<char>) -> (tree:
    Tree)
    requires
        finite_descent(table, pid),
    ensures
        tree.pid == pid,
        tree.name == name,
        expands(tree, table),
{
    let depth = choose|depth: nat| descent_within(table, pid, depth);
    lemma_expansion_expands(table, pid, name, depth);
    expansion(table, pid, name, depth)
}

/// A pid among those of the first `upto` trees of a forest is a pid of one of
/// them.
proof fn lemma_pid_in_forest(forest: Seq<Tree>, upto: nat, pid: u32) -> (j: int)
    requires
        upto <= forest.len(),
        forest_pids(forest, upto).contains(pid),
    ensures
        0 <= j < upto,
        pids(forest[j]).contains(pid),
    decreases upto,
{
    let before = forest_pids(forest, (upto - 1) as nat);
    let last = pids(forest[upto - 1]);
    let k = choose|k: int| 0 <= k < (before + last).len() && (before + last)[k] == pid;
    if k < before.len() {
        lemma_pid_in_forest(forest, (upto - 1) as nat, pid)
    } else {
        upto - 1
    }
}

/// A pid below the root of a fully expanded tree is reached from the root by
/// a chain with at least one link.
proof fn lemma_chain_to_pid_below(tree: Tree, table: Seq<Record>, pid: u32) -> (chain: Seq<int>)
    requires
        expands(tree, table),
        forest_pids(tree.children, tree.children.len()).contains(pid),
    ensures
        is_chain(table, tree.pid, chain),
        chain.len() > 0,
        chain_end(table, tree.pid, chain) == pid,
    decreases tree, 0nat,
{
    let j = lemma_pid_in_forest(tree.children, tree.children.len(), pid);
    let rest = law_every_pid_descends_from_root(tree.children[j], table, pid);
    let at = lemma_child_record_index(table, tree.pid, j);
    lemma_chain_prepend(table, tree.pid, at, rest);
    seq![at] + rest
}

/// Every pid of a fully expanded tree is reached from the root by a chain of
/// child links: a record whose parent is not in the tree is not in it
/// either.
pub proof fn law_every_pid_descends_from_root(tree: Tree, table: Seq<Record>, pid: u32) -> (chain:
    Seq<int>)
    requires
        expands(tree, table),
        pids(tree).contains(pid),
    ensures
        is_chain(table, tree.pid, chain),
        chain_end(table, tree.pid, chain) == pid,
    decreases tree, 1nat,
{
    if pid == tree.pid {
        Seq::empty()
    } else {
        lemma_chain_to_pid_below(tree, table, pid)
    }
}

/// Where no pid occurs twice, two chains of one length to one end start at
/// one pid.
proof fn lemma_same_ancestor(
    table: Seq<Record>,
    left: u32,
    right: u32,
    left_chain: Seq<int>,
    right_chain: Seq<int>,
)
    requires
        unique_pids(table),
        is_chain(table, left, left_chain),
        is_chain(table, right, right_chain),
        left_chain.len() == right_chain.len(),
        chain_end(table, left, left_chain) == chain_end(table, right, right_chain),
    ensures
        left == right,
    decreases left_chain.len(),
{
    if left_chain.len() > 0 {
        let k = left_chain.len() - 1;
        lemma_chain_split(table, left, left_chain, k);
        lemma_chain_split(table, right, right_chain, k);
        lemma_same_ancestor(table, left, right, left_chain.take(k), right_chain.take(k));
    }
}

/// Where no pid occurs twice and the descent is finite, two children of one
/// parent have no descendant in common, nor is one the other's descendant.
proof fn lemma_siblings_apart(
    table: Seq<Record>,
    parent: u32,
    depth: nat,
    near: int,
    far: int,
    short: Seq<int>,
    long: Seq<int>,
)
    requires
        unique_pids(table),
        descent_within(table, parent, depth),
        0 <= near < table.len(),
        0 <= far < table.len(),
        table[near].is_child_of(parent),
        table[far].is_child_of(parent),
        table[near].pid != table[far].pid,
        is_chain(table, table[near].pid, short),
        is_chain(table, table[far].pid, long),
        short.len() <= long.len(),
    ensures
        chain_end(table, table[near].pid, short) != chain_end(table, table[far].pid, long),
{
    if chain_end(table, table[near].pid, short) == chain_end(table, table[far].pid, long) {
        let ahead = long.len() - short.len();
        let met = chain_pid(table, table[far].pid, long, ahead);
        lemma_chain_split(table, table[far].pid, long, ahead);
        lemma_same_ancestor(table, table[near].pid, met, short, long.skip(ahead));
        lemma_chain_split(table, table[far].pid, long, ahead - 1);
        let back = long.take(ahead - 1);
        lemma_chain_prepend(table, parent, far, back);
        lemma_no_cycle(table, parent, seq![far] + back, depth);
    }
}

/// The pids of the first `upto` children of a fully expanded tree, and of
/// all nodes below them, are pairwise different.
proof fn lemma_forest_no_pid_twice(tree: Tree, table: Seq<Record>, upto: nat)
    requires
        expands(tree, table),
        unique_pids(table),
        upto <= tree.children.len(),
    ensures
        forest_pids(tree.children, upto).no_duplicates(),
    decreases tree, upto,
{
    if upto > 0 {
        let last = (upto - 1) as nat;
        let before = forest_pids(tree.children, last);
        let added = pids(tree.children[last as int]);
        lemma_forest_no_pid_twice(tree, table, last);
        law_no_pid_twice(tree.children[last as int], table);
        let depth = lemma_expansion_depth(tree, table);
        lemma_child_records_distinct(table, tree.pid);
        assert forall|i: int, j: int| 0 <= i < before.len() && 0 <= j < added.len() implies before[i]
            != added[j] by {
            if before[i] == added[j] {
                let pid = before[i];
                let first = lemma_pid_in_forest(tree.children, last, pid);
                let first_chain = law_every_pid_descends_from_root(tree.children[first], table, pid);
                let last_chain = law_every_pid_descends_from_root(tree.children[last as int], table, pid);
                let first_at = lemma_child_record_index(table, tree.pid, first);
                let last_at = lemma_child_record_index(table, tree.pid, last as int);
                if first_chain.len() <= last_chain.len() {
                    lemma_siblings_apart(
                        table,
                        tree.pid,
                        depth,
                        first_at,
                        last_at,
                        first_chain,
                        last_chain,
                    );
                } else {
                    lemma_siblings_apart(
                        table,
                        tree.pid,
                        depth,
                        last_at,
                        first_at,
                        last_chain,
                        first_chain,
                    );
                }
            }
        }
        lemma_no_dup_in_concat(before, added);
    }
}

/// Where no pid occurs twice in the table, none occurs twice in a fully
/// expanded tree.
pub proof fn law_no_pid_twice(tree: Tree, table: Seq<Record>)
    requires
        expands(tree, table),
        unique_pids(table),
    ensures
        pids(tree).no_duplicates(),
    decreases tree, tree.children.len() + 1,
{
    let root = seq![tree.pid];
    let below = forest_pids(tree.children, tree.children.len());
    lemma_forest_no_pid_twice(tree, table, tree.children.len());
    let depth = lemma_expansion_depth(tree, table);
    assert forall|i: int, j: int| 0 <= i < root.len() && 0 <= j < below.len() implies root[i]
        != below[j] by {
        if below[j] == tree.pid {
            let chain = lemma_chain_to_pid_below(tree, table, tree.pid);
            lemma_no_cycle(table, tree.pid, chain, depth);
        }
    }
    lemma_no_dup_in_concat(root, below);
}

} // verus!
