//! Chains of child links in a table, and whether they end.
//!
//! A table may hold a cycle: a process that is, by the records, its own
//! descendant. Below such a process no finite tree exists. This module says
//! when the descent from a pid is finite, and decides it.

use crate::record::{table_view, ProcessRecord, Record};
use vstd::prelude::*;
use vstd::set_lib::{lemma_int_range, lemma_len_subset, set_int_range};

verus! {

/// Whether no chain of child links that starts at `pid` is longer than
/// `depth`.
pub open spec fn descent_within(table: Seq<Record>, pid: u32, depth: nat) -> bool
    decreases depth,
{
    forall|i: int|
        0 <= i < table.len() && (#[trigger] table[i]).is_child_of(pid) ==> depth > 0
            && descent_within(table, table[i].pid, (depth - 1) as nat)
}

/// Whether the chains of child links that start at `pid` have a bounded
/// length: no process at or below `pid` is its own descendant.
pub open spec fn finite_descent(table: Seq<Record>, pid: u32) -> bool {
    exists|depth: nat| descent_within(table, pid, depth)
}

/// The pid that a chain has reached after `links` of its links. A chain is a
/// sequence of indices into the table.
pub open spec fn chain_pid(table: Seq<Record>, start: u32, chain: Seq<int>, links: int) -> u32 {
    if links <= 0 {
        start
    } else {
        table[chain[links - 1]].pid
    }
}

/// Whether `chain` is a chain of child links from `start`: each of its
/// records makes its process a child of the process that the chain has
/// reached before it.
pub open spec fn is_chain(table: Seq<Record>, start: u32, chain: Seq<int>) -> bool {
    forall|j: int|
        0 <= j < chain.len() ==> 0 <= #[trigger] chain[j] < table.len()
            && table[chain[j]].is_child_of(chain_pid(table, start, chain, j))
}

/// The pid at which a chain ends.
pub open spec fn chain_end(table: Seq<Record>, start: u32, chain: Seq<int>) -> u32 {
    chain_pid(table, start, chain, chain.len() as int)
}

/// A bound on the descent holds for every larger depth too.
pub proof fn lemma_descent_within_grows(table: Seq<Record>, pid: u32, depth: nat, more: nat)
    requires
        descent_within(table, pid, depth),
        depth <= more,
    ensures
        descent_within(table, pid, more),
    decreases depth,
{
    assert forall|i: int|
        0 <= i < table.len() && (#[trigger] table[i]).is_child_of(pid) implies more > 0
        && descent_within(table, table[i].pid, (more - 1) as nat) by {
        lemma_descent_within_grows(table, table[i].pid, (depth - 1) as nat, (more - 1) as nat);
    }
}

/// The first `links` links of a chain are a chain, and so is the rest, from
/// the pid that the first part has reached.
pub proof fn lemma_chain_split(table: Seq<Record>, start: u32, chain: Seq<int>, links: int)
    requires
        is_chain(table, start, chain),
        0 <= links <= chain.len(),
    ensures
        is_chain(table, start, chain.take(links)),
        chain_end(table, start, chain.take(links)) == chain_pid(table, start, chain, links),
        is_chain(table, chain_pid(table, start, chain, links), chain.skip(links)),
        chain_end(table, chain_pid(table, start, chain, links), chain.skip(links)) == chain_end(
            table,
            start,
            chain,
        ),
{
}

/// A child link in front of a chain from the child makes a chain from the
/// parent, with the same end.
pub proof fn lemma_chain_prepend(table: Seq<Record>, parent: u32, first: int, chain: Seq<int>)
    requires
        0 <= first < table.len(),
        table[first].is_child_of(parent),
        is_chain(table, table[first].pid, chain),
    ensures
        is_chain(table, parent, seq![first] + chain),
        chain_end(table, parent, seq![first] + chain) == chain_end(
            table,
            table[first].pid,
            chain,
        ),
{
}

/// Along a chain the bound on the descent shrinks by one with each link.
pub proof fn lemma_descent_along_chain(
    table: Seq<Record>,
    start: u32,
    chain: Seq<int>,
    depth: nat,
)
    requires
        is_chain(table, start, chain),
        descent_within(table, start, depth),
    ensures
        chain.len() <= depth,
        descent_within(table, chain_end(table, start, chain), (depth - chain.len()) as nat),
    decreases chain.len(),
{
    if chain.len() > 0 {
        let first = chain[0];
        lemma_chain_split(table, start, chain, 1);
        lemma_descent_along_chain(table, table[first].pid, chain.skip(1), (depth - 1) as nat);
    }
}

/// Where the descent from a pid is bounded, no chain with a link leads from
/// the pid back to itself.
pub proof fn lemma_no_cycle(table: Seq<Record>, pid: u32, chain: Seq<int>, depth: nat)
    requires
        is_chain(table, pid, chain),
        chain.len() > 0,
        descent_within(table, pid, depth),
    ensures
        chain_end(table, pid, chain) != pid,
    decreases depth,
{
    if chain_end(table, pid, chain) == pid {
        lemma_descent_along_chain(table, pid, chain, depth);
        lemma_no_cycle(table, pid, chain, (depth - chain.len()) as nat);
    }
}

/// Where a bound on the descent fails, a chain with one link more than the
/// bound exists.
pub proof fn lemma_long_chain(table: Seq<Record>, pid: u32, depth: nat) -> (chain: Seq<int>)
    requires
        !descent_within(table, pid, depth),
    ensures
        is_chain(table, pid, chain),
        chain.len() == depth + 1,
    decreases depth,
{
    let first = choose|i: int|
        0 <= i < table.len() && (#[trigger] table[i]).is_child_of(pid) && !(depth > 0
            && descent_within(table, table[i].pid, (depth - 1) as nat));
    let rest = if depth == 0 {
        Seq::<int>::empty()
    } else {
        lemma_long_chain(table, table[first].pid, (depth - 1) as nat)
    };
    lemma_chain_prepend(table, pid, first, rest);
    seq![first] + rest
}

/// Among more indices than the table has records, one occurs twice.
pub proof fn lemma_repeated_link(chain: Seq<int>, records: nat) -> (twice: (int, int))
    requires
        chain.len() > records,
        forall|j: int| 0 <= j < chain.len() ==> 0 <= #[trigger] chain[j] < records,
    ensures
        0 <= twice.0 < twice.1 < chain.len(),
        chain[twice.0] == chain[twice.1],
{
    if chain.no_duplicates() {
        chain.unique_seq_to_set();
        lemma_int_range(0, records as int);
        lemma_len_subset(chain.to_set(), set_int_range(0, records as int));
        (0, 0)
    } else {
        let (a, b) = choose|a: int, b: int|
            0 <= a < chain.len() && 0 <= b < chain.len() && a != b && chain[a] == chain[b];
        if a < b {
            (a, b)
        } else {
            (b, a)
        }
    }
}

/// A finite descent is no deeper than the table is long.
pub proof fn lemma_descent_bounded_by_table(table: Seq<Record>, pid: u32)
    requires
        finite_descent(table, pid),
    ensures
        descent_within(table, pid, table.len()),
{
    if !descent_within(table, pid, table.len()) {
        let depth = choose|depth: nat| descent_within(table, pid, depth);
        let chain = lemma_long_chain(table, pid, table.len());
        let (a, b) = lemma_repeated_link(chain, table.len());
        let again = table[chain[a]].pid;
        let lasso = chain.take(b + 1);
        lemma_chain_split(table, pid, chain, b + 1);
        lemma_chain_split(table, pid, lasso, a + 1);
        lemma_descent_along_chain(table, pid, lasso.take(a + 1), depth);
        lemma_no_cycle(
            table,
            again,
            lasso.skip(a + 1),
            (depth - lasso.take(a + 1).len()) as nat,
        );
    }
}

/// Whether the descent from `pid` fits into `depth` links.
fn descent_fits(pid: u32, table: &[ProcessRecord], depth: usize) -> (fits: bool)
    ensures
        fits == descent_within(table_view(table@), pid, depth as nat),
    decreases depth,
{
    let ghost t = table_view(table@);
    let mut i: usize = 0;
    while i < table.len()
        invariant
            i <= table.len(),
            t == table_view(table@),
            forall|j: int|
                0 <= j < i && (#[trigger] t[j]).is_child_of(pid) ==> depth > 0 && descent_within(
                    t,
                    t[j].pid,
                    (depth - 1) as nat,
                ),
        decreases table.len() - i,
    {
        let record = &table[i];
        assert(t[i as int] == record@);
        if record.parent_pid == pid && record.pid != pid {
            if depth == 0 {
                return false;
            }
            if !descent_fits(record.pid, table, depth - 1) {
                return false;
            }
        }
        i += 1;
    }
    true
}

/// Whether the descent from `pid` is finite, so that `pid` has a tree: true
/// unless some process at or below `pid` is its own descendant.
pub fn descends_finitely(pid: u32, table: &[ProcessRecord]) -> (finite: bool)
    ensures
        finite == finite_descent(table_view(table@), pid),
{
    let fits = descent_fits(pid, table, table.len());
    proof {
        let t = table_view(table@);
        if finite_descent(t, pid) {
            lemma_descent_bounded_by_table(t, pid);
        }
    }
    fits
}

} // verus!
