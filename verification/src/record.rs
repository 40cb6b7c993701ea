//! Records of a process table snapshot.

use crate::name::{until_nul, utf16_lossy, widestring_to_string};
use vstd::prelude::*;

verus! {

/// One entry of a process table snapshot.
#[derive(Debug, PartialEq, Eq)]
pub struct ProcessRecord {
    /// The process identifier.
    pub pid: u32,
    /// The identifier of the process that created this one.
    pub parent_pid: u32,
    /// The base name of the executable.
    pub name: String,
}

/// The mathematical value of a `ProcessRecord`.
pub struct Record {
    pub pid: u32,
    pub parent_pid: u32,
    pub name: Seq<char>,
}

impl View for ProcessRecord {
    type V = Record;

    open spec fn view(&self) -> Record {
        Record { pid: self.pid, parent_pid: self.parent_pid, name: self.name@ }
    }
}

impl Record {
    /// Whether this record makes its process a child of `parent`. A record
    /// that names its own pid as its parent is nobody's child.
    pub open spec fn is_child_of(self, parent: u32) -> bool {
        self.parent_pid == parent && self.pid != parent
    }
}

/// The mathematical value of a snapshot: its records, in the order of the
/// enumeration.
pub open spec fn table_view(table: Seq<ProcessRecord>) -> Seq<Record> {
    table.map_values(|r: ProcessRecord| r@)
}

impl ProcessRecord {
    /// A record with the given fields.
    pub fn new(pid: u32, parent_pid: u32, name: String) -> (record: ProcessRecord)
        ensures
            record@ == (Record { pid, parent_pid, name: name@ }),
    {
        ProcessRecord { pid, parent_pid, name }
    }

    /// A record with the same fields.
    pub fn duplicate(&self) -> (record: ProcessRecord)
        ensures
            record@ == self@,
    {
        ProcessRecord { pid: self.pid, parent_pid: self.parent_pid, name: self.name.clone() }
    }

    /// A record whose name is decoded from the nul-terminated wide-character
    /// buffer of a raw table entry.
    pub fn from_wide(pid: u32, parent_pid: u32, exe_file: &[u16]) -> (record: ProcessRecord)
        ensures
            record@ == (Record { pid, parent_pid, name: utf16_lossy(until_nul(exe_file@)) }),
    {
        ProcessRecord { pid, parent_pid, name: widestring_to_string(exe_file) }
    }
}

/// Whether some record of the table has the given pid.
pub open spec fn has_pid(table: Seq<Record>, pid: u32) -> bool {
    exists|at: int| 0 <= at < table.len() && (#[trigger] table[at]).pid == pid
}

/// Whether the record at `at` is the first of the table with the given pid.
pub open spec fn is_first_with_pid(table: Seq<Record>, pid: u32, at: int) -> bool {
    &&& 0 <= at < table.len()
    &&& table[at].pid == pid
    &&& forall|j: int| 0 <= j < at ==> (#[trigger] table[j]).pid != pid
}

/// The name that the table records for a pid: that of the first record with
/// the pid, and nothing where no record has it.
pub open spec fn recorded_name(table: Seq<Record>, pid: u32) -> Option<Seq<char>> {
    if has_pid(table, pid) {
        Some(table[choose|at: int| is_first_with_pid(table, pid, at)].name)
    } else {
        None
    }
}

/// The test that picks the records of the children of `parent`.
pub open spec fn child_of(parent: u32) -> spec_fn(Record) -> bool {
    |r: Record| r.is_child_of(parent)
}

/// The records that make their process a child of `parent`, in the order of
/// the table.
pub open spec fn child_records(table: Seq<Record>, parent: u32) -> Seq<Record> {
    table.filter(child_of(parent))
}

/// Whether no two records of the table have the same pid.
pub open spec fn unique_pids(table: Seq<Record>) -> bool {
    forall|i: int, j: int|
        0 <= i < table.len() && 0 <= j < table.len() && i != j ==> (#[trigger] table[i]).pid != (
        #[trigger] table[j]).pid
}

/// The name recorded for a pid is that of the first record with the pid.
pub proof fn lemma_first_with_pid_unique(table: Seq<Record>, pid: u32, at: int)
    requires
        is_first_with_pid(table, pid, at),
    ensures
        has_pid(table, pid),
        recorded_name(table, pid) == Some(table[at].name),
{
}

/// How the children found in the first `i + 1` records follow from those
/// found in the first `i`.
pub proof fn lemma_child_records_step(table: Seq<Record>, parent: u32, i: int)
    requires
        0 <= i < table.len(),
    ensures
        child_records(table.take(i + 1), parent) == if table[i].is_child_of(parent) {
            child_records(table.take(i), parent).push(table[i])
        } else {
            child_records(table.take(i), parent)
        },
{
    reveal(Seq::filter);
    assert(table.take(i + 1).drop_last() =~= table.take(i));
}

/// Every child record is a record of the table that makes its process a
/// child of `parent`.
pub proof fn lemma_child_record_index(table: Seq<Record>, parent: u32, j: int) -> (at: int)
    requires
        0 <= j < child_records(table, parent).len(),
    ensures
        0 <= at < table.len(),
        table[at] == child_records(table, parent)[j],
        table[at].is_child_of(parent),
{
    let heads = child_records(table, parent);
    table.lemma_filter_pred(child_of(parent), j);
    table.lemma_filter_contains_rev(child_of(parent), heads[j]);
    choose|at: int| 0 <= at < table.len() && table[at] == heads[j]
}

/// Every record of the table that makes its process a child of `parent` is
/// among the child records.
pub proof fn lemma_child_record_found(table: Seq<Record>, parent: u32, at: int) -> (j: int)
    requires
        0 <= at < table.len(),
        table[at].is_child_of(parent),
    ensures
        0 <= j < child_records(table, parent).len(),
        child_records(table, parent)[j] == table[at],
{
    let heads = child_records(table, parent);
    table.lemma_filter_contains(child_of(parent), at);
    choose|j: int| 0 <= j < heads.len() && heads[j] == table[at]
}

/// Where no pid occurs twice in the table, none occurs twice among the
/// child records.
pub proof fn lemma_child_records_distinct(table: Seq<Record>, parent: u32)
    requires
        unique_pids(table),
    ensures
        forall|i: int, j: int|
            0 <= i < child_records(table, parent).len() && 0 <= j < child_records(
                table,
                parent,
            ).len() && i != j ==> (#[trigger] child_records(table, parent)[i]).pid != (
            #[trigger] child_records(table, parent)[j]).pid,
    decreases table.len(),
{
    reveal(Seq::filter);
    if table.len() > 0 {
        let front = table.drop_last();
        let heads = child_records(table, parent);
        let front_heads = child_records(front, parent);
        lemma_child_records_distinct(front, parent);
        assert forall|i: int, j: int|
            0 <= i < heads.len() && 0 <= j < heads.len() && i != j implies (#[trigger] heads[i]).pid
            != (#[trigger] heads[j]).pid by {
            if i < front_heads.len() && j < front_heads.len() {
            } else {
                let old = if i < j {
                    i
                } else {
                    j
                };
                let at = lemma_child_record_index(front, parent, old);
            }
        }
    }
}

/// The records of the table that make their process a child of `parent`, in
/// the order of the table.
pub fn children_of(parent: u32, table: &[ProcessRecord]) -> (found: Vec<ProcessRecord>)
    ensures
        table_view(found@) == child_records(table_view(table@), parent),
{
    let ghost t = table_view(table@);
    let mut found: Vec<ProcessRecord> = Vec::new();
    let mut i: usize = 0;
    while i < table.len()
        invariant
            i <= table.len(),
            t == table_view(table@),
            table_view(found@) == child_records(t.take(i as int), parent),
        decreases table.len() - i,
    {
        let record = &table[i];
        proof {
            lemma_child_records_step(t, parent, i as int);
        }
        if record.parent_pid == parent && record.pid != parent {
            found.push(record.duplicate());
        }
        i += 1;
    }
    proof {
        assert(t.take(i as int) =~= t);
    }
    found
}

} // verus!
