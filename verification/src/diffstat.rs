//! Line-level difference statistics between two texts, over the change
//! list a diffing library computes.

use vstd::prelude::*;

verus! {

/// What happened to one line.
#[derive(Debug, Clone, Copy, PartialEq, Eq, Structural)]
pub enum LineChangeKind {
    Equal,
    Delete,
    Insert,
}

/// One line of the diff.
#[derive(Debug, Clone)]
pub struct LineChange {
    pub kind: LineChangeKind,
    pub text: String,
}

/// A numeric code for each change kind, used to state the diff's shape.
pub open spec fn change_code(k: LineChangeKind) -> int {
    match k {
        LineChangeKind::Equal => 0,
        LineChangeKind::Delete => 1,
        LineChangeKind::Insert => 2,
    }
}

/// The line diff of two texts.  The diffing library derives it from the
/// texts alone, so it has a name rather than a page of equations.
pub uninterp spec fn line_diff(old_text: Seq<char>, new_text: Seq<char>) -> Seq<(int, Seq<char>)>;

/// Relies on `similar::TextDiff::from_lines` and `iter_all_changes`: the
/// line-level diff of the two texts, a function of the texts alone.
#[verifier::external_body]
fn diff_line_changes(old_text: &str, new_text: &str) -> (r: Vec<LineChange>)
    ensures
        r@.map_values(|ch: LineChange| (change_code(ch.kind), ch.text@)) == line_diff(
            old_text@,
            new_text@,
        ),
{
    let diff = similar::TextDiff::from_lines(old_text, new_text);
    let mut out = Vec::new();
    for change in diff.iter_all_changes() {
        let kind = match change.tag() {
            similar::ChangeTag::Equal => LineChangeKind::Equal,
            similar::ChangeTag::Delete => LineChangeKind::Delete,
            similar::ChangeTag::Insert => LineChangeKind::Insert,
        };
        out.push(LineChange { kind, text: change.to_string_lossy().into_owned() });
    }
    out
}

/// How many additions and deletions a diff holds.
#[derive(Debug, Clone)]
pub struct DiffStats {
    pub additions: usize,
    pub deletions: usize,
}

/// How many changes of one code the diff holds.
pub open spec fn count_code(s: Seq<(int, Seq<char>)>, code: int) -> nat
    decreases s.len(),
{
    if s.len() == 0 {
        0
    } else {
        count_code(s.drop_last(), code) + (if s.last().0 == code {
            1nat
        } else {
            0nat
        })
    }
}

/// Counts the added and deleted lines of a change list.
pub fn diff_stats(changes: &Vec<LineChange>) -> (r: DiffStats)
    ensures
        r.additions as nat == count_code(
            changes@.map_values(|ch: LineChange| (change_code(ch.kind), ch.text@)),
            2,
        ),
        r.deletions as nat == count_code(
            changes@.map_values(|ch: LineChange| (change_code(ch.kind), ch.text@)),
            1,
        ),
{
    let ghost q = changes@.map_values(|ch: LineChange| (change_code(ch.kind), ch.text@));
    let n = changes.len();
    let mut additions: usize = 0;
    let mut deletions: usize = 0;
    let mut i: usize = 0;
    proof {
        assert(q.take(0) =~= Seq::<(int, Seq<char>)>::empty());
    }
    while i < n
        invariant
            n == changes@.len(),
            q == changes@.map_values(|ch: LineChange| (change_code(ch.kind), ch.text@)),
            q.len() == n,
            i <= n,
            additions <= i,
            deletions <= i,
            additions as nat == count_code(q.take(i as int), 2),
            deletions as nat == count_code(q.take(i as int), 1),
        decreases n - i,
    {
        proof {
            assert(q.take(i + 1).drop_last() =~= q.take(i as int));
            assert(q.take(i + 1).last() == q[i as int]);
        }
        match changes[i].kind {
            LineChangeKind::Insert => {
                additions = additions + 1;
            },
            LineChangeKind::Delete => {
                deletions = deletions + 1;
            },
            LineChangeKind::Equal => {},
        }
        i += 1;
    }
    proof {
        assert(q.take(n as int) =~= q);
    }
    DiffStats { additions, deletions }
}

/// The difference statistics of two texts.
pub fn diff_stats_for(old_text: &str, new_text: &str) -> (r: DiffStats)
    ensures
        r.additions as nat == count_code(line_diff(old_text@, new_text@), 2),
        r.deletions as nat == count_code(line_diff(old_text@, new_text@), 1),
{
    let changes = diff_line_changes(old_text, new_text);
    diff_stats(&changes)
}

} // verus!
