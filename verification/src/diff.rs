//! The line-delta tracker: for every line that a file currently has, the commit
//! that introduced it and the line number it had in that commit's version.
//!
//! Lines are kept as runs. Run `i` covers the current lines from the end of run
//! `i - 1` up to `commit_line_end[i]`, and `commit_indexes[i]` is the commit and
//! the line-within-commit of the run's first line.

use vstd::prelude::*;

verus! {

pub type CommitIndex = usize;

pub type FileId = usize;

#[derive(Debug, PartialEq, Eq, Default)]
pub struct FileDiffTracker {
    /// The offset at which each run ends (exclusive).
    pub commit_line_end: Vec<usize>,
    /// (commit_index, line_start_in_commit) of each run.
    pub commit_indexes: Vec<(CommitIndex, usize)>,
}

#[derive(Debug, PartialEq, Eq)]
pub struct LineDeleteResult {
    pub commit_id: CommitIndex,
    /// [start, end) within the commit's version of the file.
    pub start_and_end: (usize, usize),
}

/// The number of run ends that are at most `line`. Where the ends increase this
/// is the index of the run that holds `line`, or the number of runs.
pub open spec fn first_run_past(ends: Seq<usize>, line: int) -> int
    decreases ends.len(),
{
    if ends.len() == 0 {
        0
    } else if ends.last() <= line {
        ends.len() as int
    } else {
        first_run_past(ends.drop_last(), line)
    }
}

pub open spec fn run_start(ends: Seq<usize>, i: int) -> int {
    if i <= 0 {
        0
    } else {
        ends[i - 1] as int
    }
}

/// Each run ends after the one before it: only the first run may be empty.
pub open spec fn increasing(ends: Seq<usize>) -> bool {
    forall|i: int, j: int| 0 <= i < j < ends.len() ==> ends[i] < ends[j]
}

pub open spec fn rises_at(ends: Seq<usize>, i: int) -> bool {
    ends[i - 1] < ends[i]
}

proof fn lemma_rising_pair(ends: Seq<usize>, i: int, j: int)
    requires
        forall|k: int| 0 < k < ends.len() ==> #[trigger] rises_at(ends, k),
        0 <= i < j < ends.len(),
    ensures
        ends[i] < ends[j],
    decreases j - i,
{
    assert(rises_at(ends, j));
    if i < j - 1 {
        lemma_rising_pair(ends, i, j - 1);
    }
}

proof fn lemma_rising(ends: Seq<usize>)
    requires
        forall|k: int| 0 < k < ends.len() ==> #[trigger] rises_at(ends, k),
    ensures
        increasing(ends),
{
    assert forall|i: int, j: int| 0 <= i < j < ends.len() implies ends[i] < ends[j] by {
        lemma_rising_pair(ends, i, j);
    }
}

pub open spec fn runs_wf(ends: Seq<usize>, origins: Seq<(usize, usize)>) -> bool {
    &&& ends.len() == origins.len()
    &&& increasing(ends)
    &&& forall|i: int|
        0 <= i < ends.len() ==> (#[trigger] origins[i]).1 + (ends[i] - run_start(ends, i))
            <= usize::MAX
}

pub open spec fn total_of(ends: Seq<usize>) -> int {
    if ends.len() == 0 {
        0
    } else {
        ends.last() as int
    }
}

/// The commit and the line-within-commit that introduced current line `p`.
pub open spec fn origin_of(ends: Seq<usize>, origins: Seq<(usize, usize)>, p: int) -> (int, int) {
    let r = first_run_past(ends, p);
    (origins[r].0 as int, origins[r].1 + p - run_start(ends, r))
}

pub open spec fn lines_of(ends: Seq<usize>, origins: Seq<(usize, usize)>) -> Seq<(int, int)> {
    Seq::new(total_of(ends) as nat, |p: int| origin_of(ends, origins, p))
}

/// The lines `start..start + count` of one commit.
pub open spec fn commit_span(commit: int, start: int, count: int) -> Seq<(int, int)> {
    Seq::new(
        if count >= 0 {
            count as nat
        } else {
            0
        },
        |k: int| (commit, start + k),
    )
}

/// Every (commit, line) that a list of delete results names, in order.
pub open spec fn deleted_lines(results: Seq<LineDeleteResult>) -> Seq<(int, int)>
    decreases results.len(),
{
    if results.len() == 0 {
        Seq::empty()
    } else {
        deleted_lines(results.drop_last()) + commit_span(
            results.last().commit_id as int,
            results.last().start_and_end.0 as int,
            results.last().start_and_end.1 - results.last().start_and_end.0,
        )
    }
}

pub proof fn lemma_increasing_pairs(ends: Seq<usize>, i: int, j: int)
    requires
        increasing(ends),
        0 <= i <= j < ends.len(),
    ensures
        ends[i] <= ends[j],
        i < j ==> ends[i] < ends[j],
{
}

pub proof fn lemma_first_run_past(ends: Seq<usize>, line: int)
    requires
        increasing(ends),
    ensures
        0 <= first_run_past(ends, line) <= ends.len(),
        forall|i: int| 0 <= i < first_run_past(ends, line) ==> ends[i] <= line,
        first_run_past(ends, line) < ends.len() ==> ends[first_run_past(ends, line)] > line,
    decreases ends.len(),
{
    if ends.len() > 0 {
        if ends.last() > line {
            let shorter = ends.drop_last();
            assert forall|i: int, j: int| 0 <= i < j < shorter.len() implies shorter[i]
                < shorter[j] by {
                assert(ends[i] < ends[j]);
            }
            lemma_first_run_past(shorter, line);
            let r = first_run_past(shorter, line);
            if r < shorter.len() {
                assert(shorter[r] == ends[r]);
            }
            assert forall|i: int| 0 <= i < r implies ends[i] <= line by {
                assert(shorter[i] == ends[i]);
            }
        } else {
            assert forall|i: int| 0 <= i < ends.len() implies ends[i] <= line by {
                lemma_increasing_pairs(ends, i, ends.len() - 1);
            }
        }
    }
}

pub proof fn lemma_first_run_past_unique(ends: Seq<usize>, line: int, k: int)
    requires
        increasing(ends),
        0 <= k <= ends.len(),
        forall|i: int| 0 <= i < k ==> ends[i] <= line,
        k < ends.len() ==> ends[k] > line,
    ensures
        first_run_past(ends, line) == k,
{
    lemma_first_run_past(ends, line);
    let r = first_run_past(ends, line);
    if k < r {
        assert(ends[k] <= line);
    }
    if r < k {
        assert(ends[r] <= line);
    }
}

/// A line inside run `i` has that run's commit, and the run's first line
/// advanced by the line's offset in the run.
pub proof fn lemma_line_in_run(ends: Seq<usize>, origins: Seq<(usize, usize)>, i: int, p: int)
    requires
        increasing(ends),
        0 <= i < ends.len(),
        run_start(ends, i) <= p < ends[i],
    ensures
        first_run_past(ends, p) == i,
        origin_of(ends, origins, p) == (origins[i].0 as int, origins[i].1 + p - run_start(ends, i)),
        p < total_of(ends),
{
    assert forall|j: int| 0 <= j < i implies ends[j] <= p by {
        lemma_increasing_pairs(ends, j, i - 1);
    }
    lemma_first_run_past_unique(ends, p, i);
    lemma_increasing_pairs(ends, i, ends.len() - 1);
}

/// Every line of the file lies inside some run.
pub proof fn lemma_run_of_line(ends: Seq<usize>, p: int)
    requires
        increasing(ends),
        0 <= p < total_of(ends),
    ensures
        0 <= first_run_past(ends, p) < ends.len(),
        run_start(ends, first_run_past(ends, p)) <= p < ends[first_run_past(ends, p)],
{
    lemma_first_run_past(ends, p);
    let r = first_run_past(ends, p);
    if r > 0 {
        assert(ends[r - 1] <= p);
    }
}

proof fn lemma_deleted_lines_push(results: Seq<LineDeleteResult>, r: LineDeleteResult)
    ensures
        deleted_lines(results.push(r)) == deleted_lines(results) + commit_span(
            r.commit_id as int,
            r.start_and_end.0 as int,
            r.start_and_end.1 - r.start_and_end.0,
        ),
{
    assert(results.push(r).drop_last() =~= results);
}

/// The run ends after `n` lines were inserted at `at`, which lies in run `k`.
pub open spec fn inserted_end(ends: Seq<usize>, k: int, at: int, n: int, split: bool, j: int) -> int {
    let shift: int = if split {
        2
    } else {
        1
    };
    if j < k {
        ends[j] as int
    } else if split && j == k {
        at
    } else if j == k + shift - 1 {
        at + n
    } else {
        ends[j - shift] + n
    }
}

pub open spec fn inserted_origin(
    ends: Seq<usize>,
    origins: Seq<(usize, usize)>,
    k: int,
    at: int,
    commit: (usize, usize),
    split: bool,
    j: int,
) -> (int, int) {
    let shift: int = if split {
        2
    } else {
        1
    };
    if j < k {
        (origins[j].0 as int, origins[j].1 as int)
    } else if split && j == k {
        (origins[k].0 as int, origins[k].1 as int)
    } else if j == k + shift - 1 {
        (commit.0 as int, commit.1 as int)
    } else if j == k + shift {
        (origins[k].0 as int, origins[k].1 + at - run_start(ends, k))
    } else {
        (origins[j - shift].0 as int, origins[j - shift].1 as int)
    }
}

/// The run ends after the lines `at .. at + n` were deleted. They reach from
/// run `s` to run `e`; `left` says that run `s` keeps lines before `at`, `right`
/// that run `e` keeps lines after the deleted ones.
pub open spec fn remaining_end(
    ends: Seq<usize>,
    s: int,
    e: int,
    at: int,
    n: int,
    left: bool,
    right: bool,
    j: int,
) -> int {
    let a: int = if left {
        1
    } else {
        0
    };
    let b: int = if right {
        1
    } else {
        0
    };
    if j < s {
        ends[j] as int
    } else if left && j == s {
        at
    } else if right && j == s + a {
        ends[e] - n
    } else {
        ends[j - (s + a + b) + e + 1] - n
    }
}

pub open spec fn remaining_origin(
    ends: Seq<usize>,
    origins: Seq<(usize, usize)>,
    s: int,
    e: int,
    at: int,
    n: int,
    left: bool,
    right: bool,
    j: int,
) -> (int, int) {
    let a: int = if left {
        1
    } else {
        0
    };
    let b: int = if right {
        1
    } else {
        0
    };
    if j < s {
        (origins[j].0 as int, origins[j].1 as int)
    } else if left && j == s {
        (origins[s].0 as int, origins[s].1 as int)
    } else if right && j == s + a {
        (origins[e].0 as int, origins[e].1 + at + n - run_start(ends, e))
    } else {
        (
            origins[j - (s + a + b) + e + 1].0 as int,
            origins[j - (s + a + b) + e + 1].1 as int,
        )
    }
}

pub open spec fn origin_pair(o: (usize, usize)) -> (int, int) {
    (o.0 as int, o.1 as int)
}


/// What is known of the runs after an insertion, entry by entry.
pub open spec fn is_inserted(
    ends: Seq<usize>,
    origins: Seq<(usize, usize)>,
    new_ends: Seq<usize>,
    new_origins: Seq<(usize, usize)>,
    k: int,
    at: int,
    n: int,
    commit: (usize, usize),
) -> bool {
    let split = run_start(ends, k) < at;
    &&& new_ends.len() == ends.len() + (if split {
        2int
    } else {
        1int
    })
    &&& new_origins.len() == new_ends.len()
    &&& forall|j: int|
        0 <= j < new_ends.len() ==> #[trigger] new_ends[j] == inserted_end(
            ends,
            k,
            at,
            n,
            split,
            j,
        )
    &&& forall|j: int|
        0 <= j < new_ends.len() ==> origin_pair(#[trigger] new_origins[j]) == inserted_origin(
            ends,
            origins,
            k,
            at,
            commit,
            split,
            j,
        )
}

proof fn lemma_insert_wf(
    ends: Seq<usize>,
    origins: Seq<(usize, usize)>,
    new_ends: Seq<usize>,
    new_origins: Seq<(usize, usize)>,
    k: int,
    at: int,
    n: int,
    commit: (usize, usize),
)
    requires
        runs_wf(ends, origins),
        n > 0,
        commit.1 + n <= usize::MAX,
        0 <= k < ends.len(),
        k == first_run_past(ends, at),
        0 <= at,
        is_inserted(ends, origins, new_ends, new_origins, k, at, n, commit),
    ensures
        runs_wf(new_ends, new_origins),
        total_of(new_ends) == total_of(ends) + n,
{
    let split = run_start(ends, k) < at;
    let shift: int = if split {
        2
    } else {
        1
    };
    let len = ends.len() as int;
    lemma_first_run_past(ends, at);
    if k > 0 {
        assert(ends[k - 1] <= at);
    }
    assert forall|i: int| 0 < i < new_ends.len() implies #[trigger] rises_at(new_ends, i) by {
        assert(new_ends[i - 1] == inserted_end(ends, k, at, n, split, i - 1));
        assert(new_ends[i] == inserted_end(ends, k, at, n, split, i));
        if i < k {
            assert(ends[i - 1] < ends[i]);
        } else if i > k + shift {
            assert(ends[i - shift - 1] < ends[i - shift]);
        }
    }
    lemma_rising(new_ends);
    assert forall|i: int| 0 <= i < new_ends.len() implies (#[trigger] new_origins[i]).1 + (
    new_ends[i] - run_start(new_ends, i)) <= usize::MAX by {
        assert(origin_pair(new_origins[i]) == inserted_origin(
            ends,
            origins,
            k,
            at,
            commit,
            split,
            i,
        ));
        if i > 0 {
            assert(new_ends[i - 1] == inserted_end(ends, k, at, n, split, i - 1));
        }
        if i < k {
            assert(origins[i].1 + (ends[i] - run_start(ends, i)) <= usize::MAX);
        } else if i <= k + shift {
            assert(origins[k].1 + (ends[k] - run_start(ends, k)) <= usize::MAX);
        } else {
            let j = i - shift;
            assert(origins[j].1 + (ends[j] - run_start(ends, j)) <= usize::MAX);
        }
    }
    assert(new_ends[len - 1 + shift] == inserted_end(ends, k, at, n, split, len - 1 + shift));
}

/// The origin of one line after an insertion.
proof fn lemma_insert_point(
    ends: Seq<usize>,
    origins: Seq<(usize, usize)>,
    new_ends: Seq<usize>,
    new_origins: Seq<(usize, usize)>,
    k: int,
    at: int,
    n: int,
    commit: (usize, usize),
    p: int,
)
    requires
        runs_wf(ends, origins),
        runs_wf(new_ends, new_origins),
        total_of(new_ends) == total_of(ends) + n,
        n > 0,
        0 <= k < ends.len(),
        k == first_run_past(ends, at),
        0 <= at,
        is_inserted(ends, origins, new_ends, new_origins, k, at, n, commit),
        0 <= p < total_of(ends) + n,
    ensures
        at < total_of(ends),
        origin_of(new_ends, new_origins, p) == (if p < at {
            origin_of(ends, origins, p)
        } else if p < at + n {
            (commit.0 as int, commit.1 + p - at)
        } else {
            origin_of(ends, origins, p - n)
        }),
{
    let split = run_start(ends, k) < at;
    let shift: int = if split {
        2
    } else {
        1
    };
    let len = ends.len() as int;
    let m = k + shift - 1;
    lemma_first_run_past(ends, at);
    lemma_increasing_pairs(ends, k, len - 1);
    if k > 0 {
        assert(ends[k - 1] <= at);
    }
    if p < at {
        lemma_run_of_line(ends, p);
        let i = first_run_past(ends, p);
        if i > k {
            lemma_increasing_pairs(ends, k, i - 1);
        }
        assert(i <= k);
        assert(new_ends[i] == inserted_end(ends, k, at, n, split, i));
        if i > 0 {
            assert(new_ends[i - 1] == inserted_end(ends, k, at, n, split, i - 1));
        }
        assert(origin_pair(new_origins[i]) == inserted_origin(
            ends,
            origins,
            k,
            at,
            commit,
            split,
            i,
        ));
        lemma_line_in_run(new_ends, new_origins, i, p);
    } else if p < at + n {
        assert(new_ends[m] == inserted_end(ends, k, at, n, split, m));
        if m > 0 {
            assert(new_ends[m - 1] == inserted_end(ends, k, at, n, split, m - 1));
        }
        assert(origin_pair(new_origins[m]) == inserted_origin(
            ends,
            origins,
            k,
            at,
            commit,
            split,
            m,
        ));
        lemma_line_in_run(new_ends, new_origins, m, p);
    } else {
        let q = p - n;
        lemma_run_of_line(ends, q);
        let i = first_run_past(ends, q);
        if i < k {
            assert(ends[i] <= at);
        }
        assert(i >= k);
        let t = i + shift;
        assert(new_ends[t] == inserted_end(ends, k, at, n, split, t));
        assert(new_ends[t - 1] == inserted_end(ends, k, at, n, split, t - 1));
        assert(origin_pair(new_origins[t]) == inserted_origin(
            ends,
            origins,
            k,
            at,
            commit,
            split,
            t,
        ));
        lemma_line_in_run(new_ends, new_origins, t, p);
    }
}

proof fn lemma_insert_lines(
    ends: Seq<usize>,
    origins: Seq<(usize, usize)>,
    new_ends: Seq<usize>,
    new_origins: Seq<(usize, usize)>,
    k: int,
    at: int,
    n: int,
    commit: (usize, usize),
)
    requires
        runs_wf(ends, origins),
        runs_wf(new_ends, new_origins),
        total_of(new_ends) == total_of(ends) + n,
        n > 0,
        0 <= k < ends.len(),
        k == first_run_past(ends, at),
        0 <= at,
        is_inserted(ends, origins, new_ends, new_origins, k, at, n, commit),
    ensures
        at < total_of(ends),
        lines_of(new_ends, new_origins) == lines_of(ends, origins).subrange(0, at) + commit_span(
            commit.0 as int,
            commit.1 as int,
            n,
        ) + lines_of(ends, origins).subrange(at, total_of(ends)),
{
    let total = total_of(ends);
    lemma_first_run_past(ends, at);
    lemma_increasing_pairs(ends, k, ends.len() - 1);
    let expected = lines_of(ends, origins).subrange(0, at) + commit_span(
        commit.0 as int,
        commit.1 as int,
        n,
    ) + lines_of(ends, origins).subrange(at, total);
    assert forall|p: int| 0 <= p < total + n implies origin_of(new_ends, new_origins, p)
        == expected[p] by {
        lemma_insert_point(ends, origins, new_ends, new_origins, k, at, n, commit, p);
    }
    assert(lines_of(new_ends, new_origins) =~= expected);
}

proof fn lemma_append_run(
    ends: Seq<usize>,
    origins: Seq<(usize, usize)>,
    new_ends: Seq<usize>,
    new_origins: Seq<(usize, usize)>,
    n: int,
    commit: (usize, usize),
)
    requires
        runs_wf(ends, origins),
        n > 0,
        total_of(ends) + n <= usize::MAX,
        commit.1 + n <= usize::MAX,
        new_ends =~= ends.push((total_of(ends) + n) as usize),
        new_origins =~= origins.push(commit),
    ensures
        runs_wf(new_ends, new_origins),
        total_of(new_ends) == total_of(ends) + n,
        lines_of(new_ends, new_origins) == lines_of(ends, origins) + commit_span(
            commit.0 as int,
            commit.1 as int,
            n,
        ),
{
    let len = ends.len() as int;
    let total = total_of(ends);
    assert forall|i: int| 0 < i < new_ends.len() implies #[trigger] rises_at(new_ends, i) by {
        if i < len {
            assert(ends[i - 1] < ends[i]);
        }
    }
    lemma_rising(new_ends);
    assert forall|i: int| 0 <= i < new_ends.len() implies (#[trigger] new_origins[i]).1 + (
    new_ends[i] - run_start(new_ends, i)) <= usize::MAX by {
        if i < len {
            assert(origins[i].1 + (ends[i] - run_start(ends, i)) <= usize::MAX);
        }
    }
    assert forall|p: int| 0 <= p < total + n implies origin_of(new_ends, new_origins, p) == (
    lines_of(ends, origins) + commit_span(commit.0 as int, commit.1 as int, n))[p] by {
        if p < total {
            lemma_run_of_line(ends, p);
            let r = first_run_past(ends, p);
            lemma_line_in_run(new_ends, new_origins, r, p);
        } else {
            lemma_line_in_run(new_ends, new_origins, len, p);
        }
    }
    assert(lines_of(new_ends, new_origins) =~= lines_of(ends, origins) + commit_span(
        commit.0 as int,
        commit.1 as int,
        n,
    ));
}

/// What is known of the runs after a deletion, entry by entry.
pub open spec fn is_remaining(
    ends: Seq<usize>,
    origins: Seq<(usize, usize)>,
    new_ends: Seq<usize>,
    new_origins: Seq<(usize, usize)>,
    s: int,
    e: int,
    at: int,
    n: int,
) -> bool {
    let left = run_start(ends, s) < at;
    let right = ends[e] > at + n;
    &&& new_ends.len() == s + (if left {
        1int
    } else {
        0int
    }) + (if right {
        1int
    } else {
        0int
    }) + (ends.len() - 1 - e)
    &&& new_origins.len() == new_ends.len()
    &&& forall|j: int|
        0 <= j < new_ends.len() ==> #[trigger] new_ends[j] == remaining_end(
            ends,
            s,
            e,
            at,
            n,
            left,
            right,
            j,
        )
    &&& forall|j: int|
        0 <= j < new_ends.len() ==> origin_pair(#[trigger] new_origins[j]) == remaining_origin(
            ends,
            origins,
            s,
            e,
            at,
            n,
            left,
            right,
            j,
        )
}

/// The runs after `n > 0` lines came in at line `at`: behind the last run
/// where the file has no such line, else before the line, with the run that
/// holds it split in two where the line is not its first.
pub open spec fn runs_added(
    ends: Seq<usize>,
    origins: Seq<(usize, usize)>,
    new_ends: Seq<usize>,
    new_origins: Seq<(usize, usize)>,
    at: int,
    n: int,
    commit: (usize, usize),
) -> bool {
    let k = first_run_past(ends, at);
    if k == ends.len() {
        &&& new_ends.len() == ends.len() + 1
        &&& new_origins.len() == origins.len() + 1
        &&& forall|j: int| 0 <= j < ends.len() ==> #[trigger] new_ends[j] == ends[j]
        &&& forall|j: int| 0 <= j < origins.len() ==> #[trigger] new_origins[j] == origins[j]
        &&& new_ends[ends.len() as int] == total_of(ends) + n
        &&& new_origins[origins.len() as int] == commit
    } else {
        is_inserted(ends, origins, new_ends, new_origins, k, at, n, commit)
    }
}

/// What run `r` loses when the lines `from .. to` go: the commit of the run
/// and the lines of that commit, from the first that goes up to behind the
/// last.
pub open spec fn run_loss(
    ends: Seq<usize>,
    origins: Seq<(usize, usize)>,
    r: int,
    from: int,
    to: int,
) -> (int, int, int) {
    let start = run_start(ends, r);
    let first = if start < from {
        from - start
    } else {
        0
    };
    let last = if ends[r] < to {
        ends[r] - start
    } else {
        to - start
    };
    (origins[r].0 as int, origins[r].1 + first, origins[r].1 + last)
}

/// The results name what each run from `s` on loses, one result for each
/// run, in the order of the runs.
pub open spec fn losses_listed(
    results: Seq<LineDeleteResult>,
    ends: Seq<usize>,
    origins: Seq<(usize, usize)>,
    s: int,
    from: int,
    to: int,
) -> bool {
    forall|i: int|
        0 <= i < results.len() ==> ((#[trigger] results[i]).commit_id as int, results[i].start_and_end.0 as int, results[i].start_and_end.1 as int)
            == run_loss(ends, origins, s + i, from, to)
}

/// What a deletion of `n > 0` lines from line `at` on gives: one result
/// for each run that loses lines, and the runs that are left.
pub open spec fn runs_deleted(
    ends: Seq<usize>,
    origins: Seq<(usize, usize)>,
    new_ends: Seq<usize>,
    new_origins: Seq<(usize, usize)>,
    results: Seq<LineDeleteResult>,
    at: int,
    n: int,
) -> bool {
    let s = first_run_past(ends, at);
    let e = first_run_past(ends, at + n - 1);
    &&& s <= e < ends.len()
    &&& results.len() == e - s + 1
    &&& losses_listed(results, ends, origins, s, at, at + n)
    &&& is_remaining(ends, origins, new_ends, new_origins, s, e, at, n)
}

proof fn lemma_remove_wf(
    ends: Seq<usize>,
    origins: Seq<(usize, usize)>,
    new_ends: Seq<usize>,
    new_origins: Seq<(usize, usize)>,
    s: int,
    e: int,
    at: int,
    n: int,
)
    requires
        runs_wf(ends, origins),
        n > 0,
        0 <= at,
        at + n <= total_of(ends),
        s == first_run_past(ends, at),
        e == first_run_past(ends, at + n - 1),
        is_remaining(ends, origins, new_ends, new_origins, s, e, at, n),
    ensures
        0 <= s <= e < ends.len(),
        runs_wf(new_ends, new_origins),
        total_of(new_ends) == total_of(ends) - n,
{
    let left = run_start(ends, s) < at;
    let right = ends[e] > at + n;
    let a: int = if left {
        1
    } else {
        0
    };
    let b: int = if right {
        1
    } else {
        0
    };
    let len = ends.len() as int;
    let back = e + 1 - (s + a + b);
    lemma_first_run_past(ends, at);
    lemma_run_of_line(ends, at + n - 1);
    if e < s {
        assert(ends[e] <= at);
    }
    if s > 0 {
        assert(ends[s - 1] <= at);
    }
    assert(run_start(ends, s) <= at);
    assert(origins[e].1 + (ends[e] - run_start(ends, e)) <= usize::MAX);
    assert forall|i: int| 0 < i < new_ends.len() implies #[trigger] rises_at(new_ends, i) by {
        assert(new_ends[i - 1] == remaining_end(ends, s, e, at, n, left, right, i - 1));
        assert(new_ends[i] == remaining_end(ends, s, e, at, n, left, right, i));
        if i < s {
            assert(ends[i - 1] < ends[i]);
        } else if i >= s + a + b {
            let j = i + back;
            assert(e < j < len);
            assert(ends[e] < ends[j]);
            if i - 1 >= s + a + b {
                assert(ends[j - 1] < ends[j]);
            }
        }
    }
    lemma_rising(new_ends);
    assert forall|i: int| 0 <= i < new_ends.len() implies (#[trigger] new_origins[i]).1 + (
    new_ends[i] - run_start(new_ends, i)) <= usize::MAX by {
        assert(origin_pair(new_origins[i]) == remaining_origin(
            ends,
            origins,
            s,
            e,
            at,
            n,
            left,
            right,
            i,
        ));
        assert(new_ends[i] == remaining_end(ends, s, e, at, n, left, right, i));
        if i > 0 {
            assert(new_ends[i - 1] == remaining_end(ends, s, e, at, n, left, right, i - 1));
        }
        if i < s {
            assert(origins[i].1 + (ends[i] - run_start(ends, i)) <= usize::MAX);
        } else if left && i == s {
            assert(origins[s].1 + (ends[s] - run_start(ends, s)) <= usize::MAX);
        } else if right && i == s + a {
        } else {
            let j = i + back;
            assert(e < j < len);
            assert(origins[j].1 + (ends[j] - run_start(ends, j)) <= usize::MAX);
            assert(ends[e] <= ends[j - 1]);
        }
    }
    if new_ends.len() > 0 {
        let i = new_ends.len() - 1;
        assert(new_ends[i] == remaining_end(ends, s, e, at, n, left, right, i));
        assert(ends[e] <= ends[len - 1]);
        if e == len - 1 && !right {
            if left {
            } else if s > 0 {
                assert(ends[s - 1] <= at);
            }
        }
    } else {
        assert(e == len - 1);
    }
}

/// The origin of one line after a deletion: that of the line that it was
/// before.
proof fn lemma_remove_point(
    ends: Seq<usize>,
    origins: Seq<(usize, usize)>,
    new_ends: Seq<usize>,
    new_origins: Seq<(usize, usize)>,
    s: int,
    e: int,
    at: int,
    n: int,
    p: int,
)
    requires
        runs_wf(ends, origins),
        runs_wf(new_ends, new_origins),
        total_of(new_ends) == total_of(ends) - n,
        n > 0,
        0 <= at,
        at + n <= total_of(ends),
        0 <= s <= e < ends.len(),
        s == first_run_past(ends, at),
        e == first_run_past(ends, at + n - 1),
        is_remaining(ends, origins, new_ends, new_origins, s, e, at, n),
        0 <= p < total_of(ends) - n,
    ensures
        origin_of(new_ends, new_origins, p) == origin_of(
            ends,
            origins,
            if p < at {
                p
            } else {
                p + n
            },
        ),
{
    let left = run_start(ends, s) < at;
    let right = ends[e] > at + n;
    let a: int = if left {
        1
    } else {
        0
    };
    let b: int = if right {
        1
    } else {
        0
    };
    let back = e + 1 - (s + a + b);
    lemma_first_run_past(ends, at);
    lemma_run_of_line(ends, at + n - 1);
    if s > 0 {
        assert(ends[s - 1] <= at);
    }
    if p < at {
        lemma_run_of_line(ends, p);
        let i = first_run_past(ends, p);
        if i > s {
            assert(ends[s] <= ends[i - 1]);
        }
        assert(i <= s);
        assert(new_ends[i] == remaining_end(ends, s, e, at, n, left, right, i));
        if i > 0 {
            assert(new_ends[i - 1] == remaining_end(ends, s, e, at, n, left, right, i - 1));
        }
        assert(origin_pair(new_origins[i]) == remaining_origin(
            ends,
            origins,
            s,
            e,
            at,
            n,
            left,
            right,
            i,
        ));
        lemma_line_in_run(new_ends, new_origins, i, p);
    } else {
        let q = p + n;
        lemma_run_of_line(ends, q);
        let i = first_run_past(ends, q);
        if i < e {
            assert(ends[i] <= at + n - 1);
        }
        assert(i >= e);
        let t = if i == e {
            s + a
        } else {
            i - back
        };
        assert(new_ends[t] == remaining_end(ends, s, e, at, n, left, right, t));
        if t > 0 {
            assert(new_ends[t - 1] == remaining_end(ends, s, e, at, n, left, right, t - 1));
        }
        assert(origin_pair(new_origins[t]) == remaining_origin(
            ends,
            origins,
            s,
            e,
            at,
            n,
            left,
            right,
            t,
        ));
        if i > e {
            assert(ends[e] <= ends[i - 1]);
        }
        lemma_line_in_run(new_ends, new_origins, t, p);
    }
}

proof fn lemma_remove_lines(
    ends: Seq<usize>,
    origins: Seq<(usize, usize)>,
    new_ends: Seq<usize>,
    new_origins: Seq<(usize, usize)>,
    s: int,
    e: int,
    at: int,
    n: int,
)
    requires
        runs_wf(ends, origins),
        runs_wf(new_ends, new_origins),
        total_of(new_ends) == total_of(ends) - n,
        n > 0,
        0 <= at,
        at + n <= total_of(ends),
        0 <= s <= e < ends.len(),
        s == first_run_past(ends, at),
        e == first_run_past(ends, at + n - 1),
        is_remaining(ends, origins, new_ends, new_origins, s, e, at, n),
    ensures
        lines_of(new_ends, new_origins) == lines_of(ends, origins).subrange(0, at) + lines_of(
            ends,
            origins,
        ).subrange(at + n, total_of(ends)),
{
    let total = total_of(ends);
    let expected = lines_of(ends, origins).subrange(0, at) + lines_of(ends, origins).subrange(
        at + n,
        total,
    );
    assert forall|p: int| 0 <= p < total - n implies origin_of(new_ends, new_origins, p)
        == expected[p] by {
        lemma_remove_point(ends, origins, new_ends, new_origins, s, e, at, n, p);
    }
    assert(lines_of(new_ends, new_origins) =~= expected);
}

/// A stretch of lines inside one run is a span of that run's commit.
proof fn lemma_run_span(ends: Seq<usize>, origins: Seq<(usize, usize)>, i: int, from: int, to: int)
    requires
        increasing(ends),
        0 <= i < ends.len(),
        run_start(ends, i) <= from <= to <= ends[i],
    ensures
        to <= total_of(ends),
        lines_of(ends, origins).subrange(from, to) == commit_span(
            origins[i].0 as int,
            origins[i].1 + from - run_start(ends, i),
            to - from,
        ),
{
    assert(ends[i] <= ends[ends.len() - 1]);
    assert forall|p: int| from <= p < to implies origin_of(ends, origins, p) == (
        origins[i].0 as int,
        origins[i].1 + p - run_start(ends, i),
    ) by {
        lemma_line_in_run(ends, origins, i, p);
    }
    assert(lines_of(ends, origins).subrange(from, to) =~= commit_span(
        origins[i].0 as int,
        origins[i].1 + from - run_start(ends, i),
        to - from,
    ));
}

impl FileDiffTracker {
    pub open spec fn wf(&self) -> bool {
        runs_wf(self.commit_line_end@, self.commit_indexes@)
    }

    /// The number of lines that the file currently has.
    pub open spec fn total_lines(&self) -> int {
        total_of(self.commit_line_end@)
    }

    /// For each current line, the (commit, line-within-commit) that introduced it.
    pub open spec fn lines(&self) -> Seq<(int, int)> {
        lines_of(self.commit_line_end@, self.commit_indexes@)
    }

    pub fn new(init_commit: CommitIndex, total_line: usize) -> (tracker: Self)
        ensures
            tracker.wf(),
            tracker.commit_line_end@ == seq![total_line],
            tracker.commit_indexes@ == seq![(init_commit, 0usize)],
            tracker.lines() == commit_span(init_commit as int, 0, total_line as int),
    {
        let mut ends: Vec<usize> = Vec::new();
        ends.push(total_line);
        let mut origins: Vec<(CommitIndex, usize)> = Vec::new();
        origins.push((init_commit, 0));
        let tracker = Self { commit_line_end: ends, commit_indexes: origins };
        proof {
            assert(tracker.commit_line_end@ =~= seq![total_line]);
            assert(tracker.commit_indexes@ =~= seq![(init_commit, 0usize)]);
            assert forall|p: int| 0 <= p < total_line implies origin_of(
                tracker.commit_line_end@,
                tracker.commit_indexes@,
                p,
            ) == (init_commit as int, p) by {
                lemma_line_in_run(tracker.commit_line_end@, tracker.commit_indexes@, 0, p);
            }
            assert(tracker.lines() =~= commit_span(init_commit as int, 0, total_line as int));
        }
        tracker
    }

    /// The number of lines that the file currently has.
    pub fn line_count(&self) -> (count: usize)
        ensures
            count == self.total_lines(),
    {
        let len = self.commit_line_end.len();
        if len == 0 {
            0
        } else {
            self.commit_line_end[len - 1]
        }
    }

    /// Forgets every line: the file is gone.
    pub fn delete_all(&mut self)
        ensures
            final(self).wf(),
            final(self).commit_line_end@.len() == 0,
            final(self).lines() == Seq::<(int, int)>::empty(),
    {
        self.commit_line_end = Vec::new();
        self.commit_indexes = Vec::new();
        proof {
            assert(self.lines() =~= Seq::<(int, int)>::empty());
        }
    }

    /// The index of the run that holds `line_num`, or the number of runs when
    /// the file has no such line.
    pub fn find_chunk_index_by_line_num(&self, line_num: usize) -> (index: usize)
        requires
            increasing(self.commit_line_end@),
        ensures
            index == first_run_past(self.commit_line_end@, line_num as int),
            index <= self.commit_line_end@.len(),
    {
        let mut lo: usize = 0;
        let mut hi: usize = self.commit_line_end.len();
        while lo < hi
            invariant
                lo <= hi <= self.commit_line_end@.len(),
                increasing(self.commit_line_end@),
                lo > 0 ==> self.commit_line_end@[lo - 1] <= line_num,
                hi < self.commit_line_end@.len() ==> self.commit_line_end@[hi as int] > line_num,
            decreases hi - lo,
        {
            let mid: usize = lo + (hi - lo) / 2;
            if self.commit_line_end[mid] <= line_num {
                lo = mid + 1;
            } else {
                hi = mid;
            }
        }
        proof {
            assert forall|i: int| 0 <= i < lo implies self.commit_line_end@[i] <= line_num by {
                lemma_increasing_pairs(self.commit_line_end@, i, lo - 1);
            }
            lemma_first_run_past_unique(self.commit_line_end@, line_num as int, lo as int);
        }
        lo
    }

    pub fn get_chunk_start(&self, chunk_index: usize) -> (start: usize)
        requires
            chunk_index <= self.commit_line_end@.len(),
        ensures
            start == run_start(self.commit_line_end@, chunk_index as int),
    {
        if chunk_index == 0 {
            0
        } else {
            self.commit_line_end[chunk_index - 1]
        }
    }

    /// Inserts `num_added_lines` lines before current line `insert_start` (at the
    /// end of the file when it has no such line). The new lines are the lines
    /// `commit.1 ..` of commit `commit.0`. A run that `insert_start` falls inside
    /// is split in two.
    pub fn add_lines(
        &mut self,
        insert_start: usize,
        num_added_lines: usize,
        commit: (CommitIndex, usize),
    )
        requires
            old(self).wf(),
            old(self).total_lines() + num_added_lines <= usize::MAX,
            commit.1 + num_added_lines <= usize::MAX,
        ensures
            final(self).wf(),
            num_added_lines == 0 ==> *final(self) == *old(self),
            ({
                let at = if insert_start <= old(self).total_lines() {
                    insert_start as int
                } else {
                    old(self).total_lines()
                };
                final(self).lines() == old(self).lines().subrange(0, at) + commit_span(
                    commit.0 as int,
                    commit.1 as int,
                    num_added_lines as int,
                ) + old(self).lines().subrange(at, old(self).total_lines())
            }),
            final(self).total_lines() == old(self).total_lines() + num_added_lines,
            num_added_lines > 0 ==> runs_added(
                old(self).commit_line_end@,
                old(self).commit_indexes@,
                final(self).commit_line_end@,
                final(self).commit_indexes@,
                insert_start as int,
                num_added_lines as int,
                commit,
            ),
            num_added_lines > 0 ==> final(self).commit_line_end@.len() == old(
                self,
            ).commit_line_end@.len() + (if insert_start < old(self).total_lines() && run_start(
                old(self).commit_line_end@,
                first_run_past(old(self).commit_line_end@, insert_start as int),
            ) < insert_start {
                2int
            } else {
                1int
            }),
            num_added_lines > 0 && (old(self).commit_line_end@.len() == 0 || old(
                self,
            ).commit_line_end@[0] > 0) ==> final(self).commit_line_end@[0] > 0,
    {
        if num_added_lines == 0 {
            proof {
                let at = if insert_start <= self.total_lines() {
                    insert_start as int
                } else {
                    self.total_lines()
                };
                assert(self.lines() =~= self.lines().subrange(0, at) + commit_span(
                    commit.0 as int,
                    commit.1 as int,
                    0,
                ) + self.lines().subrange(at, self.total_lines()));
            }
            return ;
        }
        let len = self.commit_line_end.len();
        let chunk_index = self.find_chunk_index_by_line_num(insert_start);
        proof {
            lemma_first_run_past(self.commit_line_end@, insert_start as int);
        }
        if chunk_index == len {
            let last = self.get_chunk_start(len);
            let ghost before = *self;
            self.commit_line_end.push(last + num_added_lines);
            self.commit_indexes.push(commit);
            proof {
                lemma_append_run(
                    before.commit_line_end@,
                    before.commit_indexes@,
                    self.commit_line_end@,
                    self.commit_indexes@,
                    num_added_lines as int,
                    commit,
                );
                let total = before.total_lines();
                assert(before.lines().subrange(0, total) =~= before.lines());
                assert(before.lines().subrange(total, total) =~= Seq::<(int, int)>::empty());
                assert(self.lines() =~= before.lines().subrange(0, total) + commit_span(
                    commit.0 as int,
                    commit.1 as int,
                    num_added_lines as int,
                ) + before.lines().subrange(total, total));
            }
            return ;
        }
        let chunk_start = self.get_chunk_start(chunk_index);
        let split = chunk_start < insert_start;
        let (run_commit, run_line) = self.commit_indexes[chunk_index];
        proof {
            lemma_increasing_pairs(self.commit_line_end@, chunk_index as int, len - 1);
            if chunk_index > 0 {
                assert(self.commit_line_end@[chunk_index - 1] <= insert_start);
            }
            assert(self.commit_indexes@[chunk_index as int].1 + (
            self.commit_line_end@[chunk_index as int] - chunk_start) <= usize::MAX);
        }
        let mut ends: Vec<usize> = Vec::new();
        let mut origins: Vec<(CommitIndex, usize)> = Vec::new();
        let mut i: usize = 0;
        while i < chunk_index
            invariant
                i <= chunk_index < len,
                len == self.commit_line_end@.len(),
                len == self.commit_indexes@.len(),
                ends@.len() == i,
                origins@.len() == i,
                forall|j: int| 0 <= j < i ==> #[trigger] ends@[j] == self.commit_line_end@[j],
                forall|j: int| 0 <= j < i ==> #[trigger] origins@[j] == self.commit_indexes@[j],
            decreases chunk_index - i,
        {
            ends.push(self.commit_line_end[i]);
            origins.push(self.commit_indexes[i]);
            i += 1;
        }
        if split {
            ends.push(insert_start);
            origins.push((run_commit, run_line));
        }
        ends.push(insert_start + num_added_lines);
        origins.push(commit);
        ends.push(self.commit_line_end[chunk_index] + num_added_lines);
        origins.push((run_commit, run_line + (insert_start - chunk_start)));
        let ghost shift: int = if split {
            2
        } else {
            1
        };
        i = chunk_index + 1;
        while i < len
            invariant
                chunk_index < i <= len,
                len == self.commit_line_end@.len(),
                len == self.commit_indexes@.len(),
                increasing(self.commit_line_end@),
                self.total_lines() + num_added_lines <= usize::MAX,
                shift == (if split {
                    2int
                } else {
                    1int
                }),
                split == (run_start(self.commit_line_end@, chunk_index as int) < insert_start),
                ends@.len() == i + shift,
                origins@.len() == i + shift,
                forall|j: int|
                    0 <= j < i + shift ==> #[trigger] ends@[j] == inserted_end(
                        self.commit_line_end@,
                        chunk_index as int,
                        insert_start as int,
                        num_added_lines as int,
                        split,
                        j,
                    ),
                forall|j: int|
                    0 <= j < i + shift ==> origin_pair(#[trigger] origins@[j]) == inserted_origin(
                        self.commit_line_end@,
                        self.commit_indexes@,
                        chunk_index as int,
                        insert_start as int,
                        commit,
                        split,
                        j,
                    ),
            decreases len - i,
        {
            proof {
                lemma_increasing_pairs(self.commit_line_end@, i as int, len - 1);
            }
            ends.push(self.commit_line_end[i] + num_added_lines);
            origins.push(self.commit_indexes[i]);
            i += 1;
        }
        proof {
            lemma_insert_wf(
                self.commit_line_end@,
                self.commit_indexes@,
                ends@,
                origins@,
                chunk_index as int,
                insert_start as int,
                num_added_lines as int,
                commit,
            );
            lemma_insert_lines(
                self.commit_line_end@,
                self.commit_indexes@,
                ends@,
                origins@,
                chunk_index as int,
                insert_start as int,
                num_added_lines as int,
                commit,
            );
        }
        self.commit_line_end = ends;
        self.commit_indexes = origins;
    }

    /// Removes the current lines `delete_start .. delete_start + num_deleted_lines`
    /// and reports, run by run, which lines of which commits they were. A run
    /// that loses lines in its middle is split in two; a run that loses its
    /// first lines starts later in its commit.
    pub fn delete_lines(&mut self, delete_start: usize, num_deleted_lines: usize) -> (results: Vec<
        LineDeleteResult,
    >)
        requires
            old(self).wf(),
            num_deleted_lines > 0 ==> delete_start + num_deleted_lines <= old(self).total_lines(),
        ensures
            final(self).wf(),
            num_deleted_lines == 0 ==> *final(self) == *old(self) && results@.len() == 0,
            final(self).total_lines() == old(self).total_lines() - num_deleted_lines,
            delete_start + num_deleted_lines <= old(self).total_lines() ==> final(self).lines()
                == old(self).lines().subrange(0, delete_start as int) + old(self).lines().subrange(
                delete_start + num_deleted_lines,
                old(self).total_lines(),
            ),
            delete_start + num_deleted_lines <= old(self).total_lines() ==> deleted_lines(results@)
                == old(self).lines().subrange(
                delete_start as int,
                delete_start + num_deleted_lines,
            ),
            forall|i: int|
                0 <= i < results@.len() ==> (#[trigger] results@[i]).start_and_end.0
                    < results@[i].start_and_end.1,
            num_deleted_lines > 0 ==> runs_deleted(
                old(self).commit_line_end@,
                old(self).commit_indexes@,
                final(self).commit_line_end@,
                final(self).commit_indexes@,
                results@,
                delete_start as int,
                num_deleted_lines as int,
            ),
    {
        if num_deleted_lines == 0 {
            proof {
                let at = delete_start as int;
                if at <= self.total_lines() {
                    assert(self.lines() =~= self.lines().subrange(0, at) + self.lines().subrange(
                        at,
                        self.total_lines(),
                    ));
                    assert(self.lines().subrange(at, at) =~= Seq::<(int, int)>::empty());
                }
            }
            return Vec::new();
        }
        let len = self.commit_line_end.len();
        let delete_end = delete_start + num_deleted_lines;
        let first = self.find_chunk_index_by_line_num(delete_start);
        let last = self.find_chunk_index_by_line_num(delete_end - 1);
        proof {
            lemma_first_run_past(self.commit_line_end@, delete_start as int);
            lemma_run_of_line(self.commit_line_end@, delete_end - 1);
            if last < first {
                assert(self.commit_line_end@[last as int] <= delete_start);
            }
            if first > 0 {
                assert(self.commit_line_end@[first - 1] <= delete_start);
            }
        }
        let mut results: Vec<LineDeleteResult> = Vec::new();
        let ghost mut covered: int = delete_start as int;
        let mut i: usize = first;
        while i <= last
            invariant
                first <= i <= last + 1,
                last < len,
                len == self.commit_line_end@.len(),
                self.wf(),
                delete_end == delete_start + num_deleted_lines,
                num_deleted_lines > 0,
                delete_end <= self.total_lines(),
                first == first_run_past(self.commit_line_end@, delete_start as int),
                last == first_run_past(self.commit_line_end@, delete_end - 1),
                run_start(self.commit_line_end@, first as int) <= delete_start,
                delete_start < self.commit_line_end@[first as int],
                delete_end <= self.commit_line_end@[last as int],
                delete_start <= covered <= delete_end,
                i == first ==> covered == delete_start,
                first < i <= last ==> covered == self.commit_line_end@[i - 1],
                i == last + 1 ==> covered == delete_end,
                deleted_lines(results@) == self.lines().subrange(delete_start as int, covered),
                forall|j: int|
                    0 <= j < results@.len() ==> (#[trigger] results@[j]).start_and_end.0
                        < results@[j].start_and_end.1,
                results@.len() == i - first,
                losses_listed(
                    results@,
                    self.commit_line_end@,
                    self.commit_indexes@,
                    first as int,
                    delete_start as int,
                    delete_end as int,
                ),
            decreases last + 1 - i,
        {
            let chunk_start = self.get_chunk_start(i);
            let chunk_end = self.commit_line_end[i];
            proof {
                lemma_first_run_past(self.commit_line_end@, delete_end - 1);
                if i < last {
                    assert(self.commit_line_end@[i as int] <= delete_end - 1);
                }
                if i > first {
                    assert(self.commit_line_end@[first as int] <= self.commit_line_end@[i - 1]);
                    assert(self.commit_line_end@[i - 1] < self.commit_line_end@[i as int]);
                    assert(self.commit_line_end@[i - 1] <= delete_end - 1);
                }
                assert(self.commit_indexes@[i as int].1 + (chunk_end - chunk_start)
                    <= usize::MAX);
            }
            let from = if chunk_start < delete_start {
                delete_start - chunk_start
            } else {
                0
            };
            let to = if chunk_end < delete_end {
                chunk_end - chunk_start
            } else {
                delete_end - chunk_start
            };
            let (commit_id, line_start) = self.commit_indexes[i];
            let result = LineDeleteResult {
                commit_id,
                start_and_end: (line_start + from, line_start + to),
            };
            proof {
                let next = chunk_start + to;
                assert(chunk_start + from == covered);
                lemma_run_span(
                    self.commit_line_end@,
                    self.commit_indexes@,
                    i as int,
                    covered,
                    next,
                );
                lemma_deleted_lines_push(results@, result);
                assert(self.lines().subrange(delete_start as int, covered)
                    + self.lines().subrange(covered, next) =~= self.lines().subrange(
                    delete_start as int,
                    next,
                ));
                covered = next;
            }
            results.push(result);
            i += 1;
        }
        let first_start = self.get_chunk_start(first);
        let last_start = self.get_chunk_start(last);
        let last_end = self.commit_line_end[last];
        let keep_left = first_start < delete_start;
        let keep_right = last_end > delete_end;
        let mut ends: Vec<usize> = Vec::new();
        let mut origins: Vec<(CommitIndex, usize)> = Vec::new();
        i = 0;
        while i < first
            invariant
                i <= first < len,
                len == self.commit_line_end@.len(),
                len == self.commit_indexes@.len(),
                ends@.len() == i,
                origins@.len() == i,
                forall|j: int| 0 <= j < i ==> #[trigger] ends@[j] == self.commit_line_end@[j],
                forall|j: int| 0 <= j < i ==> #[trigger] origins@[j] == self.commit_indexes@[j],
            decreases first - i,
        {
            ends.push(self.commit_line_end[i]);
            origins.push(self.commit_indexes[i]);
            i += 1;
        }
        if keep_left {
            ends.push(delete_start);
            origins.push(self.commit_indexes[first]);
        }
        if keep_right {
            let (commit_id, line_start) = self.commit_indexes[last];
            proof {
                if last > first {
                    assert(self.commit_line_end@[first as int] <= self.commit_line_end@[last
                        - 1]);
                }
                assert(self.commit_indexes@[last as int].1 + (last_end - last_start)
                    <= usize::MAX);
            }
            ends.push(last_end - num_deleted_lines);
            origins.push((commit_id, line_start + (delete_end - last_start)));
        }
        let ghost kept: int = (if keep_left {
            1int
        } else {
            0int
        }) + (if keep_right {
            1int
        } else {
            0int
        });
        i = last + 1;
        while i < len
            invariant
                first <= last < i <= len,
                len == self.commit_line_end@.len(),
                len == self.commit_indexes@.len(),
                increasing(self.commit_line_end@),
                delete_end == delete_start + num_deleted_lines,
                delete_end <= self.commit_line_end@[last as int],
                keep_left == (run_start(self.commit_line_end@, first as int) < delete_start),
                keep_right == (self.commit_line_end@[last as int] > delete_end),
                kept == (if keep_left {
                    1int
                } else {
                    0int
                }) + (if keep_right {
                    1int
                } else {
                    0int
                }),
                ends@.len() == first + kept + (i - last - 1),
                origins@.len() == ends@.len(),
                forall|j: int|
                    0 <= j < ends@.len() ==> #[trigger] ends@[j] == remaining_end(
                        self.commit_line_end@,
                        first as int,
                        last as int,
                        delete_start as int,
                        num_deleted_lines as int,
                        keep_left,
                        keep_right,
                        j,
                    ),
                forall|j: int|
                    0 <= j < ends@.len() ==> origin_pair(#[trigger] origins@[j])
                        == remaining_origin(
                        self.commit_line_end@,
                        self.commit_indexes@,
                        first as int,
                        last as int,
                        delete_start as int,
                        num_deleted_lines as int,
                        keep_left,
                        keep_right,
                        j,
                    ),
            decreases len - i,
        {
            proof {
                assert(self.commit_line_end@[last as int] < self.commit_line_end@[i as int]);
            }
            ends.push(self.commit_line_end[i] - num_deleted_lines);
            origins.push(self.commit_indexes[i]);
            i += 1;
        }
        proof {
            lemma_remove_wf(
                self.commit_line_end@,
                self.commit_indexes@,
                ends@,
                origins@,
                first as int,
                last as int,
                delete_start as int,
                num_deleted_lines as int,
            );
            lemma_remove_lines(
                self.commit_line_end@,
                self.commit_indexes@,
                ends@,
                origins@,
                first as int,
                last as int,
                delete_start as int,
                num_deleted_lines as int,
            );
        }
        self.commit_line_end = ends;
        self.commit_indexes = origins;
        results
    }
}

} // verus!
