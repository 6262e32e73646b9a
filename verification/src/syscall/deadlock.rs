//! Banker's-algorithm safety check.
//!
//! A snapshot lists, for `n` tasks and `m` resource kinds, how many units of
//! each kind are free (`available`), how many each task holds
//! (`allocation`), how many more each task asks for (`need`), and which tasks
//! are already out of the picture (`finished`). The state is safe when the
//! pending tasks can be ordered so that each one's need fits in what is free
//! plus what the tasks before it give back.
use vstd::prelude::*;
use vstd::set_lib::{set_int_range, lemma_int_range, lemma_len_subset};

verus! {

/// The mathematical content of one safety query.
pub struct AllocationState {
    pub available: Seq<usize>,
    pub allocation: Seq<Seq<usize>>,
    pub need: Seq<Seq<usize>>,
    pub finished: Seq<bool>,
}

/// Sum of column `j` of `alloc` over the rows listed in `rows`.
pub open spec fn col_sum(alloc: Seq<Seq<usize>>, rows: Seq<int>, j: int) -> int
    decreases rows.len(),
{
    if rows.len() == 0 {
        0
    } else {
        col_sum(alloc, rows.drop_last(), j) + alloc[rows.last()][j]
    }
}

/// The views of the rows of a matrix held as vectors.
pub open spec fn rows_view(rows: Seq<Vec<usize>>) -> Seq<Seq<usize>> {
    rows.map_values(|r: Vec<usize>| r@)
}

impl AllocationState {
    pub open spec fn num_tasks(self) -> int {
        self.finished.len() as int
    }

    pub open spec fn num_kinds(self) -> int {
        self.available.len() as int
    }

    /// Task `i`'s need fits, in every kind, within what is free once the
    /// tasks in `done` have returned what they hold.
    pub open spec fn can_run(self, done: Seq<int>, i: int) -> bool {
        forall|j: int|
            0 <= j < self.num_kinds() ==> #[trigger] self.need[i][j] <= self.available[j]
                + col_sum(self.allocation, done, j)
    }

    /// `s` lists distinct pending tasks, each of which can run once those
    /// before it have finished.
    pub open spec fn is_safe_sequence(self, s: Seq<int>) -> bool {
        &&& s.no_duplicates()
        &&& forall|k: int|
            0 <= k < s.len() ==> 0 <= #[trigger] s[k] < self.num_tasks() && !self.finished[s[k]]
        &&& forall|k: int| 0 <= k < s.len() ==> self.can_run(s.take(k), #[trigger] s[k])
    }

    /// Some safe sequence lets task `i` finish.
    pub open spec fn finishable(self, i: int) -> bool {
        exists|s: Seq<int>| #[trigger] self.is_safe_sequence(s) && s.contains(i)
    }

    /// Some safe sequence holds every pending task.
    pub open spec fn is_safe(self) -> bool {
        exists|s: Seq<int>|
            #[trigger] self.is_safe_sequence(s) && forall|i: int|
                0 <= i < self.num_tasks() && !self.finished[i] ==> s.contains(i)
    }

    /// The finishable tasks below `k`, in increasing order.
    pub open spec fn finishable_rows(self, k: int) -> Seq<int>
        decreases k,
    {
        if k <= 0 {
            Seq::empty()
        } else if self.finishable(k - 1) {
            self.finishable_rows(k - 1).push(k - 1)
        } else {
            self.finishable_rows(k - 1)
        }
    }

    /// What the finishable tasks hold, added to what is free, fits in a
    /// `usize` in every kind.
    pub open spec fn returns_fit(self) -> bool {
        forall|j: int|
            0 <= j < self.num_kinds() ==> self.available[j] + col_sum(
                self.allocation,
                self.finishable_rows(self.num_tasks()),
                j,
            ) <= usize::MAX
    }
}

pub proof fn lemma_col_sum_push(alloc: Seq<Seq<usize>>, rows: Seq<int>, i: int, j: int)
    ensures
        col_sum(alloc, rows.push(i), j) == col_sum(alloc, rows, j) + alloc[i][j],
{
    assert(rows.push(i).drop_last() =~= rows);
}

pub proof fn lemma_col_sum_nonneg(alloc: Seq<Seq<usize>>, rows: Seq<int>, j: int)
    ensures
        col_sum(alloc, rows, j) >= 0,
    decreases rows.len(),
{
    if rows.len() > 0 {
        lemma_col_sum_nonneg(alloc, rows.drop_last(), j);
    }
}

proof fn lemma_col_sum_remove(alloc: Seq<Seq<usize>>, rows: Seq<int>, k: int, j: int)
    requires
        0 <= k < rows.len(),
    ensures
        col_sum(alloc, rows, j) == col_sum(alloc, rows.remove(k), j) + alloc[rows[k]][j],
    decreases rows.len(),
{
    if k == rows.len() - 1 {
        assert(rows.remove(k) =~= rows.drop_last());
    } else {
        lemma_col_sum_remove(alloc, rows.drop_last(), k, j);
        assert(rows.remove(k).drop_last() =~= rows.drop_last().remove(k));
        assert(rows.remove(k).last() == rows.last());
    }
}

/// Over distinct rows, a sub-collection sums to no more than the whole.
pub proof fn lemma_col_sum_subset(alloc: Seq<Seq<usize>>, a: Seq<int>, b: Seq<int>, j: int)
    requires
        a.no_duplicates(),
        b.no_duplicates(),
        forall|x: int| a.contains(x) ==> b.contains(x),
    ensures
        col_sum(alloc, a, j) <= col_sum(alloc, b, j),
    decreases a.len(),
{
    if a.len() == 0 {
        lemma_col_sum_nonneg(alloc, b, j);
    } else {
        let x = a.last();
        let a2 = a.drop_last();
        assert(a.contains(x)) by {
            assert(a[a.len() - 1] == x);
        }
        let k = b.index_of(x);
        let b2 = b.remove(k);
        assert forall|y: int| a2.contains(y) implies b2.contains(y) by {
            let ya = a2.index_of(y);
            assert(a[ya] == y);
            assert(a.contains(y));
            assert(y != x);
            let yb = b.index_of(y);
            if yb < k {
                assert(b2[yb] == y);
            } else {
                assert(yb != k);
                assert(b2[yb - 1] == y);
            }
        }
        assert(b2.no_duplicates()) by {
            assert forall|p: int, q: int| 0 <= p < q < b2.len() implies b2[p] != b2[q] by {
                let pp = if p < k { p } else { p + 1 };
                let qq = if q < k { q } else { q + 1 };
                assert(b2[p] == b[pp]);
                assert(b2[q] == b[qq]);
            }
        }
        assert(a2.no_duplicates()) by {
            assert forall|p: int, q: int| 0 <= p < q < a2.len() implies a2[p] != a2[q] by {
                assert(a2[p] == a[p]);
                assert(a2[q] == a[q]);
            }
        }
        lemma_col_sum_subset(alloc, a2, b2, j);
        lemma_col_sum_remove(alloc, b, k, j);
    }
}

pub proof fn lemma_finishable_rows(st: AllocationState, k: int)
    ensures
        st.finishable_rows(k).no_duplicates(),
        forall|x: int|
            #[trigger] st.finishable_rows(k).contains(x) <==> 0 <= x < k && st.finishable(x),
    decreases k,
{
    if k > 0 {
        lemma_finishable_rows(st, k - 1);
        let r = st.finishable_rows(k - 1);
        if st.finishable(k - 1) {
            let t = r.push(k - 1);
            assert forall|p: int, q: int| 0 <= p < q < t.len() implies #[trigger] t[p]
                != #[trigger] t[q] by {
                if q == r.len() {
                    assert(r.contains(r[p]));
                } else {
                    assert(t[p] == r[p]);
                    assert(t[q] == r[q]);
                }
            }
            assert forall|x: int| #[trigger] r.push(k - 1).contains(x) <==> 0 <= x < k
                && st.finishable(x) by {
                if x == k - 1 {
                    assert(r.push(k - 1)[r.len() as int] == x);
                }
                if r.push(k - 1).contains(x) && x != k - 1 {
                    let i = r.push(k - 1).index_of(x);
                    assert(r[i] == x);
                }
                if r.contains(x) {
                    let i = r.index_of(x);
                    assert(r.push(k - 1)[i] == x);
                }
            }
        }
    }
}

/// Every element of a safe sequence is finishable.
proof fn lemma_safe_sequence_finishable(st: AllocationState, s: Seq<int>)
    requires
        st.is_safe_sequence(s),
    ensures
        forall|x: int| s.contains(x) ==> st.finishable(x),
{
}

/// A safe sequence holds no more tasks than there are.
proof fn lemma_safe_sequence_len(st: AllocationState, s: Seq<int>)
    requires
        st.is_safe_sequence(s),
    ensures
        s.len() <= st.num_tasks(),
{
    let r = set_int_range(0, st.num_tasks());
    lemma_int_range(0, st.num_tasks());
    assert(s.to_set().subset_of(r)) by {
        assert forall|x: int| s.to_set().contains(x) implies r.contains(x) by {
            let k = s.index_of(x);
            assert(s[k] == x);
        }
    }
    lemma_len_subset(s.to_set(), r);
    s.unique_seq_to_set();
}

/// A safe sequence extended by a task that can run after it stays safe.
proof fn lemma_safe_sequence_push(st: AllocationState, s: Seq<int>, i: int)
    requires
        st.is_safe_sequence(s),
        0 <= i < st.num_tasks(),
        !st.finished[i],
        !s.contains(i),
        st.can_run(s, i),
    ensures
        st.is_safe_sequence(s.push(i)),
{
    let t = s.push(i);
    assert forall|k: int| 0 <= k < t.len() implies st.can_run(t.take(k), #[trigger] t[k]) by {
        if k < s.len() {
            assert(t.take(k) =~= s.take(k));
            assert(t[k] == s[k]);
        } else {
            assert(t.take(k) =~= s);
        }
    }
    assert forall|p: int, q: int| 0 <= p < q < t.len() implies t[p] != t[q] by {
        if q == s.len() {
            assert(s[p] == t[p]);
        }
    }
}

proof fn lemma_first_missing(s: Seq<int>, order: Seq<int>, t: int) -> (k: int)
    requires
        0 <= t <= s.len(),
        exists|x: int| 0 <= x < t && !order.contains(#[trigger] s[x]),
    ensures
        0 <= k < t,
        !order.contains(s[k]),
        forall|x: int| 0 <= x < k ==> order.contains(#[trigger] s[x]),
    decreases t,
{
    if exists|x: int| 0 <= x < t - 1 && !order.contains(#[trigger] s[x]) {
        lemma_first_missing(s, order, t - 1)
    } else {
        t - 1
    }
}

/// When no pending task outside the safe sequence `order` can run after it,
/// `order` already holds every finishable task: what a task could get back
/// from any other safe sequence is no more than what `order` gives back.
proof fn lemma_stuck_is_complete(st: AllocationState, order: Seq<int>)
    requires
        st.is_safe_sequence(order),
        forall|i: int|
            0 <= i < st.num_tasks() && !st.finished[i] && !order.contains(i) ==> !st.can_run(
                order,
                i,
            ),
    ensures
        forall|i: int| st.finishable(i) ==> order.contains(i),
{
    assert forall|i: int| st.finishable(i) implies order.contains(i) by {
        let s = choose|s: Seq<int>| #[trigger] st.is_safe_sequence(s) && s.contains(i);
        if !order.contains(i) {
            let xi = s.index_of(i);
            assert(s[xi] == i);
            let k = lemma_first_missing(s, order, s.len() as int);
            let p = s[k];
            let pre = s.take(k);
            assert(pre.no_duplicates()) by {
                assert forall|a: int, b: int| 0 <= a < b < pre.len() implies pre[a] != pre[b] by {
                    assert(pre[a] == s[a]);
                    assert(pre[b] == s[b]);
                }
            }
            assert forall|x: int| pre.contains(x) implies order.contains(x) by {
                let y = pre.index_of(x);
                assert(pre[y] == s[y]);
            }
            assert(st.can_run(pre, p));
            assert(!st.can_run(order, p));
            let j = choose|j: int|
                0 <= j < st.num_kinds() && !(#[trigger] st.need[p][j] <= st.available[j]
                    + col_sum(st.allocation, order, j));
            lemma_col_sum_subset(st.allocation, pre, order, j);
            assert(false);
        }
    }
}

fn row_fits(row: &Vec<usize>, work: &Vec<usize>) -> (ok: bool)
    requires
        row@.len() >= work@.len(),
    ensures
        ok == forall|j: int| 0 <= j < work@.len() ==> row@[j] <= work@[j],
{
    let mut j: usize = 0;
    while j < work.len()
        invariant
            j <= work@.len(),
            row@.len() >= work@.len(),
            forall|jj: int| 0 <= jj < j ==> row@[jj] <= work@[jj],
        decreases work@.len() - j,
    {
        if row[j] > work[j] {
            return false;
        }
        j = j + 1;
    }
    true
}

/// Finds the first task that has not finished and whose need fits in `work`.
fn find_runnable(need: &[Vec<usize>], work: &Vec<usize>, finish: &[bool]) -> (found: Option<
    usize,
>)
    requires
        need@.len() >= finish@.len(),
        forall|i: int| 0 <= i < finish@.len() ==> need@[i]@.len() >= work@.len(),
    ensures
        match found {
            Some(i) => i < finish@.len() && !finish@[i as int] && forall|j: int|
                0 <= j < work@.len() ==> need@[i as int]@[j] <= work@[j],
            None => forall|i: int|
                0 <= i < finish@.len() && !finish@[i] ==> exists|j: int|
                    0 <= j < work@.len() && need@[i]@[j] > work@[j],
        },
{
    let n = finish.len();
    let mut i: usize = 0;
    while i < n
        invariant
            n == finish@.len(),
            i <= n,
            need@.len() >= finish@.len(),
            forall|k: int| 0 <= k < finish@.len() ==> need@[k]@.len() >= work@.len(),
            forall|k: int|
                0 <= k < i && !finish@[k] ==> exists|j: int|
                    0 <= j < work@.len() && need@[k]@[j] > work@[j],
        decreases n - i,
    {
        if !finish[i] {
            if row_fits(&need[i], work) {
                return Some(i);
            }
        }
        i = i + 1;
    }
    None
}

/// The snapshot that a call of `safe_check` examines.
pub open spec fn snapshot(
    available: Seq<usize>,
    allocation: Seq<Vec<usize>>,
    need: Seq<Vec<usize>>,
    finished: Seq<bool>,
) -> AllocationState {
    AllocationState {
        available,
        allocation: rows_view(allocation),
        need: rows_view(need),
        finished,
    }
}

/// Banker's-algorithm safety check. Tasks marked in `finish` take no part;
/// the others are finished greedily, each returning what it holds, until no
/// further one fits. On return `finish` marks exactly the tasks that were
/// marked or that some safe sequence lets finish, and the result says
/// whether every task is marked, which holds exactly when the state is safe.
pub fn safe_check(
    available: &[usize],
    allocation: &[Vec<usize>],
    need: &[Vec<usize>],
    finish: &mut [bool],
) -> (all_done: bool)
    requires
        allocation@.len() >= old(finish)@.len(),
        need@.len() >= old(finish)@.len(),
        forall|i: int|
            0 <= i < old(finish)@.len() ==> allocation@[i]@.len() >= available@.len()
                && need@[i]@.len() >= available@.len(),
        snapshot(available@, allocation@, need@, old(finish)@).returns_fit(),
    ensures
        final(finish)@.len() == old(finish)@.len(),
        forall|i: int|
            0 <= i < old(finish)@.len() ==> final(finish)@[i] == (old(finish)@[i] || snapshot(
                available@,
                allocation@,
                need@,
                old(finish)@,
            ).finishable(i)),
        all_done == snapshot(available@, allocation@, need@, old(finish)@).is_safe(),
        all_done == forall|i: int| 0 <= i < final(finish)@.len() ==> final(finish)@[i],
{
    let ghost st = snapshot(available@, allocation@, need@, finish@);
    let ghost finished0 = finish@;
    let m = available.len();
    let n = finish.len();
    let mut work: Vec<usize> = vstd::slice::slice_to_vec(available);
    let ghost mut order: Seq<int> = Seq::empty();
    proof {
        lemma_finishable_rows(st, n as int);
        assert(st.is_safe_sequence(order));
        assert forall|j: int| 0 <= j < m implies work@[j] == st.available[j] + col_sum(
            st.allocation,
            order,
            j,
        ) by {}
    }
    loop
        invariant
            st == snapshot(available@, allocation@, need@, finished0),
            n == finish@.len(),
            n == finished0.len(),
            m == available@.len(),
            work@.len() == m,
            allocation@.len() >= n,
            need@.len() >= n,
            forall|i: int|
                0 <= i < n ==> allocation@[i]@.len() >= m && need@[i]@.len() >= m,
            st.returns_fit(),
            st.finishable_rows(n as int).no_duplicates(),
            forall|x: int|
                #[trigger] st.finishable_rows(n as int).contains(x) <==> 0 <= x < n
                    && st.finishable(x),
            st.is_safe_sequence(order),
            forall|i: int| 0 <= i < n ==> finish@[i] == (finished0[i] || order.contains(i)),
            forall|j: int|
                0 <= j < m ==> work@[j] == st.available[j] + col_sum(st.allocation, order, j),
        ensures
            forall|i: int|
                0 <= i < n && !st.finished[i] && !order.contains(i) ==> !st.can_run(order, i),
        decreases n - order.len(),
    {
        proof {
            lemma_safe_sequence_len(st, order);
        }
        let found = find_runnable(need, &work, finish);
        match found {
            None => {
                proof {
                    assert forall|i: int|
                        0 <= i < n && !st.finished[i] && !order.contains(i) implies !st.can_run(
                        order,
                        i,
                    ) by {
                        assert(!finish@[i]);
                        let j = choose|j: int|
                            0 <= j < work@.len() && need@[i]@[j] > work@[j];
                        assert(st.need[i][j] == need@[i]@[j]);
                        assert(work@[j] == st.available[j] + col_sum(st.allocation, order, j));
                    }
                }
                break ;
            },
            Some(i) => {
                let ghost next = order.push(i as int);
                proof {
                    assert(!order.contains(i as int));
                    assert forall|j: int| 0 <= j < m implies #[trigger] st.need[i as int][j]
                        <= st.available[j] + col_sum(st.allocation, order, j) by {
                        assert(st.need[i as int][j] == need@[i as int]@[j]);
                        assert(need@[i as int]@[j] <= work@[j]);
                    }
                    lemma_safe_sequence_push(st, order, i as int);
                    lemma_safe_sequence_finishable(st, next);
                    lemma_safe_sequence_len(st, next);
                }
                let mut j: usize = 0;
                while j < m
                    invariant
                        st == snapshot(available@, allocation@, need@, finished0),
                        m == available@.len(),
                        work@.len() == m,
                        j <= m,
                        i < n,
                        n == finished0.len(),
                        allocation@.len() >= n,
                        forall|k: int| 0 <= k < n ==> allocation@[k]@.len() >= m,
                        st.returns_fit(),
                        st.finishable_rows(n as int).no_duplicates(),
                        forall|x: int|
                            #[trigger] st.finishable_rows(n as int).contains(x) <==> 0 <= x < n
                                && st.finishable(x),
                        next == order.push(i as int),
                        n == finish@.len(),
                        forall|k: int|
                            0 <= k < n ==> finish@[k] == (finished0[k] || order.contains(k)),
                        st.is_safe_sequence(next),
                        forall|x: int| next.contains(x) ==> st.finishable(x),
                        forall|jj: int|
                            0 <= jj < j ==> work@[jj] == st.available[jj] + col_sum(
                                st.allocation,
                                next,
                                jj,
                            ),
                        forall|jj: int|
                            j <= jj < m ==> work@[jj] == st.available[jj] + col_sum(
                                st.allocation,
                                order,
                                jj,
                            ),
                    decreases m - j,
                {
                    proof {
                        lemma_col_sum_push(st.allocation, order, i as int, j as int);
                        assert(st.allocation[i as int][j as int] == allocation@[i as int]@[j as int]);
                        assert forall|x: int| next.contains(x) implies st.finishable_rows(
                            n as int,
                        ).contains(x) by {
                            let y = next.index_of(x);
                            assert(next[y] == x);
                        }
                        lemma_col_sum_subset(
                            st.allocation,
                            next,
                            st.finishable_rows(n as int),
                            j as int,
                        );
                    }
                    let v = work[j] + allocation[i][j];
                    work[j] = v;
                    j = j + 1;
                }
                let ghost before = finish@;
                finish[i] = true;
                proof {
                    assert forall|k: int| 0 <= k < n implies finish@[k] == (finished0[k]
                        || next.contains(k)) by {
                        if k == i as int {
                            assert(next[next.len() - 1] == k);
                        } else {
                            assert(finish@[k] == before[k]);
                            if order.contains(k) {
                                let y = order.index_of(k);
                                assert(next[y] == k);
                            }
                            if next.contains(k) {
                                let y = next.index_of(k);
                                assert(order[y] == k);
                            }
                        }
                    }
                    order = next;
                }
            },
        }
    }
    proof {
        lemma_stuck_is_complete(st, order);
        lemma_safe_sequence_finishable(st, order);
    }
    let mut all = true;
    let mut k: usize = 0;
    while k < n
        invariant
            n == finish@.len(),
            k <= n,
            all == forall|x: int| 0 <= x < k ==> finish@[x],
        decreases n - k,
    {
        if !finish[k] {
            all = false;
        }
        k = k + 1;
    }
    proof {
        if all {
            assert forall|i: int| 0 <= i < n && !st.finished[i] implies order.contains(i) by {
                assert(finish@[i]);
            }
        } else {
            let i = choose|i: int| 0 <= i < n && !finish@[i];
            if st.is_safe() {
                let s = choose|s: Seq<int>|
                    #[trigger] st.is_safe_sequence(s) && forall|x: int|
                        0 <= x < st.num_tasks() && !st.finished[x] ==> s.contains(x);
                assert(s.contains(i));
                assert(st.finishable(i));
            }
        }
    }
    all
}

} // verus!
