//! Bookkeeping of a process's mutexes, semaphores and condition variables,
//! with banker's-algorithm deadlock avoidance.
//!
//! The handles themselves (`M`, `S`, `C`) are opaque to this module: it
//! decides, and the caller does the blocking work. A call that may block is
//! split in two: the first half answers `SyncStep::Done(code)` (return that
//! code) or `SyncStep::Proceed` (do the blocking operation on the handle,
//! then call the second half).
//!
//! Threads are numbered by their slot in the process's thread table; a
//! `&[bool]` argument `alive` tells, slot by slot, whether a thread is
//! there.
use vstd::prelude::*;
use crate::syscall::deadlock::{
    AllocationState, col_sum, rows_view, safe_check, snapshot, lemma_col_sum_subset,
    lemma_finishable_rows, lemma_col_sum_push, lemma_col_sum_nonneg,
};

verus! {

/// What the mutex and semaphore calls answer when waiting would make the
/// process unsafe.
pub const DEADLOCK_ERR: isize = -0xDEAD;

/// `s` lengthened with copies of `v` up to length `n`, or `s` itself when it
/// is long enough.
pub open spec fn pad<T>(s: Seq<T>, n: int, v: T) -> Seq<T> {
    if s.len() < n {
        s + Seq::new((n - s.len()) as nat, |_i: int| v)
    } else {
        s
    }
}

pub open spec fn zero_row(m: int) -> Seq<usize> {
    Seq::new(m as nat, |_j: int| 0usize)
}

/// `s[i]` where it exists, `None` past the end.
pub open spec fn opt_at(s: Seq<Option<usize>>, i: int) -> Option<usize> {
    if 0 <= i < s.len() {
        s[i]
    } else {
        None
    }
}

/// The indices `0 .. n` in order.
pub open spec fn all_rows(n: int) -> Seq<int> {
    Seq::new(n as nat, |i: int| i)
}

/// The index of the first empty slot of `s`, when `s` has one.
pub open spec fn is_first_free<T>(s: Seq<Option<T>>, k: int) -> bool {
    &&& 0 <= k < s.len()
    &&& s[k] is None
    &&& forall|j: int| 0 <= j < k ==> s[j] is Some
}

pub open spec fn has_free<T>(s: Seq<Option<T>>) -> bool {
    exists|k: int| 0 <= k < s.len() && #[trigger] s[k] is None
}

/// The slot table after storing `x` in the first empty slot, or at the end.
pub open spec fn slot_store<T>(s: Seq<Option<T>>, id: int, x: T) -> Seq<Option<T>> {
    if id < s.len() {
        s.update(id, Some(x))
    } else {
        s.push(Some(x))
    }
}

/// The abstract content of a process's synchronisation tables.
#[verifier::ext_equal]
pub struct SyncView<M, S, C> {
    pub mutex_list: Seq<Option<M>>,
    pub semaphore_list: Seq<Option<S>>,
    pub condvar_list: Seq<Option<C>>,
    pub mutex_waiting: Seq<Option<usize>>,
    pub sem_waiting: Seq<Option<usize>>,
    pub sem_alloc: Seq<Seq<usize>>,
    pub sem_total: Seq<usize>,
    pub mutex_owner: Seq<Option<usize>>,
    pub deadlock_detect_enabled: bool,
}

/// A process's synchronisation tables.
///
/// `mutex_owner[id]` is the thread holding mutex `id`; `mutex_waiting[t]`
/// and `sem_waiting[t]` are what thread `t` waits for; `sem_alloc[t][id]`
/// counts the units of semaphore `id` that thread `t` holds, and
/// `sem_total[id]` the units that semaphore was created with.
pub struct SyncState<M, S, C> {
    pub mutex_list: Vec<Option<M>>,
    pub semaphore_list: Vec<Option<S>>,
    pub condvar_list: Vec<Option<C>>,
    pub mutex_waiting: Vec<Option<usize>>,
    pub sem_waiting: Vec<Option<usize>>,
    pub sem_alloc: Vec<Vec<usize>>,
    pub sem_total: Vec<usize>,
    pub mutex_owner: Vec<Option<usize>>,
    pub deadlock_detect_enabled: bool,
}

impl<M, S, C> View for SyncState<M, S, C> {
    type V = SyncView<M, S, C>;

    open spec fn view(&self) -> SyncView<M, S, C> {
        SyncView {
            mutex_list: self.mutex_list@,
            semaphore_list: self.semaphore_list@,
            condvar_list: self.condvar_list@,
            mutex_waiting: self.mutex_waiting@,
            sem_waiting: self.sem_waiting@,
            sem_alloc: rows_view(self.sem_alloc@),
            sem_total: self.sem_total@,
            mutex_owner: self.mutex_owner@,
            deadlock_detect_enabled: self.deadlock_detect_enabled,
        }
    }
}

impl<M, S, C> SyncView<M, S, C> {
    /// The tables once sized for `n` threads and for the primitives that
    /// exist: missing entries are empty, missing counts zero.
    pub open spec fn prepared(self, n: int) -> Self {
        let m = self.semaphore_list.len() as int;
        SyncView {
            mutex_waiting: pad(self.mutex_waiting, n, None),
            sem_waiting: pad(self.sem_waiting, n, None),
            sem_alloc: pad(self.sem_alloc, n, zero_row(m)).map_values(
                |r: Seq<usize>| pad(r, m, 0usize),
            ),
            sem_total: pad(self.sem_total, m, 0usize),
            mutex_owner: pad(self.mutex_owner, self.mutex_list.len() as int, None),
            ..self
        }
    }
}

fn pad_none(v: &mut Vec<Option<usize>>, n: usize)
    ensures
        final(v)@ == pad(old(v)@, n as int, None),
{
    let ghost v0 = v@;
    while v.len() < n
        invariant
            v@.len() <= if v0.len() < n { n as int } else { v0.len() as int },
            v@.len() >= v0.len(),
            v@ =~= v0 + Seq::new((v@.len() - v0.len()) as nat, |_i: int| None::<usize>),
        decreases n - v@.len(),
    {
        v.push(None);
    }
    assert(v@ =~= pad(v0, n as int, None));
}

fn pad_zeros(v: &mut Vec<usize>, n: usize)
    ensures
        final(v)@ == pad(old(v)@, n as int, 0usize),
{
    let ghost v0 = v@;
    while v.len() < n
        invariant
            v@.len() <= if v0.len() < n { n as int } else { v0.len() as int },
            v@.len() >= v0.len(),
            v@ =~= v0 + Seq::new((v@.len() - v0.len()) as nat, |_i: int| 0usize),
        decreases n - v@.len(),
    {
        v.push(0);
    }
    assert(v@ =~= pad(v0, n as int, 0usize));
}

fn zeros(m: usize) -> (v: Vec<usize>)
    ensures
        v@ == zero_row(m as int),
{
    let mut v: Vec<usize> = Vec::new();
    pad_zeros(&mut v, m);
    assert(v@ =~= zero_row(m as int));
    v
}

/// Adds zero rows of width `m` up to `n` rows, then lengthens every row to
/// width `m` with zeros.
fn pad_rows(rows: &mut Vec<Vec<usize>>, n: usize, m: usize)
    ensures
        rows_view(final(rows)@) == pad(rows_view(old(rows)@), n as int, zero_row(m as int)).map_values(
            |r: Seq<usize>| pad(r, m as int, 0usize),
        ),
{
    let ghost rows0 = rows_view(rows@);
    while rows.len() < n
        invariant
            rows@.len() <= if rows0.len() < n { n as int } else { rows0.len() as int },
            rows@.len() >= rows0.len(),
            rows_view(rows@) =~= rows0 + Seq::new(
                (rows@.len() - rows0.len()) as nat,
                |_i: int| zero_row(m as int),
            ),
        decreases n - rows@.len(),
    {
        let z = zeros(m);
        let ghost before = rows_view(rows@);
        rows.push(z);
        assert(rows_view(rows@) =~= before.push(zero_row(m as int)));
    }
    let ghost rows1 = rows_view(rows@);
    assert(rows1 =~= pad(rows0, n as int, zero_row(m as int)));
    let mut i: usize = 0;
    while i < rows.len()
        invariant
            i <= rows@.len(),
            rows@.len() == rows1.len(),
            forall|k: int| 0 <= k < i ==> rows@[k]@ == pad(rows1[k], m as int, 0usize),
            forall|k: int| i <= k < rows1.len() ==> rows@[k]@ == rows1[k],
        decreases rows1.len() - i,
    {
        pad_zeros(&mut rows[i], m);
        i = i + 1;
    }
    assert(rows_view(rows@) =~= rows1.map_values(|r: Seq<usize>| pad(r, m as int, 0usize)));
}

/// Sizes the tables for `task_count` threads and for the primitives that
/// exist, keeping every entry already there.
pub fn ensure_deadlock_state<M, S, C>(st: &mut SyncState<M, S, C>, task_count: usize)
    ensures
        final(st)@ == old(st)@.prepared(task_count as int),
{
    let ghost old_view = st@;
    let n = task_count;
    pad_none(&mut st.mutex_waiting, n);
    pad_none(&mut st.sem_waiting, n);
    let m_sem = st.semaphore_list.len();
    let mut rows: Vec<Vec<usize>> = Vec::new();
    std::mem::swap(&mut rows, &mut st.sem_alloc);
    pad_rows(&mut rows, n, m_sem);
    std::mem::swap(&mut rows, &mut st.sem_alloc);
    pad_zeros(&mut st.sem_total, m_sem);
    let ml = st.mutex_list.len();
    pad_none(&mut st.mutex_owner, ml);
    assert(st@ =~= old_view.prepared(n as int));
}


/// A row of width `m` with a one at column `hot` and zeros elsewhere.
pub open spec fn indicator_row(m: int, hot: Option<usize>) -> Seq<usize> {
    Seq::new(m as nat, |j: int| if hot == Some(j as usize) { 1usize } else { 0usize })
}

impl<M, S, C> SyncView<M, S, C> {
    pub open spec fn mutex_owner_of(self, id: int) -> Option<usize> {
        opt_at(self.mutex_owner, id)
    }

    pub open spec fn mutex_waiting_of(self, t: int) -> Option<usize> {
        opt_at(self.mutex_waiting, t)
    }

    pub open spec fn sem_waiting_of(self, t: int) -> Option<usize> {
        opt_at(self.sem_waiting, t)
    }

    /// The banker's snapshot of the mutexes: each mutex is one unit, free
    /// unless owned, held by its owner, asked for by the threads waiting on
    /// it; empty thread slots take no part.
    pub open spec fn mutex_snapshot(self, alive: Seq<bool>) -> AllocationState {
        let n = alive.len() as int;
        let m = self.mutex_list.len() as int;
        AllocationState {
            available: Seq::new(
                m as nat,
                |id: int| if self.mutex_owner_of(id) is Some { 0usize } else { 1usize },
            ),
            allocation: Seq::new(
                n as nat,
                |i: int|
                    Seq::new(
                        m as nat,
                        |id: int|
                            if self.mutex_owner_of(id) == Some(i as usize) {
                                1usize
                            } else {
                                0usize
                            },
                    ),
            ),
            need: Seq::new(n as nat, |i: int| indicator_row(m, self.mutex_waiting_of(i))),
            finished: Seq::new(n as nat, |i: int| !alive[i]),
        }
    }

    /// Units of semaphore `j` held by thread `i`, zero where unrecorded.
    pub open spec fn sem_held(self, i: int, j: int) -> usize {
        if 0 <= i < self.sem_alloc.len() && 0 <= j < self.sem_alloc[i].len() {
            self.sem_alloc[i][j]
        } else {
            0usize
        }
    }

    pub open spec fn sem_held_matrix(self, n: int) -> Seq<Seq<usize>> {
        Seq::new(
            n as nat,
            |i: int| Seq::new(self.semaphore_list.len(), |j: int| self.sem_held(i, j)),
        )
    }

    /// Units of semaphore `j` held by the first `n` threads together.
    pub open spec fn sem_used(self, n: int, j: int) -> int {
        col_sum(self.sem_held_matrix(n), all_rows(n), j)
    }

    pub open spec fn sem_total_of(self, j: int) -> usize {
        if 0 <= j < self.sem_total.len() {
            self.sem_total[j]
        } else {
            0usize
        }
    }

    /// What the threads hold of each semaphore adds up within a `usize`.
    pub open spec fn sem_held_fits(self, n: int) -> bool {
        forall|j: int|
            0 <= j < self.semaphore_list.len() ==> #[trigger] self.sem_used(n, j) <= usize::MAX
    }

    /// The banker's snapshot of the semaphores: free units are the total
    /// less what the threads hold (never below zero); a waiting thread asks
    /// for one unit.
    pub open spec fn sem_snapshot(self, alive: Seq<bool>) -> AllocationState {
        let n = alive.len() as int;
        let m = self.semaphore_list.len() as int;
        AllocationState {
            available: Seq::new(
                m as nat,
                |j: int|
                    if self.sem_total_of(j) >= self.sem_used(n, j) {
                        (self.sem_total_of(j) - self.sem_used(n, j)) as usize
                    } else {
                        0usize
                    },
            ),
            allocation: self.sem_held_matrix(n),
            need: Seq::new(n as nat, |i: int| indicator_row(m, self.sem_waiting_of(i))),
            finished: Seq::new(n as nat, |i: int| !alive[i]),
        }
    }
}

proof fn lemma_all_rows(n: int)
    requires
        n >= 0,
    ensures
        all_rows(n).no_duplicates(),
        forall|x: int| #[trigger] all_rows(n).contains(x) <==> 0 <= x < n,
{
    assert forall|x: int| 0 <= x < n implies #[trigger] all_rows(n).contains(x) by {
        assert(all_rows(n)[x] == x);
    }
}

/// The rows of a column holding a single one at `o` (or none) sum to one
/// exactly when `o` is among them.
proof fn lemma_indicator_col_sum(alloc: Seq<Seq<usize>>, k: int, j: int, o: Option<usize>)
    requires
        0 <= k <= usize::MAX,
        forall|i: int| 0 <= i < k ==> alloc[i][j] == if o == Some(i as usize) { 1usize } else { 0usize },
    ensures
        col_sum(alloc, all_rows(k), j) == if o is Some && o.unwrap() < k { 1int } else { 0int },
    decreases k,
{
    if k > 0 {
        assert(all_rows(k).drop_last() =~= all_rows(k - 1));
        assert(all_rows(k).last() == k - 1);
        assert(alloc[k - 1][j] == if o == Some((k - 1) as usize) { 1usize } else { 0usize });
        lemma_indicator_col_sum(alloc, k - 1, j, o);
    }
}

/// The finishable tasks of a snapshot hold no more than all its tasks.
proof fn lemma_returns_within_all(st: AllocationState, j: int)
    ensures
        col_sum(st.allocation, st.finishable_rows(st.num_tasks()), j) <= col_sum(
            st.allocation,
            all_rows(st.num_tasks()),
            j,
        ),
{
    lemma_finishable_rows(st, st.num_tasks());
    lemma_all_rows(st.num_tasks());
    lemma_col_sum_subset(st.allocation, st.finishable_rows(st.num_tasks()), all_rows(st.num_tasks()), j);
}

fn opt_get(v: &Vec<Option<usize>>, i: usize) -> (r: Option<usize>)
    ensures
        r == opt_at(v@, i as int),
{
    if i < v.len() {
        v[i]
    } else {
        None
    }
}

fn make_indicator_row(m: usize, hot: Option<usize>) -> (row: Vec<usize>)
    ensures
        row@ == indicator_row(m as int, hot),
{
    let mut row: Vec<usize> = Vec::new();
    let mut j: usize = 0;
    while j < m
        invariant
            j <= m,
            row@ =~= indicator_row(j as int, hot),
        decreases m - j,
    {
        let v: usize = match hot {
            Some(h) => if h == j { 1 } else { 0 },
            None => 0,
        };
        row.push(v);
        j = j + 1;
    }
    row
}

fn finished_flags(alive: &[bool]) -> (finish: Vec<bool>)
    ensures
        finish@ == Seq::new(alive@.len(), |i: int| !alive@[i]),
{
    let mut finish: Vec<bool> = Vec::new();
    let mut i: usize = 0;
    while i < alive.len()
        invariant
            i <= alive@.len(),
            finish@ =~= Seq::new(i as nat, |k: int| !alive@[k]),
        decreases alive@.len() - i,
    {
        finish.push(!alive[i]);
        i = i + 1;
    }
    finish
}

impl<M, S, C> SyncState<M, S, C> {
    /// Whether the process stays safe with the mutexes as they are owned
    /// and waited for now.
    pub fn mutex_safe(&self, alive: &[bool]) -> (safe: bool)
        ensures
            safe == self@.mutex_snapshot(alive@).is_safe(),
    {
        let ghost spec_st = self@.mutex_snapshot(alive@);
        let n = alive.len();
        let m = self.mutex_list.len();
        let mut available: Vec<usize> = Vec::new();
        let mut mid: usize = 0;
        while mid < m
            invariant
                m == self.mutex_list@.len(),
                mid <= m,
                spec_st == self@.mutex_snapshot(alive@),
                available@ =~= spec_st.available.take(mid as int),
            decreases m - mid,
        {
            let owner = opt_get(&self.mutex_owner, mid);
            available.push(if owner.is_some() { 0 } else { 1 });
            mid = mid + 1;
        }
        let mut allocation: Vec<Vec<usize>> = Vec::new();
        let mut need: Vec<Vec<usize>> = Vec::new();
        let mut i: usize = 0;
        while i < n
            invariant
                n == alive@.len(),
                m == self.mutex_list@.len(),
                i <= n,
                spec_st == self@.mutex_snapshot(alive@),
                allocation@.len() == i,
                need@.len() == i,
                forall|k: int| 0 <= k < i ==> allocation@[k]@ == spec_st.allocation[k],
                forall|k: int| 0 <= k < i ==> need@[k]@ == spec_st.need[k],
            decreases n - i,
        {
            let mut row: Vec<usize> = Vec::new();
            let mut mid: usize = 0;
            while mid < m
                invariant
                    m == self.mutex_list@.len(),
                    mid <= m,
                    i < n,
                    n == alive@.len(),
                    spec_st == self@.mutex_snapshot(alive@),
                    row@ =~= spec_st.allocation[i as int].take(mid as int),
                decreases m - mid,
            {
                let owner = opt_get(&self.mutex_owner, mid);
                let v: usize = match owner {
                    Some(o) => if o == i { 1 } else { 0 },
                    None => 0,
                };
                row.push(v);
                mid = mid + 1;
            }
            assert(row@ =~= spec_st.allocation[i as int]);
            allocation.push(row);
            let waiting = opt_get(&self.mutex_waiting, i);
            let need_row = make_indicator_row(m, waiting);
            need.push(need_row);
            i = i + 1;
        }
        let mut finish = finished_flags(alive);
        proof {
            assert(available@ =~= spec_st.available);
            assert(rows_view(allocation@) =~= spec_st.allocation);
            assert(rows_view(need@) =~= spec_st.need);
            assert(finish@ =~= spec_st.finished);
            assert(snapshot(available@, allocation@, need@, finish@) == spec_st);
            assert forall|x: int| 0 <= x < n implies allocation@[x]@.len() >= m
                && need@[x]@.len() >= m by {
                assert(allocation@[x]@ == spec_st.allocation[x]);
                assert(need@[x]@ == spec_st.need[x]);
            }
            assert forall|j: int| 0 <= j < spec_st.num_kinds() implies spec_st.available[j]
                + col_sum(spec_st.allocation, spec_st.finishable_rows(spec_st.num_tasks()), j)
                <= usize::MAX by {
                lemma_returns_within_all(spec_st, j);
                lemma_indicator_col_sum(spec_st.allocation, n as int, j, self@.mutex_owner_of(j));
            }
        }
        safe_check(available.as_slice(), allocation.as_slice(), need.as_slice(), finish.as_mut_slice())
    }

    /// Whether the process stays safe with the semaphores as they are held
    /// and waited for now.
    pub fn sem_safe(&self, alive: &[bool]) -> (safe: bool)
        requires
            self@.sem_held_fits(alive@.len() as int),
        ensures
            safe == self@.sem_snapshot(alive@).is_safe(),
    {
        let ghost spec_st = self@.sem_snapshot(alive@);
        let n = alive.len();
        let m = self.semaphore_list.len();
        let mut allocation: Vec<Vec<usize>> = Vec::new();
        let mut need: Vec<Vec<usize>> = Vec::new();
        let mut i: usize = 0;
        while i < n
            invariant
                n == alive@.len(),
                m == self.semaphore_list@.len(),
                i <= n,
                spec_st == self@.sem_snapshot(alive@),
                allocation@.len() == i,
                need@.len() == i,
                forall|k: int| 0 <= k < i ==> allocation@[k]@ == spec_st.allocation[k],
                forall|k: int| 0 <= k < i ==> need@[k]@ == spec_st.need[k],
            decreases n - i,
        {
            let mut row: Vec<usize> = Vec::new();
            let mut j: usize = 0;
            while j < m
                invariant
                    m == self.semaphore_list@.len(),
                    j <= m,
                    i < n,
                    n == alive@.len(),
                    spec_st == self@.sem_snapshot(alive@),
                    row@ =~= spec_st.allocation[i as int].take(j as int),
                decreases m - j,
            {
                let held: usize = if i < self.sem_alloc.len() {
                    if j < self.sem_alloc[i].len() {
                        self.sem_alloc[i][j]
                    } else {
                        0
                    }
                } else {
                    0
                };
                row.push(held);
                j = j + 1;
            }
            assert(row@ =~= spec_st.allocation[i as int]);
            allocation.push(row);
            let waiting = opt_get(&self.sem_waiting, i);
            let need_row = make_indicator_row(m, waiting);
            need.push(need_row);
            i = i + 1;
        }
        let mut available: Vec<usize> = Vec::new();
        let mut j: usize = 0;
        while j < m
            invariant
                n == alive@.len(),
                m == self.semaphore_list@.len(),
                j <= m,
                spec_st == self@.sem_snapshot(alive@),
                self@.sem_held_fits(n as int),
                allocation@.len() == n,
                forall|k: int| 0 <= k < n ==> allocation@[k]@ == spec_st.allocation[k],
                available@ =~= spec_st.available.take(j as int),
            decreases m - j,
        {
            let mut used: usize = 0;
            let mut k: usize = 0;
            while k < n
                invariant
                    n == alive@.len(),
                    m == self.semaphore_list@.len(),
                    j < m,
                    k <= n,
                    spec_st == self@.sem_snapshot(alive@),
                    self@.sem_held_fits(n as int),
                    allocation@.len() == n,
                    forall|x: int| 0 <= x < n ==> allocation@[x]@ == spec_st.allocation[x],
                    used == col_sum(spec_st.allocation, all_rows(k as int), j as int),
                decreases n - k,
            {
                proof {
                    assert(all_rows(k as int + 1) =~= all_rows(k as int).push(k as int));
                    lemma_col_sum_push(spec_st.allocation, all_rows(k as int), k as int, j as int);
                    lemma_all_rows(k as int + 1);
                    lemma_all_rows(n as int);
                    lemma_col_sum_subset(
                        spec_st.allocation,
                        all_rows(k as int + 1),
                        all_rows(n as int),
                        j as int,
                    );
                    assert(spec_st.allocation[k as int][j as int] == allocation@[k as int]@[j as int]);
                    assert(self@.sem_used(n as int, j as int) <= usize::MAX);
                }
                used = used + allocation[k][j];
                k = k + 1;
            }
            let total: usize = if j < self.sem_total.len() { self.sem_total[j] } else { 0 };
            available.push(total.saturating_sub(used));
            j = j + 1;
        }
        let mut finish = finished_flags(alive);
        proof {
            assert(available@ =~= spec_st.available);
            assert(rows_view(allocation@) =~= spec_st.allocation);
            assert(rows_view(need@) =~= spec_st.need);
            assert(finish@ =~= spec_st.finished);
            assert(snapshot(available@, allocation@, need@, finish@) == spec_st);
            assert forall|x: int| 0 <= x < n implies allocation@[x]@.len() >= m
                && need@[x]@.len() >= m by {
                assert(allocation@[x]@ == spec_st.allocation[x]);
                assert(need@[x]@ == spec_st.need[x]);
            }
            assert forall|j: int| 0 <= j < spec_st.num_kinds() implies spec_st.available[j]
                + col_sum(spec_st.allocation, spec_st.finishable_rows(spec_st.num_tasks()), j)
                <= usize::MAX by {
                lemma_returns_within_all(spec_st, j);
            }
        }
        safe_check(available.as_slice(), allocation.as_slice(), need.as_slice(), finish.as_mut_slice())
    }
}

/// What the first half of a blocking call decided.
#[derive(PartialEq, Eq, Structural, Debug, Clone, Copy)]
pub enum SyncStep {
    /// The call returns this code without blocking.
    Done(isize),
    /// The caller performs the operation on the handle.
    Proceed,
}

impl<M, S, C> SyncView<M, S, C> {
    pub open spec fn set_mutex_waiting(self, t: int, v: Option<usize>) -> Self {
        SyncView { mutex_waiting: self.mutex_waiting.update(t, v), ..self }
    }

    pub open spec fn set_mutex_owner(self, id: int, v: Option<usize>) -> Self {
        SyncView { mutex_owner: self.mutex_owner.update(id, v), ..self }
    }

    pub open spec fn set_sem_waiting(self, t: int, v: Option<usize>) -> Self {
        SyncView { sem_waiting: self.sem_waiting.update(t, v), ..self }
    }

    pub open spec fn set_sem_held(self, t: int, id: int, v: usize) -> Self {
        SyncView { sem_alloc: self.sem_alloc.update(t, self.sem_alloc[t].update(id, v)), ..self }
    }

    /// The tables with mutex `x` stored at slot `id`, or appended (with no
    /// owner) when `id` is past the end.
    pub open spec fn with_mutex_stored(self, id: int, x: M) -> Self {
        if id < self.mutex_list.len() {
            SyncView { mutex_list: self.mutex_list.update(id, Some(x)), ..self }
        } else {
            SyncView {
                mutex_list: self.mutex_list.push(Some(x)),
                mutex_owner: self.mutex_owner.push(None),
                ..self
            }
        }
    }

    /// The tables with semaphore `x` of `count` units stored at slot `id`,
    /// or appended when `id` is past the end.
    pub open spec fn with_semaphore_stored(self, id: int, x: S, count: usize) -> Self {
        if id < self.semaphore_list.len() {
            SyncView {
                semaphore_list: self.semaphore_list.update(id, Some(x)),
                sem_total: pad(self.sem_total, id + 1, 0usize).update(id, count),
                ..self
            }
        } else {
            SyncView {
                semaphore_list: self.semaphore_list.push(Some(x)),
                sem_total: self.sem_total.push(count),
                ..self
            }
        }
    }

    pub open spec fn with_condvar_stored(self, id: int, x: C) -> Self {
        SyncView { condvar_list: slot_store(self.condvar_list, id, x), ..self }
    }

    /// First half of locking mutex `id` by thread `tid`, on prepared tables.
    /// With detection on and the mutex owned, the thread is recorded as
    /// waiting; if the process would then be unsafe the record is cleared
    /// and the call refused.
    pub open spec fn mutex_lock_outcome(self, alive: Seq<bool>, tid: int, id: int) -> (
        SyncStep,
        Self,
    ) {
        if id >= self.mutex_list.len() {
            (SyncStep::Done(-1isize), self)
        } else if self.deadlock_detect_enabled && self.mutex_owner_of(id) is Some {
            let q = self.set_mutex_waiting(tid, Some(id as usize));
            if q.mutex_snapshot(alive).is_safe() {
                (SyncStep::Proceed, q)
            } else {
                (SyncStep::Done(DEADLOCK_ERR), self.set_mutex_waiting(tid, None))
            }
        } else {
            (SyncStep::Proceed, self)
        }
    }

    /// Unlocking mutex `id` by thread `tid`, on prepared tables: only the
    /// owner's unlock clears the ownership record.
    pub open spec fn mutex_unlock_outcome(self, tid: int, id: int) -> (SyncStep, Self) {
        if id >= self.mutex_list.len() {
            (SyncStep::Done(-1isize), self)
        } else if self.mutex_owner_of(id) == Some(tid as usize) {
            (SyncStep::Proceed, self.set_mutex_owner(id, None))
        } else {
            (SyncStep::Proceed, self)
        }
    }

    /// Releasing one unit of semaphore `id` by thread `tid`, on prepared
    /// tables: the thread's recorded holding drops by one if it has any.
    pub open spec fn semaphore_up_outcome(self, tid: int, id: int) -> (SyncStep, Self) {
        if id >= self.semaphore_list.len() {
            (SyncStep::Done(-1isize), self)
        } else if tid < self.sem_alloc.len() && id < self.sem_alloc[tid].len()
            && self.sem_alloc[tid][id] > 0 {
            (SyncStep::Proceed, self.set_sem_held(tid, id, (self.sem_alloc[tid][id] - 1) as usize))
        } else {
            (SyncStep::Proceed, self)
        }
    }

    /// First half of taking a unit of semaphore `id` by thread `tid`, whose
    /// count is `count`, on prepared tables.
    pub open spec fn semaphore_down_outcome(self, alive: Seq<bool>, tid: int, id: int, count: int) -> (
        SyncStep,
        Self,
    ) {
        if id >= self.semaphore_list.len() {
            (SyncStep::Done(-1isize), self)
        } else if self.deadlock_detect_enabled && count <= 0 {
            let q = self.set_sem_waiting(tid, Some(id as usize));
            if q.sem_snapshot(alive).is_safe() {
                (SyncStep::Proceed, q)
            } else {
                (SyncStep::Done(DEADLOCK_ERR), self.set_sem_waiting(tid, None))
            }
        } else {
            (SyncStep::Proceed, self)
        }
    }
}

fn first_free<T>(v: &Vec<Option<T>>) -> (r: Option<usize>)
    ensures
        match r {
            Some(k) => is_first_free(v@, k as int),
            None => !has_free(v@),
        },
{
    let mut i: usize = 0;
    while i < v.len()
        invariant
            i <= v@.len(),
            forall|j: int| 0 <= j < i ==> v@[j] is Some,
        decreases v@.len() - i,
    {
        if v[i].is_none() {
            return Some(i);
        }
        i = i + 1;
    }
    None
}

/// Mutex creation: stores `mutex` in the first empty slot, or at the end
/// with no owner, and answers the slot.
pub fn sys_mutex_create<M, S, C>(st: &mut SyncState<M, S, C>, alive: &[bool], mutex: M) -> (id:
    isize)
    requires
        old(st).mutex_list@.len() < isize::MAX,
    ensures
        ({
            let p = old(st)@.prepared(alive@.len() as int);
            &&& if has_free(p.mutex_list) {
                is_first_free(p.mutex_list, id as int)
            } else {
                id == p.mutex_list.len()
            }
            &&& final(st)@ == p.with_mutex_stored(id as int, mutex)
        }),
{
    ensure_deadlock_state(st, alive.len());
    let ghost p = st@;
    match first_free(&st.mutex_list) {
        Some(id) => {
            st.mutex_list[id] = Some(mutex);
            if st.mutex_owner.len() <= id {
                pad_none(&mut st.mutex_owner, id + 1);
            }
            assert(st.mutex_owner@ =~= p.mutex_owner);
            assert(st@ =~= p.with_mutex_stored(id as int, mutex));
            id as isize
        },
        None => {
            st.mutex_list.push(Some(mutex));
            st.mutex_owner.push(None);
            assert(st@ =~= p.with_mutex_stored(p.mutex_list.len() as int, mutex));
            (st.mutex_list.len() - 1) as isize
        },
    }
}

/// First half of mutex locking.
pub fn sys_mutex_lock<M, S, C>(
    st: &mut SyncState<M, S, C>,
    alive: &[bool],
    tid: usize,
    mutex_id: usize,
) -> (step: SyncStep)
    requires
        ({
            let p = old(st)@.prepared(alive@.len() as int);
            mutex_id < p.mutex_list.len() && p.deadlock_detect_enabled && p.mutex_owner_of(
                mutex_id as int,
            ) is Some ==> tid < p.mutex_waiting.len()
        }),
    ensures
        step == old(st)@.prepared(alive@.len() as int).mutex_lock_outcome(
            alive@,
            tid as int,
            mutex_id as int,
        ).0,
        final(st)@ == old(st)@.prepared(alive@.len() as int).mutex_lock_outcome(
            alive@,
            tid as int,
            mutex_id as int,
        ).1,
{
    ensure_deadlock_state(st, alive.len());
    let ghost p = st@;
    if mutex_id >= st.mutex_list.len() {
        return SyncStep::Done(-1);
    }
    if st.deadlock_detect_enabled {
        let locked = opt_get(&st.mutex_owner, mutex_id).is_some();
        if locked {
            st.mutex_waiting[tid] = Some(mutex_id);
            assert(st@ =~= p.set_mutex_waiting(tid as int, Some(mutex_id)));
            if !st.mutex_safe(alive) {
                st.mutex_waiting[tid] = None;
                assert(st@ =~= p.set_mutex_waiting(tid as int, None));
                return SyncStep::Done(DEADLOCK_ERR);
            }
        }
    }
    SyncStep::Proceed
}

/// Second half of mutex locking, once the thread holds the mutex: it no
/// longer waits and is recorded as the owner.
pub fn mutex_lock_acquired<M, S, C>(
    st: &mut SyncState<M, S, C>,
    alive: &[bool],
    tid: usize,
    mutex_id: usize,
) -> (r: isize)
    requires
        tid < old(st)@.prepared(alive@.len() as int).mutex_waiting.len(),
        mutex_id < old(st)@.prepared(alive@.len() as int).mutex_owner.len(),
    ensures
        r == 0,
        final(st)@ == old(st)@.prepared(alive@.len() as int).set_mutex_waiting(
            tid as int,
            None,
        ).set_mutex_owner(mutex_id as int, Some(tid)),
{
    ensure_deadlock_state(st, alive.len());
    let ghost p = st@;
    st.mutex_waiting[tid] = None;
    st.mutex_owner[mutex_id] = Some(tid);
    assert(st@ =~= p.set_mutex_waiting(tid as int, None).set_mutex_owner(
        mutex_id as int,
        Some(tid),
    ));
    0
}

/// Mutex unlocking: the caller releases the mutex on `Proceed`.
pub fn sys_mutex_unlock<M, S, C>(
    st: &mut SyncState<M, S, C>,
    alive: &[bool],
    tid: usize,
    mutex_id: usize,
) -> (step: SyncStep)
    ensures
        step == old(st)@.prepared(alive@.len() as int).mutex_unlock_outcome(
            tid as int,
            mutex_id as int,
        ).0,
        final(st)@ == old(st)@.prepared(alive@.len() as int).mutex_unlock_outcome(
            tid as int,
            mutex_id as int,
        ).1,
{
    ensure_deadlock_state(st, alive.len());
    let ghost p = st@;
    if mutex_id >= st.mutex_list.len() {
        return SyncStep::Done(-1);
    }
    if opt_get(&st.mutex_owner, mutex_id) == Some(tid) {
        st.mutex_owner[mutex_id] = None;
        assert(st@ =~= p.set_mutex_owner(mutex_id as int, None));
    }
    SyncStep::Proceed
}

/// Semaphore creation: stores `sem`, holding `res_count` units, in the
/// first empty slot or at the end, and answers the slot.
pub fn sys_semaphore_create<M, S, C>(
    st: &mut SyncState<M, S, C>,
    alive: &[bool],
    sem: S,
    res_count: usize,
) -> (id: isize)
    requires
        old(st).semaphore_list@.len() < isize::MAX,
    ensures
        ({
            let p = old(st)@.prepared(alive@.len() as int);
            &&& if has_free(p.semaphore_list) {
                is_first_free(p.semaphore_list, id as int)
            } else {
                id == p.semaphore_list.len()
            }
            &&& final(st)@ == p.with_semaphore_stored(id as int, sem, res_count)
        }),
{
    ensure_deadlock_state(st, alive.len());
    let ghost p = st@;
    match first_free(&st.semaphore_list) {
        Some(id) => {
            st.semaphore_list[id] = Some(sem);
            if st.sem_total.len() <= id {
                pad_zeros(&mut st.sem_total, id + 1);
            }
            st.sem_total[id] = res_count;
            assert(st@ =~= p.with_semaphore_stored(id as int, sem, res_count));
            id as isize
        },
        None => {
            st.semaphore_list.push(Some(sem));
            st.sem_total.push(res_count);
            assert(st@ =~= p.with_semaphore_stored(p.semaphore_list.len() as int, sem, res_count));
            (st.semaphore_list.len() - 1) as isize
        },
    }
}

/// Semaphore release: the caller raises the semaphore on `Proceed`.
pub fn sys_semaphore_up<M, S, C>(
    st: &mut SyncState<M, S, C>,
    alive: &[bool],
    tid: usize,
    sem_id: usize,
) -> (step: SyncStep)
    ensures
        step == old(st)@.prepared(alive@.len() as int).semaphore_up_outcome(
            tid as int,
            sem_id as int,
        ).0,
        final(st)@ == old(st)@.prepared(alive@.len() as int).semaphore_up_outcome(
            tid as int,
            sem_id as int,
        ).1,
{
    ensure_deadlock_state(st, alive.len());
    let ghost p = st@;
    if sem_id >= st.semaphore_list.len() {
        return SyncStep::Done(-1);
    }
    if tid < st.sem_alloc.len() && sem_id < st.sem_alloc[tid].len() {
        if st.sem_alloc[tid][sem_id] > 0 {
            let v = st.sem_alloc[tid][sem_id] - 1;
            st.sem_alloc[tid][sem_id] = v;
            assert(rows_view(st.sem_alloc@) =~= p.sem_alloc.update(
                tid as int,
                p.sem_alloc[tid as int].update(sem_id as int, v),
            ));
            assert(st@ =~= p.set_sem_held(tid as int, sem_id as int, v));
        }
    }
    SyncStep::Proceed
}

/// First half of taking a semaphore unit; `count` is the semaphore's
/// current count as the caller read it (unused when `sem_id` is out of
/// range).
pub fn sys_semaphore_down<M, S, C>(
    st: &mut SyncState<M, S, C>,
    alive: &[bool],
    tid: usize,
    sem_id: usize,
    count: isize,
) -> (step: SyncStep)
    requires
        ({
            let p = old(st)@.prepared(alive@.len() as int);
            sem_id < p.semaphore_list.len() && p.deadlock_detect_enabled && count <= 0 ==> tid
                < p.sem_waiting.len() && old(st)@.sem_held_fits(alive@.len() as int)
        }),
    ensures
        step == old(st)@.prepared(alive@.len() as int).semaphore_down_outcome(
            alive@,
            tid as int,
            sem_id as int,
            count as int,
        ).0,
        final(st)@ == old(st)@.prepared(alive@.len() as int).semaphore_down_outcome(
            alive@,
            tid as int,
            sem_id as int,
            count as int,
        ).1,
{
    proof {
        lemma_prepared_keeps_holdings(st@, alive@.len() as int);
    }
    ensure_deadlock_state(st, alive.len());
    let ghost p = st@;
    if sem_id >= st.semaphore_list.len() {
        return SyncStep::Done(-1);
    }
    let would_block = count <= 0;
    if st.deadlock_detect_enabled && would_block {
        st.sem_waiting[tid] = Some(sem_id);
        assert(st@ =~= p.set_sem_waiting(tid as int, Some(sem_id)));
        assert(st@.sem_held_matrix(alive@.len() as int) =~~= p.sem_held_matrix(alive@.len() as int));
        assert(st@.sem_held_fits(alive@.len() as int)) by {
            assert forall|j: int| 0 <= j < st@.semaphore_list.len() implies st@.sem_used(
                alive@.len() as int,
                j,
            ) <= usize::MAX by {
                assert(p.sem_used(alive@.len() as int, j) <= usize::MAX);
            }
        }
        if !st.sem_safe(alive) {
            st.sem_waiting[tid] = None;
            assert(st@ =~= p.set_sem_waiting(tid as int, None));
            return SyncStep::Done(DEADLOCK_ERR);
        }
    }
    SyncStep::Proceed
}

/// Second half of taking a semaphore unit, once the thread has it: it no
/// longer waits and holds one more unit.
pub fn semaphore_down_acquired<M, S, C>(
    st: &mut SyncState<M, S, C>,
    alive: &[bool],
    tid: usize,
    sem_id: usize,
) -> (r: isize)
    requires
        ({
            let p = old(st)@.prepared(alive@.len() as int);
            &&& tid < p.sem_waiting.len()
            &&& tid < p.sem_alloc.len()
            &&& sem_id < p.sem_alloc[tid as int].len()
            &&& p.sem_alloc[tid as int][sem_id as int] < usize::MAX
        }),
    ensures
        r == 0,
        ({
            let p = old(st)@.prepared(alive@.len() as int);
            final(st)@ == p.set_sem_waiting(tid as int, None).set_sem_held(
                tid as int,
                sem_id as int,
                (p.sem_alloc[tid as int][sem_id as int] + 1) as usize,
            )
        }),
{
    ensure_deadlock_state(st, alive.len());
    let ghost p = st@;
    st.sem_waiting[tid] = None;
    assert(st.sem_alloc@[tid as int]@ == p.sem_alloc[tid as int]);
    let v = st.sem_alloc[tid][sem_id] + 1;
    st.sem_alloc[tid][sem_id] = v;
    assert(rows_view(st.sem_alloc@) =~= p.sem_alloc.update(
        tid as int,
        p.sem_alloc[tid as int].update(sem_id as int, v),
    ));
    assert(st@ =~= p.set_sem_waiting(tid as int, None).set_sem_held(
        tid as int,
        sem_id as int,
        v,
    ));
    0
}

/// Condition-variable creation: stores `condvar` in the first empty slot or
/// at the end, and answers the slot.
pub fn sys_condvar_create<M, S, C>(st: &mut SyncState<M, S, C>, condvar: C) -> (id: isize)
    requires
        old(st).condvar_list@.len() < isize::MAX,
    ensures
        if has_free(old(st)@.condvar_list) {
            is_first_free(old(st)@.condvar_list, id as int)
        } else {
            id == old(st)@.condvar_list.len()
        },
        final(st)@ == old(st)@.with_condvar_stored(id as int, condvar),
{
    let ghost p = st@;
    match first_free(&st.condvar_list) {
        Some(id) => {
            st.condvar_list[id] = Some(condvar);
            assert(st@ =~= p.with_condvar_stored(id as int, condvar));
            id as isize
        },
        None => {
            st.condvar_list.push(Some(condvar));
            assert(st@ =~= p.with_condvar_stored(p.condvar_list.len() as int, condvar));
            (st.condvar_list.len() - 1) as isize
        },
    }
}

/// The condition variable that a signal goes to.
pub fn sys_condvar_signal<M, S, C>(st: &SyncState<M, S, C>, condvar_id: usize) -> (cv: &C)
    requires
        condvar_id < st.condvar_list@.len(),
        st.condvar_list@[condvar_id as int] is Some,
    ensures
        *cv == st.condvar_list@[condvar_id as int].unwrap(),
{
    st.condvar_list[condvar_id].as_ref().unwrap()
}

/// The condition variable waited on and the mutex released while waiting.
pub fn sys_condvar_wait<M, S, C>(st: &SyncState<M, S, C>, condvar_id: usize, mutex_id: usize) -> (r: (
    &C,
    &M,
))
    requires
        condvar_id < st.condvar_list@.len(),
        st.condvar_list@[condvar_id as int] is Some,
        mutex_id < st.mutex_list@.len(),
        st.mutex_list@[mutex_id as int] is Some,
    ensures
        *r.0 == st.condvar_list@[condvar_id as int].unwrap(),
        *r.1 == st.mutex_list@[mutex_id as int].unwrap(),
{
    let cv = st.condvar_list[condvar_id].as_ref().unwrap();
    let m = st.mutex_list[mutex_id].as_ref().unwrap();
    (cv, m)
}

/// Switches deadlock detection on (1) or off (0); any other value is
/// refused with -1 and changes nothing.
pub fn sys_enable_deadlock_detect<M, S, C>(
    st: &mut SyncState<M, S, C>,
    alive: &[bool],
    enabled: usize,
) -> (r: isize)
    ensures
        enabled != 0 && enabled != 1 ==> r == -1 && final(st)@ == old(st)@,
        enabled == 0 || enabled == 1 ==> r == 0 && final(st)@ == (SyncView {
            deadlock_detect_enabled: enabled == 1,
            ..old(st)@.prepared(alive@.len() as int)
        }),
{
    if enabled != 0 && enabled != 1 {
        return -1;
    }
    ensure_deadlock_state(st, alive.len());
    st.deadlock_detect_enabled = enabled == 1;
    0
}

/// The time at which a thread sleeping for `ms` milliseconds from `now_ms`
/// wakes.
pub fn sys_sleep(now_ms: usize, ms: usize) -> (expire_ms: usize)
    requires
        now_ms + ms <= usize::MAX,
    ensures
        expire_ms == now_ms + ms,
{
    now_ms + ms
}

/// Sizing the tables changes no thread's recorded holdings.
pub proof fn lemma_prepared_keeps_holdings<M, S, C>(v: SyncView<M, S, C>, n: int)
    ensures
        v.prepared(n).sem_held_matrix(n) == v.sem_held_matrix(n),
        v.prepared(n).sem_held_fits(n) == v.sem_held_fits(n),
{
    let p = v.prepared(n);
    let m = v.semaphore_list.len() as int;
    assert forall|i: int, j: int| 0 <= i < n && 0 <= j < m implies p.sem_held(i, j) == v.sem_held(
        i,
        j,
    ) by {
        let padded = pad(v.sem_alloc, n, zero_row(m));
        if i < v.sem_alloc.len() {
            assert(padded[i] == v.sem_alloc[i]);
        } else {
            assert(padded[i] == zero_row(m));
        }
    }
    assert(p.sem_held_matrix(n) =~~= v.sem_held_matrix(n));
    assert forall|j: int| 0 <= j < m implies p.sem_used(n, j) == v.sem_used(n, j) by {}
}

impl<M, S, C> SyncState<M, S, C> {
    /// Whether what the first `task_count` threads hold of each semaphore
    /// adds up within a `usize`.
    pub fn sem_holdings_fit(&self, task_count: usize) -> (ok: bool)
        ensures
            ok == self@.sem_held_fits(task_count as int),
    {
        let n = task_count;
        let m = self.semaphore_list.len();
        let ghost mat = self@.sem_held_matrix(n as int);
        proof {
            lemma_all_rows(n as int);
        }
        let mut j: usize = 0;
        while j < m
            invariant
                n == task_count,
                m == self.semaphore_list@.len(),
                j <= m,
                mat == self@.sem_held_matrix(n as int),
                all_rows(n as int).no_duplicates(),
                forall|x: int| #[trigger] all_rows(n as int).contains(x) <==> 0 <= x < n,
                forall|jj: int| 0 <= jj < j ==> self@.sem_used(n as int, jj) <= usize::MAX,
            decreases m - j,
        {
            let mut used: usize = 0;
            let mut k: usize = 0;
            while k < n
                invariant
                    n == task_count,
                    m == self.semaphore_list@.len(),
                    j < m,
                    k <= n,
                    mat == self@.sem_held_matrix(n as int),
                    all_rows(n as int).no_duplicates(),
                    forall|x: int| #[trigger] all_rows(n as int).contains(x) <==> 0 <= x < n,
                    used == col_sum(mat, all_rows(k as int), j as int),
                decreases n - k,
            {
                let held: usize = if k < self.sem_alloc.len() {
                    if j < self.sem_alloc[k].len() {
                        self.sem_alloc[k][j]
                    } else {
                        0
                    }
                } else {
                    0
                };
                proof {
                    assert(all_rows(k as int + 1) =~= all_rows(k as int).push(k as int));
                    lemma_col_sum_push(mat, all_rows(k as int), k as int, j as int);
                    assert(mat[k as int][j as int] == held);
                }
                match used.checked_add(held) {
                    Some(u) => {
                        used = u;
                    },
                    None => {
                        proof {
                            lemma_all_rows(k as int + 1);
                            lemma_col_sum_subset(mat, all_rows(k as int + 1), all_rows(n as int), j as int);
                            assert(self@.sem_used(n as int, j as int) > usize::MAX);
                            assert(!self@.sem_held_fits(n as int));
                        }
                        return false;
                    },
                }
                k = k + 1;
            }
            j = j + 1;
        }
        true
    }
}

/// Sizing the tables twice for the same thread count is sizing them once.
pub proof fn lemma_prepared_idempotent<M, S, C>(v: SyncView<M, S, C>, n: int)
    ensures
        v.prepared(n).prepared(n) == v.prepared(n),
{
    let p = v.prepared(n);
    let m = v.semaphore_list.len() as int;
    let rows = pad(v.sem_alloc, n, zero_row(m));
    assert(pad(p.sem_alloc, n, zero_row(m)) == p.sem_alloc);
    assert(p.sem_alloc.map_values(|r: Seq<usize>| pad(r, m, 0usize)) =~~= p.sem_alloc) by {
        assert forall|i: int| 0 <= i < p.sem_alloc.len() implies #[trigger] pad(
            p.sem_alloc[i],
            m,
            0usize,
        ) == p.sem_alloc[i] by {
            assert(p.sem_alloc[i] == pad(rows[i], m, 0usize));
        }
    }
    assert(p.prepared(n) =~~= p);
}

/// With detection on, a thread is left waiting for an owned mutex only when
/// the process stays safe with that wait; a refusal means the wait would
/// have made it unsafe, and leaves the thread recorded as waiting for
/// nothing.
pub proof fn lemma_mutex_wait_only_when_safe<M, S, C>(
    v: SyncView<M, S, C>,
    alive: Seq<bool>,
    tid: int,
    id: int,
)
    requires
        0 <= id < v.mutex_list.len(),
        v.deadlock_detect_enabled,
        v.mutex_owner_of(id) is Some,
    ensures
        v.mutex_lock_outcome(alive, tid, id).0 == SyncStep::Proceed ==> v.mutex_lock_outcome(
            alive,
            tid,
            id,
        ).1.mutex_snapshot(alive).is_safe(),
        v.mutex_lock_outcome(alive, tid, id).0 == SyncStep::Done(DEADLOCK_ERR) ==> {
            &&& !v.set_mutex_waiting(tid, Some(id as usize)).mutex_snapshot(alive).is_safe()
            &&& v.mutex_lock_outcome(alive, tid, id).1 == v.set_mutex_waiting(tid, None)
        },
        v.mutex_lock_outcome(alive, tid, id).0 != SyncStep::Done(-1isize),
{
}

/// With detection on, a thread is left waiting for a semaphore with no
/// units only when the process stays safe with that wait; a refusal means
/// the wait would have made it unsafe.
pub proof fn lemma_semaphore_wait_only_when_safe<M, S, C>(
    v: SyncView<M, S, C>,
    alive: Seq<bool>,
    tid: int,
    id: int,
    count: int,
)
    requires
        0 <= id < v.semaphore_list.len(),
        v.deadlock_detect_enabled,
        count <= 0,
    ensures
        v.semaphore_down_outcome(alive, tid, id, count).0 == SyncStep::Proceed
            ==> v.semaphore_down_outcome(alive, tid, id, count).1.sem_snapshot(alive).is_safe(),
        v.semaphore_down_outcome(alive, tid, id, count).0 == SyncStep::Done(DEADLOCK_ERR) ==> {
            &&& !v.set_sem_waiting(tid, Some(id as usize)).sem_snapshot(alive).is_safe()
            &&& v.semaphore_down_outcome(alive, tid, id, count).1 == v.set_sem_waiting(tid, None)
        },
        v.semaphore_down_outcome(alive, tid, id, count).0 != SyncStep::Done(-1isize),
{
}

/// Once thread `tid` has acquired mutex `id`, its own unlock clears the
/// ownership, while another thread's unlock leaves it in place.
pub proof fn lemma_lock_then_unlock<M, S, C>(
    v: SyncView<M, S, C>,
    n: int,
    tid: usize,
    other: usize,
    id: int,
)
    requires
        0 <= id < v.mutex_list.len(),
        tid < v.prepared(n).mutex_waiting.len(),
        other != tid,
    ensures
        ({
            let held = v.prepared(n).set_mutex_waiting(tid as int, None).set_mutex_owner(
                id,
                Some(tid),
            );
            &&& held.mutex_owner_of(id) == Some(tid)
            &&& held.prepared(n).mutex_unlock_outcome(tid as int, id) == (
                SyncStep::Proceed,
                held.set_mutex_owner(id, None),
            )
            &&& held.prepared(n).mutex_unlock_outcome(other as int, id) == (
                SyncStep::Proceed,
                held,
            )
        }),
{
    let p = v.prepared(n);
    let held = p.set_mutex_waiting(tid as int, None).set_mutex_owner(id, Some(tid));
    lemma_prepared_idempotent(v, n);
    assert(held.prepared(n) =~~= held);
}

/// Taking a unit of a semaphore and giving it back leaves the thread's
/// holding as it was.
pub proof fn lemma_down_then_up<M, S, C>(v: SyncView<M, S, C>, n: int, tid: int, id: int)
    requires
        0 <= id < v.semaphore_list.len(),
        0 <= tid < v.prepared(n).sem_alloc.len(),
        v.prepared(n).sem_alloc[tid][id] < usize::MAX,
        tid < v.prepared(n).sem_waiting.len(),
    ensures
        ({
            let p = v.prepared(n);
            let taken = p.set_sem_waiting(tid, None).set_sem_held(
                tid,
                id,
                (p.sem_alloc[tid][id] + 1) as usize,
            );
            &&& taken.prepared(n).semaphore_up_outcome(tid, id).0 == SyncStep::Proceed
            &&& taken.prepared(n).semaphore_up_outcome(tid, id).1.sem_alloc == p.sem_alloc
        }),
{
    let p = v.prepared(n);
    let taken = p.set_sem_waiting(tid, None).set_sem_held(tid, id, (p.sem_alloc[tid][id] + 1) as usize);
    lemma_prepared_idempotent(v, n);
    assert(p.sem_alloc[tid].len() >= v.semaphore_list.len()) by {
        let rows = pad(v.sem_alloc, n, zero_row(v.semaphore_list.len() as int));
        assert(p.sem_alloc[tid] == pad(rows[tid], v.semaphore_list.len() as int, 0usize));
    }
    assert(taken.prepared(n) =~~= taken) by {
        assert(taken.sem_alloc.len() == p.sem_alloc.len());
        assert forall|i: int| 0 <= i < taken.sem_alloc.len() implies #[trigger] pad(
            taken.sem_alloc[i],
            taken.semaphore_list.len() as int,
            0usize,
        ) == taken.sem_alloc[i] by {
            assert(pad(p.sem_alloc[i], p.semaphore_list.len() as int, 0usize) == p.sem_alloc[i]) by {
                assert(p.prepared(n).sem_alloc[i] == p.sem_alloc[i]);
            }
        }
    }
    assert(taken.sem_alloc.update(tid, taken.sem_alloc[tid].update(id, p.sem_alloc[tid][id]))
        =~~= p.sem_alloc);
}

/// Two successive mutex creations answer different slots.
pub proof fn lemma_created_mutexes_differ<M, S, C>(
    v: SyncView<M, S, C>,
    n: int,
    x1: M,
    x2: M,
    id1: int,
    id2: int,
)
    requires
        if has_free(v.prepared(n).mutex_list) {
            is_first_free(v.prepared(n).mutex_list, id1)
        } else {
            id1 == v.prepared(n).mutex_list.len()
        },
        ({
            let w = v.prepared(n).with_mutex_stored(id1, x1).prepared(n);
            if has_free(w.mutex_list) {
                is_first_free(w.mutex_list, id2)
            } else {
                id2 == w.mutex_list.len()
            }
        }),
    ensures
        id1 != id2,
{
    let w = v.prepared(n).with_mutex_stored(id1, x1);
    assert(w.prepared(n).mutex_list == w.mutex_list);
    assert(w.mutex_list[id1] == Some(x1));
}

impl<M, S, C> SyncState<M, S, C> {
    /// Empty tables, with deadlock detection off.
    pub fn new() -> (st: Self)
        ensures
            st@.mutex_list.len() == 0,
            st@.semaphore_list.len() == 0,
            st@.condvar_list.len() == 0,
            st@.mutex_waiting.len() == 0,
            st@.sem_waiting.len() == 0,
            st@.sem_alloc.len() == 0,
            st@.sem_total.len() == 0,
            st@.mutex_owner.len() == 0,
            !st@.deadlock_detect_enabled,
    {
        SyncState {
            mutex_list: Vec::new(),
            semaphore_list: Vec::new(),
            condvar_list: Vec::new(),
            mutex_waiting: Vec::new(),
            sem_waiting: Vec::new(),
            sem_alloc: Vec::new(),
            sem_total: Vec::new(),
            mutex_owner: Vec::new(),
            deadlock_detect_enabled: false,
        }
    }
}

/// The indices below `k` that satisfy `pred`, in increasing order.
pub open spec fn rows_where(pred: spec_fn(int) -> bool, k: int) -> Seq<int>
    decreases k,
{
    if k <= 0 {
        Seq::empty()
    } else if pred(k - 1) {
        rows_where(pred, k - 1).push(k - 1)
    } else {
        rows_where(pred, k - 1)
    }
}

proof fn lemma_rows_where(pred: spec_fn(int) -> bool, k: int)
    ensures
        rows_where(pred, k).no_duplicates(),
        forall|x: int| #[trigger] rows_where(pred, k).contains(x) <==> 0 <= x < k && pred(x),
    decreases k,
{
    if k > 0 {
        lemma_rows_where(pred, k - 1);
        let r = rows_where(pred, k - 1);
        if pred(k - 1) {
            let t = r.push(k - 1);
            assert forall|p: int, q: int| 0 <= p < q < t.len() implies #[trigger] t[p]
                != #[trigger] t[q] by {
                if q == r.len() {
                    assert(r.contains(r[p]));
                } else {
                    assert(t[p] == r[p]);
                    assert(t[q] == r[q]);
                }
            }
            assert forall|x: int| #[trigger] t.contains(x) <==> 0 <= x < k && pred(x) by {
                if x == k - 1 && pred(x) {
                    assert(t[r.len() as int] == x);
                }
                if t.contains(x) && x != k - 1 {
                    let i = t.index_of(x);
                    assert(r[i] == x);
                }
                if r.contains(x) {
                    let i = r.index_of(x);
                    assert(t[i] == x);
                }
            }
        }
    }
}

proof fn lemma_col_sum_zero(alloc: Seq<Seq<usize>>, rows: Seq<int>, j: int)
    requires
        forall|k: int| 0 <= k < rows.len() ==> alloc[#[trigger] rows[k]][j] == 0,
    ensures
        col_sum(alloc, rows, j) == 0,
    decreases rows.len(),
{
    if rows.len() > 0 {
        let r = rows.drop_last();
        assert forall|k: int| 0 <= k < r.len() implies alloc[#[trigger] r[k]][j] == 0 by {
            assert(r[k] == rows[k]);
        }
        lemma_col_sum_zero(alloc, r, j);
        assert(alloc[rows[rows.len() - 1]][j] == 0);
    }
}

/// The mutex snapshot, entry by entry: a thread holds one unit of every
/// mutex it owns, asks for one unit of the mutex it waits for, takes no
/// part when its slot is empty, and a mutex is free exactly when nobody
/// owns it.
pub proof fn lemma_mutex_snapshot_entries<M, S, C>(
    v: SyncView<M, S, C>,
    alive: Seq<bool>,
    i: int,
    id: int,
)
    requires
        0 <= i < alive.len(),
        0 <= id < v.mutex_list.len(),
    ensures
        ({
            let st = v.mutex_snapshot(alive);
            &&& st.num_tasks() == alive.len()
            &&& st.num_kinds() == v.mutex_list.len()
            &&& st.finished[i] == !alive[i]
            &&& (st.allocation[i][id] == 1) == (0 <= id < v.mutex_owner.len()
                && v.mutex_owner[id] == Some(i as usize))
            &&& st.allocation[i][id] <= 1
            &&& (st.need[i][id] == 1) == (i < v.mutex_waiting.len() && v.mutex_waiting[i] == Some(
                id as usize,
            ))
            &&& st.need[i][id] <= 1
            &&& (st.available[id] == 1) == !(0 <= id < v.mutex_owner.len() && v.mutex_owner[id] is Some)
            &&& st.available[id] <= 1
        }),
{
}

/// The semaphore snapshot, entry by entry: a thread holds what its row
/// records, asks for one unit of the semaphore it waits for, and takes no
/// part (neither running nor giving anything back) when its slot is empty.
pub proof fn lemma_sem_snapshot_entries<M, S, C>(
    v: SyncView<M, S, C>,
    alive: Seq<bool>,
    i: int,
    id: int,
)
    requires
        0 <= i < alive.len(),
        0 <= id < v.semaphore_list.len(),
    ensures
        ({
            let st = v.sem_snapshot(alive);
            &&& st.num_tasks() == alive.len()
            &&& st.num_kinds() == v.semaphore_list.len()
            &&& st.finished[i] == !alive[i]
            &&& st.allocation[i][id] == if i < v.sem_alloc.len() && id < v.sem_alloc[i].len() {
                v.sem_alloc[i][id]
            } else {
                0usize
            }
            &&& (st.need[i][id] == 1) == (i < v.sem_waiting.len() && v.sem_waiting[i] == Some(
                id as usize,
            ))
            &&& st.need[i][id] <= 1
        }),
{
}

/// A thread that waits for a mutex whose owner is a live thread waiting for
/// nothing, while no other thread waits, is judged safe: the owner can
/// finish and hand back every mutex it holds.
pub proof fn lemma_wait_on_idle_owner_is_safe<M, S, C>(
    v: SyncView<M, S, C>,
    alive: Seq<bool>,
    tid: int,
    id: int,
    owner: usize,
)
    requires
        0 <= id < v.mutex_list.len() <= usize::MAX,
        0 <= tid < alive.len(),
        tid < v.mutex_waiting.len(),
        alive[tid],
        v.mutex_owner_of(id) == Some(owner),
        owner < alive.len(),
        alive[owner as int],
        owner != tid,
        forall|i: int| 0 <= i < alive.len() ==> #[trigger] v.mutex_waiting_of(i) is None,
    ensures
        v.set_mutex_waiting(tid, Some(id as usize)).mutex_snapshot(alive).is_safe(),
{
    let q = v.set_mutex_waiting(tid, Some(id as usize));
    let st = q.mutex_snapshot(alive);
    let n = alive.len() as int;
    let m = v.mutex_list.len() as int;
    let pred = |i: int| alive[i] && i != tid;
    let base = rows_where(pred, n);
    lemma_rows_where(pred, n);
    let s = base.push(tid);
    assert(base.contains(owner as int));
    assert forall|i: int| 0 <= i < n && i != tid implies #[trigger] q.mutex_waiting_of(i) is None by {
        assert(v.mutex_waiting_of(i) is None);
        if 0 <= i < v.mutex_waiting.len() {
            assert(q.mutex_waiting[i] == v.mutex_waiting[i]);
        }
    }
    // Distinct pending tasks.
    assert(s.no_duplicates()) by {
        assert forall|a: int, b: int| 0 <= a < b < s.len() implies #[trigger] s[a] != #[trigger] s[b] by {
            if b == base.len() {
                assert(base.contains(base[a]));
            } else {
                assert(s[a] == base[a]);
                assert(s[b] == base[b]);
            }
        }
    }
    assert forall|k: int| 0 <= k < s.len() implies 0 <= #[trigger] s[k] < st.num_tasks()
        && !st.finished[s[k]] by {
        if k < base.len() {
            assert(s[k] == base[k]);
            assert(base.contains(base[k]));
        }
    }
    assert forall|k: int| 0 <= k < s.len() implies st.can_run(s.take(k), #[trigger] s[k]) by {
        if k < base.len() {
            let i = base[k];
            assert(s[k] == i);
            assert(base.contains(i));
            assert forall|j: int| 0 <= j < m implies #[trigger] st.need[i][j] <= st.available[j]
                + col_sum(st.allocation, s.take(k), j) by {
                lemma_col_sum_nonneg(st.allocation, s.take(k), j);
                assert(q.mutex_waiting_of(i) is None);
            }
        } else {
            assert(s[k] == tid);
            assert(s.take(k) =~= base);
            assert forall|j: int| 0 <= j < m implies #[trigger] st.need[tid][j] <= st.available[j]
                + col_sum(st.allocation, s.take(k), j) by {
                lemma_col_sum_nonneg(st.allocation, base, j);
                assert(q.mutex_waiting_of(tid) == Some(id as usize));
                assert(st.need[tid][j] == if j == id { 1usize } else { 0usize });
                if j == id {
                    let one = seq![owner as int];
                    assert(one.last() == owner as int);
                    assert(one.drop_last() =~= Seq::<int>::empty());
                    assert(col_sum(st.allocation, Seq::<int>::empty(), j) == 0);
                    assert(col_sum(st.allocation, one.drop_last(), j) == 0);
                    assert(col_sum(st.allocation, one, j) == st.allocation[owner as int][j]);
                    assert(st.allocation[owner as int][j] == 1);
                    assert forall|x: int| one.contains(x) implies base.contains(x) by {
                        assert(one[0] == owner as int);
                    }
                    assert(one.no_duplicates());
                    lemma_col_sum_subset(st.allocation, one, base, j);
                }
            }
        }
    }
    assert(st.is_safe_sequence(s));
    assert forall|i: int| 0 <= i < st.num_tasks() && !st.finished[i] implies s.contains(i) by {
        if i == tid {
            assert(s[base.len() as int] == tid);
        } else {
            assert(base.contains(i));
            let k = base.index_of(i);
            assert(s[k] == i);
        }
    }
}

/// A thread that waits for a semaphore with no units left, where every unit
/// taken is held by threads that have exited, is judged unsafe: nothing it
/// waits for can ever come back.
pub proof fn lemma_wait_on_units_of_exited_is_unsafe<M, S, C>(
    v: SyncView<M, S, C>,
    alive: Seq<bool>,
    tid: int,
    id: int,
)
    requires
        0 <= id < v.semaphore_list.len(),
        0 <= tid < alive.len(),
        tid < v.sem_waiting.len(),
        alive[tid],
        v.sem_total_of(id) <= v.sem_used(alive.len() as int, id),
        forall|x: int| 0 <= x < alive.len() && alive[x] ==> #[trigger] v.sem_held(x, id) == 0,
    ensures
        !v.set_sem_waiting(tid, Some(id as usize)).sem_snapshot(alive).is_safe(),
{
    let q = v.set_sem_waiting(tid, Some(id as usize));
    let st = q.sem_snapshot(alive);
    let n = alive.len() as int;
    assert(q.sem_held_matrix(n) =~~= v.sem_held_matrix(n));
    if st.is_safe() {
        let s = choose|s: Seq<int>|
            #[trigger] st.is_safe_sequence(s) && forall|i: int|
                0 <= i < st.num_tasks() && !st.finished[i] ==> s.contains(i);
        assert(s.contains(tid));
        let k = s.index_of(tid);
        assert(s[k] == tid);
        let pre = s.take(k);
        assert forall|x: int| 0 <= x < pre.len() implies st.allocation[#[trigger] pre[x]][id] == 0 by {
            assert(pre[x] == s[x]);
            assert(0 <= s[x] < n && !st.finished[s[x]]);
            assert(v.sem_held(s[x], id) == 0);
        }
        lemma_col_sum_zero(st.allocation, pre, id);
        assert(st.can_run(pre, tid));
        assert(st.need[tid][id] == 1);
        assert(st.need[tid][id] <= st.available[id] + col_sum(st.allocation, pre, id));
        assert(false);
    }
}

/// Creating a mutex fills the first empty slot, or appends one when there is
/// none: the returned slot holds the new mutex, every other slot is
/// unchanged, and the table grows only when no slot was free.
pub proof fn lemma_mutex_stored_in_slot<M, S, C>(v: SyncView<M, S, C>, id: int, x: M)
    requires
        if has_free(v.mutex_list) {
            is_first_free(v.mutex_list, id)
        } else {
            id == v.mutex_list.len()
        },
    ensures
        ({
            let w = v.with_mutex_stored(id, x);
            &&& 0 <= id < w.mutex_list.len()
            &&& w.mutex_list[id] == Some(x)
            &&& forall|k: int| 0 <= k < id ==> v.mutex_list[k] is Some
            &&& forall|k: int|
                0 <= k < v.mutex_list.len() && k != id ==> #[trigger] w.mutex_list[k]
                    == v.mutex_list[k]
            &&& w.mutex_list.len() == if has_free(v.mutex_list) {
                v.mutex_list.len()
            } else {
                v.mutex_list.len() + 1
            }
        }),
{
}

/// Creating a semaphore fills the first empty slot, or appends one: the
/// returned slot holds the new semaphore and its unit count, every other
/// slot is unchanged, and the table grows only when no slot was free.
pub proof fn lemma_semaphore_stored_in_slot<M, S, C>(
    v: SyncView<M, S, C>,
    id: int,
    x: S,
    count: usize,
)
    requires
        if has_free(v.semaphore_list) {
            is_first_free(v.semaphore_list, id)
        } else {
            id == v.semaphore_list.len()
        },
    ensures
        ({
            let w = v.with_semaphore_stored(id, x, count);
            &&& 0 <= id < w.semaphore_list.len()
            &&& w.semaphore_list[id] == Some(x)
            &&& (id < v.semaphore_list.len() || v.sem_total.len() == v.semaphore_list.len()) ==> {
                &&& id < w.sem_total.len()
                &&& w.sem_total[id] == count
            }
            &&& forall|k: int| 0 <= k < id ==> v.semaphore_list[k] is Some
            &&& forall|k: int|
                0 <= k < v.semaphore_list.len() && k != id ==> #[trigger] w.semaphore_list[k]
                    == v.semaphore_list[k]
            &&& w.semaphore_list.len() == if has_free(v.semaphore_list) {
                v.semaphore_list.len()
            } else {
                v.semaphore_list.len() + 1
            }
        }),
{
    if id < v.semaphore_list.len() {
        assert(pad(v.sem_total, id + 1, 0usize).len() >= id + 1);
    }
}

/// Creating a condition variable fills the first empty slot, or appends
/// one: the returned slot holds it, every other slot is unchanged, and the
/// table grows only when no slot was free.
pub proof fn lemma_condvar_stored_in_slot<M, S, C>(v: SyncView<M, S, C>, id: int, x: C)
    requires
        if has_free(v.condvar_list) {
            is_first_free(v.condvar_list, id)
        } else {
            id == v.condvar_list.len()
        },
    ensures
        ({
            let w = v.with_condvar_stored(id, x);
            &&& 0 <= id < w.condvar_list.len()
            &&& w.condvar_list[id] == Some(x)
            &&& forall|k: int| 0 <= k < id ==> v.condvar_list[k] is Some
            &&& forall|k: int|
                0 <= k < v.condvar_list.len() && k != id ==> #[trigger] w.condvar_list[k]
                    == v.condvar_list[k]
            &&& w.condvar_list.len() == if has_free(v.condvar_list) {
                v.condvar_list.len()
            } else {
                v.condvar_list.len() + 1
            }
            &&& w.mutex_list == v.mutex_list
            &&& w.semaphore_list == v.semaphore_list
        }),
{
}

/// A lock request names an existing mutex or is answered -1; without
/// detection, or on a free mutex, it goes ahead and records nothing.
pub proof fn lemma_mutex_lock_plain_cases<M, S, C>(
    v: SyncView<M, S, C>,
    alive: Seq<bool>,
    tid: int,
    id: int,
)
    ensures
        id >= v.mutex_list.len() ==> v.mutex_lock_outcome(alive, tid, id) == (
            SyncStep::Done(-1isize),
            v,
        ),
        id < v.mutex_list.len() && (!v.deadlock_detect_enabled || v.mutex_owner_of(id) is None)
            ==> v.mutex_lock_outcome(alive, tid, id) == (SyncStep::Proceed, v),
        v.mutex_lock_outcome(alive, tid, id).1.mutex_list == v.mutex_list,
        v.mutex_lock_outcome(alive, tid, id).1.mutex_owner == v.mutex_owner,
{
}

/// A semaphore request names an existing semaphore or is answered -1;
/// without detection, or when a unit is left, it goes ahead and records
/// nothing; it never changes what any thread holds.
pub proof fn lemma_semaphore_down_plain_cases<M, S, C>(
    v: SyncView<M, S, C>,
    alive: Seq<bool>,
    tid: int,
    id: int,
    count: int,
)
    ensures
        id >= v.semaphore_list.len() ==> v.semaphore_down_outcome(alive, tid, id, count) == (
            SyncStep::Done(-1isize),
            v,
        ),
        id < v.semaphore_list.len() && (!v.deadlock_detect_enabled || count > 0)
            ==> v.semaphore_down_outcome(alive, tid, id, count) == (SyncStep::Proceed, v),
        v.semaphore_down_outcome(alive, tid, id, count).1.sem_alloc == v.sem_alloc,
        v.semaphore_down_outcome(alive, tid, id, count).1.semaphore_list == v.semaphore_list,
{
}

/// A thread that waits for a semaphore with a unit still free, while no
/// other thread waits, is judged safe.
pub proof fn lemma_wait_with_units_left_is_safe<M, S, C>(
    v: SyncView<M, S, C>,
    alive: Seq<bool>,
    tid: int,
    id: int,
)
    requires
        0 <= id < v.semaphore_list.len() <= usize::MAX,
        0 <= tid < alive.len(),
        tid < v.sem_waiting.len(),
        alive[tid],
        v.sem_total_of(id) > v.sem_used(alive.len() as int, id),
        forall|i: int| 0 <= i < alive.len() ==> #[trigger] v.sem_waiting_of(i) is None,
    ensures
        v.set_sem_waiting(tid, Some(id as usize)).sem_snapshot(alive).is_safe(),
{
    let q = v.set_sem_waiting(tid, Some(id as usize));
    let st = q.sem_snapshot(alive);
    let n = alive.len() as int;
    let m = v.semaphore_list.len() as int;
    assert(q.sem_held_matrix(n) =~~= v.sem_held_matrix(n));
    let pred = |i: int| alive[i] && i != tid;
    let base = rows_where(pred, n);
    lemma_rows_where(pred, n);
    let s = base.push(tid);
    assert forall|i: int| 0 <= i < n && i != tid implies #[trigger] q.sem_waiting_of(i) is None by {
        assert(v.sem_waiting_of(i) is None);
        if 0 <= i < v.sem_waiting.len() {
            assert(q.sem_waiting[i] == v.sem_waiting[i]);
        }
    }
    assert(s.no_duplicates()) by {
        assert forall|a: int, b: int| 0 <= a < b < s.len() implies #[trigger] s[a] != #[trigger] s[b] by {
            if b == base.len() {
                assert(base.contains(base[a]));
            } else {
                assert(s[a] == base[a]);
                assert(s[b] == base[b]);
            }
        }
    }
    assert forall|k: int| 0 <= k < s.len() implies 0 <= #[trigger] s[k] < st.num_tasks()
        && !st.finished[s[k]] by {
        if k < base.len() {
            assert(s[k] == base[k]);
            assert(base.contains(base[k]));
        }
    }
    assert forall|k: int| 0 <= k < s.len() implies st.can_run(s.take(k), #[trigger] s[k]) by {
        if k < base.len() {
            let i = base[k];
            assert(s[k] == i);
            assert(base.contains(i));
            assert forall|j: int| 0 <= j < m implies #[trigger] st.need[i][j] <= st.available[j]
                + col_sum(st.allocation, s.take(k), j) by {
                lemma_col_sum_nonneg(st.allocation, s.take(k), j);
                assert(q.sem_waiting_of(i) is None);
            }
        } else {
            assert(s[k] == tid);
            assert(s.take(k) =~= base);
            assert forall|j: int| 0 <= j < m implies #[trigger] st.need[tid][j] <= st.available[j]
                + col_sum(st.allocation, s.take(k), j) by {
                lemma_col_sum_nonneg(st.allocation, base, j);
                assert(q.sem_waiting_of(tid) == Some(id as usize));
                assert(st.need[tid][j] == if j == id { 1usize } else { 0usize });
                assert(q.sem_used(n, j) == v.sem_used(n, j));
                if j == id {
                    assert(q.sem_total_of(j) == v.sem_total_of(j));
                    assert(q.sem_total_of(j) > q.sem_used(n, j));
                    lemma_col_sum_nonneg(q.sem_held_matrix(n), all_rows(n), j);
                    assert(st.available[j] == (q.sem_total_of(j) - q.sem_used(n, j)) as usize);
                    assert(st.available[j] >= 1);
                }
            }
        }
    }
    assert(st.is_safe_sequence(s));
    assert forall|i: int| 0 <= i < st.num_tasks() && !st.finished[i] implies s.contains(i) by {
        if i == tid {
            assert(s[base.len() as int] == tid);
        } else {
            assert(base.contains(i));
            let k = base.index_of(i);
            assert(s[k] == i);
        }
    }
}

/// Sizing the tables for `n` threads keeps every entry already there, adds
/// empty entries up to `n` threads, widens every holding row to every
/// semaphore with zeros, gives every semaphore a total and every mutex an
/// owner entry, and touches nothing else.
pub proof fn lemma_prepared_shape<M, S, C>(v: SyncView<M, S, C>, n: int)
    requires
        n >= 0,
    ensures
        ({
            let p = v.prepared(n);
            let m = v.semaphore_list.len() as int;
            &&& p.mutex_list == v.mutex_list
            &&& p.semaphore_list == v.semaphore_list
            &&& p.condvar_list == v.condvar_list
            &&& p.deadlock_detect_enabled == v.deadlock_detect_enabled
            &&& p.mutex_waiting.len() == if v.mutex_waiting.len() < n { n } else { v.mutex_waiting.len() as int }
            &&& forall|i: int| 0 <= i < p.mutex_waiting.len() ==> #[trigger] p.mutex_waiting[i]
                == if i < v.mutex_waiting.len() { v.mutex_waiting[i] } else { None }
            &&& p.sem_waiting.len() == if v.sem_waiting.len() < n { n } else { v.sem_waiting.len() as int }
            &&& forall|i: int| 0 <= i < p.sem_waiting.len() ==> #[trigger] p.sem_waiting[i]
                == if i < v.sem_waiting.len() { v.sem_waiting[i] } else { None }
            &&& p.sem_alloc.len() == if v.sem_alloc.len() < n { n } else { v.sem_alloc.len() as int }
            &&& forall|i: int, j: int|
                0 <= i < p.sem_alloc.len() && 0 <= j < p.sem_alloc[i].len() ==> #[trigger] p.sem_alloc[i][j]
                    == if i < v.sem_alloc.len() && j < v.sem_alloc[i].len() {
                    v.sem_alloc[i][j]
                } else {
                    0usize
                }
            &&& forall|i: int| 0 <= i < p.sem_alloc.len() ==> #[trigger] p.sem_alloc[i].len() == if i
                < v.sem_alloc.len() && v.sem_alloc[i].len() >= m {
                v.sem_alloc[i].len() as int
            } else {
                m
            }
            &&& p.sem_total.len() == if v.sem_total.len() < m { m } else { v.sem_total.len() as int }
            &&& forall|j: int| 0 <= j < p.sem_total.len() ==> #[trigger] p.sem_total[j]
                == if j < v.sem_total.len() { v.sem_total[j] } else { 0usize }
            &&& p.mutex_owner.len() == if v.mutex_owner.len() < v.mutex_list.len() {
                v.mutex_list.len() as int
            } else {
                v.mutex_owner.len() as int
            }
            &&& forall|i: int| 0 <= i < p.mutex_owner.len() ==> #[trigger] p.mutex_owner[i]
                == if i < v.mutex_owner.len() { v.mutex_owner[i] } else { None }
        }),
{
    let p = v.prepared(n);
    let m = v.semaphore_list.len() as int;
    let rows = pad(v.sem_alloc, n, zero_row(m));
    assert forall|i: int| 0 <= i < p.sem_alloc.len() implies #[trigger] p.sem_alloc[i] == pad(
        rows[i],
        m,
        0usize,
    ) && rows[i] == if i < v.sem_alloc.len() { v.sem_alloc[i] } else { zero_row(m) } by {}
}

/// Releasing a semaphore unit names an existing semaphore or is answered
/// -1; it goes ahead otherwise, lowers the caller's recorded holding by one
/// when it has any, and changes nothing else.
pub proof fn lemma_semaphore_up_cases<M, S, C>(v: SyncView<M, S, C>, tid: int, id: int)
    requires
        0 <= tid,
        0 <= id,
    ensures
        id >= v.semaphore_list.len() ==> v.semaphore_up_outcome(tid, id) == (
            SyncStep::Done(-1isize),
            v,
        ),
        id < v.semaphore_list.len() ==> v.semaphore_up_outcome(tid, id).0 == SyncStep::Proceed,
        ({
            let w = v.semaphore_up_outcome(tid, id).1;
            &&& w.sem_alloc.len() == v.sem_alloc.len()
            &&& forall|i: int, j: int|
                0 <= i < v.sem_alloc.len() && 0 <= j < v.sem_alloc[i].len() && (i, j) != (tid, id)
                    ==> #[trigger] w.sem_alloc[i][j] == v.sem_alloc[i][j]
            &&& id < v.semaphore_list.len() && tid < v.sem_alloc.len() && id < v.sem_alloc[tid].len()
                ==> w.sem_alloc[tid][id] == if v.sem_alloc[tid][id] > 0 {
                v.sem_alloc[tid][id] - 1
            } else {
                0
            }
            &&& forall|i: int| 0 <= i < v.sem_alloc.len() ==> #[trigger] w.sem_alloc[i].len()
                == v.sem_alloc[i].len()
            &&& w.mutex_owner == v.mutex_owner
            &&& w.sem_waiting == v.sem_waiting
            &&& w.semaphore_list == v.semaphore_list
        }),
{
}

/// A semaphore's free units in its snapshot are its total less what the
/// threads hold, and none when they hold its total or more.
pub proof fn lemma_sem_snapshot_available<M, S, C>(v: SyncView<M, S, C>, alive: Seq<bool>, id: int)
    requires
        0 <= id < v.semaphore_list.len(),
        v.sem_held_fits(alive.len() as int),
    ensures
        v.sem_snapshot(alive).available[id] + v.sem_used(alive.len() as int, id) == if v.sem_total_of(id)
            >= v.sem_used(alive.len() as int, id) {
            v.sem_total_of(id) as int
        } else {
            v.sem_used(alive.len() as int, id)
        },
        v.sem_used(alive.len() as int, id) == col_sum(
            v.sem_held_matrix(alive.len() as int),
            all_rows(alive.len() as int),
            id,
        ),
{
    lemma_col_sum_nonneg(v.sem_held_matrix(alive.len() as int), all_rows(alive.len() as int), id);
}

} // verus!
