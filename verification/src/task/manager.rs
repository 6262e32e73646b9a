//! The stride scheduler's ready queue.
//!
//! Each ready task carries its stride, a `u64` pass value that grows as the
//! task runs. The queue hands out first the task whose stride is least,
//! comparing strides by their wrapping difference read as a signed number,
//! so that the order survives strides wrapping past `u64::MAX` as long as
//! all ready strides lie within half the range of one another.
use vstd::prelude::*;
use vstd::multiset::Multiset;

verus! {

/// Half of the `u64` range: strides closer than this compare correctly.
pub open spec fn half_range() -> int {
    0x8000_0000_0000_0000int
}

/// `a - b` modulo 2^64.
pub open spec fn wrap_sub(a: u64, b: u64) -> int {
    if a >= b {
        a - b
    } else {
        a - b + 0x1_0000_0000_0000_0000int
    }
}

/// The wrapping difference `a - b` read as a signed 64-bit number.
pub open spec fn stride_diff(a: u64, b: u64) -> int {
    if wrap_sub(a, b) < half_range() {
        wrap_sub(a, b)
    } else {
        wrap_sub(a, b) - 0x1_0000_0000_0000_0000int
    }
}

/// A task with stride `a` goes before one with stride `b`.
pub open spec fn runs_before(a: u64, b: u64) -> bool {
    stride_diff(a, b) < 0
}

/// Every stride in `q` lies within half the range above `w`.
pub open spec fn within_window<T>(q: Multiset<(u64, T)>, w: u64) -> bool {
    forall|x: (u64, T)| q.contains(x) ==> #[trigger] wrap_sub(x.0, w) < half_range()
}

/// The strides in `q` all lie within half the range of some base, which
/// makes `runs_before` a strict order on them.
pub open spec fn strides_comparable<T>(q: Multiset<(u64, T)>) -> bool {
    exists|w: u64| within_window(q, w)
}

/// No task of `q` goes before a task of stride `s`.
pub open spec fn first_in_line<T>(q: Multiset<(u64, T)>, s: u64) -> bool {
    forall|x: (u64, T)| q.contains(x) ==> !runs_before(x.0, s)
}

/// Within one window, the signed wrapping difference is the plain
/// difference of the offsets from the window's base.
pub proof fn lemma_window_diff(a: u64, b: u64, w: u64)
    requires
        wrap_sub(a, w) < half_range(),
        wrap_sub(b, w) < half_range(),
    ensures
        stride_diff(a, b) == wrap_sub(a, w) - wrap_sub(b, w),
{
}

/// How two ready tasks compare in the queue's order.
#[derive(PartialEq, Eq, Structural, Debug, Clone, Copy)]
pub enum StrideOrder {
    Less,
    Equal,
    Greater,
}

/// A ready task and its stride.
pub struct StrideTask<T> {
    pub stride: u64,
    pub task: T,
}

impl<T> StrideTask<T> {
    pub fn new(task: T, stride: u64) -> (r: Self)
        ensures
            r.stride == stride,
            r.task == task,
    {
        StrideTask { stride, task }
    }
}

/// Compares `a` with `b`: `Greater` when `a` goes first, `Equal` when the
/// strides are equal, `Less` otherwise.
pub fn stride_order<T>(a: &StrideTask<T>, b: &StrideTask<T>) -> (r: StrideOrder)
    ensures
        r == if a.stride == b.stride {
            StrideOrder::Equal
        } else if runs_before(a.stride, b.stride) {
            StrideOrder::Greater
        } else {
            StrideOrder::Less
        },
{
    let diff = a.stride.wrapping_sub(b.stride);
    if diff == 0 {
        StrideOrder::Equal
    } else if diff >= 0x8000_0000_0000_0000u64 {
        StrideOrder::Greater
    } else {
        StrideOrder::Less
    }
}

pub open spec fn entry<T>(t: StrideTask<T>) -> (u64, T) {
    (t.stride, t.task)
}

/// The stride and task of each queued entry.
pub open spec fn entries<T>(q: Seq<StrideTask<T>>) -> Seq<(u64, T)> {
    q.map_values(|t: StrideTask<T>| entry(t))
}

/// Every stride in `q` lies within half the range above `w`.
pub open spec fn seq_within_window<T>(q: Seq<StrideTask<T>>, w: u64) -> bool {
    forall|k: int| 0 <= k < q.len() ==> #[trigger] wrap_sub(q[k].stride, w) < half_range()
}

/// Among the first `i` tasks of `q`, none lies below task `best` in the
/// window above `w`.
pub open spec fn least_among<T>(q: Seq<StrideTask<T>>, i: int, best: int, w: u64) -> bool {
    forall|k: int| 0 <= k < i ==> #[trigger] wrap_sub(q[k].stride, w) >= wrap_sub(q[best].stride, w)
}

/// `after` is `before` less the task `t` of stride `s`, and, when the
/// strides of `before` are comparable, no task of `before` went before it.
pub open spec fn fetched_from<T>(
    before: Multiset<(u64, T)>,
    after: Multiset<(u64, T)>,
    s: u64,
    t: T,
) -> bool {
    &&& before.contains((s, t))
    &&& after == before.remove((s, t))
    &&& strides_comparable(before) ==> first_in_line(before, s)
}

/// The ready queue of the stride scheduler.
pub struct TaskManager<T> {
    ready_queue: Vec<StrideTask<T>>,
}

impl<T> View for TaskManager<T> {
    type V = Multiset<(u64, T)>;

    /// The ready tasks with their strides.
    closed spec fn view(&self) -> Multiset<(u64, T)> {
        entries(self.ready_queue@).to_multiset()
    }
}

impl<T> TaskManager<T> {
    /// An empty ready queue.
    pub fn new() -> (m: Self)
        ensures
            m@ == Multiset::<(u64, T)>::empty(),
    {
        let m = TaskManager { ready_queue: Vec::new() };
        proof {
            broadcast use vstd::seq_lib::group_to_multiset_ensures;

            assert(entries(m.ready_queue@) =~= Seq::empty());
            assert(m@.len() == 0);
        }
        m
    }

    /// Makes `task`, with stride `stride`, ready.
    pub fn add(&mut self, task: T, stride: u64)
        ensures
            final(self)@ == old(self)@.insert((stride, task)),
    {
        let ghost before = self.ready_queue@;
        let st = StrideTask::new(task, stride);
        self.ready_queue.push(st);
        proof {
            broadcast use vstd::seq_lib::group_to_multiset_ensures;

            assert(entries(self.ready_queue@) =~= entries(before).push((stride, task)));
        }
    }

    /// Takes out the ready task that goes first: `None` exactly when no task
    /// is ready; otherwise one task is removed, and no ready task went
    /// before it, provided the ready strides are comparable.
    pub fn fetch(&mut self) -> (r: Option<T>)
        ensures
            r is None <==> old(self)@.len() == 0,
            r is None ==> final(self)@ == old(self)@,
            r is Some ==> exists|s: u64|
                #[trigger] fetched_from(old(self)@, final(self)@, s, r.unwrap()),
    {
        broadcast use vstd::seq_lib::group_to_multiset_ensures;

        let ghost q = self.ready_queue@;
        let ghost es = entries(q);
        let len = self.ready_queue.len();
        if len == 0 {
            assert(es.len() == 0);
            return None;
        }
        let mut best: usize = 0;
        let mut i: usize = 1;
        while i < len
            invariant
                q == self.ready_queue@,
                len == q.len(),
                0 <= best < i <= len,
                forall|w: u64|
                    #[trigger] seq_within_window(q, w) ==> least_among(q, i as int, best as int, w),
            decreases len - i,
        {
            if stride_order(&self.ready_queue[i], &self.ready_queue[best]) == StrideOrder::Greater {
                proof {
                    assert forall|w: u64| #[trigger] seq_within_window(q, w) implies least_among(
                        q,
                        i + 1,
                        i as int,
                        w,
                    ) by {
                        assert(wrap_sub(q[i as int].stride, w) < half_range());
                        assert(wrap_sub(q[best as int].stride, w) < half_range());
                        lemma_window_diff(q[i as int].stride, q[best as int].stride, w);
                    }
                }
                best = i;
            } else {
                proof {
                    assert forall|w: u64| #[trigger] seq_within_window(q, w) implies least_among(
                        q,
                        i + 1,
                        best as int,
                        w,
                    ) by {
                        assert(wrap_sub(q[i as int].stride, w) < half_range());
                        assert(wrap_sub(q[best as int].stride, w) < half_range());
                        lemma_window_diff(q[i as int].stride, q[best as int].stride, w);
                    }
                }
            }
            i = i + 1;
        }
        let t = self.ready_queue.remove(best);
        let ghost s = t.stride;
        proof {
            let old_view = es.to_multiset();
            assert(entries(self.ready_queue@) =~= es.remove(best as int));
            assert(es[best as int] == (s, t.task));
            assert(old_view.contains((s, t.task))) by {
                assert(es.contains((s, t.task)));
            }
            if strides_comparable(old_view) {
                let w = choose|w: u64| within_window(old_view, w);
                assert forall|k: int| 0 <= k < len implies #[trigger] wrap_sub(q[k].stride, w)
                    < half_range() by {
                    assert(es[k] == entry(q[k]));
                    assert(es.contains(es[k]));
                    assert(old_view.contains(es[k]));
                    assert(wrap_sub(es[k].0, w) < half_range());
                }
                assert(seq_within_window(q, w));
                assert forall|x: (u64, T)| old_view.contains(x) implies !runs_before(x.0, s) by {
                    assert(es.contains(x));
                    let k = choose|k: int| 0 <= k < es.len() && es[k] == x;
                    assert(es[k] == entry(q[k]));
                    assert(wrap_sub(q[k].stride, w) >= wrap_sub(q[best as int].stride, w));
                    lemma_window_diff(x.0, s, w);
                }
            }
            assert(self@ == old_view.remove((s, t.task)));
            assert(old(self)@ == old_view);
            assert(fetched_from(old(self)@, self@, s, t.task));
        }
        let task = t.task;
        let result = Some(task);
        assert(result.unwrap() == task);
        result
    }
}

/// Within one window the queue's order is a strict total order on strides:
/// no stride goes before itself, of two distinct strides exactly one goes
/// first, and going first is transitive.
pub proof fn lemma_window_order(a: u64, b: u64, c: u64, w: u64)
    requires
        wrap_sub(a, w) < half_range(),
        wrap_sub(b, w) < half_range(),
        wrap_sub(c, w) < half_range(),
    ensures
        !runs_before(a, a),
        a != b ==> (runs_before(a, b) <==> !runs_before(b, a)),
        runs_before(a, b) && runs_before(b, c) ==> runs_before(a, c),
{
    lemma_window_diff(a, a, w);
    lemma_window_diff(a, b, w);
    lemma_window_diff(b, a, w);
    lemma_window_diff(b, c, w);
    lemma_window_diff(a, c, w);
}

/// Fetching from a queue that holds one task gives that task and leaves the
/// queue empty.
pub proof fn lemma_single_task_fetched<T>(
    s: u64,
    t: T,
    after: Multiset<(u64, T)>,
    s2: u64,
    t2: T,
)
    requires
        fetched_from(Multiset::empty().insert((s, t)), after, s2, t2),
    ensures
        s2 == s,
        t2 == t,
        after == Multiset::<(u64, T)>::empty(),
{
    let q = Multiset::<(u64, T)>::empty().insert((s, t));
    assert(q.contains((s2, t2)));
    assert((s2, t2) == (s, t));
    assert(after =~= Multiset::<(u64, T)>::empty());
}

/// Of two tasks whose strides lie within half the range of each other, the
/// one with the smaller stride is fetched first.
pub proof fn lemma_smaller_stride_first<T>(
    s1: u64,
    t1: T,
    s2: u64,
    t2: T,
    after: Multiset<(u64, T)>,
    s: u64,
    t: T,
)
    requires
        s1 < s2,
        s2 - s1 < half_range(),
        fetched_from(Multiset::empty().insert((s1, t1)).insert((s2, t2)), after, s, t),
    ensures
        s == s1,
        t == t1,
{
    let q = Multiset::<(u64, T)>::empty().insert((s1, t1)).insert((s2, t2));
    assert(within_window(q, s1));
    assert(q.contains((s1, t1)));
    assert(q.contains((s, t)));
    if s != s1 {
        assert(s == s2);
        assert(runs_before(s1, s2));
    }
}

/// Without wrapping, the smaller of two strides goes first when they are at
/// most half the range apart; further apart, the comparison reads the
/// difference as having wrapped and the larger goes first.
pub proof fn lemma_runs_before_values(a: u64, b: u64)
    ensures
        a < b ==> (runs_before(a, b) <==> b - a <= half_range()),
        a > b ==> (runs_before(a, b) <==> a - b >= half_range()),
        !runs_before(a, a),
{
}

} // verus!
