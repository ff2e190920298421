//! Stride scheduling: the ready task with the smallest stride runs next, and
//! each run advances its stride by `BIG_STRIDE / priority`.
use vstd::prelude::*;

verus! {

/// The stride unit: a run advances a task's stride by this much divided by its priority.
pub const BIG_STRIDE: u128 = 20_000_000_000u128;

/// A task in the ready queue, with the stride and the priority it is ordered by.
pub struct StrideWrapper<T> {
    pub task: T,
    pub stride: u128,
    pub priority: usize,
}

/// The step that one run adds to the stride of a task with this priority.
pub open spec fn pass(priority: usize) -> int {
    BIG_STRIDE as int / priority as int
}

/// One run of the task can be recorded: its priority is positive and the
/// advanced stride fits.
pub open spec fn can_schedule<T>(w: StrideWrapper<T>) -> bool {
    w.priority > 0 && w.stride + pass(w.priority) <= u128::MAX
}

/// The task after one more run.
pub open spec fn after_run<T>(w: StrideWrapper<T>) -> StrideWrapper<T> {
    StrideWrapper { stride: (w.stride + pass(w.priority)) as u128, ..w }
}

/// Entry `i` has a stride no larger than any other entry.
pub open spec fn is_min_stride<T>(s: Seq<StrideWrapper<T>>, i: int) -> bool {
    0 <= i < s.len() && forall|j: int| 0 <= j < s.len() ==> s[i].stride <= #[trigger] s[j].stride
}

/// One run advances the stride by exactly the integer quotient of
/// `BIG_STRIDE` by the priority, and keeps the task and its priority.
pub proof fn lemma_run_advance<T>(w: StrideWrapper<T>)
    requires
        can_schedule(w),
    ensures
        after_run(w).task == w.task,
        after_run(w).priority == w.priority,
        (after_run(w).stride - w.stride) * w.priority <= BIG_STRIDE,
        BIG_STRIDE < (after_run(w).stride - w.stride + 1) * w.priority,
{
    let p = w.priority as int;
    let d = BIG_STRIDE as int / p;
    vstd::arithmetic::div_mod::lemma_fundamental_div_mod(BIG_STRIDE as int, p);
    vstd::arithmetic::div_mod::lemma_mod_bound(BIG_STRIDE as int, p);
    assert(after_run(w).stride - w.stride == d);
    assert(d * p <= BIG_STRIDE < (d + 1) * p) by (nonlinear_arith)
        requires
            BIG_STRIDE as int == p * d + BIG_STRIDE as int % p,
            0 <= BIG_STRIDE as int % p < p,
    ;
}

impl<T> StrideWrapper<T> {
    pub fn new(task: T, stride: u128, priority: usize) -> (w: Self)
        ensures
            w.task == task,
            w.stride == stride,
            w.priority == priority,
    {
        Self { task, stride, priority }
    }

    /// Record one run of the task: its stride grows by `BIG_STRIDE / priority`.
    pub fn scheduled(&mut self)
        requires
            can_schedule(*old(self)),
        ensures
            *final(self) == after_run(*old(self)),
            final(self).task == old(self).task,
            final(self).priority == old(self).priority,
            (final(self).stride - old(self).stride) * old(self).priority <= BIG_STRIDE,
            BIG_STRIDE < (final(self).stride - old(self).stride + 1) * old(self).priority,
    {
        proof {
            lemma_run_advance(*self);
        }
        self.stride = self.stride + BIG_STRIDE / (self.priority as u128);
    }
}

/// The ready queue of a stride scheduler.
pub struct StrideQueue<T> {
    queue: Vec<StrideWrapper<T>>,
}

impl<T> StrideQueue<T> {
    /// The queued tasks; their order carries no meaning.
    pub closed spec fn entries(&self) -> Seq<StrideWrapper<T>> {
        self.queue@
    }

    pub fn new() -> (q: Self)
        ensures
            q.entries() == Seq::<StrideWrapper<T>>::empty(),
    {
        Self { queue: Vec::new() }
    }

    pub fn len(&self) -> (n: usize)
        ensures
            n == self.entries().len(),
    {
        self.queue.len()
    }

    /// Put a task in the queue with its stride and priority.
    pub fn push(&mut self, task: T, stride: u128, priority: usize)
        ensures
            final(self).entries() == old(self).entries().push(
                StrideWrapper { task, stride, priority },
            ),
    {
        self.queue.push(StrideWrapper::new(task, stride, priority));
    }

    /// Take out a task of smallest stride and record one run of it. Which of
    /// several tasks of equal stride comes out is left open.
    pub fn pop(&mut self) -> (popped: Option<StrideWrapper<T>>)
        requires
            forall|i: int| is_min_stride(old(self).entries(), i) ==> #[trigger] can_schedule(
                old(self).entries()[i],
            ),
        ensures
            popped is None <==> old(self).entries().len() == 0,
            popped is None ==> final(self).entries() == old(self).entries(),
            popped matches Some(w) ==> exists|i: int|
                #[trigger] is_min_stride(old(self).entries(), i) && final(self).entries() == old(
                    self,
                ).entries().remove(i) && w == after_run(old(self).entries()[i]),
            popped matches Some(w) ==> exists|i: int|
                0 <= i < old(self).entries().len()
                && (forall|j: int| 0 <= j < old(self).entries().len() ==> old(self).entries()[i].stride
                    <= #[trigger] old(self).entries()[j].stride)
                && #[trigger] final(self).entries() == old(self).entries().remove(i)
                && w.task == old(self).entries()[i].task
                && w.priority == old(self).entries()[i].priority
                && (w.stride - old(self).entries()[i].stride) * w.priority <= BIG_STRIDE
                && BIG_STRIDE < (w.stride - old(self).entries()[i].stride + 1) * w.priority,
    {
        if self.queue.len() == 0 {
            return None;
        }
        let mut best: usize = 0;
        let mut i: usize = 1;
        while i < self.queue.len()
            invariant
                0 <= best < i <= self.queue.len(),
                forall|j: int| 0 <= j < i ==> self.queue@[best as int].stride <= #[trigger] self.queue@[j].stride,
            decreases self.queue.len() - i,
        {
            if self.queue[i].stride < self.queue[best].stride {
                best = i;
            }
            i = i + 1;
        }
        let ghost before = self.queue@;
        assert(before == old(self).entries());
        assert(is_min_stride(before, best as int));
        assert(can_schedule(before[best as int]));
        let mut w = self.queue.remove(best);
        w.scheduled();
        Some(w)
    }
}

/// Whether every two strides of the queue differ by at most `gap`.
pub open spec fn strides_within<T>(s: Seq<StrideWrapper<T>>, gap: int) -> bool {
    forall|i: int, j: int| 0 <= i < s.len() && 0 <= j < s.len() ==> #[trigger] s[i].stride <= #[trigger] s[j].stride + gap
}

/// With every priority at least 2, the strides of the ready tasks stay within
/// `BIG_STRIDE / 2` of each other: running the task of smallest stride and
/// putting it back keeps them so.
pub proof fn lemma_stride_gap_kept<T>(s: Seq<StrideWrapper<T>>, i: int)
    requires
        strides_within(s, BIG_STRIDE as int / 2),
        is_min_stride(s, i),
        can_schedule(s[i]),
        forall|k: int| 0 <= k < s.len() ==> #[trigger] s[k].priority >= 2,
    ensures
        strides_within(s.remove(i).push(after_run(s[i])), BIG_STRIDE as int / 2),
{
    let p = s[i].priority;
    assert(pass(p) <= BIG_STRIDE as int / 2) by {
        assert(p >= 2);
        vstd::arithmetic::div_mod::lemma_div_is_ordered_by_denominator(BIG_STRIDE as int, 2, p as int);
    }
    let t = s.remove(i).push(after_run(s[i]));
    assert forall|a: int, b: int| 0 <= a < t.len() && 0 <= b < t.len() implies #[trigger] t[a].stride
        <= #[trigger] t[b].stride + BIG_STRIDE as int / 2 by {
        let n = s.len() - 1;
        if a < n {
            let ai = if a < i { a } else { a + 1 };
            assert(t[a] == s[ai]);
        }
        if b < n {
            let bi = if b < i { b } else { b + 1 };
            assert(t[b] == s[bi]);
        }
    }
}

} // verus!
