//! The mathematical model of a process's resource bookkeeping and of the
//! banker's notion of a safe state.
use vstd::prelude::*;

verus! {

/// One more than the largest `usize`: every task id lies below it.
pub open spec fn key_space() -> nat {
    usize::MAX as nat + 1
}

/// What task `t` holds of resource `r` (nothing when the row or the column is absent).
pub open spec fn allocation_of(allocated: Map<usize, Map<usize, usize>>, t: usize, r: usize) -> nat {
    if allocated.contains_key(t) && allocated[t].contains_key(r) {
        allocated[t][r] as nat
    } else {
        0
    }
}

/// The sum of what the tasks of `tasks` below `bound` hold of resource `r`.
pub open spec fn allocated_sum(
    allocated: Map<usize, Map<usize, usize>>,
    tasks: Set<usize>,
    r: usize,
    bound: nat,
) -> nat
    decreases bound,
{
    if bound == 0 {
        0
    } else {
        let t = (bound - 1) as usize;
        allocated_sum(allocated, tasks, r, (bound - 1) as nat) + if tasks.contains(t) {
            allocation_of(allocated, t, r)
        } else {
            0
        }
    }
}

/// A row that holds `0` for each resource of `keys`.
pub open spec fn zero_row(keys: Set<usize>) -> Map<usize, usize> {
    keys.mk_map(|r: usize| 0usize)
}

/// Each row gets resource `rid`, with `0`, where it does not have it yet.
pub open spec fn with_column(rows: Map<usize, Map<usize, usize>>, rid: usize) -> Map<
    usize,
    Map<usize, usize>,
> {
    rows.map_values(
        |row: Map<usize, usize>|
            if row.contains_key(rid) {
                row
            } else {
                row.insert(rid, 0)
            },
    )
}

/// Each row loses resource `rid`.
pub open spec fn without_column(rows: Map<usize, Map<usize, usize>>, rid: usize) -> Map<
    usize,
    Map<usize, usize>,
> {
    rows.map_values(|row: Map<usize, usize>| row.remove(rid))
}

/// What a `ResourceStatus` holds: the free count of each resource, and for each
/// task what it holds and what it still needs of each resource.
pub struct ResourceStatusView {
    pub available: Map<usize, usize>,
    pub allocated: Map<usize, Map<usize, usize>>,
    pub needed: Map<usize, Map<usize, usize>>,
}

impl ResourceStatusView {
    /// The state right after creation: no resource, and task `0` with empty rows.
    pub open spec fn initial() -> ResourceStatusView {
        ResourceStatusView {
            available: Map::empty(),
            allocated: Map::empty().insert(0usize, Map::empty()),
            needed: Map::empty().insert(0usize, Map::empty()),
        }
    }

    /// The tracked tasks are the same in both matrices.
    pub open spec fn wf(self) -> bool {
        self.allocated.dom() == self.needed.dom()
    }

    /// Every row speaks only of tracked resources.
    pub open spec fn shaped(self) -> bool {
        forall|t: usize| #[trigger]
            self.allocated.contains_key(t) ==> self.allocated[t].dom().subset_of(
                self.available.dom(),
            ) && self.needed[t].dom().subset_of(self.available.dom())
    }

    /// Rows and columns match one to one: every row of both matrices has
    /// exactly the tracked resources.
    pub open spec fn is_matrix(self) -> bool {
        &&& self.wf()
        &&& forall|t: usize| #[trigger]
            self.allocated.contains_key(t) ==> self.allocated[t].dom() == self.available.dom()
                && self.needed[t].dom() == self.available.dom()
    }

    /// What would be free of resource `r` once every task of `done` has
    /// finished and given back what it holds.
    pub open spec fn work(self, done: Set<usize>, r: usize) -> int {
        self.available[r] + allocated_sum(self.allocated, done, r, key_space())
    }

    /// All of resource `r` that the process has: free, and held by its tasks.
    pub open spec fn total(self, r: usize) -> int {
        self.work(self.allocated.dom(), r)
    }

    /// The count of every resource, free and held together, fits in a `usize`.
    pub open spec fn totals_fit(self) -> bool {
        forall|r: usize| self.available.contains_key(r) ==> #[trigger] self.total(r) <= usize::MAX
    }

    /// Task `t` gets all it needs once the tasks of `done` have finished.
    pub open spec fn can_finish(self, t: usize, done: Set<usize>) -> bool {
        forall|r: usize| #[trigger]
            self.needed[t].contains_key(r) ==> self.needed[t][r] <= self.work(done, r)
    }

    /// `s` orders all tasks so that each can finish after those before it.
    pub open spec fn is_safe_sequence(self, s: Seq<usize>) -> bool {
        &&& s.no_duplicates()
        &&& s.to_set() == self.allocated.dom()
        &&& forall|i: int| 0 <= i < s.len() ==> #[trigger] self.can_finish(s[i], s.take(i).to_set())
    }

    /// Some order lets every task finish.
    pub open spec fn is_safe(self) -> bool {
        exists|s: Seq<usize>| self.is_safe_sequence(s)
    }

    /// What the deadlock check answers: a deadlock is reported exactly when no
    /// order lets all tasks finish.
    pub open spec fn reports_deadlock(self) -> bool {
        !self.is_safe()
    }

    /// A new task gets rows of zeros over the resources of task `0`'s rows.
    pub open spec fn track(self, tid: usize) -> ResourceStatusView {
        ResourceStatusView {
            available: self.available,
            allocated: self.allocated.insert(tid, zero_row(self.allocated[0].dom())),
            needed: self.needed.insert(tid, zero_row(self.needed[0].dom())),
        }
    }

    pub open spec fn untrack(self, tid: usize) -> ResourceStatusView {
        ResourceStatusView {
            available: self.available,
            allocated: self.allocated.remove(tid),
            needed: self.needed.remove(tid),
        }
    }

    /// The free count of `rid` after adding `diff`, as the machine computes it.
    pub open spec fn updated_count(self, rid: usize, diff: isize) -> usize {
        if self.available.contains_key(rid) {
            (self.available[rid] as isize + diff) as usize
        } else {
            diff as usize
        }
    }

    pub open spec fn update_resource(self, rid: usize, diff: isize) -> ResourceStatusView {
        ResourceStatusView {
            available: self.available.insert(rid, self.updated_count(rid, diff)),
            allocated: with_column(self.allocated, rid),
            needed: with_column(self.needed, rid),
        }
    }

    pub open spec fn forget_resource(self, rid: usize) -> ResourceStatusView {
        ResourceStatusView {
            available: self.available.remove(rid),
            allocated: without_column(self.allocated, rid),
            needed: without_column(self.needed, rid),
        }
    }

    pub open spec fn set_need(self, t: usize, rid: usize, count: usize) -> ResourceStatusView {
        ResourceStatusView {
            needed: self.needed.insert(t, self.needed[t].insert(rid, count)),
            ..self
        }
    }

    /// The state in which task `t` needs `count` more of `rid`.
    pub open spec fn add_need(self, t: usize, rid: usize, count: usize) -> ResourceStatusView {
        self.set_need(t, rid, (self.needed[t][rid] + count) as usize)
    }

    pub open spec fn allocate(self, t: usize, rid: usize, count: usize) -> ResourceStatusView {
        ResourceStatusView {
            available: self.available.insert(rid, (self.available[rid] - count) as usize),
            allocated: self.allocated.insert(
                t,
                self.allocated[t].insert(rid, (self.allocated[t][rid] + count) as usize),
            ),
            needed: self.needed.insert(t, self.needed[t].insert(rid, (self.needed[t][rid] - count) as usize)),
        }
    }

    /// Task `t` holds a count of `rid` that a release can act on.
    pub open spec fn holds(self, t: usize, rid: usize) -> bool {
        self.allocated.contains_key(t) && self.allocated[t].contains_key(rid)
    }

    pub open spec fn release(self, t: usize, rid: usize, count: usize) -> ResourceStatusView {
        if self.holds(t, rid) {
            ResourceStatusView {
                available: self.available.insert(rid, (self.available[rid] + count) as usize),
                allocated: self.allocated.insert(
                    t,
                    self.allocated[t].insert(rid, (self.allocated[t][rid] - count) as usize),
                ),
                needed: self.needed,
            }
        } else {
            self
        }
    }
}

/// Growing the set of tasks never shrinks the sum.
pub proof fn lemma_sum_mono(
    allocated: Map<usize, Map<usize, usize>>,
    small: Set<usize>,
    large: Set<usize>,
    r: usize,
    bound: nat,
)
    requires
        small.subset_of(large),
    ensures
        allocated_sum(allocated, small, r, bound) <= allocated_sum(allocated, large, r, bound),
    decreases bound,
{
    if bound > 0 {
        lemma_sum_mono(allocated, small, large, r, (bound - 1) as nat);
    }
}

/// The sum over no task is zero.
pub proof fn lemma_sum_empty(allocated: Map<usize, Map<usize, usize>>, r: usize, bound: nat)
    ensures
        allocated_sum(allocated, Set::empty(), r, bound) == 0,
    decreases bound,
{
    if bound > 0 {
        lemma_sum_empty(allocated, r, (bound - 1) as nat);
    }
}

/// The sum is zero when no task of the set holds anything of the resource.
pub proof fn lemma_sum_zero(allocated: Map<usize, Map<usize, usize>>, tasks: Set<usize>, r: usize, bound: nat)
    requires
        forall|t: usize| tasks.contains(t) ==> allocation_of(allocated, t, r) == 0,
    ensures
        allocated_sum(allocated, tasks, r, bound) == 0,
    decreases bound,
{
    if bound > 0 {
        lemma_sum_zero(allocated, tasks, r, (bound - 1) as nat);
    }
}

/// Adding a task to the set adds what it holds.
pub proof fn lemma_sum_insert(
    allocated: Map<usize, Map<usize, usize>>,
    tasks: Set<usize>,
    t: usize,
    r: usize,
    bound: nat,
)
    requires
        !tasks.contains(t),
        bound <= key_space(),
    ensures
        allocated_sum(allocated, tasks.insert(t), r, bound) == allocated_sum(allocated, tasks, r, bound)
            + if (t as nat) < bound {
            allocation_of(allocated, t, r)
        } else {
            0
        },
    decreases bound,
{
    if bound > 0 {
        lemma_sum_insert(allocated, tasks, t, r, (bound - 1) as nat);
    }
}

/// The sum depends only on what the tasks of the set hold.
pub proof fn lemma_sum_congruent(
    a1: Map<usize, Map<usize, usize>>,
    a2: Map<usize, Map<usize, usize>>,
    tasks: Set<usize>,
    r: usize,
    bound: nat,
)
    requires
        forall|u: usize| tasks.contains(u) ==> allocation_of(a1, u, r) == allocation_of(a2, u, r),
    ensures
        allocated_sum(a1, tasks, r, bound) == allocated_sum(a2, tasks, r, bound),
    decreases bound,
{
    if bound > 0 {
        lemma_sum_congruent(a1, a2, tasks, r, (bound - 1) as nat);
    }
}

/// Changing what one task holds changes the sum by the difference.
pub proof fn lemma_sum_change_one(
    a1: Map<usize, Map<usize, usize>>,
    a2: Map<usize, Map<usize, usize>>,
    tasks: Set<usize>,
    t: usize,
    r: usize,
    bound: nat,
)
    requires
        forall|u: usize| u != t ==> allocation_of(a1, u, r) == allocation_of(a2, u, r),
        bound <= key_space(),
    ensures
        allocated_sum(a2, tasks, r, bound) == allocated_sum(a1, tasks, r, bound) + if tasks.contains(
            t,
        ) && (t as nat) < bound {
            allocation_of(a2, t, r) - allocation_of(a1, t, r)
        } else {
            0
        },
    decreases bound,
{
    if bound > 0 {
        lemma_sum_change_one(a1, a2, tasks, t, r, (bound - 1) as nat);
    }
}

/// Finishing more tasks only frees more.
pub proof fn lemma_can_finish_mono(v: ResourceStatusView, t: usize, small: Set<usize>, large: Set<usize>)
    requires
        small.subset_of(large),
        v.can_finish(t, small),
    ensures
        v.can_finish(t, large),
{
    assert forall|r: usize| #[trigger] v.needed[t].contains_key(r) implies v.needed[t][r] <= v.work(
        large,
        r,
    ) by {
        lemma_sum_mono(v.allocated, small, large, r, key_space());
    }
}

/// The elements of a prefix one longer are those of the prefix and the next element.
pub proof fn lemma_take_to_set_succ(s: Seq<usize>, i: int)
    requires
        0 <= i < s.len(),
    ensures
        s.take(i + 1).to_set() == s.take(i).to_set().insert(s[i]),
{
    let p1 = s.take(i + 1);
    let p0 = s.take(i);
    assert(p1 == p0.push(s[i]));
    let a = p1.to_set();
    let b = p0.to_set().insert(s[i]);
    assert forall|x: usize| a.contains(x) <==> b.contains(x) by {
        if a.contains(x) {
            let k = choose|k: int| 0 <= k < p1.len() && #[trigger] p1[k] == x;
            if k < i {
                assert(p0[k] == x);
            }
        }
        if b.contains(x) && x != s[i] {
            let k = choose|k: int| 0 <= k < p0.len() && #[trigger] p0[k] == x;
            assert(p1[k] == x);
        }
        if x == s[i] {
            assert(p1[i] == x);
        }
    }
    assert(a =~= b);
}

/// One step along a sequence without duplicates: the next element is not in
/// the prefix, and the longer prefix holds exactly the shorter one and it.
pub proof fn lemma_take_step(s: Seq<usize>, i: int)
    requires
        s.no_duplicates(),
        0 <= i < s.len(),
    ensures
        s.to_set().contains(s[i]),
        !s.take(i).contains(s[i]),
        forall|u: usize| #[trigger] s.take(i + 1).contains(u) <==> (s.take(i).contains(u) || u == s[i]),
{
    lemma_take_to_set_succ(s, i);
    assert(s.contains(s[i]));
    assert forall|u: usize| #[trigger] s.take(i + 1).contains(u) <==> (s.take(i).contains(u) || u == s[i]) by {
        assert(s.take(i + 1).to_set().contains(u) == s.take(i + 1).contains(u));
        assert(s.take(i).to_set().contains(u) == s.take(i).contains(u));
    }
    if s.take(i).contains(s[i]) {
        let k = choose|k: int| 0 <= k < s.take(i).len() && #[trigger] s.take(i)[k] == s[i];
        assert(s[k] == s[i]);
    }
}

/// The whole sequence is its longest prefix, and it holds exactly the
/// elements of its set.
pub proof fn lemma_take_all(s: Seq<usize>)
    ensures
        s.take(s.len() as int) == s,
        forall|u: usize| #[trigger] s.contains(u) <==> s.to_set().contains(u),
{
    assert(s.take(s.len() as int) == s);
}

/// When a safe order exists and every task outside `done` is stuck given
/// what `done` frees, every task lies in `done`: by induction on the prefixes of
/// the safe order.
proof fn lemma_safe_prefix_in_done(v: ResourceStatusView, s: Seq<usize>, done: Set<usize>, i: int)
    requires
        v.is_safe_sequence(s),
        0 <= i <= s.len(),
        forall|t: usize|
            v.allocated.contains_key(t) && !done.contains(t) ==> !#[trigger] v.can_finish(t, done),
    ensures
        s.take(i).to_set().subset_of(done),
    decreases i,
{
    if i == 0 {
        assert(s.take(0).to_set() =~= Set::empty());
    } else {
        lemma_safe_prefix_in_done(v, s, done, i - 1);
        assert(v.can_finish(s[i - 1], s.take(i - 1).to_set()));
        lemma_can_finish_mono(v, s[i - 1], s.take(i - 1).to_set(), done);
        assert(s.to_set().contains(s[i - 1]));
        lemma_take_to_set_succ(s, i - 1);
    }
}

/// A state in which the tasks outside `done` can none of them finish, given
/// what `done` frees, is not safe.
pub proof fn lemma_stuck_is_unsafe(v: ResourceStatusView, done: Set<usize>)
    requires
        done.subset_of(v.allocated.dom()),
        done != v.allocated.dom(),
        forall|t: usize|
            v.allocated.contains_key(t) && !done.contains(t) ==> !#[trigger] v.can_finish(t, done),
    ensures
        !v.is_safe(),
{
    if v.is_safe() {
        let s = choose|s: Seq<usize>| v.is_safe_sequence(s);
        lemma_safe_prefix_in_done(v, s, done, s.len() as int);
        assert(s.take(s.len() as int) == s);
        assert(done =~= v.allocated.dom());
    }
}

/// Tracking a new task and then untracking it gives back the state as it was.
pub proof fn lemma_track_then_untrack(v: ResourceStatusView, tid: usize)
    requires
        v.wf(),
        !v.allocated.contains_key(tid),
    ensures
        v.track(tid).untrack(tid) == v,
{
    assert(v.track(tid).untrack(tid).allocated =~= v.allocated);
    assert(v.track(tid).untrack(tid).needed =~= v.needed);
}

/// Tracking a resource that no row mentions yet and then forgetting it gives
/// back the state as it was.
pub proof fn lemma_update_then_forget(v: ResourceStatusView, rid: usize, diff: isize)
    requires
        !v.available.contains_key(rid),
        forall|t: usize| #[trigger] v.allocated.contains_key(t) ==> !v.allocated[t].contains_key(rid),
        forall|t: usize| #[trigger] v.needed.contains_key(t) ==> !v.needed[t].contains_key(rid),
    ensures
        v.update_resource(rid, diff).forget_resource(rid) == v,
{
    let w = v.update_resource(rid, diff).forget_resource(rid);
    assert(w.available =~= v.available);
    assert forall|t: usize| #[trigger] v.allocated.contains_key(t) implies w.allocated[t] == v.allocated[t] by {
        assert(w.allocated[t] =~= v.allocated[t]);
    }
    assert forall|t: usize| #[trigger] v.needed.contains_key(t) implies w.needed[t] == v.needed[t] by {
        assert(w.needed[t] =~= v.needed[t]);
    }
    assert(w.allocated =~= v.allocated);
    assert(w.needed =~= v.needed);
}

/// What `allocate` asks of the state.
pub open spec fn can_allocate(v: ResourceStatusView, t: usize, rid: usize, count: usize) -> bool {
    &&& v.needed.contains_key(t)
    &&& v.needed[t].contains_key(rid)
    &&& v.needed[t][rid] >= count
    &&& v.allocated.contains_key(t)
    &&& v.allocated[t].contains_key(rid)
    &&& v.allocated[t][rid] + count <= usize::MAX
    &&& v.available.contains_key(rid)
    &&& v.available[rid] >= count
}

/// Allocating moves units from the free pool to a task: the total of every
/// resource, free and held together, stays what it was.
pub proof fn lemma_allocate_keeps_totals(v: ResourceStatusView, t: usize, rid: usize, count: usize, r: usize)
    requires
        can_allocate(v, t, rid, count),
    ensures
        v.allocate(t, rid, count).total(r) == v.total(r),
{
    let w = v.allocate(t, rid, count);
    assert(w.allocated.dom() =~= v.allocated.dom());
    lemma_sum_change_one(v.allocated, w.allocated, v.allocated.dom(), t, r, key_space());
}

/// Releasing moves units from a task back to the free pool: the total of
/// every resource stays what it was.
pub proof fn lemma_release_keeps_totals(v: ResourceStatusView, t: usize, rid: usize, count: usize, r: usize)
    requires
        v.holds(t, rid) ==> v.allocated[t][rid] >= count && v.available.contains_key(rid) && v.available[rid] + count <= usize::MAX,
    ensures
        v.release(t, rid, count).total(r) == v.total(r),
{
    let w = v.release(t, rid, count);
    if v.holds(t, rid) {
        assert(w.allocated.dom() =~= v.allocated.dom());
        lemma_sum_change_one(v.allocated, w.allocated, v.allocated.dom(), t, r, key_space());
    }
}

/// Releasing what was just allocated gives back the free pool and the held
/// counts; only the need stays lowered.
pub proof fn lemma_allocate_then_release(v: ResourceStatusView, t: usize, rid: usize, count: usize)
    requires
        can_allocate(v, t, rid, count),
    ensures
        v.allocate(t, rid, count).release(t, rid, count) == (ResourceStatusView {
            needed: v.needed.insert(t, v.needed[t].insert(rid, (v.needed[t][rid] - count) as usize)),
            ..v
        }),
{
    let w = v.allocate(t, rid, count).release(t, rid, count);
    assert(w.available =~= v.available);
    assert(w.allocated[t] =~= v.allocated[t]);
    assert(w.allocated =~= v.allocated);
}

/// Allocation keeps the invariants that the deadlock check asks for.
pub proof fn lemma_allocate_keeps_checkable(v: ResourceStatusView, t: usize, rid: usize, count: usize)
    requires
        can_allocate(v, t, rid, count),
        v.wf(),
        v.shaped(),
        v.totals_fit(),
    ensures
        v.allocate(t, rid, count).wf(),
        v.allocate(t, rid, count).shaped(),
        v.allocate(t, rid, count).totals_fit(),
{
    let w = v.allocate(t, rid, count);
    assert(w.available.dom() =~= v.available.dom());
    assert(w.allocated.dom() =~= v.allocated.dom());
    assert(w.needed.dom() =~= v.needed.dom());
    assert forall|u: usize| #[trigger] w.allocated.contains_key(u) implies w.allocated[u].dom().subset_of(
        w.available.dom(),
    ) && w.needed[u].dom().subset_of(w.available.dom()) by {
        assert(v.allocated.contains_key(u));
    }
    assert forall|r: usize| w.available.contains_key(r) implies #[trigger] w.total(r) <= usize::MAX by {
        lemma_allocate_keeps_totals(v, t, rid, count, r);
    }
}

/// A newly created status is safe, and the deadlock check reports none.
pub proof fn lemma_initial_is_safe()
    ensures
        ResourceStatusView::initial().is_safe(),
        !ResourceStatusView::initial().reports_deadlock(),
{
    let v = ResourceStatusView::initial();
    let s = seq![0usize];
    assert(s.to_set() =~= v.allocated.dom()) by {
        assert(s[0] == 0usize);
    }
    assert(v.can_finish(0, s.take(0).to_set()));
    assert(v.is_safe_sequence(s));
}

/// Lowering a need never makes a safe state unsafe.
pub proof fn lemma_lower_need_keeps_safe(v: ResourceStatusView, t: usize, rid: usize, count: usize)
    requires
        v.is_safe(),
        v.needed.contains_key(t),
        v.needed[t].contains_key(rid),
        count <= v.needed[t][rid],
    ensures
        v.set_need(t, rid, count).is_safe(),
{
    let w = v.set_need(t, rid, count);
    let s = choose|s: Seq<usize>| v.is_safe_sequence(s);
    assert forall|i: int| 0 <= i < s.len() implies #[trigger] w.can_finish(s[i], s.take(i).to_set()) by {
        assert(v.can_finish(s[i], s.take(i).to_set()));
        assert forall|r: usize| #[trigger] w.needed[s[i]].contains_key(r) implies w.needed[s[i]][r] <= w.work(s.take(i).to_set(), r) by {
            assert(v.needed[s[i]].contains_key(r));
        }
    }
    assert(w.is_safe_sequence(s));
}

/// The invariants that the deadlock check asks for.
pub open spec fn checkable(v: ResourceStatusView) -> bool {
    v.wf() && v.shaped() && v.totals_fit()
}

/// Tracking a task keeps the state checkable.
pub proof fn lemma_track_keeps_checkable(v: ResourceStatusView, tid: usize)
    requires
        checkable(v),
        !v.allocated.contains_key(tid),
        v.allocated.contains_key(0),
    ensures
        checkable(v.track(tid)),
{
    let w = v.track(tid);
    assert(w.allocated.dom() =~= v.allocated.dom().insert(tid));
    assert(w.needed.dom() =~= v.needed.dom().insert(tid));
    assert forall|t: usize| #[trigger] w.allocated.contains_key(t) implies w.allocated[t].dom().subset_of(
        w.available.dom(),
    ) && w.needed[t].dom().subset_of(w.available.dom()) by {
        assert(v.allocated.contains_key(0));
        if t != tid {
            assert(v.allocated.contains_key(t));
        }
    }
    assert forall|r: usize| w.available.contains_key(r) implies #[trigger] w.total(r) <= usize::MAX by {
        lemma_sum_change_one(v.allocated, w.allocated, w.allocated.dom(), tid, r, key_space());
        lemma_sum_insert(v.allocated, v.allocated.dom(), tid, r, key_space());
        assert(v.total(r) <= usize::MAX);
    }
}

/// Untracking a task keeps the state checkable.
pub proof fn lemma_untrack_keeps_checkable(v: ResourceStatusView, tid: usize)
    requires
        checkable(v),
    ensures
        checkable(v.untrack(tid)),
{
    let w = v.untrack(tid);
    assert(w.allocated.dom() =~= w.needed.dom());
    assert forall|t: usize| #[trigger] w.allocated.contains_key(t) implies w.allocated[t].dom().subset_of(
        w.available.dom(),
    ) && w.needed[t].dom().subset_of(w.available.dom()) by {
        assert(v.allocated.contains_key(t));
    }
    assert forall|r: usize| w.available.contains_key(r) implies #[trigger] w.total(r) <= usize::MAX by {
        lemma_sum_congruent(v.allocated, w.allocated, w.allocated.dom(), r, key_space());
        lemma_sum_mono(v.allocated, w.allocated.dom(), v.allocated.dom(), r, key_space());
        assert(v.total(r) <= usize::MAX);
    }
}

/// Tracking a resource keeps the matrices well formed and shaped.
pub proof fn lemma_update_keeps_shape(v: ResourceStatusView, rid: usize, diff: isize)
    requires
        v.wf(),
        v.shaped(),
    ensures
        v.update_resource(rid, diff).wf(),
        v.update_resource(rid, diff).shaped(),
{
    let w = v.update_resource(rid, diff);
    assert(w.allocated.dom() =~= w.needed.dom());
    assert forall|t: usize| #[trigger] w.allocated.contains_key(t) implies w.allocated[t].dom().subset_of(
        w.available.dom(),
    ) && w.needed[t].dom().subset_of(w.available.dom()) by {
        assert(v.allocated.contains_key(t));
    }
}

/// Forgetting a resource keeps the state checkable.
pub proof fn lemma_forget_keeps_checkable(v: ResourceStatusView, rid: usize)
    requires
        checkable(v),
    ensures
        checkable(v.forget_resource(rid)),
{
    let w = v.forget_resource(rid);
    assert(w.allocated.dom() =~= w.needed.dom());
    assert forall|t: usize| #[trigger] w.allocated.contains_key(t) implies w.allocated[t].dom().subset_of(
        w.available.dom(),
    ) && w.needed[t].dom().subset_of(w.available.dom()) by {
        assert(v.allocated.contains_key(t));
    }
    assert forall|r: usize| w.available.contains_key(r) implies #[trigger] w.total(r) <= usize::MAX by {
        assert(w.allocated.dom() =~= v.allocated.dom());
        lemma_sum_congruent(v.allocated, w.allocated, v.allocated.dom(), r, key_space());
        assert(v.total(r) <= usize::MAX);
    }
}

/// Releasing keeps the state checkable.
pub proof fn lemma_release_keeps_checkable(v: ResourceStatusView, t: usize, rid: usize, count: usize)
    requires
        checkable(v),
        v.holds(t, rid) ==> v.allocated[t][rid] >= count && v.available.contains_key(rid)
            && v.available[rid] + count <= usize::MAX,
    ensures
        checkable(v.release(t, rid, count)),
{
    let w = v.release(t, rid, count);
    if v.holds(t, rid) {
        assert(w.available.dom() =~= v.available.dom());
        assert(w.allocated.dom() =~= v.allocated.dom());
        assert forall|u: usize| #[trigger] w.allocated.contains_key(u) implies w.allocated[u].dom().subset_of(
            w.available.dom(),
        ) && w.needed[u].dom().subset_of(w.available.dom()) by {
            assert(v.allocated.contains_key(u));
        }
        assert forall|r: usize| w.available.contains_key(r) implies #[trigger] w.total(r) <= usize::MAX by {
            lemma_release_keeps_totals(v, t, rid, count, r);
        }
    }
}

/// Setting the need of a tracked task for a tracked resource keeps the state checkable.
pub proof fn lemma_set_need_keeps_checkable(v: ResourceStatusView, t: usize, rid: usize, count: usize)
    requires
        checkable(v),
        v.needed.contains_key(t),
        v.available.contains_key(rid),
    ensures
        checkable(v.set_need(t, rid, count)),
{
    let w = v.set_need(t, rid, count);
    assert(w.needed.dom() =~= v.needed.dom());
    assert forall|u: usize| #[trigger] w.allocated.contains_key(u) implies w.allocated[u].dom().subset_of(
        w.available.dom(),
    ) && w.needed[u].dom().subset_of(w.available.dom()) by {
        assert(v.allocated.contains_key(u));
    }
    assert forall|r: usize| w.available.contains_key(r) implies #[trigger] w.total(r) <= usize::MAX by {
        assert(v.total(r) <= usize::MAX);
    }
}

/// A matrix is shaped: its rows speak only of tracked resources.
pub proof fn lemma_matrix_is_shaped(v: ResourceStatusView)
    requires
        v.is_matrix(),
    ensures
        v.wf(),
        v.shaped(),
{
    assert forall|t: usize| #[trigger] v.allocated.contains_key(t) implies v.allocated[t].dom().subset_of(
        v.available.dom(),
    ) && v.needed[t].dom().subset_of(v.available.dom()) by {}
}

/// The new status is a matrix.
pub proof fn lemma_initial_is_matrix()
    ensures
        ResourceStatusView::initial().is_matrix(),
{
    let v = ResourceStatusView::initial();
    assert(v.allocated.dom() =~= v.needed.dom());
    assert forall|t: usize| #[trigger] v.allocated.contains_key(t) implies v.allocated[t].dom() == v.available.dom()
        && v.needed[t].dom() == v.available.dom() by {
        assert(v.allocated[t].dom() =~= v.available.dom());
        assert(v.needed[t].dom() =~= v.available.dom());
    }
}

/// Tracking a resource adds a column to every row and to the free pool.
pub proof fn lemma_update_keeps_matrix(v: ResourceStatusView, rid: usize, diff: isize)
    requires
        v.is_matrix(),
    ensures
        v.update_resource(rid, diff).is_matrix(),
        v.update_resource(rid, diff).available.dom() == v.available.dom().insert(rid),
{
    let w = v.update_resource(rid, diff);
    assert(w.allocated.dom() =~= w.needed.dom());
    assert(w.available.dom() =~= v.available.dom().insert(rid));
    assert forall|t: usize| #[trigger] w.allocated.contains_key(t) implies w.allocated[t].dom() == w.available.dom()
        && w.needed[t].dom() == w.available.dom() by {
        assert(v.allocated.contains_key(t));
        assert(w.allocated[t].dom() =~= w.available.dom());
        assert(w.needed[t].dom() =~= w.available.dom());
    }
}

/// Forgetting a resource takes its column out of every row and out of the free pool.
pub proof fn lemma_forget_keeps_matrix(v: ResourceStatusView, rid: usize)
    requires
        v.is_matrix(),
    ensures
        v.forget_resource(rid).is_matrix(),
        v.forget_resource(rid).available.dom() == v.available.dom().remove(rid),
{
    let w = v.forget_resource(rid);
    assert(w.allocated.dom() =~= w.needed.dom());
    assert(w.available.dom() =~= v.available.dom().remove(rid));
    assert forall|t: usize| #[trigger] w.allocated.contains_key(t) implies w.allocated[t].dom() == w.available.dom()
        && w.needed[t].dom() == w.available.dom() by {
        assert(v.allocated.contains_key(t));
        assert(w.allocated[t].dom() =~= w.available.dom());
        assert(w.needed[t].dom() =~= w.available.dom());
    }
}

/// Tracking a task adds rows over exactly the tracked resources.
pub proof fn lemma_track_keeps_matrix(v: ResourceStatusView, tid: usize)
    requires
        v.is_matrix(),
        !v.allocated.contains_key(tid),
        v.allocated.contains_key(0),
    ensures
        v.track(tid).is_matrix(),
{
    let w = v.track(tid);
    assert(w.allocated.dom() =~= w.needed.dom());
    assert forall|t: usize| #[trigger] w.allocated.contains_key(t) implies w.allocated[t].dom() == w.available.dom()
        && w.needed[t].dom() == w.available.dom() by {
        assert(v.allocated.contains_key(0));
        if t != tid {
            assert(v.allocated.contains_key(t));
        }
    }
}

/// Untracking a task keeps the rows of the others.
pub proof fn lemma_untrack_keeps_matrix(v: ResourceStatusView, tid: usize)
    requires
        v.is_matrix(),
    ensures
        v.untrack(tid).is_matrix(),
{
    let w = v.untrack(tid);
    assert(w.allocated.dom() =~= w.needed.dom());
    assert forall|t: usize| #[trigger] w.allocated.contains_key(t) implies w.allocated[t].dom() == w.available.dom()
        && w.needed[t].dom() == w.available.dom() by {
        assert(v.allocated.contains_key(t));
    }
}

/// Setting a need for a tracked resource keeps the matrix; so does
/// `add_need`, which is such a setting.
pub proof fn lemma_set_need_keeps_matrix(v: ResourceStatusView, t: usize, rid: usize, count: usize)
    requires
        v.is_matrix(),
        v.needed.contains_key(t),
        v.available.contains_key(rid),
    ensures
        v.set_need(t, rid, count).is_matrix(),
{
    let w = v.set_need(t, rid, count);
    assert(w.needed.dom() =~= v.needed.dom());
    assert forall|u: usize| #[trigger] w.allocated.contains_key(u) implies w.allocated[u].dom() == w.available.dom()
        && w.needed[u].dom() == w.available.dom() by {
        assert(v.allocated.contains_key(u));
        assert(w.needed[u].dom() =~= w.available.dom());
    }
}

/// Allocating keeps the matrix.
pub proof fn lemma_allocate_keeps_matrix(v: ResourceStatusView, t: usize, rid: usize, count: usize)
    requires
        v.is_matrix(),
        can_allocate(v, t, rid, count),
    ensures
        v.allocate(t, rid, count).is_matrix(),
{
    let w = v.allocate(t, rid, count);
    assert(w.available.dom() =~= v.available.dom());
    assert(w.allocated.dom() =~= v.allocated.dom());
    assert(w.needed.dom() =~= v.needed.dom());
    assert forall|u: usize| #[trigger] w.allocated.contains_key(u) implies w.allocated[u].dom() == w.available.dom()
        && w.needed[u].dom() == w.available.dom() by {
        assert(v.allocated.contains_key(u));
        assert(w.allocated[u].dom() =~= w.available.dom());
        assert(w.needed[u].dom() =~= w.available.dom());
    }
}

/// Releasing keeps the matrix.
pub proof fn lemma_release_keeps_matrix(v: ResourceStatusView, t: usize, rid: usize, count: usize)
    requires
        v.is_matrix(),
    ensures
        v.release(t, rid, count).is_matrix(),
{
    let w = v.release(t, rid, count);
    if v.holds(t, rid) {
        assert(w.available.dom() =~= v.available.dom());
        assert(w.allocated.dom() =~= v.allocated.dom());
        assert forall|u: usize| #[trigger] w.allocated.contains_key(u) implies w.allocated[u].dom() == w.available.dom()
            && w.needed[u].dom() == w.available.dom() by {
            assert(v.allocated.contains_key(u));
            assert(w.allocated[u].dom() =~= w.available.dom());
        }
    }
}

/// Tracking a resource keeps the state checkable whenever the resource's new
/// total fits; for a resource not tracked before it always does, as no task
/// holds any of it yet.
pub proof fn lemma_update_keeps_checkable(v: ResourceStatusView, rid: usize, diff: isize)
    requires
        checkable(v),
        v.available.contains_key(rid) ==> v.update_resource(rid, diff).total(rid) <= usize::MAX,
    ensures
        checkable(v.update_resource(rid, diff)),
{
    let w = v.update_resource(rid, diff);
    lemma_update_keeps_shape(v, rid, diff);
    assert(w.allocated.dom() =~= v.allocated.dom());
    assert forall|r: usize| w.available.contains_key(r) implies #[trigger] w.total(r) <= usize::MAX by {
        assert forall|t: usize| v.allocated.dom().contains(t) implies allocation_of(v.allocated, t, r)
            == allocation_of(w.allocated, t, r) by {}
        lemma_sum_congruent(v.allocated, w.allocated, v.allocated.dom(), r, key_space());
        if r != rid {
            assert(v.total(r) <= usize::MAX);
        } else if !v.available.contains_key(rid) {
            assert forall|t: usize| v.allocated.dom().contains(t) implies allocation_of(v.allocated, t, r) == 0 by {
                assert(v.allocated[t].dom().subset_of(v.available.dom()));
            }
            lemma_sum_zero(v.allocated, v.allocated.dom(), r, key_space());
        }
    }
}

/// Tracking a resource adds units to it, or makes it new with `diff` units
/// and a zero in every row; no count that a row already has changes.
pub proof fn lemma_update_resource_effect(v: ResourceStatusView, rid: usize, diff: isize)
    ensures
        ({
            let w = v.update_resource(rid, diff);
            &&& w.available.dom() == v.available.dom().insert(rid)
            &&& forall|r: usize| r != rid && #[trigger] v.available.contains_key(r) ==> w.available[r] == v.available[r]
            &&& v.available.contains_key(rid) && v.available[rid] <= isize::MAX && 0 <= v.available[rid] + diff
                ==> w.available[rid] == v.available[rid] + diff
            &&& !v.available.contains_key(rid) && 0 <= diff ==> w.available[rid] == diff
            &&& w.allocated.dom() == v.allocated.dom()
            &&& w.needed.dom() == v.needed.dom()
            &&& forall|t: usize| #[trigger] v.allocated.contains_key(t) ==> {
                &&& w.allocated[t].dom() == v.allocated[t].dom().insert(rid)
                &&& forall|r: usize| #[trigger] v.allocated[t].contains_key(r) ==> w.allocated[t][r] == v.allocated[t][r]
                &&& !v.allocated[t].contains_key(rid) ==> w.allocated[t][rid] == 0
            }
            &&& forall|t: usize| #[trigger] v.needed.contains_key(t) ==> {
                &&& w.needed[t].dom() == v.needed[t].dom().insert(rid)
                &&& forall|r: usize| #[trigger] v.needed[t].contains_key(r) ==> w.needed[t][r] == v.needed[t][r]
                &&& !v.needed[t].contains_key(rid) ==> w.needed[t][rid] == 0
            }
        }),
{
    let w = v.update_resource(rid, diff);
    assert(w.available.dom() =~= v.available.dom().insert(rid));
    assert(w.allocated.dom() =~= v.allocated.dom());
    assert(w.needed.dom() =~= v.needed.dom());
    assert forall|t: usize| #[trigger] v.allocated.contains_key(t) implies w.allocated[t].dom() == v.allocated[t].dom().insert(rid) by {
        assert(w.allocated[t].dom() =~= v.allocated[t].dom().insert(rid));
    }
    assert forall|t: usize| #[trigger] v.needed.contains_key(t) implies w.needed[t].dom() == v.needed[t].dom().insert(rid) by {
        assert(w.needed[t].dom() =~= v.needed[t].dom().insert(rid));
    }
}

/// Adding units to a tracked resource changes its total, free and held, by
/// exactly the units added.
pub proof fn lemma_update_resource_total(v: ResourceStatusView, rid: usize, diff: isize)
    requires
        v.available.contains_key(rid),
        v.available[rid] <= isize::MAX,
        0 <= v.available[rid] + diff,
    ensures
        v.update_resource(rid, diff).total(rid) == v.total(rid) + diff,
{
    let w = v.update_resource(rid, diff);
    lemma_update_resource_effect(v, rid, diff);
    assert forall|t: usize| v.allocated.dom().contains(t) implies allocation_of(v.allocated, t, rid)
        == allocation_of(w.allocated, t, rid) by {}
    lemma_sum_congruent(v.allocated, w.allocated, v.allocated.dom(), rid, key_space());
}

/// Forgetting a resource takes it out of the free pool and out of every
/// row; every other count stays.
pub proof fn lemma_forget_resource_effect(v: ResourceStatusView, rid: usize)
    ensures
        ({
            let w = v.forget_resource(rid);
            &&& w.available.dom() == v.available.dom().remove(rid)
            &&& forall|r: usize| r != rid && #[trigger] v.available.contains_key(r) ==> w.available[r] == v.available[r]
            &&& w.allocated.dom() == v.allocated.dom()
            &&& w.needed.dom() == v.needed.dom()
            &&& forall|t: usize| #[trigger] v.allocated.contains_key(t) ==> {
                &&& w.allocated[t].dom() == v.allocated[t].dom().remove(rid)
                &&& forall|r: usize| r != rid && #[trigger] v.allocated[t].contains_key(r) ==> w.allocated[t][r] == v.allocated[t][r]
            }
            &&& forall|t: usize| #[trigger] v.needed.contains_key(t) ==> {
                &&& w.needed[t].dom() == v.needed[t].dom().remove(rid)
                &&& forall|r: usize| r != rid && #[trigger] v.needed[t].contains_key(r) ==> w.needed[t][r] == v.needed[t][r]
            }
        }),
{
    let w = v.forget_resource(rid);
    assert(w.available.dom() =~= v.available.dom().remove(rid));
    assert(w.allocated.dom() =~= v.allocated.dom());
    assert(w.needed.dom() =~= v.needed.dom());
    assert forall|t: usize| #[trigger] v.allocated.contains_key(t) implies w.allocated[t].dom() == v.allocated[t].dom().remove(rid) by {
        assert(w.allocated[t].dom() =~= v.allocated[t].dom().remove(rid));
    }
    assert forall|t: usize| #[trigger] v.needed.contains_key(t) implies w.needed[t].dom() == v.needed[t].dom().remove(rid) by {
        assert(w.needed[t].dom() =~= v.needed[t].dom().remove(rid));
    }
}

/// A newly tracked task holds nothing and needs nothing, over the resources
/// of task `0`'s rows; no other task and no free count changes.
pub proof fn lemma_track_effect(v: ResourceStatusView, tid: usize)
    ensures
        ({
            let w = v.track(tid);
            &&& w.available == v.available
            &&& w.allocated.dom() == v.allocated.dom().insert(tid)
            &&& w.needed.dom() == v.needed.dom().insert(tid)
            &&& w.allocated[tid].dom() == v.allocated[0].dom()
            &&& w.needed[tid].dom() == v.needed[0].dom()
            &&& forall|r: usize| #[trigger] w.allocated[tid].contains_key(r) ==> w.allocated[tid][r] == 0
            &&& forall|r: usize| #[trigger] w.needed[tid].contains_key(r) ==> w.needed[tid][r] == 0
            &&& forall|t: usize| t != tid && #[trigger] v.allocated.contains_key(t) ==> w.allocated[t] == v.allocated[t]
            &&& forall|t: usize| t != tid && #[trigger] v.needed.contains_key(t) ==> w.needed[t] == v.needed[t]
        }),
{
    let w = v.track(tid);
    assert(w.allocated.dom() =~= v.allocated.dom().insert(tid));
    assert(w.needed.dom() =~= v.needed.dom().insert(tid));
}

/// An untracked task is in neither matrix; no other task and no free count changes.
pub proof fn lemma_untrack_effect(v: ResourceStatusView, tid: usize)
    ensures
        ({
            let w = v.untrack(tid);
            &&& w.available == v.available
            &&& !w.allocated.contains_key(tid)
            &&& !w.needed.contains_key(tid)
            &&& w.allocated.dom() == v.allocated.dom().remove(tid)
            &&& w.needed.dom() == v.needed.dom().remove(tid)
            &&& forall|t: usize| t != tid && #[trigger] v.allocated.contains_key(t) ==> w.allocated[t] == v.allocated[t]
            &&& forall|t: usize| t != tid && #[trigger] v.needed.contains_key(t) ==> w.needed[t] == v.needed[t]
        }),
{
    let w = v.untrack(tid);
    assert(w.allocated.dom() =~= v.allocated.dom().remove(tid));
    assert(w.needed.dom() =~= v.needed.dom().remove(tid));
}

/// Setting a need changes that one count and nothing else.
pub proof fn lemma_set_need_effect(v: ResourceStatusView, t: usize, rid: usize, count: usize)
    requires
        v.needed.contains_key(t),
    ensures
        ({
            let w = v.set_need(t, rid, count);
            &&& w.available == v.available
            &&& w.allocated == v.allocated
            &&& w.needed.dom() == v.needed.dom()
            &&& w.needed[t].dom() == v.needed[t].dom().insert(rid)
            &&& w.needed[t][rid] == count
            &&& forall|r: usize| r != rid && #[trigger] v.needed[t].contains_key(r) ==> w.needed[t][r] == v.needed[t][r]
            &&& forall|u: usize| u != t && #[trigger] v.needed.contains_key(u) ==> w.needed[u] == v.needed[u]
        }),
{
    let w = v.set_need(t, rid, count);
    assert(w.needed.dom() =~= v.needed.dom());
    assert(w.needed[t].dom() =~= v.needed[t].dom().insert(rid));
}

/// Asking for more raises that one need by the count asked for.
pub proof fn lemma_add_need_effect(v: ResourceStatusView, t: usize, rid: usize, count: usize)
    requires
        v.needed.contains_key(t),
        v.needed[t].contains_key(rid),
        v.needed[t][rid] + count <= usize::MAX,
    ensures
        v.add_need(t, rid, count).needed[t][rid] == v.needed[t][rid] + count,
        v.add_need(t, rid, count).needed.dom() == v.needed.dom(),
        v.add_need(t, rid, count).needed[t].dom() == v.needed[t].dom(),
        v.add_need(t, rid, count).allocated == v.allocated,
        v.add_need(t, rid, count).available == v.available,
{
    lemma_set_need_effect(v, t, rid, (v.needed[t][rid] + count) as usize);
    assert(v.needed[t].dom().insert(rid) =~= v.needed[t].dom());
}

/// Allocating moves `count` units: the free count and the need fall by it,
/// what the task holds rises by it, and nothing else changes.
pub proof fn lemma_allocate_effect(v: ResourceStatusView, t: usize, rid: usize, count: usize)
    requires
        can_allocate(v, t, rid, count),
    ensures
        ({
            let w = v.allocate(t, rid, count);
            &&& w.available.dom() == v.available.dom()
            &&& w.available[rid] == v.available[rid] - count
            &&& forall|r: usize| r != rid && #[trigger] v.available.contains_key(r) ==> w.available[r] == v.available[r]
            &&& w.allocated.dom() == v.allocated.dom()
            &&& w.needed.dom() == v.needed.dom()
            &&& w.allocated[t].dom() == v.allocated[t].dom()
            &&& w.needed[t].dom() == v.needed[t].dom()
            &&& w.allocated[t][rid] == v.allocated[t][rid] + count
            &&& w.needed[t][rid] == v.needed[t][rid] - count
            &&& forall|r: usize| r != rid && #[trigger] v.allocated[t].contains_key(r) ==> w.allocated[t][r] == v.allocated[t][r]
            &&& forall|r: usize| r != rid && #[trigger] v.needed[t].contains_key(r) ==> w.needed[t][r] == v.needed[t][r]
            &&& forall|u: usize| u != t && #[trigger] v.allocated.contains_key(u) ==> w.allocated[u] == v.allocated[u]
            &&& forall|u: usize| u != t && #[trigger] v.needed.contains_key(u) ==> w.needed[u] == v.needed[u]
        }),
{
    let w = v.allocate(t, rid, count);
    assert(w.available.dom() =~= v.available.dom());
    assert(w.allocated.dom() =~= v.allocated.dom());
    assert(w.needed.dom() =~= v.needed.dom());
    assert(w.allocated[t].dom() =~= v.allocated[t].dom());
    assert(w.needed[t].dom() =~= v.needed[t].dom());
}

/// Releasing moves `count` units back to the free pool from what the task
/// holds; when the task's row lacks the resource, nothing changes.
pub proof fn lemma_release_effect(v: ResourceStatusView, t: usize, rid: usize, count: usize)
    requires
        v.holds(t, rid) ==> v.allocated[t][rid] >= count && v.available.contains_key(rid)
            && v.available[rid] + count <= usize::MAX,
    ensures
        ({
            let w = v.release(t, rid, count);
            &&& !(v.allocated.contains_key(t) && v.allocated[t].contains_key(rid)) ==> w == v
            &&& v.allocated.contains_key(t) && v.allocated[t].contains_key(rid) ==> {
                &&& w.available.dom() == v.available.dom()
                &&& w.available[rid] == v.available[rid] + count
                &&& forall|r: usize| r != rid && #[trigger] v.available.contains_key(r) ==> w.available[r] == v.available[r]
                &&& w.allocated.dom() == v.allocated.dom()
                &&& w.allocated[t].dom() == v.allocated[t].dom()
                &&& w.allocated[t][rid] == v.allocated[t][rid] - count
                &&& forall|r: usize| r != rid && #[trigger] v.allocated[t].contains_key(r) ==> w.allocated[t][r] == v.allocated[t][r]
                &&& forall|u: usize| u != t && #[trigger] v.allocated.contains_key(u) ==> w.allocated[u] == v.allocated[u]
                &&& w.needed == v.needed
            }
        }),
{
    let w = v.release(t, rid, count);
    if v.holds(t, rid) {
        assert(w.available.dom() =~= v.available.dom());
        assert(w.allocated.dom() =~= v.allocated.dom());
        assert(w.allocated[t].dom() =~= v.allocated[t].dom());
    }
}

/// A task that needs more of a resource than the process has of it in all,
/// free and held, can never finish: a deadlock is reported.
pub proof fn lemma_need_beyond_total_deadlocks(v: ResourceStatusView, t: usize, r: usize)
    requires
        v.allocated.contains_key(t),
        v.needed[t].contains_key(r),
        v.needed[t][r] > v.total(r),
    ensures
        v.reports_deadlock(),
{
    if v.is_safe() {
        let s = choose|s: Seq<usize>| v.is_safe_sequence(s);
        assert(s.to_set().contains(t));
        let i = choose|i: int| 0 <= i < s.len() && s[i] == t;
        assert(v.can_finish(s[i], s.take(i).to_set()));
        assert(s.take(i).to_set().subset_of(v.allocated.dom())) by {
            assert forall|x: usize| s.take(i).to_set().contains(x) implies v.allocated.dom().contains(x) by {
                let k = choose|k: int| 0 <= k < s.take(i).len() && #[trigger] s.take(i)[k] == x;
                assert(s[k] == x);
                assert(s.to_set().contains(x));
            }
        }
        lemma_sum_mono(v.allocated, s.take(i).to_set(), v.allocated.dom(), r, key_space());
    }
}

/// Some order holds each task of a finite set once.
proof fn lemma_seq_of_set(tasks: Set<usize>) -> (s: Seq<usize>)
    requires
        tasks.finite(),
    ensures
        s.no_duplicates(),
        s.to_set() == tasks,
    decreases tasks.len(),
{
    if tasks.len() == 0 {
        assert(tasks =~= Set::empty());
        assert(Seq::<usize>::empty().to_set() =~= Set::<usize>::empty());
        Seq::empty()
    } else {
        let x = tasks.choose();
        let rest = lemma_seq_of_set(tasks.remove(x));
        let s = rest.push(x);
        lemma_take_to_set_succ(s, rest.len() as int);
        assert(s.take(rest.len() as int) == rest);
        assert(s.take(rest.len() as int + 1) == s);
        assert(s.to_set() =~= tasks);
        assert forall|i: int, j: int| 0 <= i < s.len() && 0 <= j < s.len() && i != j implies s[i] != s[j] by {
            if i < rest.len() && j < rest.len() {
            } else if i < rest.len() {
                assert(rest.to_set().contains(rest[i]));
            } else {
                assert(rest.to_set().contains(rest[j]));
            }
        }
        s
    }
}

/// When the free pool covers every need of every task, the state is safe:
/// no deadlock is reported.
pub proof fn lemma_needs_within_available_is_safe(v: ResourceStatusView)
    requires
        v.allocated.dom().finite(),
        forall|t: usize, r: usize|
            v.allocated.contains_key(t) && #[trigger] v.needed[t].contains_key(r) ==> v.available.contains_key(r)
                && v.needed[t][r] <= v.available[r],
    ensures
        !v.reports_deadlock(),
{
    let s = lemma_seq_of_set(v.allocated.dom());
    assert forall|i: int| 0 <= i < s.len() implies #[trigger] v.can_finish(s[i], s.take(i).to_set()) by {
        assert(s.to_set().contains(s[i]));
    }
    assert(v.is_safe_sequence(s));
}

/// The state once task `t` has finished: it is no longer tracked, and what
/// it held is back in the free pool.
pub open spec fn after_finish(v: ResourceStatusView, t: usize) -> ResourceStatusView {
    ResourceStatusView {
        available: Map::new(
            |r: usize| v.available.contains_key(r),
            |r: usize| (v.available[r] + allocation_of(v.allocated, t, r)) as usize,
        ),
        allocated: v.allocated.remove(t),
        needed: v.needed.remove(t),
    }
}

/// The elements of `[t] + s` are those of `s` and `t`.
proof fn lemma_cons_to_set(t: usize, s: Seq<usize>)
    ensures
        (seq![t] + s).to_set() == s.to_set().insert(t),
{
    let c = seq![t] + s;
    assert forall|x: usize| c.to_set().contains(x) <==> s.to_set().insert(t).contains(x) by {
        if c.to_set().contains(x) {
            let k = choose|k: int| 0 <= k < c.len() && #[trigger] c[k] == x;
            if k > 0 {
                assert(s[k - 1] == x);
                assert(s.contains(x));
            }
        }
        if s.to_set().contains(x) {
            let k = choose|k: int| 0 <= k < s.len() && #[trigger] s[k] == x;
            assert(c[k + 1] == x);
            assert(c.contains(x));
        }
        if x == t {
            assert(c[0] == x);
            assert(c.contains(x));
        }
    }
    assert(c.to_set() =~= s.to_set().insert(t));
}

/// A task whose needs the free pool covers can finish first: if the state
/// in which it has finished and given back what it held is safe, so is the
/// state before.
pub proof fn lemma_finish_first(v: ResourceStatusView, t: usize)
    requires
        v.wf(),
        v.shaped(),
        v.totals_fit(),
        v.allocated.contains_key(t),
        forall|r: usize| #[trigger] v.needed[t].contains_key(r) ==> v.needed[t][r] <= v.available[r],
        after_finish(v, t).is_safe(),
    ensures
        v.is_safe(),
{
    let w = after_finish(v, t);
    let s2 = choose|s2: Seq<usize>| w.is_safe_sequence(s2);
    let s = seq![t] + s2;
    lemma_cons_to_set(t, s2);
    assert(!s2.to_set().contains(t));
    assert(s.to_set() =~= v.allocated.dom());
    assert forall|i: int, j: int| 0 <= i < s.len() && 0 <= j < s.len() && i != j implies s[i] != s[j] by {
        if i == 0 {
            assert(s2.to_set().contains(s2[j - 1]));
        } else if j == 0 {
            assert(s2.to_set().contains(s2[i - 1]));
        } else {
            assert(s[i] == s2[i - 1] && s[j] == s2[j - 1]);
        }
    }
    assert forall|i: int| 0 <= i < s.len() implies #[trigger] v.can_finish(s[i], s.take(i).to_set()) by {
        if i == 0 {
            assert(s.take(0).to_set() =~= Set::<usize>::empty());
            assert forall|r: usize| #[trigger] v.needed[t].contains_key(r) implies v.needed[t][r] <= v.work(s.take(0).to_set(), r) by {
                lemma_sum_empty(v.allocated, r, key_space());
            }
        } else {
            let u = s2[i - 1];
            let q = s2.take(i - 1).to_set();
            assert(s[i] == u);
            assert(s.take(i) == seq![t] + s2.take(i - 1));
            lemma_cons_to_set(t, s2.take(i - 1));
            assert(w.can_finish(s2[i - 1], q));
            assert(s2.to_set().contains(u));
            assert(!q.contains(t)) by {
                if q.contains(t) {
                    let k = choose|k: int| 0 <= k < s2.take(i - 1).len() && #[trigger] s2.take(i - 1)[k] == t;
                    assert(s2[k] == t);
                    assert(s2.to_set().contains(t));
                }
            }
            assert forall|r: usize| #[trigger] v.needed[u].contains_key(r) implies v.needed[u][r] <= v.work(q.insert(t), r) by {
                assert(u != t);
                assert(w.needed[u] == v.needed[u]);
                assert(v.allocated.contains_key(u));
                assert(v.available.contains_key(r));
                lemma_sum_insert(v.allocated, q, t, r, key_space());
                assert forall|x: usize| q.contains(x) implies allocation_of(v.allocated, x, r) == allocation_of(w.allocated, x, r) by {}
                lemma_sum_congruent(v.allocated, w.allocated, q, r, key_space());
                lemma_sum_insert(v.allocated, v.allocated.dom().remove(t), t, r, key_space());
                lemma_sum_mono(v.allocated, Set::<usize>::empty().insert(t), v.allocated.dom(), r, key_space());
                lemma_sum_insert(v.allocated, Set::<usize>::empty(), t, r, key_space());
                lemma_sum_empty(v.allocated, r, key_space());
                assert(v.total(r) <= usize::MAX);
                assert(w.available[r] == v.available[r] + allocation_of(v.allocated, t, r));
            }
        }
    }
    assert(v.is_safe_sequence(s));
}

} // verus!
