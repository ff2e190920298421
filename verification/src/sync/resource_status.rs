//! Deadlock detection for the locks and semaphores of a process: a variant of
//! the banker's algorithm over what each task holds and still needs.
use std::collections::BTreeMap;
use vstd::prelude::*;
use vstd::std_specs::iter::IteratorSpec;
use crate::sync::safety::{
    ResourceStatusView, key_space, lemma_stuck_is_unsafe, lemma_sum_empty, lemma_sum_insert,
    lemma_sum_mono, lemma_take_all, lemma_take_step, lemma_take_to_set_succ, with_column, without_column, zero_row,
};

verus! {

/// The matrix rows of a `BTreeMap` of `BTreeMap`s, as maps.
pub open spec fn rows_view(rows: Map<usize, BTreeMap<usize, usize>>) -> Map<usize, Map<usize, usize>> {
    rows.map_values(|row: BTreeMap<usize, usize>| row@)
}

/// The keys of `m`, each once.
fn keys_of<V>(m: &BTreeMap<usize, V>) -> (keys: Vec<usize>)
    ensures
        keys@.no_duplicates(),
        keys@.to_set() == m@.dom(),
        keys@.len() == m@.dom().len(),
{
    let ghost s = vstd::std_specs::btree::spec_keys_iter(m).remaining();
    let mut keys: Vec<usize> = Vec::new();
    for k in it: m.keys()
        invariant
            it.seq() == s,
            keys@ == s.take(it.index()).unref(),
    {
        keys.push(*k);
    }
    assert(keys@ == s.unref());
    keys
}

/// The row of task `t`.
fn row_of(rows: &BTreeMap<usize, BTreeMap<usize, usize>>, t: usize) -> (row: &BTreeMap<usize, usize>)
    requires
        rows@.contains_key(t),
    ensures
        row@ == rows@[t]@,
{
    rows.get(&t).unwrap()
}

/// The entry of `row` at `r`.
fn entry_of(row: &BTreeMap<usize, usize>, r: usize) -> (x: usize)
    requires
        row@.contains_key(r),
    ensures
        x == row@[r],
{
    *row.get(&r).unwrap()
}

/// Sets entry `r` of the row of task `t` to `x`.
fn set_entry(rows: &mut BTreeMap<usize, BTreeMap<usize, usize>>, t: usize, r: usize, x: usize)
    requires
        old(rows)@.contains_key(t),
    ensures
        rows_view(final(rows)@) == rows_view(old(rows)@).insert(
            t,
            rows_view(old(rows)@)[t].insert(r, x),
        ),
{
    let ghost before = rows_view(rows@);
    let mut row = rows.remove(&t).unwrap();
    row.insert(r, x);
    rows.insert(t, row);
    assert(rows_view(rows@) =~= before.insert(t, before[t].insert(r, x)));
}

/// A row of zeros over the resources of `row`.
fn zero_row_of(row: &BTreeMap<usize, usize>) -> (z: BTreeMap<usize, usize>)
    ensures
        z@ == zero_row(row@.dom()),
{
    let keys = keys_of(row);
    let mut z: BTreeMap<usize, usize> = BTreeMap::new();
    let mut i: usize = 0;
    while i < keys.len()
        invariant
            i <= keys.len(),
            z@ == zero_row(keys@.take(i as int).to_set()),
        decreases keys.len() - i,
    {
        proof {
            lemma_take_to_set_succ(keys@, i as int);
        }
        z.insert(keys[i], 0);
        assert(z@ =~= zero_row(keys@.take(i + 1).to_set()));
        i = i + 1;
    }
    assert(keys@.take(keys.len() as int) == keys@);
    z
}

/// Gives every row the resource `rid`, with `0`, where it lacks it.
fn add_column(rows: &mut BTreeMap<usize, BTreeMap<usize, usize>>, rid: usize)
    ensures
        rows_view(final(rows)@) == with_column(rows_view(old(rows)@), rid),
{
    let ghost before = rows_view(rows@);
    let keys = keys_of(rows);
    let mut i: usize = 0;
    while i < keys.len()
        invariant
            keys@.no_duplicates(),
            keys@.to_set() == before.dom(),
            i <= keys.len(),
            rows@.dom() == before.dom(),
            forall|t: usize| #[trigger]
                rows@.contains_key(t) ==> rows@[t]@ == if keys@.take(i as int).contains(t) {
                    if before[t].contains_key(rid) {
                        before[t]
                    } else {
                        before[t].insert(rid, 0)
                    }
                } else {
                    before[t]
                },
        decreases keys.len() - i,
    {
        let t = keys[i];
        proof {
            lemma_take_step(keys@, i as int);
        }
        let mut row = rows.remove(&t).unwrap();
        if !row.contains_key(&rid) {
            row.insert(rid, 0);
        }
        rows.insert(t, row);
        i = i + 1;
    }
    proof {
        lemma_take_all(keys@);
        assert(rows_view(rows@) =~= with_column(before, rid));
    }
}

/// Takes the resource `rid` out of every row.
fn remove_column(rows: &mut BTreeMap<usize, BTreeMap<usize, usize>>, rid: usize)
    ensures
        rows_view(final(rows)@) == without_column(rows_view(old(rows)@), rid),
{
    let ghost before = rows_view(rows@);
    let keys = keys_of(rows);
    let mut i: usize = 0;
    while i < keys.len()
        invariant
            keys@.no_duplicates(),
            keys@.to_set() == before.dom(),
            i <= keys.len(),
            rows@.dom() == before.dom(),
            forall|t: usize| #[trigger]
                rows@.contains_key(t) ==> rows@[t]@ == if keys@.take(i as int).contains(t) {
                    before[t].remove(rid)
                } else {
                    before[t]
                },
        decreases keys.len() - i,
    {
        let t = keys[i];
        proof {
            lemma_take_step(keys@, i as int);
        }
        let mut row = rows.remove(&t).unwrap();
        row.remove(&rid);
        rows.insert(t, row);
        i = i + 1;
    }
    proof {
        lemma_take_all(keys@);
        assert(rows_view(rows@) =~= without_column(before, rid));
    }
}


/// Each count of `row` is at most the count of `work` for the same resource.
pub open spec fn fits(row: Map<usize, usize>, work: Map<usize, usize>) -> bool {
    forall|r: usize| #[trigger] row.contains_key(r) ==> row[r] <= work[r]
}

/// Whether `work` covers each count of `row`.
fn needs_met(row: &BTreeMap<usize, usize>, work: &BTreeMap<usize, usize>) -> (met: bool)
    requires
        row@.dom().subset_of(work@.dom()),
    ensures
        met == fits(row@, work@),
{
    let keys = keys_of(row);
    let mut i: usize = 0;
    while i < keys.len()
        invariant
            keys@.to_set() == row@.dom(),
            i <= keys.len(),
            row@.dom().subset_of(work@.dom()),
            forall|j: int| 0 <= j < i ==> row@[#[trigger] keys@[j]] <= work@[keys@[j]],
        decreases keys.len() - i,
    {
        let r = keys[i];
        assert(keys@.to_set().contains(r));
        if entry_of(work, r) < entry_of(row, r) {
            assert(row@.contains_key(r));
            return false;
        }
        i = i + 1;
    }
    assert forall|r: usize| #[trigger] row@.contains_key(r) implies row@[r] <= work@[r] by {
        assert(keys@.to_set().contains(r));
        let j = choose|j: int| 0 <= j < keys@.len() && keys@[j] == r;
        assert(row@[keys@[j]] <= work@[keys@[j]]);
    }
    true
}

/// Adds each count of `row` to the count of `work` for the same resource.
fn add_to_work(work: &mut BTreeMap<usize, usize>, row: &BTreeMap<usize, usize>)
    requires
        row@.dom().subset_of(old(work)@.dom()),
        forall|r: usize| #[trigger] row@.contains_key(r) ==> old(work)@[r] + row@[r] <= usize::MAX,
    ensures
        final(work)@.dom() == old(work)@.dom(),
        forall|r: usize| #[trigger]
            final(work)@.contains_key(r) ==> final(work)@[r] == old(work)@[r] + if row@.contains_key(r) {
                row@[r] as int
            } else {
                0
            },
{
    let ghost before = work@;
    let keys = keys_of(row);
    let mut i: usize = 0;
    while i < keys.len()
        invariant
            keys@.no_duplicates(),
            keys@.to_set() == row@.dom(),
            i <= keys.len(),
            row@.dom().subset_of(before.dom()),
            forall|r: usize| #[trigger] row@.contains_key(r) ==> before[r] + row@[r] <= usize::MAX,
            work@.dom() == before.dom(),
            forall|r: usize| #[trigger]
                work@.contains_key(r) ==> work@[r] == before[r] + if keys@.take(i as int).contains(r) {
                    row@[r] as int
                } else {
                    0
                },
        decreases keys.len() - i,
    {
        let r = keys[i];
        proof {
            lemma_take_step(keys@, i as int);
        }
        let w = entry_of(work, r);
        let x = entry_of(row, r);
        work.insert(r, w + x);
        i = i + 1;
    }
    proof {
        lemma_take_all(keys@);
    }
}

/// The resource bookkeeping of one process: what is free, and what each task
/// holds and still needs, for each mutex or semaphore.
#[derive(Debug)]
pub struct ResourceStatus {
    available: BTreeMap<usize, usize>,
    allocated: BTreeMap<usize, BTreeMap<usize, usize>>,
    needed: BTreeMap<usize, BTreeMap<usize, usize>>,
}

impl View for ResourceStatus {
    type V = ResourceStatusView;

    closed spec fn view(&self) -> ResourceStatusView {
        ResourceStatusView {
            available: self.available@,
            allocated: rows_view(self.allocated@),
            needed: rows_view(self.needed@),
        }
    }
}

impl ResourceStatus {
    /// Create an empty resource status: no resource, and the main task `0`.
    pub fn new() -> (s: ResourceStatus)
        ensures
            s@ == ResourceStatusView::initial(),
    {
        let mut allocated: BTreeMap<usize, BTreeMap<usize, usize>> = BTreeMap::new();
        allocated.insert(0, BTreeMap::new());
        let mut needed: BTreeMap<usize, BTreeMap<usize, usize>> = BTreeMap::new();
        needed.insert(0, BTreeMap::new());
        let s = ResourceStatus { available: BTreeMap::new(), allocated, needed };
        assert(s@.allocated =~= ResourceStatusView::initial().allocated);
        assert(s@.needed =~= ResourceStatusView::initial().needed);
        s
    }

    /// Track a new task: it gets a row of zeros in both matrices, over the
    /// resources that task `0` has.
    pub fn track_task(&mut self, tid: usize)
        requires
            !old(self)@.allocated.contains_key(tid),
            old(self)@.allocated.contains_key(0),
            old(self)@.needed.contains_key(0),
        ensures
            final(self)@ == old(self)@.track(tid),
    {
        let ghost before = self@;
        let a_row = zero_row_of(row_of(&self.allocated, 0));
        self.allocated.insert(tid, a_row);
        let n_row = zero_row_of(row_of(&self.needed, 0));
        self.needed.insert(tid, n_row);
        assert(self@.allocated =~= before.track(tid).allocated);
        assert(self@.needed =~= before.track(tid).needed);
    }

    /// Stop tracking a task.
    pub fn untrack_task(&mut self, tid: usize)
        requires
            old(self)@.allocated.contains_key(tid),
        ensures
            final(self)@ == old(self)@.untrack(tid),
    {
        let ghost before = self@;
        self.allocated.remove(&tid);
        self.needed.remove(&tid);
        assert(self@.allocated =~= before.untrack(tid).allocated);
        assert(self@.needed =~= before.untrack(tid).needed);
    }

    /// Add `diff` to the free count of a resource, tracking the resource (in
    /// every row, with `0`) where it is new.
    pub fn update_resource(&mut self, resource_id: usize, diff: isize)
        requires
            old(self)@.available.contains_key(resource_id) ==> isize::MIN <= old(
                self,
            )@.available[resource_id] as isize + diff <= isize::MAX,
        ensures
            final(self)@ == old(self)@.update_resource(resource_id, diff),
    {
        let ghost before = self@;
        let current: Option<usize> = match self.available.get(&resource_id) {
            Some(a) => Some(*a),
            None => None,
        };
        match current {
            Some(a) => {
                self.available.insert(resource_id, (a as isize + diff) as usize);
            },
            None => {
                self.available.insert(resource_id, diff as usize);
            },
        }
        add_column(&mut self.allocated, resource_id);
        add_column(&mut self.needed, resource_id);
    }

    /// Stop tracking a resource.
    pub fn forget_resource(&mut self, resource_id: usize)
        ensures
            final(self)@ == old(self)@.forget_resource(resource_id),
    {
        self.available.remove(&resource_id);
        remove_column(&mut self.allocated, resource_id);
        remove_column(&mut self.needed, resource_id);
    }

    /// Set what a task needs of a resource.
    pub fn need(&mut self, task_id: usize, resource_id: usize, res_count: usize)
        requires
            old(self)@.needed.contains_key(task_id),
        ensures
            final(self)@ == old(self)@.set_need(task_id, resource_id, res_count),
    {
        set_entry(&mut self.needed, task_id, resource_id, res_count);
    }

    /// The first task, in the order of `tasks`, that is not finished and whose
    /// needs `work` covers.
    fn find_runnable(&self, tasks: &Vec<usize>, finished: &Vec<bool>, work: &BTreeMap<usize, usize>) -> (found: Option<usize>)
        requires
            self@.wf(),
            self@.shaped(),
            tasks@.to_set() == self@.allocated.dom(),
            finished.len() == tasks.len(),
            work@.dom() == self@.available.dom(),
        ensures
            match found {
                Some(i) => i < tasks.len() && !finished[i as int] && fits(self@.needed[tasks@[i as int]], work@),
                None => forall|j: int| 0 <= j < tasks.len() ==> finished[j] || !fits(self@.needed[#[trigger] tasks@[j]], work@),
            },
    {
        let mut i: usize = 0;
        while i < tasks.len()
            invariant
                self@.wf(),
                self@.shaped(),
                tasks@.to_set() == self@.allocated.dom(),
                finished.len() == tasks.len(),
                work@.dom() == self@.available.dom(),
                i <= tasks.len(),
                forall|j: int| 0 <= j < i ==> finished[j] || !fits(self@.needed[#[trigger] tasks@[j]], work@),
            decreases tasks.len() - i,
        {
            let t = tasks[i];
            assert(tasks@.to_set().contains(t));
            if !finished[i] && needs_met(row_of(&self.needed, t), work) {
                return Some(i);
            }
            i = i + 1;
        }
        None
    }

    /// Whether the current state is unsafe: the tasks are finished one by one,
    /// each time the first unfinished one whose needs what is free covers,
    /// which then gives back what it holds; a deadlock is reported when no such
    /// task is left before all have finished. With no task tracked, the state
    /// is safe.
    pub fn will_deadlock(&self) -> (deadlock: bool)
        requires
            self@.wf(),
            self@.shaped(),
            self@.totals_fit(),
        ensures
            deadlock == self@.reports_deadlock(),
    {
        let ghost v = self@;
        let tasks = keys_of(&self.allocated);
        let mut work = self.available.clone();
        let mut finished: Vec<bool> = Vec::new();
        let mut k: usize = 0;
        while k < tasks.len()
            invariant
                finished.len() == k,
                k <= tasks.len(),
                forall|j: int| 0 <= j < k ==> !finished[j],
            decreases tasks.len() - k,
        {
            finished.push(false);
            k = k + 1;
        }
        if tasks.len() == 0 {
            proof {
                assert(tasks@ =~= Seq::<usize>::empty());
                assert(v.allocated.dom() =~= Set::<usize>::empty());
                assert(Seq::<usize>::empty().to_set() =~= Set::<usize>::empty());
                assert(v.is_safe_sequence(Seq::<usize>::empty()));
            }
            return false;
        }
        let mut n_finished: usize = 0;
        let ghost mut done: Set<usize> = Set::empty();
        let ghost mut order: Seq<usize> = Seq::empty();
        proof {
            assert(order.to_set() =~= done);
            assert forall|r: usize| #[trigger] work@.contains_key(r) implies work@[r] == v.work(done, r) by {
                lemma_sum_empty(v.allocated, r, key_space());
            }
        }
        loop
            invariant
                v == self@,
                v.wf(),
                v.shaped(),
                v.totals_fit(),
                tasks@.no_duplicates(),
                tasks@.to_set() == v.allocated.dom(),
                tasks@.len() == v.allocated.dom().len(),
                finished.len() == tasks.len(),
                forall|j: int| 0 <= j < tasks.len() ==> finished[j] == done.contains(#[trigger] tasks@[j]),
                done.subset_of(v.allocated.dom()),
                order.no_duplicates(),
                order.to_set() == done,
                order.len() == n_finished,
                n_finished < tasks.len(),
                forall|i: int| 0 <= i < order.len() ==> #[trigger] v.can_finish(order[i], order.take(i).to_set()),
                work@.dom() == v.available.dom(),
                forall|r: usize| #[trigger] work@.contains_key(r) ==> work@[r] == v.work(done, r),
            decreases tasks.len() - n_finished,
        {
            match self.find_runnable(&tasks, &finished, &work) {
                None => {
                    proof {
                        order.unique_seq_to_set();
                        assert forall|t: usize| v.allocated.contains_key(t) && !done.contains(t) implies !#[trigger] v.can_finish(t, done) by {
                            assert(tasks@.to_set().contains(t));
                            let j = choose|j: int| 0 <= j < tasks@.len() && tasks@[j] == t;
                            assert(!finished[j]);
                            if v.can_finish(t, done) {
                                assert forall|r: usize| #[trigger] v.needed[t].contains_key(r) implies v.needed[t][r] <= work@[r] by {
                                    assert(v.needed[t].dom().subset_of(v.available.dom()));
                                    assert(work@.contains_key(r));
                                }
                                assert(fits(v.needed[tasks@[j]], work@));
                            }
                        }
                        assert(done != v.allocated.dom());
                        lemma_stuck_is_unsafe(v, done);
                    }
                    return true;
                },
                Some(i) => {
                    let t = tasks[i];
                    let ghost new_done = done.insert(t);
                    proof {
                        assert(tasks@.to_set().contains(t));
                        assert(!done.contains(t));
                        assert(v.can_finish(t, done)) by {
                            assert forall|r: usize| #[trigger] v.needed[t].contains_key(r) implies v.needed[t][r] <= v.work(done, r) by {
                                assert(v.needed[t].dom().subset_of(v.available.dom()));
                                assert(work@.contains_key(r));
                            }
                        }
                        order.unique_seq_to_set();
                        done.lemma_subset_not_in_lt(v.allocated.dom(), t);
                        assert forall|r: usize| #[trigger] v.allocated[t].contains_key(r) implies work@[r] + v.allocated[t][r] <= usize::MAX by {
                            assert(v.allocated[t].dom().subset_of(v.available.dom()));
                            lemma_sum_insert(v.allocated, done, t, r, key_space());
                            lemma_sum_mono(v.allocated, new_done, v.allocated.dom(), r, key_space());
                            assert(v.total(r) <= usize::MAX);
                        }
                        assert(v.allocated[t].dom().subset_of(work@.dom()));
                    }
                    add_to_work(&mut work, row_of(&self.allocated, t));
                    finished.set(i, true);
                    n_finished = n_finished + 1;
                    proof {
                        assert forall|r: usize| #[trigger] work@.contains_key(r) implies work@[r] == v.work(new_done, r) by {
                            lemma_sum_insert(v.allocated, done, t, r, key_space());
                        }
                        let new_order = order.push(t);
                        lemma_take_to_set_succ(new_order, order.len() as int);
                        assert(new_order.take(order.len() as int) == order);
                        assert(new_order.take(order.len() as int + 1) == new_order);
                        assert forall|m: int| 0 <= m < new_order.len() implies #[trigger] v.can_finish(new_order[m], new_order.take(m).to_set()) by {
                            if m < order.len() {
                                assert(new_order.take(m) == order.take(m));
                                assert(v.can_finish(order[m], order.take(m).to_set()));
                            }
                        }
                        assert forall|j: int| 0 <= j < tasks.len() implies finished[j] == new_done.contains(#[trigger] tasks@[j]) by {
                            if j != i {
                                assert(tasks@[j] != t);
                            }
                        }
                        done = new_done;
                        order = new_order;
                    }
                    if n_finished == tasks.len() {
                        proof {
                            order.unique_seq_to_set();
                            vstd::set_lib::lemma_subset_equality(done, v.allocated.dom());
                            assert(v.is_safe_sequence(order));
                        }
                        return false;
                    }
                }
            }
        }
    }

    /// Ask for `res_count` more of a resource for a task: the need is kept when
    /// the state with it is safe, and taken back otherwise.
    pub fn try_need(&mut self, task_id: usize, resource_id: usize, res_count: usize) -> (granted:
        Option<()>)
        requires
            old(self)@.wf(),
            old(self)@.shaped(),
            old(self)@.totals_fit(),
            old(self)@.needed.contains_key(task_id),
            old(self)@.needed[task_id].contains_key(resource_id),
            old(self)@.needed[task_id][resource_id] + res_count <= usize::MAX,
        ensures
            granted is Some <==> !old(self)@.add_need(task_id, resource_id, res_count).reports_deadlock(),
            granted is Some ==> final(self)@ == old(self)@.add_need(task_id, resource_id, res_count),
            granted is None ==> final(self)@ == old(self)@,
    {
        let ghost before = self@;
        let old_val = entry_of(row_of(&self.needed, task_id), resource_id);
        set_entry(&mut self.needed, task_id, resource_id, old_val + res_count);
        assert(self@ == before.add_need(task_id, resource_id, res_count));
        assert(self@.needed[task_id].dom() =~= before.needed[task_id].dom());
        assert(self@.needed.dom() =~= before.needed.dom());
        assert(self@.wf());
        assert(self@.shaped()) by {
            assert forall|t: usize| #[trigger] self@.allocated.contains_key(t) implies self@.allocated[t].dom().subset_of(
                self@.available.dom(),
            ) && self@.needed[t].dom().subset_of(self@.available.dom()) by {
                assert(before.allocated.contains_key(t));
            }
        }
        assert(self@.totals_fit()) by {
            assert forall|r: usize| self@.available.contains_key(r) implies #[trigger] self@.total(r)
                <= usize::MAX by {
                assert(before.total(r) <= usize::MAX);
            }
        }
        if self.will_deadlock() {
            set_entry(&mut self.needed, task_id, resource_id, old_val);
            assert(self@.needed[task_id] =~= before.needed[task_id]);
            assert(self@.needed =~= before.needed);
            assert(self@.allocated == before.allocated);
            None
        } else {
            Some(())
        }
    }

    /// Move `res_count` of a resource from the free pool and from the task's
    /// need to what the task holds.
    pub fn allocate(&mut self, task_id: usize, resource_id: usize, res_count: usize)
        requires
            old(self)@.needed.contains_key(task_id),
            old(self)@.needed[task_id].contains_key(resource_id),
            old(self)@.needed[task_id][resource_id] >= res_count,
            old(self)@.allocated.contains_key(task_id),
            old(self)@.allocated[task_id].contains_key(resource_id),
            old(self)@.allocated[task_id][resource_id] + res_count <= usize::MAX,
            old(self)@.available.contains_key(resource_id),
            old(self)@.available[resource_id] >= res_count,
        ensures
            final(self)@ == old(self)@.allocate(task_id, resource_id, res_count),
    {
        let ghost before = self@;
        let n = entry_of(row_of(&self.needed, task_id), resource_id);
        set_entry(&mut self.needed, task_id, resource_id, n - res_count);
        let a = entry_of(row_of(&self.allocated, task_id), resource_id);
        set_entry(&mut self.allocated, task_id, resource_id, a + res_count);
        let f = *self.available.get(&resource_id).unwrap();
        self.available.insert(resource_id, f - res_count);
        assert(self@ == before.allocate(task_id, resource_id, res_count));
    }

    /// Give back `res_count` of a resource that a task holds. `None` when the
    /// task or the resource is not tracked in the task's row.
    pub fn release(&mut self, task_id: usize, resource_id: usize, res_count: usize) -> (r: Option<
        ()>)
        requires
            old(self)@.holds(task_id, resource_id) ==> {
                &&& old(self)@.allocated[task_id][resource_id] >= res_count
                &&& old(self)@.available.contains_key(resource_id)
                &&& old(self)@.available[resource_id] + res_count <= usize::MAX
            },
        ensures
            r is Some <==> old(self)@.holds(task_id, resource_id),
            final(self)@ == old(self)@.release(task_id, resource_id, res_count),
    {
        let ghost before = self@;
        if self.allocated.contains_key(&task_id) {
            if row_of(&self.allocated, task_id).contains_key(&resource_id) {
                let a = entry_of(row_of(&self.allocated, task_id), resource_id);
                set_entry(&mut self.allocated, task_id, resource_id, a - res_count);
                let f = *self.available.get(&resource_id).unwrap();
                self.available.insert(resource_id, f + res_count);
                assert(self@ == before.release(task_id, resource_id, res_count));
                Some(())
            } else {
                None
            }
        } else {
            None
        }
    }
    /// The free count of a resource, if it is tracked.
    pub fn available_of(&self, resource_id: usize) -> (n: Option<usize>)
        ensures
            n == if self@.available.contains_key(resource_id) {
                Some(self@.available[resource_id])
            } else {
                None
            },
    {
        match self.available.get(&resource_id) {
            Some(a) => Some(*a),
            None => None,
        }
    }

    /// What a task holds of a resource, if the task's row has it.
    pub fn allocated_of(&self, task_id: usize, resource_id: usize) -> (n: Option<usize>)
        ensures
            n == if self@.allocated.contains_key(task_id) && self@.allocated[task_id].contains_key(resource_id) {
                Some(self@.allocated[task_id][resource_id])
            } else {
                None
            },
    {
        match self.allocated.get(&task_id) {
            Some(row) => match row.get(&resource_id) {
                Some(a) => Some(*a),
                None => None,
            },
            None => None,
        }
    }

    /// What a task still needs of a resource, if the task's row has it.
    pub fn needed_of(&self, task_id: usize, resource_id: usize) -> (n: Option<usize>)
        ensures
            n == if self@.needed.contains_key(task_id) && self@.needed[task_id].contains_key(resource_id) {
                Some(self@.needed[task_id][resource_id])
            } else {
                None
            },
    {
        match self.needed.get(&task_id) {
            Some(row) => match row.get(&resource_id) {
                Some(a) => Some(*a),
                None => None,
            },
            None => None,
        }
    }

    /// Whether a task is tracked.
    pub fn is_tracked(&self, task_id: usize) -> (b: bool)
        ensures
            b == self@.allocated.contains_key(task_id),
    {
        self.allocated.contains_key(&task_id)
    }
}

} // verus!
