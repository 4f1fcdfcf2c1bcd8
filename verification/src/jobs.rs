//! The job queue: a mailbox of pending asynchronous work items. Activity
//! steps append Open items; external workers pull small batches, which
//! atomically become InProgress; completions flip an item to Completed and
//! are fanned out to the owning instances by the registry.

use vstd::prelude::*;
use crate::values::{JsonValueView, ValueMap};

verus! {

/// How many Open items one pull hands out at most.
pub const PULL_BATCH: usize = 2;

/// The lifecycle of a work item; it only ever advances.
#[derive(Clone, Copy, Debug, PartialEq, Eq, Structural)]
pub enum JobStatus {
    Open,
    InProgress,
    Completed,
}

/// Mathematical shape of a [`JobItem`].
pub struct JobItemView {
    pub id: u64,
    pub inputs: Map<Seq<char>, JsonValueView>,
    pub job_name: Seq<char>,
    pub status: JobStatus,
}

/// One unit of dispatched asynchronous work.
#[derive(Debug)]
pub struct JobItem {
    pub id: u64,
    pub inputs: ValueMap,
    pub job_name: String,
    pub status: JobStatus,
}

impl View for JobItem {
    type V = JobItemView;

    open spec fn view(&self) -> JobItemView {
        JobItemView {
            id: self.id,
            inputs: self.inputs@,
            job_name: self.job_name@,
            status: self.status,
        }
    }
}

impl Clone for JobItem {
    fn clone(&self) -> (r: Self)
        ensures
            r@ == self@,
    {
        JobItem {
            id: self.id,
            inputs: self.inputs.clone(),
            job_name: self.job_name.clone(),
            status: self.status,
        }
    }
}

impl JobItem {
    /// A fresh work item; it starts Open.
    pub fn new(id: u64, inputs: ValueMap, job_name: String) -> (r: Self)
        ensures
            r@.id == id,
            r@.inputs == inputs@,
            r@.job_name == job_name@,
            r@.status is Open,
    {
        Self { id, inputs, job_name, status: JobStatus::Open }
    }
}

/// Request to append a work item to the queue.
pub struct AddWorkItem(pub JobItem);

/// Request for a batch of open work items.
pub struct GetWorkItems;

/// Notice that an external worker finished a job, with its outputs.
pub struct JobCompletedMessage {
    pub job_id: u64,
    pub outputs: ValueMap,
}

impl JobCompletedMessage {
    pub fn new(job_id: u64, outputs: ValueMap) -> (r: Self)
        ensures
            r.job_id == job_id,
            r.outputs@ == outputs@,
    {
        Self { job_id, outputs }
    }
}

/// The views of an item vector.
pub open spec fn items_view(s: Seq<JobItem>) -> Seq<JobItemView> {
    s.map_values(|j: JobItem| j@)
}

/// The same item, marked InProgress.
pub open spec fn in_progress(v: JobItemView) -> JobItemView {
    JobItemView { id: v.id, inputs: v.inputs, job_name: v.job_name, status: JobStatus::InProgress }
}

/// The same item, marked Completed.
pub open spec fn completed(v: JobItemView) -> JobItemView {
    JobItemView { id: v.id, inputs: v.inputs, job_name: v.job_name, status: JobStatus::Completed }
}

/// The first `budget` Open items of the queue, in order: what one pull
/// returns.
pub open spec fn pulled_sel(s: Seq<JobItemView>, budget: nat) -> Seq<JobItemView>
    decreases s.len(),
{
    if s.len() == 0 {
        Seq::empty()
    } else if s.first().status is Open && budget > 0 {
        seq![s.first()] + pulled_sel(s.drop_first(), (budget - 1) as nat)
    } else if s.first().status is Open {
        Seq::empty()
    } else {
        pulled_sel(s.drop_first(), budget)
    }
}

/// The queue after one pull: the first `budget` Open items flipped to
/// InProgress, everything else untouched.
pub open spec fn pulled_upd(s: Seq<JobItemView>, budget: nat) -> Seq<JobItemView>
    decreases s.len(),
{
    if s.len() == 0 {
        Seq::empty()
    } else if s.first().status is Open && budget > 0 {
        seq![in_progress(s.first())] + pulled_upd(s.drop_first(), (budget - 1) as nat)
    } else {
        seq![s.first()] + pulled_upd(s.drop_first(), if s.first().status is Open { 0nat } else { budget })
    }
}

/// The queue after a completion notice: the first item with the given id
/// flipped to Completed, everything else untouched.
pub open spec fn marked_completed(s: Seq<JobItemView>, id: u64) -> Seq<JobItemView>
    decreases s.len(),
{
    if s.len() == 0 {
        Seq::empty()
    } else if s.first().id == id {
        seq![completed(s.first())] + s.drop_first()
    } else {
        seq![s.first()] + marked_completed(s.drop_first(), id)
    }
}

/// The mailbox of pending asynchronous work.
pub struct JobQueue {
    work_items: Vec<JobItem>,
}

impl JobQueue {
    /// The items of the queue, in order.
    pub closed spec fn items(self) -> Seq<JobItemView> {
        items_view(self.work_items@)
    }

    pub fn new() -> (r: Self)
        ensures
            r.items() =~= Seq::<JobItemView>::empty(),
    {
        JobQueue { work_items: Vec::new() }
    }

    /// Append a work item.
    pub fn add_work_item(&mut self, item: JobItem)
        ensures
            final(self).items() == old(self).items().push(item@),
    {
        self.work_items.push(item);
        proof {
            assert(self.items() =~= old(self).items().push(self.work_items@.last()@));
        }
    }

    /// Hand out up to [`PULL_BATCH`] Open items, atomically flipping them
    /// to InProgress; an item is dispatched at most once and never
    /// redelivered.
    #[verifier::loop_isolation(false)]
    pub fn get_work_items(&mut self) -> (r: Vec<JobItem>)
        ensures
            items_view(r@) == pulled_sel(old(self).items(), PULL_BATCH as nat),
            final(self).items() == pulled_upd(old(self).items(), PULL_BATCH as nat),
    {
        let n = self.work_items.len();
        let mut out: Vec<JobItem> = Vec::new();
        let mut budget: usize = PULL_BATCH;
        let mut i: usize = 0;
        proof {
            assert(old(self).items().skip(0int) =~= old(self).items());
            assert(self.items().take(0int) =~= Seq::<JobItemView>::empty());
        }
        while i < n
            invariant
                i <= n,
                budget <= PULL_BATCH,
                n == self.work_items.len(),
                self.work_items@.len() == old(self).work_items@.len(),
                self.items().skip(i as int) == old(self).items().skip(i as int),
                pulled_sel(old(self).items(), PULL_BATCH as nat)
                    == items_view(out@) + pulled_sel(old(self).items().skip(i as int), budget as nat),
                pulled_upd(old(self).items(), PULL_BATCH as nat)
                    =~= self.items().take(i as int)
                        + pulled_upd(old(self).items().skip(i as int), budget as nat),
            decreases n - i,
        {
            let ghost rest = old(self).items().skip(i as int);
            proof {
                assert(rest.len() > 0);
                assert(rest.first() == old(self).items()[i as int]);
                assert(rest.drop_first() =~= old(self).items().skip(i + 1 as int));
                assert(self.items()[i as int] == self.work_items@[i as int]@);
            }
            let is_open = matches!(self.work_items[i].status, JobStatus::Open);
            if is_open && budget > 0 {
                let item = self.work_items[i].clone();
                out.push(item);
                let mut marked = self.work_items[i].clone();
                marked.status = JobStatus::InProgress;
                let ghost cur = self.items();
                self.work_items.set(i, marked);
                budget = budget - 1;
                proof {
                    assert(items_view(out@)
                        =~= items_view(out@.drop_last()).push(rest.first()));
                    assert(self.items() =~= cur.update(i as int, in_progress(rest.first())));
                    assert(self.items().take(i as int) =~= cur.take(i as int));
                    assert(self.items().take(i + 1 as int)
                        =~= self.items().take(i as int).push(in_progress(rest.first())));
                    assert(self.items().skip(i + 1 as int) =~= old(self).items().skip(i + 1 as int));
                    assert(pulled_sel(rest, (budget + 1) as nat)
                        == seq![rest.first()] + pulled_sel(rest.drop_first(), budget as nat));
                    assert(items_view(out@) + pulled_sel(rest.drop_first(), budget as nat)
                        =~= items_view(out@.drop_last())
                            + (seq![rest.first()] + pulled_sel(rest.drop_first(), budget as nat)));
                    assert(pulled_upd(rest, (budget + 1) as nat)
                        == seq![in_progress(rest.first())] + pulled_upd(rest.drop_first(), budget as nat));
                    assert(self.items().take(i as int)
                            + (seq![in_progress(rest.first())] + pulled_upd(rest.drop_first(), budget as nat))
                        =~= self.items().take(i + 1 as int)
                            + pulled_upd(rest.drop_first(), budget as nat));
                }
            } else {
                proof {
                    assert(self.items().take(i + 1 as int)
                        =~= self.items().take(i as int).push(rest.first()));
                    if rest.first().status is Open {
                        assert(budget == 0);
                        assert(pulled_sel(rest, budget as nat) =~= Seq::<JobItemView>::empty());
                        assert(pulled_sel(rest.drop_first(), budget as nat)
                            =~= Seq::<JobItemView>::empty()) by {
                            lemma_pulled_sel_zero(rest.drop_first());
                        }
                        assert(pulled_upd(rest, budget as nat)
                            == seq![rest.first()] + pulled_upd(rest.drop_first(), 0nat));
                    } else {
                        assert(pulled_sel(rest, budget as nat)
                            == pulled_sel(rest.drop_first(), budget as nat));
                        assert(pulled_upd(rest, budget as nat)
                            == seq![rest.first()] + pulled_upd(rest.drop_first(), budget as nat));
                    }
                    assert(self.items().take(i as int) + (seq![rest.first()]
                            + pulled_upd(rest.drop_first(), budget as nat))
                        =~= self.items().take(i + 1 as int)
                            + pulled_upd(rest.drop_first(), budget as nat));
                }
            }
            i = i + 1;
        }
        proof {
            assert(old(self).items().skip(n as int) =~= Seq::<JobItemView>::empty());
            assert(pulled_sel(Seq::<JobItemView>::empty(), budget as nat)
                =~= Seq::<JobItemView>::empty());
            assert(pulled_upd(Seq::<JobItemView>::empty(), budget as nat)
                =~= Seq::<JobItemView>::empty());
            assert(items_view(out@) + Seq::<JobItemView>::empty() =~= items_view(out@));
            assert(self.items().take(n as int) + Seq::<JobItemView>::empty()
                =~= self.items());
        }
        out
    }

    /// Record that a job finished: the first item with that id becomes
    /// Completed; an id the queue does not hold changes nothing.
    #[verifier::loop_isolation(false)]
    pub fn complete_work_item(&mut self, job_id: u64)
        ensures
            final(self).items() == marked_completed(old(self).items(), job_id),
    {
        let n = self.work_items.len();
        let mut i: usize = 0;
        proof {
            assert(old(self).items().skip(0int) =~= old(self).items());
            assert(self.items().take(0int) =~= Seq::<JobItemView>::empty());
        }
        while i < n
            invariant
                i <= n,
                n == self.work_items.len(),
                self.work_items@.len() == old(self).work_items@.len(),
                self.items().skip(i as int) == old(self).items().skip(i as int),
                marked_completed(old(self).items(), job_id)
                    =~= self.items().take(i as int)
                        + marked_completed(old(self).items().skip(i as int), job_id),
            decreases n - i,
        {
            let ghost rest = old(self).items().skip(i as int);
            proof {
                assert(rest.first() == old(self).items()[i as int]);
                assert(rest.drop_first() =~= old(self).items().skip(i + 1 as int));
                assert(self.items()[i as int] == self.work_items@[i as int]@);
            }
            if self.work_items[i].id == job_id {
                let mut marked = self.work_items[i].clone();
                marked.status = JobStatus::Completed;
                let ghost cur = self.items();
                self.work_items.set(i, marked);
                proof {
                    assert(self.items() =~= cur.update(i as int, completed(rest.first())));
                    assert(self.items().take(i as int) =~= cur.take(i as int));
                    assert(marked_completed(rest, job_id)
                        == seq![completed(rest.first())] + rest.drop_first());
                    assert(cur.take(i as int)
                            + (seq![completed(rest.first())] + rest.drop_first())
                        =~= self.items());
                }
                return;
            }
            proof {
                assert(marked_completed(rest, job_id)
                    == seq![rest.first()] + marked_completed(rest.drop_first(), job_id));
                assert(self.items().take(i + 1 as int)
                    =~= self.items().take(i as int).push(rest.first()));
                assert(self.items().take(i as int)
                        + (seq![rest.first()] + marked_completed(rest.drop_first(), job_id))
                    =~= self.items().take(i + 1 as int)
                        + marked_completed(rest.drop_first(), job_id));
            }
            i = i + 1;
        }
        proof {
            assert(old(self).items().skip(n as int) =~= Seq::<JobItemView>::empty());
            assert(marked_completed(Seq::<JobItemView>::empty(), job_id)
                =~= Seq::<JobItemView>::empty());
            assert(self.items().take(n as int) + Seq::<JobItemView>::empty() =~= self.items());
        }
    }

    /// How many items the queue holds.
    pub fn item_count(&self) -> (r: usize)
        ensures
            r == self.items().len(),
    {
        self.work_items.len()
    }

    /// The item at position `i`.
    pub fn item_at(&self, i: usize) -> (r: &JobItem)
        requires
            i < self.items().len(),
        ensures
            r@ == self.items()[i as int],
    {
        proof {
            assert(self.items()[i as int] == self.work_items@[i as int]@);
        }
        &self.work_items[i]
    }
}

/// With no budget a pull selects nothing.
pub proof fn lemma_pulled_sel_zero(s: Seq<JobItemView>)
    ensures
        pulled_sel(s, 0nat) =~= Seq::<JobItemView>::empty(),
    decreases s.len(),
{
    if s.len() > 0 && !(s.first().status is Open) {
        lemma_pulled_sel_zero(s.drop_first());
    }
}

} // verus!
