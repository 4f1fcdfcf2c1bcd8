//! The engine registry: caches process definitions by name, creates
//! instances and their executors, owns the job queue, and correlates
//! sub-process calls back to the calling instance's pending job.
//!
//! Every instance record and every executor is keyed by an id from one
//! process-wide generator, so ids are never reused; an executor handle
//! exists exactly as long as its record is Running.

use vstd::prelude::*;
use std::sync::Arc;
use crate::definition::{ProcessDefinition, share_definition};
use crate::errors::EngineError;
use crate::executor::{EngineEffect, IdGen, InstanceExecutor, lemma_prefix_refl, lemma_prefix_trans};
use crate::jobs::{JobItem, JobQueue, marked_completed, pulled_sel, pulled_upd, PULL_BATCH};
use crate::schema::Schema;
use crate::script::ScriptEngine;
use crate::tables::{StrTable, U64Table};
use crate::validator::ProcessValidator;
use crate::values::ValueMap;

verus! {

/// How many nested registry reactions (sub-process starts, completions of
/// parents) one external request may trigger: a defensive guard.
pub const ENGINE_FUEL: u64 = 64;

/// The lifecycle of one instance.
#[derive(Clone, Copy, Debug, PartialEq, Eq, Structural)]
pub enum ProcessState {
    Running,
    Completed,
    Failed,
}

/// One running or finished instance as the registry records it.
#[derive(Debug)]
pub struct ProcessContext {
    pub process_id: u64,
    pub state: ProcessState,
    pub outputs: Option<ValueMap>,
}

impl ProcessContext {
    pub fn new(process_id: u64) -> (r: Self)
        ensures
            r.process_id == process_id,
            r.state is Running,
            r.outputs is None,
    {
        Self { process_id, state: ProcessState::Running, outputs: None }
    }
}

/// Request for the record of one instance.
pub struct GetProcessMessage {
    pub process_id: u64,
}

/// Request to statically validate the named definition.
pub struct ValidateProcessMessage {
    pub process_name: String,
}

/// The engine: definition cache, instance records and executors, pending
/// sub-process correlations, and the job queue.
pub struct Engine<S: ScriptEngine> {
    processes: U64Table<ProcessContext>,
    executors: U64Table<InstanceExecutor>,
    pending_job: U64Table<(u64, u64)>,
    definitions: StrTable<Arc<ProcessDefinition>>,
    schemas: StrTable<Schema>,
    job_queue: JobQueue,
    script: S,
    idgen: IdGen,
}

impl<S: ScriptEngine> Engine<S> {
    /// The instance records, keyed by instance id.
    pub closed spec fn records(self) -> Map<u64, ProcessContext> {
        self.processes@
    }

    /// The live executors, keyed by instance id.
    pub closed spec fn live(self) -> Map<u64, InstanceExecutor> {
        self.executors@
    }

    /// The pending sub-process correlations: child instance id to
    /// (job id, parent instance id).
    pub closed spec fn pending(self) -> Map<u64, (u64, u64)> {
        self.pending_job@
    }

    /// The cached definitions by name.
    pub closed spec fn defs(self) -> Map<Seq<char>, Arc<ProcessDefinition>> {
        self.definitions@
    }

    /// The registered schema documents by name.
    pub closed spec fn schema_docs(self) -> Map<Seq<char>, Schema> {
        self.schemas@
    }

    /// The job queue's items.
    pub closed spec fn queue(self) -> Seq<crate::jobs::JobItemView> {
        self.job_queue.items()
    }

    /// The next id the engine will allocate.
    pub closed spec fn next_id(self) -> u64 {
        self.idgen.next_id
    }

    /// The registry invariant. In particular: an executor handle exists
    /// for an instance exactly while its record is Running, and every
    /// allocated id lies below the id generator's next id.
    pub closed spec fn wf(self) -> bool {
        &&& self.processes.wf()
        &&& self.executors.wf()
        &&& self.pending_job.wf()
        &&& self.definitions.wf()
        &&& self.schemas.wf()
        &&& forall|k: Seq<char>| #[trigger] self.definitions@.contains_key(k)
                ==> (*self.definitions@[k]).wf()
        &&& forall|i: u64| #[trigger] self.executors@.contains_key(i)
                ==> self.executors@[i].wf()
                    && self.executors@[i].jobs_below(self.idgen.next_id)
                    && self.executors@[i].id == i
        &&& forall|i: u64| #[trigger] self.processes@.contains_key(i)
                ==> self.processes@[i].process_id == i && i < self.idgen.next_id
        &&& forall|i: u64| #[trigger] self.executors@.contains_key(i)
                ==> self.processes@.contains_key(i) && self.processes@[i].state is Running
        &&& forall|i: u64| #[trigger] self.processes@.contains_key(i)
                && self.processes@[i].state is Running
                ==> self.executors@.contains_key(i)
    }

    /// How one engine state may follow another across an operation: ids
    /// grow, records are never dropped, new correlations and executors
    /// carry fresh ids, a surviving executor keeps its definition and
    /// instance inputs, a record whose executor is gone is frozen, every
    /// newly tracked job carries a fresh id, and the job queue only gains
    /// items at its end.
    pub open spec fn evolves_to(self, post: Engine<S>) -> bool {
        &&& post.next_id() >= self.next_id()
        &&& forall|i: u64| #[trigger] self.records().contains_key(i)
                ==> post.records().contains_key(i)
        &&& forall|c: u64| #[trigger] post.pending().contains_key(c)
                ==> self.pending().contains_key(c) || c >= self.next_id()
        &&& forall|i: u64| #[trigger] post.live().contains_key(i)
                ==> self.live().contains_key(i) || i >= self.next_id()
        &&& forall|i: u64| self.live().contains_key(i) && #[trigger] post.live().contains_key(i)
                ==> post.live()[i].definition == self.live()[i].definition
                    && post.live()[i].process_inputs == self.live()[i].process_inputs
        &&& forall|i: u64| #[trigger] self.records().contains_key(i)
                && !self.live().contains_key(i)
                ==> post.records()[i] == self.records()[i] && !post.live().contains_key(i)
        &&& forall|i: u64, j: u64|
                #![trigger post.live()[i].jobs@.contains_key(j)]
                post.live().contains_key(i) && post.live()[i].jobs@.contains_key(j)
                ==> (self.live().contains_key(i) && self.live()[i].jobs@.contains_key(j))
                    || j >= self.next_id()
        &&& self.queue().is_prefix_of(post.queue())
    }

    proof fn lemma_evolves_trans(a: Engine<S>, b: Engine<S>, c: Engine<S>)
        requires
            a.wf(),
            a.evolves_to(b),
            b.evolves_to(c),
        ensures
            a.evolves_to(c),
    {
        assert forall|x: u64| #[trigger] c.pending().contains_key(x)
            implies a.pending().contains_key(x) || x >= a.next_id() by {
            if b.pending().contains_key(x) {
            }
        };
        assert forall|x: u64| #[trigger] c.live().contains_key(x)
            implies a.live().contains_key(x) || x >= a.next_id() by {
            if b.live().contains_key(x) {
            }
        };
        assert forall|x: u64| a.live().contains_key(x) && #[trigger] c.live().contains_key(x)
            implies c.live()[x].definition == a.live()[x].definition
                && c.live()[x].process_inputs == a.live()[x].process_inputs by {
            assert(x < a.next_id());
            assert(b.live().contains_key(x));
        };
        assert forall|x: u64| #[trigger] a.records().contains_key(x)
            && !a.live().contains_key(x)
            implies c.records()[x] == a.records()[x] && !c.live().contains_key(x) by {
            assert(b.records().contains_key(x) && !b.live().contains_key(x));
        };
        assert forall|x: u64, j: u64|
            #![trigger c.live()[x].jobs@.contains_key(j)]
            c.live().contains_key(x) && c.live()[x].jobs@.contains_key(j)
            implies (a.live().contains_key(x) && a.live()[x].jobs@.contains_key(j))
                || j >= a.next_id() by {
            if b.live().contains_key(x) && b.live()[x].jobs@.contains_key(j) {
            }
        };
        lemma_prefix_trans(a.queue(), b.queue(), c.queue());
    }

    pub fn new(script: S) -> (r: Self)
        ensures
            r.wf(),
            r.records() == Map::<u64, ProcessContext>::empty(),
            r.live() == Map::<u64, InstanceExecutor>::empty(),
            r.pending() == Map::<u64, (u64, u64)>::empty(),
            r.defs() == Map::<Seq<char>, Arc<ProcessDefinition>>::empty(),
            r.queue() =~= Seq::<crate::jobs::JobItemView>::empty(),
    {
        Engine {
            processes: U64Table::new(),
            executors: U64Table::new(),
            pending_job: U64Table::new(),
            definitions: StrTable::new(),
            schemas: StrTable::new(),
            job_queue: JobQueue::new(),
            script,
            idgen: IdGen::new(0),
        }
    }

    /// Make the named definition available to instances; a later
    /// registration under the same name replaces the earlier one.
    pub fn register_definition(&mut self, name: String, definition: ProcessDefinition)
        requires
            old(self).wf(),
            definition.wf(),
        ensures
            final(self).wf(),
            final(self).defs().contains_key(name@),
            *final(self).defs()[name@] == definition,
            forall|k: Seq<char>| k != name@
                ==> #[trigger] final(self).defs().contains_key(k)
                        == old(self).defs().contains_key(k)
                    && (old(self).defs().contains_key(k)
                        ==> final(self).defs()[k] == old(self).defs()[k]),
            final(self).schema_docs() == old(self).schema_docs(),
            final(self).records() == old(self).records(),
            final(self).live() == old(self).live(),
            final(self).pending() == old(self).pending(),
            final(self).queue() == old(self).queue(),
    {
        self.definitions.put(name, Arc::new(definition));
    }

    /// Make the named schema document available to schema checks.
    pub fn register_schema(&mut self, name: String, schema: Schema)
        requires
            old(self).wf(),
            schema.wf(),
        ensures
            final(self).wf(),
            final(self).schema_docs() == old(self).schema_docs().insert(name@, schema),
            final(self).defs() == old(self).defs(),
            final(self).records() == old(self).records(),
            final(self).live() == old(self).live(),
            final(self).pending() == old(self).pending(),
            final(self).queue() == old(self).queue(),
    {
        self.schemas.put(name, schema);
    }

    /// Statically validate the named definition without running it; fails
    /// only when no such definition is registered.
    pub fn validate_process(&self, process_name: &String) -> (r: Result<bool, EngineError>)
        requires
            self.wf(),
        ensures
            (r is Ok) == self.defs().contains_key(process_name@),
            r matches Err(e) ==> e is DefinitionNotFound,
            r matches Ok(b) && b ==> forall|n: Seq<char>|
                crate::validator::reachable(
                    *self.defs()[process_name@],
                    (*self.defs()[process_name@]).start_id(), n)
                ==> crate::validator::reaches_end(*self.defs()[process_name@], n)
                    && !crate::validator::has_cycle_at(*self.defs()[process_name@], n)
                    && crate::validator::step_checks_ok(*self.defs()[process_name@],
                        self.schema_docs(), n),
    {
        match self.definitions.get(process_name) {
            Some(definition) => Ok(ProcessValidator::validate(definition, &self.schemas)),
            None => Err(EngineError::DefinitionNotFound),
        }
    }

    /// The record of one instance; fails exactly when the id is unknown.
    pub fn get_process(&self, process_id: u64) -> (r: Result<&ProcessContext, EngineError>)
        ensures
            (r is Ok) == self.records().contains_key(process_id),
            r matches Ok(p) ==> *p == self.records()[process_id],
            r matches Err(e) ==> e is InstanceNotFound,
    {
        match self.processes.get(process_id) {
            Some(record) => Ok(record),
            None => Err(EngineError::InstanceNotFound),
        }
    }

    /// Whether a sub-process correlation is pending for this child
    /// instance id.
    pub fn has_pending_call(&self, child_id: u64) -> (r: bool)
        ensures
            r == self.pending().contains_key(child_id),
    {
        self.pending_job.contains_key(child_id)
    }

    /// Start an instance of the named definition with the given inputs.
    ///
    /// Returns the fresh instance id whenever the definition is found —
    /// also when the instance itself then fails, which leaves its record
    /// Failed; the only other error is exhaustion of a defensive limit.
    /// The instance advances synchronously as far as it can before this
    /// returns, so the record of a fully synchronous instance is already
    /// Completed, not Running.
    pub fn start_process(&mut self, process_name: &String, inputs: ValueMap)
        -> (r: Result<u64, EngineError>)
        requires
            old(self).wf(),
        ensures
            final(self).wf(),
            old(self).evolves_to(*final(self)),
            !old(self).defs().contains_key(process_name@)
                <==> (r matches Err(e) && e is DefinitionNotFound),
            r matches Ok(id) ==> final(self).records().contains_key(id)
                && final(self).records()[id].process_id == id
                && !old(self).records().contains_key(id)
                && old(self).next_id() <= id < final(self).next_id(),
            r matches Ok(id) ==> (final(self).live().contains_key(id)
                ==> final(self).live()[id].definition == old(self).defs()[process_name@]
                    && final(self).live()[id].process_inputs == inputs),
            r matches Ok(id) ==> id == old(self).next_id(),
            old(self).defs().contains_key(process_name@) && old(self).next_id() < u64::MAX
                ==> r is Ok,
            !old(self).defs().contains_key(process_name@) ==> *final(self) == *old(self),
    {
        self.start_process_inner(process_name, inputs, None, ENGINE_FUEL)
    }

    /// Record that a worker finished a job: flip the queue item to
    /// Completed and fan the completion out to every live instance; the
    /// one tracking the job advances, every other one ignores it.
    #[verifier::loop_isolation(false)]
    pub fn complete_work_item(&mut self, job_id: u64, outputs: ValueMap)
        -> (r: Result<(), EngineError>)
        requires
            old(self).wf(),
        ensures
            final(self).wf(),
            marked_completed(old(self).queue(), job_id).is_prefix_of(final(self).queue()),
            (forall|i: u64| #[trigger] old(self).live().contains_key(i)
                    ==> !old(self).live()[i].jobs@.contains_key(job_id))
                ==> final(self).live() == old(self).live()
                    && final(self).records() == old(self).records()
                    && final(self).pending() == old(self).pending(),
            forall|i: u64| #[trigger] final(self).live().contains_key(i)
                ==> !final(self).live()[i].jobs@.contains_key(job_id),
            r is Ok,
    {
        let ghost untracked = forall|i: u64| #[trigger] old(self).live().contains_key(i)
            ==> !old(self).live()[i].jobs@.contains_key(job_id);
        self.job_queue.complete_work_item(job_id);
        let ghost s0 = *self;
        proof {
            assert(s0.wf());
            assert(s0.live() == old(self).live());
            assert(s0.records() == old(self).records());
            assert(s0.pending() == old(self).pending());
        }
        let ghost q = self.job_queue.items();
        let mut ids: Vec<u64> = Vec::new();
        let count = self.executors.entry_count();
        let mut k: usize = 0;
        while k < count
            invariant
                k <= count,
                count == self.executors.kv().len(),
                ids@.len() == k,
                forall|x: int| 0 <= x < k ==> ids@[x] == self.executors.kv()[x].0,
            decreases count - k,
        {
            let entry = self.executors.entry_at(k);
            ids.push(entry.0);
            k = k + 1;
        }
        proof {
            assert forall|key: u64| #[trigger] s0.live().contains_key(key)
                implies ids@.contains(key) by {
                self.executors.lemma_view_entries();
                crate::kvmap::lemma_map_of_to_index(self.executors.kv(), key);
                let x = choose|x: int| 0 <= x < self.executors.kv().len()
                    && (#[trigger] self.executors.kv()[x]).0 == key
                    && self.executors.kv()[x].1 == self.executors@[key];
                assert(ids@[x] == key);
            };
            lemma_prefix_refl(s0.queue());
            assert(s0.evolves_to(*self));
        }
        let n = ids.len();
        let mut i: usize = 0;
        proof {
            assert(q.is_prefix_of(self.job_queue.items()));
        }
        while i < n
            invariant
                i <= n,
                n == ids@.len(),
                self.wf(),
                q.is_prefix_of(self.job_queue.items()),
                s0.evolves_to(*self),
                untracked ==> self.live() == old(self).live()
                    && self.records() == old(self).records()
                    && self.pending() == old(self).pending(),
                forall|x: int| 0 <= x < i
                    ==> (self.live().contains_key(ids@[x])
                        ==> !self.live()[(#[trigger] ids@[x])].jobs@.contains_key(job_id)),
            decreases n - i,
        {
            let id = ids[i];
            let delivered = outputs.clone();
            let ghost pre = *self;
            let got = self.deliver_completion(id, job_id, delivered, ENGINE_FUEL);
            proof {
                lemma_prefix_trans(q, pre.queue(), self.queue());
                Self::lemma_evolves_trans(s0, pre, *self);
                if untracked {
                    assert(forall|x: u64| #[trigger] old(self).live().contains_key(x)
                        ==> !old(self).live()[x].jobs@.contains_key(job_id));
                    if pre.live().contains_key(id) {
                        assert(old(self).live().contains_key(id));
                        assert(!old(self).live()[id].jobs@.contains_key(job_id));
                        assert(pre.live()[id] == old(self).live()[id]);
                        assert(got matches Err(e) && e is UnknownJob);
                        assert(self.live() == pre.live());
                    } else {
                        assert(*self == pre);
                    }
                }
                assert forall|x: int| 0 <= x < i + 1
                    implies (self.live().contains_key(ids@[x])
                        ==> !self.live()[(#[trigger] ids@[x])].jobs@.contains_key(job_id)) by {
                    if job_id >= pre.next_id() {
                        assert(forall|y: u64| #[trigger] pre.live().contains_key(y)
                            ==> !pre.live()[y].jobs@.contains_key(job_id));
                        if pre.live().contains_key(id) {
                            assert(got matches Err(e) && e is UnknownJob);
                            assert(self.live() == pre.live());
                        } else {
                            assert(*self == pre);
                        }
                    } else {
                        if x < i {
                            if self.live().contains_key(ids@[x])
                                && self.live()[ids@[x]].jobs@.contains_key(job_id) {
                                assert((pre.live().contains_key(ids@[x])
                                        && pre.live()[ids@[x]].jobs@.contains_key(job_id))
                                    || job_id >= pre.next_id());
                            }
                        } else {
                            if pre.live().contains_key(id) {
                                if pre.live()[id].jobs@.contains_key(job_id) {
                                } else {
                                    assert(got matches Err(e) && e is UnknownJob);
                                    assert(self.live() == pre.live());
                                }
                            } else {
                                assert(*self == pre);
                            }
                        }
                    }
                };
            }
            match got {
                Ok(_) => {},
                Err(_) => {},
            }
            i = i + 1;
        }
        proof {
            assert forall|w: u64| #[trigger] self.live().contains_key(w)
                implies !self.live()[w].jobs@.contains_key(job_id) by {
                if s0.live().contains_key(w) {
                    let x = choose|x: int| 0 <= x < ids@.len() && ids@[x] == w;
                    assert(self.live().contains_key(ids@[x]));
                } else {
                    if self.live()[w].jobs@.contains_key(job_id) {
                        assert((s0.live().contains_key(w)
                                && s0.live()[w].jobs@.contains_key(job_id))
                            || job_id >= s0.next_id());
                        assert(job_id >= s0.next_id());
                        assert(untracked) by {
                            assert forall|y: u64| #[trigger] old(self).live().contains_key(y)
                                implies !old(self).live()[y].jobs@.contains_key(job_id) by {
                                assert(s0.live().contains_key(y));
                            };
                        }
                        assert(self.live() == old(self).live());
                        assert(old(self).live().contains_key(w));
                    }
                }
            };
        }
        Ok(())
    }

    /// Hand out up to [`PULL_BATCH`] Open work items, flipping them to
    /// InProgress; a dispatched item is never redelivered.
    pub fn get_work_items(&mut self) -> (r: Vec<JobItem>)
        requires
            old(self).wf(),
        ensures
            final(self).wf(),
            crate::jobs::items_view(r@) == pulled_sel(old(self).queue(), PULL_BATCH as nat),
            final(self).queue() == pulled_upd(old(self).queue(), PULL_BATCH as nat),
            final(self).records() == old(self).records(),
            final(self).live() == old(self).live(),
    {
        self.job_queue.get_work_items()
    }

    /// Start an instance, optionally correlated to a parent's pending job.
    fn start_process_inner(
        &mut self,
        process_name: &String,
        inputs: ValueMap,
        correlation: Option<(u64, u64)>,
        fuel: u64,
    ) -> (r: Result<u64, EngineError>)
        requires
            old(self).wf(),
        ensures
            final(self).wf(),
            old(self).evolves_to(*final(self)),
            !old(self).defs().contains_key(process_name@)
                <==> (r matches Err(e) && e is DefinitionNotFound),
            r matches Ok(id) ==> final(self).records().contains_key(id)
                && !old(self).records().contains_key(id)
                && old(self).next_id() <= id < final(self).next_id(),
            r matches Ok(id) ==> (final(self).live().contains_key(id)
                ==> final(self).live()[id].definition == old(self).defs()[process_name@]
                    && final(self).live()[id].process_inputs == inputs),
            r matches Ok(id) ==> id == old(self).next_id(),
            old(self).defs().contains_key(process_name@) && old(self).next_id() < u64::MAX
                && fuel > 0
                ==> r is Ok,
            !old(self).defs().contains_key(process_name@) ==> *final(self) == *old(self),
        decreases fuel, 1int,
    {
        let definition = match self.definitions.get(process_name) {
            Some(d) => share_definition(d),
            None => {
                return Err(EngineError::DefinitionNotFound);
            },
        };
        let process_id = match self.idgen.fresh() {
            Some(id) => id,
            None => {
                return Err(EngineError::LimitExceeded);
            },
        };
        proof {
            assert(!old(self).records().contains_key(process_id));
        }
        let record = ProcessContext::new(process_id);
        self.processes.put(process_id, record);
        match correlation {
            Some(c) => {
                self.pending_job.put(process_id, c);
            },
            None => {},
        }
        let mut executor = InstanceExecutor::new(process_id, definition, inputs);
        let mut effects: Vec<EngineEffect> = Vec::new();
        let started = executor.start(&mut self.script, &self.schemas, &mut self.idgen,
            &mut effects);
        match started {
            Ok(_) => {
                self.executors.put(process_id, executor);
                proof {
                    assert(self.wf());
                    lemma_prefix_refl(old(self).queue());
                    assert(old(self).evolves_to(*self));
                    assert(self.live()[process_id].definition
                        == old(self).defs()[process_name@]);
                    assert(self.live()[process_id].process_inputs == inputs);
                }
                if fuel == 0 {
                    return Err(EngineError::LimitExceeded);
                }
                let ghost pre = *self;
                proof {
                    assert(pre.records().contains_key(process_id));
                    assert(pre.live().contains_key(process_id));
                }
                let followed = self.process_effects(process_id, effects, (fuel - 1) as u64);
                proof {
                    Self::lemma_evolves_trans(*old(self), pre, *self);
                    assert(self.records().contains_key(process_id));
                    if self.live().contains_key(process_id) {
                        assert(self.live()[process_id].definition
                            == pre.live()[process_id].definition);
                        assert(self.live()[process_id].process_inputs
                            == pre.live()[process_id].process_inputs);
                    }
                }
                match followed {
                    Ok(_) => {},
                    Err(_) => {},
                }
                Ok(process_id)
            },
            Err(_) => {
                let mut record = match self.processes.take_out(process_id) {
                    Some(record) => record,
                    None => ProcessContext::new(process_id),
                };
                record.state = ProcessState::Failed;
                self.processes.put(process_id, record);
                proof {
                    assert(self.wf());
                    lemma_prefix_refl(old(self).queue());
                    assert(old(self).evolves_to(*self));
                }
                Ok(process_id)
            },
        }
    }

    /// Interpret the effects one executor produced: enqueue dispatched
    /// jobs, start requested sub-processes correlated to `owner`, and end
    /// `owner` when it reached an End step.
    fn process_effects(
        &mut self,
        owner: u64,
        effects: Vec<EngineEffect>,
        fuel: u64,
    ) -> (r: Result<(), EngineError>)
        requires
            old(self).wf(),
        ensures
            final(self).wf(),
            old(self).evolves_to(*final(self)),
        decreases fuel, 0int,
    {
        let mut effects = effects;
        while effects.len() > 0
            invariant
                old(self).wf(),
                self.wf(),
                old(self).evolves_to(*self),
            decreases effects@.len(),
        {
            let effect = effects.remove(0);
            let ghost pre = *self;
            match effect {
                EngineEffect::DispatchJob { job_id, job_name, inputs } => {
                    self.job_queue.add_work_item(JobItem::new(job_id, inputs, job_name));
                    proof {
                        assert(pre.queue().is_prefix_of(self.queue())) by {
                            assert(pre.queue() =~= self.queue().take(pre.queue().len() as int));
                        }
                        assert(pre.evolves_to(*self));
                    }
                },
                EngineEffect::StartChild { job_id, process_name, inputs } => {
                    if fuel == 0 {
                        return Err(EngineError::LimitExceeded);
                    }
                    let child = self.start_process_inner(&process_name, inputs,
                        Some((job_id, owner)), (fuel - 1) as u64);
                    match child {
                        Ok(_) => {},
                        Err(_) => {},
                    }
                },
                EngineEffect::Ended { outputs } => {
                    if fuel == 0 {
                        return Err(EngineError::LimitExceeded);
                    }
                    match self.end_process(owner, outputs, (fuel - 1) as u64) {
                        Ok(_) => {},
                        Err(_) => {},
                    }
                },
            }
            proof {
                Self::lemma_evolves_trans(*old(self), pre, *self);
            }
        }
        Ok(())
    }

    /// End an instance: record its outputs, mark it Completed, drop its
    /// executor, and, if the instance was a sub-process call, deliver the
    /// outputs to the parent as the completion of the original job and
    /// drop the pending correlation.
    fn end_process(&mut self, process_id: u64, outputs: ValueMap, fuel: u64)
        -> (r: Result<(), EngineError>)
        requires
            old(self).wf(),
        ensures
            final(self).wf(),
            old(self).evolves_to(*final(self)),
            r is Ok ==> old(self).records().contains_key(process_id)
                && final(self).records().contains_key(process_id)
                && final(self).records()[process_id].state is Completed
                && (final(self).records()[process_id].outputs matches Some(o)
                    && o@ == outputs@)
                && !final(self).live().contains_key(process_id)
                && !final(self).pending().contains_key(process_id),
            r is Ok && !old(self).pending().contains_key(process_id)
                ==> final(self).records() == old(self).records()
                        .insert(process_id, final(self).records()[process_id])
                    && final(self).pending() == old(self).pending()
                    && final(self).queue() == old(self).queue(),
        decreases fuel, 2int,
    {
        let mut record = match self.processes.take_out(process_id) {
            Some(record) => record,
            None => {
                return Err(EngineError::InstanceNotFound);
            },
        };
        let running = matches!(record.state, ProcessState::Running);
        if !running {
            self.processes.put(process_id, record);
            proof {
                assert(self.processes@ =~= old(self).processes@);
                lemma_prefix_refl(old(self).queue());
                assert(old(self).evolves_to(*self));
            }
            return Err(EngineError::InstanceNotFound);
        }
        proof {
            assert(process_id < old(self).next_id());
            assert(old(self).live().contains_key(process_id));
        }
        record.state = ProcessState::Completed;
        record.outputs = Some(outputs.clone());
        self.processes.put(process_id, record);
        let _dropped = self.executors.take_out(process_id);
        proof {
            assert(self.wf());
            lemma_prefix_refl(old(self).queue());
            assert(old(self).evolves_to(*self));
            assert(self.records()[process_id].state is Completed);
            assert(self.records()[process_id].outputs matches Some(o) && o@ == outputs@);
            assert(!self.live().contains_key(process_id));
        }
        match self.pending_job.take_out(process_id) {
            Some(correlation) => {
                let (job_id, root_id) = correlation;
                proof {
                    lemma_prefix_refl(old(self).queue());
                    assert(old(self).evolves_to(*self));
                }
                if fuel == 0 {
                    return Err(EngineError::LimitExceeded);
                }
                let ghost pre = *self;
                proof {
                    assert(!pre.pending().contains_key(process_id));
                    assert(process_id < pre.next_id());
                    assert(pre.records().contains_key(process_id));
                }
                let delivered = self.deliver_completion(root_id, job_id, outputs,
                    (fuel - 1) as u64);
                proof {
                    Self::lemma_evolves_trans(*old(self), pre, *self);
                    assert(self.records().contains_key(process_id));
                    assert(self.records()[process_id] == pre.records()[process_id]);
                    assert(!self.live().contains_key(process_id));
                    assert(!self.pending().contains_key(process_id)) by {
                        if self.pending().contains_key(process_id) {
                        }
                    }
                }
                match delivered {
                    Ok(_) => {},
                    Err(_) => {},
                }
                Ok(())
            },
            None => {
                proof {
                    lemma_prefix_refl(old(self).queue());
                    assert(old(self).evolves_to(*self));
                    assert(self.records() =~= old(self).records()
                        .insert(process_id, self.records()[process_id]));
                }
                Ok(())
            },
        }
    }

    /// Deliver a job completion to one instance's executor; an unknown id
    /// leaves the engine untouched, any other failure marks the instance
    /// Failed.
    fn deliver_completion(&mut self, instance_id: u64, job_id: u64, outputs: ValueMap, fuel: u64)
        -> (r: Result<(), EngineError>)
        requires
            old(self).wf(),
        ensures
            final(self).wf(),
            old(self).evolves_to(*final(self)),
            !old(self).live().contains_key(instance_id)
                ==> *final(self) == *old(self) && r is Err,
            old(self).live().contains_key(instance_id)
                && !old(self).live()[instance_id].jobs@.contains_key(job_id)
                ==> (r matches Err(e) && e is UnknownJob)
                    && final(self).live() == old(self).live()
                    && final(self).records() == old(self).records()
                    && final(self).pending() == old(self).pending()
                    && final(self).queue() == old(self).queue()
                    && final(self).next_id() == old(self).next_id(),
            old(self).live().contains_key(instance_id)
                && old(self).live()[instance_id].jobs@.contains_key(job_id)
                ==> (final(self).live().contains_key(instance_id)
                    ==> !final(self).live()[instance_id].jobs@.contains_key(job_id)),
        decreases fuel, 3int,
    {
        let mut executor = match self.executors.take_out(instance_id) {
            Some(executor) => executor,
            None => {
                return Err(EngineError::InstanceNotFound);
            },
        };
        let mut effects: Vec<EngineEffect> = Vec::new();
        let delivered = executor.on_job_completed(job_id, outputs, &mut self.script,
            &self.schemas, &mut self.idgen, &mut effects);
        match delivered {
            Ok(_) => {
                self.executors.put(instance_id, executor);
                proof {
                    assert(self.wf());
                    lemma_prefix_refl(old(self).queue());
                    assert(old(self).evolves_to(*self));
                    assert(job_id < old(self).next_id());
                    assert(!self.live()[instance_id].jobs@.contains_key(job_id));
                }
                if fuel == 0 {
                    return Err(EngineError::LimitExceeded);
                }
                let ghost pre = *self;
                let followed = self.process_effects(instance_id, effects, (fuel - 1) as u64);
                proof {
                    Self::lemma_evolves_trans(*old(self), pre, *self);
                    if self.live().contains_key(instance_id) {
                        assert(!self.live()[instance_id].jobs@.contains_key(job_id)) by {
                            if self.live()[instance_id].jobs@.contains_key(job_id) {
                                assert((pre.live().contains_key(instance_id)
                                        && pre.live()[instance_id].jobs@.contains_key(job_id))
                                    || job_id >= pre.next_id());
                            }
                        }
                    }
                }
                followed
            },
            Err(e) => {
                match e {
                    EngineError::UnknownJob => {
                        self.executors.put(instance_id, executor);
                        proof {
                            assert(self.executors@ =~= old(self).executors@);
                            assert(self.wf());
                            assert(old(self).evolves_to(*self));
                        }
                        Err(EngineError::UnknownJob)
                    },
                    _ => {
                        let mut record = match self.processes.take_out(instance_id) {
                            Some(record) => record,
                            None => ProcessContext::new(instance_id),
                        };
                        record.state = ProcessState::Failed;
                        self.processes.put(instance_id, record);
                        proof {
                            assert(self.wf());
                            assert(old(self).evolves_to(*self));
                            assert(!self.live().contains_key(instance_id));
                        }
                        Err(e)
                    },
                }
            },
        }
    }
}

} // verus!
