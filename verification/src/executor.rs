//! The per-instance executor: owns the runtime state of one running
//! instance, resolves data dependencies lazily (depth-first, on demand),
//! dispatches asynchronous work, applies schema checks, and advances the
//! graph along the selected edges.
//!
//! The executor never talks to the outside directly: work it wants done is
//! appended to an effect list that the registry interprets. Correctness of
//! the recursive pull design depends on the validator having rejected
//! cyclic definitions; a fuel guard turns runaway recursion into
//! [`EngineError::LimitExceeded`] instead of non-termination.

use vstd::prelude::*;
use std::sync::Arc;
use crate::definition::ProcessDefinition;
use crate::errors::EngineError;
use crate::schema::{Schema, check_payload};
use crate::script::ScriptEngine;
use crate::step::{StepInputRequest, StepResult, StepState, StepExecutionStatus};
use crate::steps::StepDef;
use crate::tables::{StrTable, U64Table};
use crate::values::{JsonValueView, ValueMap};

verus! {

/// The recursion budget of one externally triggered advance of an
/// instance: a defensive guard, not a semantic bound.
pub const STEP_FUEL: u64 = 4096;

/// Work the executor asks its surroundings to perform.
#[derive(Debug)]
pub enum EngineEffect {
    /// Enqueue a job of this name for the external workers.
    DispatchJob { job_id: u64, job_name: String, inputs: ValueMap },
    /// Start the named sub-process; its completion is to be delivered as a
    /// completion of `job_id`.
    StartChild { job_id: u64, process_name: String, inputs: ValueMap },
    /// The instance reached an End step with these outputs.
    Ended { outputs: ValueMap },
}

/// The allocator of process-wide unique ids for jobs and instances.
pub struct IdGen {
    pub next_id: u64,
}

impl IdGen {
    pub fn new(first: u64) -> (r: Self)
        ensures
            r.next_id == first,
    {
        IdGen { next_id: first }
    }

    /// A fresh id, strictly below every id this generator will hand out
    /// later; `None` once the id space is exhausted.
    pub fn fresh(&mut self) -> (r: Option<u64>)
        ensures
            final(self).next_id >= old(self).next_id,
            r is Some ==> r->0 == old(self).next_id
                && final(self).next_id == old(self).next_id + 1,
            r is None ==> *final(self) == *old(self) && old(self).next_id == u64::MAX,
    {
        if self.next_id < u64::MAX {
            let id = self.next_id;
            self.next_id = self.next_id + 1;
            Some(id)
        } else {
            None
        }
    }
}

/// The executor of one running instance.
pub struct InstanceExecutor {
    /// The id of the instance this executor owns.
    pub id: u64,
    /// The immutable graph the instance runs, shared with the registry's
    /// cache.
    pub definition: Arc<ProcessDefinition>,
    /// The inputs the instance was started with.
    pub process_inputs: ValueMap,
    /// In-flight asynchronous work: job id to the step waiting on it.
    pub jobs: U64Table<String>,
    /// The recorded runtime state of each step, created on first demand.
    pub steps: StrTable<StepState>,
}

impl InstanceExecutor {
    pub open spec fn wf(self) -> bool {
        &&& self.definition.wf()
        &&& self.jobs.wf()
        &&& self.steps.wf()
        &&& forall|k: Seq<char>| #[trigger] self.steps@.contains_key(k) ==> self.steps@[k].wf()
        &&& forall|j: u64| #[trigger] self.jobs@.contains_key(j)
                ==> self.steps@.contains_key(self.jobs@[j]@)
                    && self.definition.steps_map().contains_key(self.jobs@[j]@)
                    && (self.definition.steps_map()[self.jobs@[j]@].spec_type()
                            is ActivityStep
                        || self.definition.steps_map()[self.jobs@[j]@].spec_type()
                            is CallStep)
    }

    /// Every tracked job id was allocated below `n`.
    pub open spec fn jobs_below(self, n: u64) -> bool {
        forall|j: u64| #[trigger] self.jobs@.contains_key(j) ==> j < n
    }

    pub fn new(id: u64, definition: Arc<ProcessDefinition>, process_inputs: ValueMap) -> (r: Self)
        requires
            definition.wf(),
        ensures
            r.wf(),
            r.id == id,
            r.definition == definition,
            r.process_inputs == process_inputs,
            r.jobs@ == Map::<u64, String>::empty(),
            r.steps@ == Map::<Seq<char>, StepState>::empty(),
            forall|n: u64| r.jobs_below(n),
    {
        InstanceExecutor {
            id,
            definition,
            process_inputs,
            jobs: U64Table::new(),
            steps: StrTable::new(),
        }
    }
}

/// How one executor state may follow from another across any engine
/// operation: the graph, identity and instance inputs are fixed,
/// recorded step states are never dropped, their payload keys only grow,
/// a step past Started never returns to it, and every newly tracked job
/// carries a fresh id.
pub open spec fn advances(
    pre: InstanceExecutor,
    post: InstanceExecutor,
    g0: IdGen,
    g1: IdGen,
) -> bool {
    &&& post.definition == pre.definition
    &&& post.id == pre.id
    &&& post.process_inputs == pre.process_inputs
    &&& g1.next_id >= g0.next_id
    &&& forall|k: Seq<char>| #[trigger] pre.steps@.contains_key(k) ==> post.steps@.contains_key(k)
    &&& forall|k: Seq<char>| #[trigger] pre.steps@.contains_key(k)
            ==> pre.steps@[k].inputs@.dom().subset_of(post.steps@[k].inputs@.dom())
                && pre.steps@[k].outputs@.dom().subset_of(post.steps@[k].outputs@.dom())
    &&& forall|k: Seq<char>| #[trigger] pre.steps@.contains_key(k)
            && !(pre.steps@[k].status is Started)
            ==> !(post.steps@[k].status is Started)
    &&& forall|j: u64| #[trigger] post.jobs@.contains_key(j)
            ==> pre.jobs@.contains_key(j) || j >= g0.next_id
}

/// The `advances` relation composes across consecutive operations.
pub proof fn lemma_advances_trans(
    a: InstanceExecutor,
    b: InstanceExecutor,
    c: InstanceExecutor,
    g0: IdGen,
    g1: IdGen,
    g2: IdGen,
)
    requires
        advances(a, b, g0, g1),
        advances(b, c, g1, g2),
    ensures
        advances(a, c, g0, g2),
{
    assert forall|j: u64| #[trigger] c.jobs@.contains_key(j)
        implies a.jobs@.contains_key(j) || j >= g0.next_id by {
        if b.jobs@.contains_key(j) {
        }
    };
    assert forall|k: Seq<char>| #[trigger] a.steps@.contains_key(k)
        implies a.steps@[k].inputs@.dom().subset_of(c.steps@[k].inputs@.dom())
            && a.steps@[k].outputs@.dom().subset_of(c.steps@[k].outputs@.dom()) by {
        assert(b.steps@.contains_key(k));
        assert(a.steps@[k].inputs@.dom().subset_of(b.steps@[k].inputs@.dom()));
        assert(b.steps@[k].inputs@.dom().subset_of(c.steps@[k].inputs@.dom()));
        assert(a.steps@[k].outputs@.dom().subset_of(b.steps@[k].outputs@.dom()));
        assert(b.steps@[k].outputs@.dom().subset_of(c.steps@[k].outputs@.dom()));
    };
}

/// Every sequence is a prefix of itself.
pub proof fn lemma_prefix_refl<T>(s: Seq<T>)
    ensures
        s.is_prefix_of(s),
{
    assert(s =~= s.take(s.len() as int));
}

/// Prefix order on sequences is transitive.
pub proof fn lemma_prefix_trans<T>(a: Seq<T>, b: Seq<T>, c: Seq<T>)
    requires
        a.is_prefix_of(b),
        b.is_prefix_of(c),
    ensures
        a.is_prefix_of(c),
{
    assert(a =~= c.take(a.len() as int));
}

/// The names an assembled input map will hold: one per declared request.
pub open spec fn request_names(rs: Seq<crate::step::StepInputRequestView>) -> Set<Seq<char>> {
    Set::new(|n: Seq<char>| exists|i: int| 0 <= i < rs.len() && rs[i].name == n)
}

/// No later request declares the same input name: request `i` is the one
/// whose value the assembled map keeps.
pub open spec fn last_named(rs: Seq<crate::step::StepInputRequestView>, i: int) -> bool {
    forall|j: int| i < j < rs.len() ==> (#[trigger] rs[j]).name != rs[i].name
}

/// The map `m` is assembled from the requests `rs` against the step
/// states of `ex`: every source step has a recorded state holding the
/// named output, and each name is bound to the source's output value
/// (the last request of a name deciding).
pub open spec fn resolved_from(
    m: Map<Seq<char>, JsonValueView>,
    ex: InstanceExecutor,
    rs: Seq<crate::step::StepInputRequestView>,
) -> bool {
    forall|i: int| 0 <= i < rs.len()
        ==> ex.steps@.contains_key((#[trigger] rs[i]).from)
            && ex.steps@[rs[i].from].outputs@.contains_key(rs[i].output)
            && (last_named(rs, i)
                ==> m.contains_key(rs[i].name)
                    && m[rs[i].name] == ex.steps@[rs[i].from].outputs@[rs[i].output])
}

/// Across an operation that completes no Activity or Call step, every
/// recorded Activity or Call step keeps its outputs unchanged: such a
/// step's outputs move only when its own job completion is delivered.
pub open spec fn async_outputs_frozen(pre: InstanceExecutor, post: InstanceExecutor) -> bool {
    forall|k: Seq<char>| #[trigger] pre.steps@.contains_key(k)
        && pre.definition.steps_map().contains_key(k)
        && (pre.definition.steps_map()[k].spec_type() is ActivityStep
            || pre.definition.steps_map()[k].spec_type() is CallStep)
        ==> post.steps@[k].outputs@ == pre.steps@[k].outputs@
}

/// The step `id` holds its declared bindings: each of its input fields
/// equals the named output of its declared source step.
pub open spec fn bindings_resolved(ex: InstanceExecutor, id: Seq<char>) -> bool {
    ex.steps@.contains_key(id)
        && resolved_from(ex.steps@[id].inputs@, ex,
            ex.definition.steps_map()[id].spec_input_requests())
}

/// Run the start behavior of one step on its bound inputs.
///
/// Start and End pass their inputs through; Data supplies its configured
/// value under the name `value`; Condition completes empty; Script runs
/// the external collaborator; Activity and Call allocate a fresh job id
/// and emit the matching effect.
fn start_behavior<S: ScriptEngine>(
    step: &StepDef,
    inputs: &ValueMap,
    script: &mut S,
    idgen: &mut IdGen,
    effects: &mut Vec<EngineEffect>,
) -> (r: Result<StepResult, EngineError>)
    requires
        inputs.wf(),
    ensures
        final(idgen).next_id >= old(idgen).next_id,
        old(effects)@.is_prefix_of(final(effects)@),
        step.spec_type() is StartStep ==> (r matches Ok(StepResult::Completed(m)) && m@ == inputs@),
        step.spec_type() is EndStep ==> (r matches Ok(StepResult::ProcessEnded(m)) && m@ == inputs@),
        step.spec_type() is ConditionStep ==> (r matches Ok(StepResult::Completed(m))
            && m@ == Map::<Seq<char>, JsonValueView>::empty()),
        step matches StepDef::Data(d) ==> (r matches Ok(StepResult::Completed(m))
            && m@ == Map::<Seq<char>, JsonValueView>::empty().insert("value"@, d.value@)),
        step.spec_type() is ScriptStep ==> (r matches Ok(sr) ==> sr is Completed)
            && (r matches Err(e) ==> e is ScriptExecutionError),
        step matches StepDef::Activity(a) ==> (r matches Err(e) ==> e is LimitExceeded)
            && (r matches Ok(StepResult::AsyncJob(j))
                && j == old(idgen).next_id
                && final(idgen).next_id > j
                && final(effects)@ == old(effects)@.push(final(effects)@.last())
                && (final(effects)@.last() matches EngineEffect::DispatchJob {
                        job_id, job_name, inputs: ins }
                    && job_id == j && job_name@ == a.job@ && ins@ == inputs@)
                || r is Err),
        step matches StepDef::Call(c) ==> (r matches Err(e) ==> e is LimitExceeded)
            && (r matches Ok(StepResult::AsyncJob(j))
                && j == old(idgen).next_id
                && final(idgen).next_id > j
                && final(effects)@ == old(effects)@.push(final(effects)@.last())
                && (final(effects)@.last() matches EngineEffect::StartChild {
                        job_id, process_name, inputs: ins }
                    && job_id == j && process_name@ == c.process@ && ins@ == inputs@)
                || r is Err),
        !(step.spec_type() is ScriptStep)
            ==> (r matches Ok(StepResult::Completed(m)) ==> m.wf()),
        r matches Ok(StepResult::ProcessEnded(m)) ==> m.wf() && m@ == inputs@,
        !(step.spec_type() is ActivityStep) && !(step.spec_type() is CallStep)
            ==> final(effects)@ == old(effects)@ && *final(idgen) == *old(idgen),
        !(r matches Err(e) && e is UnknownJob),
{
    match step {
        StepDef::Start(_) => Ok(StepResult::Completed(inputs.clone())),
        StepDef::End(_) => Ok(StepResult::ProcessEnded(inputs.clone())),
        StepDef::Condition(_) => Ok(StepResult::Completed(ValueMap::new())),
        StepDef::Data(d) => {
            let mut outputs = ValueMap::new();
            outputs.insert("value".to_owned(), d.value.clone());
            Ok(StepResult::Completed(outputs))
        },
        StepDef::Script(s) => {
            match script.execute(&s.script, inputs) {
                Ok(outputs) => Ok(StepResult::Completed(outputs)),
                Err(_) => Err(EngineError::ScriptExecutionError),
            }
        },
        StepDef::Activity(a) => {
            match idgen.fresh() {
                Some(job_id) => {
                    effects.push(EngineEffect::DispatchJob {
                        job_id,
                        job_name: a.job.clone(),
                        inputs: inputs.clone(),
                    });
                    proof {
                        assert(old(effects)@.is_prefix_of(effects@)) by {
                            assert(old(effects)@ =~= effects@.take(old(effects)@.len() as int));
                        }
                    }
                    Ok(StepResult::AsyncJob(job_id))
                },
                None => Err(EngineError::LimitExceeded),
            }
        },
        StepDef::Call(c) => {
            match idgen.fresh() {
                Some(job_id) => {
                    effects.push(EngineEffect::StartChild {
                        job_id,
                        process_name: c.process.clone(),
                        inputs: inputs.clone(),
                    });
                    proof {
                        assert(old(effects)@.is_prefix_of(effects@)) by {
                            assert(old(effects)@ =~= effects@.take(old(effects)@.len() as int));
                        }
                    }
                    Ok(StepResult::AsyncJob(job_id))
                },
                None => Err(EngineError::LimitExceeded),
            }
        },
    }
}

impl InstanceExecutor {
    /// Assemble a step's input map from its declared dependencies.
    ///
    /// First every dependency whose source step has no recorded state yet
    /// is started, recursively and on demand; then, with the state
    /// settled, each named output is read from its source's state,
    /// failing with `MissingOutput` if absent. On success every assembled
    /// field equals its source's named output in the resulting state.
    #[verifier::loop_isolation(false)]
    pub fn resolve_input_requests<S: ScriptEngine>(
        &mut self,
        requests: &Vec<StepInputRequest>,
        script: &mut S,
        schemas: &StrTable<Schema>,
        idgen: &mut IdGen,
        effects: &mut Vec<EngineEffect>,
        fuel: u64,
    ) -> (r: Result<ValueMap, EngineError>)
        requires
            old(self).wf(),
            old(self).jobs_below(old(idgen).next_id),
            schemas.wf(),
        ensures
            final(self).wf(),
            final(self).jobs_below(final(idgen).next_id),
            advances(*old(self), *final(self), *old(idgen), *final(idgen)),
            async_outputs_frozen(*old(self), *final(self)),
            old(effects)@.is_prefix_of(final(effects)@),
            !(r matches Err(e) && e is UnknownJob),
            r matches Ok(m) ==> m.wf()
                && m@.dom() =~= request_names(crate::step::requests_view(requests@))
                && resolved_from(m@, *final(self), crate::step::requests_view(requests@)),
            (forall|i: int| 0 <= i < crate::step::requests_view(requests@).len()
                    ==> old(self).steps@.contains_key(
                        (#[trigger] crate::step::requests_view(requests@)[i]).from))
                ==> *final(self) == *old(self)
                    && final(effects)@ == old(effects)@
                    && *final(idgen) == *old(idgen)
                    && (r is Ok || (r matches Err(e) && e is MissingOutput))
                    && ((r matches Err(e) && e is MissingOutput)
                        <==> exists|i: int|
                            0 <= i < crate::step::requests_view(requests@).len()
                            && !old(self).steps@[
                                (#[trigger] crate::step::requests_view(requests@)[i]).from]
                                .outputs@.contains_key(
                                    crate::step::requests_view(requests@)[i].output)),
        decreases fuel, 1int, requests@.len(),
    {
        let ghost rs = crate::step::requests_view(requests@);
        let ghost all_known = forall|i: int| 0 <= i < rs.len()
            ==> old(self).steps@.contains_key((#[trigger] rs[i]).from);
        let n = requests.len();
        let mut i: usize = 0;
        while i < n
            invariant
                i <= n,
                self.wf(),
                self.jobs_below(idgen.next_id),
                advances(*old(self), *self, *old(idgen), *idgen),
                async_outputs_frozen(*old(self), *self),
                old(effects)@.is_prefix_of(effects@),
                forall|x: int| 0 <= x < i
                    ==> self.steps@.contains_key((#[trigger] rs[x]).from),
                all_known ==> *self == *old(self)
                    && effects@ == old(effects)@ && *idgen == *old(idgen),
            decreases n - i,
        {
            let request = &requests[i];
            proof {
                assert(rs[i as int] == requests@[i as int]@);
            }
            let known = self.steps.contains_key(&request.from);
            if !known {
                if fuel == 0 {
                    return Err(EngineError::LimitExceeded);
                }
                let ghost pre = *self;
                let ghost gpre = *idgen;
                let ghost epre = effects@;
                let from = request.from.clone();
                let step_r = self.start_step(&from, script, schemas, idgen, effects,
                    (fuel - 1) as u64);
                proof {
                    lemma_advances_trans(*old(self), pre, *self, *old(idgen), gpre, *idgen);
                    lemma_prefix_trans(old(effects)@, epre, effects@);
                    assert(async_outputs_frozen(*old(self), *self)) by {
                        assert forall|k: Seq<char>| #[trigger] old(self).steps@.contains_key(k)
                            && old(self).definition.steps_map().contains_key(k)
                            && (old(self).definition.steps_map()[k].spec_type()
                                    is ActivityStep
                                || old(self).definition.steps_map()[k].spec_type()
                                    is CallStep)
                            implies self.steps@[k].outputs@ == old(self).steps@[k].outputs@ by {
                            assert(pre.steps@.contains_key(k));
                            assert(pre.steps@[k].outputs@ == old(self).steps@[k].outputs@);
                        };
                    }
                }
                match step_r {
                    Ok(_) => {},
                    Err(e) => {
                        return Err(e);
                    },
                }
            }
            proof {
                assert(self.steps@.contains_key(rs[i as int].from));
            }
            i = i + 1;
        }
        let ghost settled = *self;
        proof {
            if all_known {
                assert(settled == *old(self));
            }
        }
        let mut assembled = ValueMap::new();
        let mut j: usize = 0;
        proof {
            assert(assembled@.dom() =~= request_names(rs.take(0int)));
        }
        while j < n
            invariant
                j <= n,
                *self == settled,
                assembled.wf(),
                assembled@.dom() =~= request_names(rs.take(j as int)),
                forall|x: int| 0 <= x < n
                    ==> self.steps@.contains_key((#[trigger] rs[x]).from),
                forall|x: int| 0 <= x < j
                    ==> self.steps@[(#[trigger] rs[x]).from].outputs@.contains_key(rs[x].output),
                forall|x: int| 0 <= x < j
                        && (forall|y: int| x < y < j ==> (#[trigger] rs[y]).name != rs[x].name)
                    ==> assembled@.contains_key((#[trigger] rs[x]).name)
                        && assembled@[rs[x].name]
                            == self.steps@[rs[x].from].outputs@[rs[x].output],
            decreases n - j,
        {
            let request = &requests[j];
            proof {
                assert(rs[j as int] == requests@[j as int]@);
            }
            match self.steps.get(&request.from) {
                Some(state) => {
                    match state.outputs.get(&request.output) {
                        Some(v) => {
                            let value = v.clone();
                            let ghost dpre = assembled@;
                            assembled.insert(request.name.clone(), value);
                            proof {
                                assert(assembled@ == dpre.insert(rs[j as int].name, v@));
                                assert(v@ == self.steps@[rs[j as int].from]
                                    .outputs@[rs[j as int].output]);
                                assert forall|x: int| 0 <= x < j + 1
                                        && (forall|y: int| x < y < j + 1
                                            ==> (#[trigger] rs[y]).name != rs[x].name)
                                    implies assembled@.contains_key((#[trigger] rs[x]).name)
                                        && assembled@[rs[x].name]
                                            == self.steps@[rs[x].from].outputs@[rs[x].output] by {
                                    if x < j {
                                        assert(rs[j as int].name != rs[x].name);
                                        assert(dpre.contains_key(rs[x].name));
                                        assert(dpre[rs[x].name]
                                            == self.steps@[rs[x].from].outputs@[rs[x].output]);
                                    }
                                };
                                assert forall|nm: Seq<char>|
                                    request_names(rs.take(j + 1 as int)).contains(nm)
                                    implies assembled@.dom().contains(nm) by {
                                    let x = choose|x: int| 0 <= x < rs.take(j + 1 as int).len()
                                        && (#[trigger] rs.take(j + 1 as int)[x]).name == nm;
                                    if x < j {
                                        assert(rs.take(j as int)[x].name == nm);
                                        assert(request_names(rs.take(j as int)).contains(nm));
                                    } else {
                                        assert(nm == rs[j as int].name);
                                    }
                                };
                                assert forall|nm: Seq<char>| assembled@.dom().contains(nm)
                                    implies request_names(rs.take(j + 1 as int)).contains(nm) by {
                                    if nm == rs[j as int].name {
                                        assert(rs.take(j + 1 as int)[j as int].name == nm);
                                    } else {
                                        assert(request_names(rs.take(j as int)).contains(nm));
                                        let x = choose|x: int| 0 <= x < rs.take(j as int).len()
                                            && (#[trigger] rs.take(j as int)[x]).name == nm;
                                        assert(rs.take(j + 1 as int)[x].name == nm);
                                    }
                                };
                                assert(assembled@.dom()
                                    =~= request_names(rs.take(j + 1 as int)));
                            }
                        },
                        None => {
                            proof {
                                if all_known {
                                    assert(!old(self).steps@[rs[j as int].from]
                                        .outputs@.contains_key(rs[j as int].output));
                                }
                            }
                            return Err(EngineError::MissingOutput);
                        },
                    }
                },
                None => {
                    return Err(EngineError::MissingOutput);
                },
            }
            j = j + 1;
        }
        proof {
            assert(rs.take(n as int) =~= rs);
            assert(resolved_from(assembled@, *self, rs));
            if all_known {
                assert forall|x: int| 0 <= x < rs.len()
                    implies old(self).steps@[(#[trigger] rs[x]).from]
                        .outputs@.contains_key(rs[x].output) by {
                    assert(self.steps@[rs[x].from].outputs@.contains_key(rs[x].output));
                };
            }
        }
        Ok(assembled)
    }

    /// Start one step: resolve its dependencies, check its input schema,
    /// merge the inputs into its state, and apply its start behavior.
    ///
    /// An Activity or Call step ends up Waiting with a freshly tracked
    /// job; a synchronously completed step is completed and advanced at
    /// once; an End step emits the instance's end.
    pub fn start_step<S: ScriptEngine>(
        &mut self,
        step_id: &String,
        script: &mut S,
        schemas: &StrTable<Schema>,
        idgen: &mut IdGen,
        effects: &mut Vec<EngineEffect>,
        fuel: u64,
    ) -> (r: Result<(), EngineError>)
        requires
            old(self).wf(),
            old(self).jobs_below(old(idgen).next_id),
            schemas.wf(),
        ensures
            final(self).wf(),
            final(self).jobs_below(final(idgen).next_id),
            advances(*old(self), *final(self), *old(idgen), *final(idgen)),
            old(effects)@.is_prefix_of(final(effects)@),
            !(r matches Err(e) && e is UnknownJob),
            r is Ok ==> final(self).steps@.contains_key(step_id@),
            r is Ok ==> old(self).definition.steps_map().contains_key(step_id@),
            fuel > 0 && !old(self).definition.steps_map().contains_key(step_id@)
                ==> (r matches Err(e) && e is StepNotFound)
                    && *final(self) == *old(self)
                    && final(effects)@ == old(effects)@
                    && *final(idgen) == *old(idgen),
            async_outputs_frozen(*old(self), *final(self)),
            r is Ok && (old(self).definition.steps_map()[step_id@].spec_type() is ActivityStep
                    || old(self).definition.steps_map()[step_id@].spec_type() is CallStep)
                ==> final(self).steps@[step_id@].status is Waiting
                    && exists|j: u64| #![auto] final(self).jobs@.contains_key(j)
                        && final(self).jobs@[j]@ == step_id@
                        && old(idgen).next_id <= j < final(idgen).next_id,
            r is Ok && old(self).definition.steps_map()[step_id@].spec_type() is EndStep
                ==> final(effects)@.len() > old(effects)@.len()
                    && (final(effects)@.last() matches EngineEffect::Ended { outputs }
                        && outputs@ == final(self).steps@[step_id@].inputs@),
            r is Ok && (old(self).definition.steps_map()[step_id@].spec_type() is ActivityStep
                    || old(self).definition.steps_map()[step_id@].spec_type() is CallStep
                    || old(self).definition.steps_map()[step_id@].spec_type() is EndStep)
                ==> bindings_resolved(*final(self), step_id@),
            r is Ok ==> forall|i: int| 0 <= i
                    < old(self).definition.steps_map()[step_id@].spec_input_requests().len()
                ==> final(self).steps@.contains_key(
                        (#[trigger] old(self).definition.steps_map()[step_id@]
                            .spec_input_requests()[i]).from)
                    && final(self).steps@[step_id@].inputs@.contains_key(
                        old(self).definition.steps_map()[step_id@]
                            .spec_input_requests()[i].name),
            r is Ok && (old(self).definition.steps_map()[step_id@].spec_type() is StartStep
                    || old(self).definition.steps_map()[step_id@].spec_type() is DataStep
                    || old(self).definition.steps_map()[step_id@].spec_type() is ScriptStep)
                ==> forall|x: int| 0 <= x < crate::steps::default_targets(
                        old(self).definition.next_of(step_id@)).len()
                    ==> final(self).steps@.contains_key(
                        #[trigger] crate::steps::default_targets(
                            old(self).definition.next_of(step_id@))[x]),
            old(self).definition.steps_map().contains_key(step_id@) && fuel > 0
                && (forall|i: int| 0 <= i < old(self).definition.steps_map()[step_id@]
                        .spec_input_requests().len()
                    ==> old(self).steps@.contains_key(
                            (#[trigger] old(self).definition.steps_map()[step_id@]
                                .spec_input_requests()[i]).from)
                        && old(self).steps@[old(self).definition.steps_map()[step_id@]
                                .spec_input_requests()[i].from].outputs@
                            .contains_key(old(self).definition.steps_map()[step_id@]
                                .spec_input_requests()[i].output))
                ==> (old(self).definition.steps_map()[step_id@].spec_input_schema()
                        matches Some(sname)
                    ==> ((forall|m: Map<Seq<char>, JsonValueView>|
                            m.dom() =~= request_names(
                                old(self).definition.steps_map()[step_id@]
                                    .spec_input_requests())
                            && resolved_from(m, *old(self),
                                old(self).definition.steps_map()[step_id@]
                                    .spec_input_requests())
                            ==> !(schemas@.contains_key(sname)
                                && crate::schema::payload_conforms(m, schemas@[sname])))
                        ==> (r matches Err(e) && e is SchemaViolation)
                            && *final(self) == *old(self)
                            && final(effects)@ == old(effects)@
                            && *final(idgen) == *old(idgen))),
            r is Ok && (old(self).definition.steps_map()[step_id@].spec_type() is ActivityStep
                    || old(self).definition.steps_map()[step_id@].spec_type() is CallStep
                    || old(self).definition.steps_map()[step_id@].spec_type() is EndStep)
                ==> (old(self).definition.steps_map()[step_id@].spec_input_schema()
                        matches Some(sname)
                    ==> schemas@.contains_key(sname)
                        && exists|m: Map<Seq<char>, JsonValueView>| #![auto]
                            m.dom() =~= request_names(
                                old(self).definition.steps_map()[step_id@]
                                    .spec_input_requests())
                            && resolved_from(m, *final(self),
                                old(self).definition.steps_map()[step_id@]
                                    .spec_input_requests())
                            && crate::schema::payload_conforms(m, schemas@[sname])),
        decreases fuel, 3int, 0int,
    {
        if fuel == 0 {
            return Err(EngineError::LimitExceeded);
        }
        let requests = match self.definition.get_step(step_id) {
            Some(step) => step.get_input_requests(),
            None => {
                return Err(EngineError::StepNotFound);
            },
        };
        let ghost rs = crate::step::requests_view(requests@);
        let inputs = match self.resolve_input_requests(
            &requests, script, schemas, idgen, effects, (fuel - 1) as u64)
        {
            Ok(m) => m,
            Err(e) => {
                return Err(e);
            },
        };
        let step = match self.definition.get_step(step_id) {
            Some(step) => step,
            None => {
                return Err(EngineError::StepNotFound);
            },
        };
        match step.input_schema() {
            Some(schema_name) => {
                match schemas.get(&schema_name) {
                    Some(schema) => {
                        if !check_payload(&inputs, schema) {
                            return Err(EngineError::SchemaViolation);
                        }
                    },
                    None => {
                        return Err(EngineError::SchemaViolation);
                    },
                }
            },
            None => {},
        }
        let ghost resolved = *self;
        let mut state = match self.steps.take_out(step_id) {
            Some(state) => state,
            None => StepState::new(step_id.clone()),
        };
        state.inputs.extend_with(&inputs);
        let ctx_inputs = state.inputs.clone();
        self.steps.put(step_id.clone(), state);
        let ghost mid = *self;
        let ghost e_mid = effects@;
        proof {
            assert(advances(*old(self), *self, *old(idgen), *idgen)) by {
                assert forall|k: Seq<char>| #[trigger] old(self).steps@.contains_key(k)
                    implies self.steps@.contains_key(k) by {
                }
            }
            assert(self.wf());
            assert(bindings_resolved(*self, step_id@)) by {
                assert(resolved_from(inputs@, resolved, rs));
                assert forall|i: int| 0 <= i < rs.len()
                    implies self.steps@.contains_key((#[trigger] rs[i]).from)
                        && self.steps@[rs[i].from].outputs@.contains_key(rs[i].output)
                        && (last_named(rs, i)
                            ==> self.steps@[step_id@].inputs@.contains_key(rs[i].name)
                                && self.steps@[step_id@].inputs@[rs[i].name]
                                    == self.steps@[rs[i].from].outputs@[rs[i].output]) by {
                    assert(resolved.steps@.contains_key(rs[i].from));
                    assert(resolved.steps@[rs[i].from].outputs@.contains_key(rs[i].output));
                    if rs[i].from == step_id@ {
                        assert(self.steps@[step_id@].outputs@
                            == resolved.steps@[step_id@].outputs@);
                    } else {
                        assert(self.steps@[rs[i].from] == resolved.steps@[rs[i].from]);
                    }
                    if last_named(rs, i) {
                        assert(inputs@.contains_key(rs[i].name));
                        assert(inputs@[rs[i].name]
                            == resolved.steps@[rs[i].from].outputs@[rs[i].output]);
                    }
                };
            }
            assert(ctx_inputs@ == self.steps@[step_id@].inputs@);
            assert(resolved_from(inputs@, *self, rs)) by {
                assert forall|i: int| 0 <= i < rs.len()
                    implies self.steps@.contains_key((#[trigger] rs[i]).from)
                        && self.steps@[rs[i].from].outputs@.contains_key(rs[i].output)
                        && (last_named(rs, i)
                            ==> inputs@.contains_key(rs[i].name)
                                && inputs@[rs[i].name]
                                    == self.steps@[rs[i].from].outputs@[rs[i].output]) by {
                    assert(resolved.steps@.contains_key(rs[i].from));
                    if rs[i].from == step_id@ {
                        assert(self.steps@[step_id@].outputs@
                            == resolved.steps@[step_id@].outputs@);
                    } else {
                        assert(self.steps@[rs[i].from] == resolved.steps@[rs[i].from]);
                    }
                };
            }
            assert forall|i: int| 0 <= i < rs.len()
                implies self.steps@[step_id@].inputs@.contains_key(
                    (#[trigger] rs[i]).name) by {
                assert(inputs@.contains_key(rs[i].name)) by {
                    assert(request_names(rs).contains(rs[i].name));
                }
            };
        }
        let result = match start_behavior(step, &ctx_inputs, script, idgen, effects) {
            Ok(sr) => sr,
            Err(e) => {
                proof {
                    lemma_prefix_trans(old(effects)@, e_mid, effects@);
                }
                return Err(e);
            },
        };
        proof {
            lemma_prefix_trans(old(effects)@, e_mid, effects@);
        }
        match result {
            StepResult::AsyncJob(job_id) => {
                let mut state = match self.steps.take_out(step_id) {
                    Some(state) => state,
                    None => StepState::new(step_id.clone()),
                };
                state.status = StepExecutionStatus::Waiting;
                self.steps.put(step_id.clone(), state);
                self.jobs.put(job_id, step_id.clone());
                proof {
                    assert(self.steps@.contains_key(step_id@));
                    assert(self.steps@[step_id@].status is Waiting);
                    assert(self.steps@[step_id@].inputs@ == mid.steps@[step_id@].inputs@);
                    assert(self.steps@[step_id@].outputs@ == mid.steps@[step_id@].outputs@);
                    assert(bindings_resolved(*self, step_id@)) by {
                        assert forall|i: int| 0 <= i < rs.len()
                            implies self.steps@.contains_key((#[trigger] rs[i]).from)
                                && self.steps@[rs[i].from].outputs@
                                    .contains_key(rs[i].output)
                                && (last_named(rs, i)
                                    ==> self.steps@[step_id@].inputs@
                                            .contains_key(rs[i].name)
                                        && self.steps@[step_id@].inputs@[rs[i].name]
                                            == self.steps@[rs[i].from].outputs@[rs[i].output]) by {
                            assert(mid.steps@.contains_key(rs[i].from));
                            if rs[i].from == step_id@ {
                                assert(self.steps@[step_id@].outputs@
                                    == mid.steps@[step_id@].outputs@);
                            } else {
                                assert(self.steps@[rs[i].from] == mid.steps@[rs[i].from]);
                            }
                        };
                    }
                    assert(self.jobs@.contains_key(job_id));
                    assert(self.jobs@[job_id]@ == step_id@);
                    assert(old(idgen).next_id <= job_id < idgen.next_id);
                    assert(advances(*old(self), *self, *old(idgen), *idgen)) by {
                        assert forall|k: Seq<char>| #[trigger] old(self).steps@.contains_key(k)
                            implies self.steps@.contains_key(k) by {
                        }
                        assert forall|j: u64| #[trigger] self.jobs@.contains_key(j)
                            implies old(self).jobs@.contains_key(j) || j >= old(idgen).next_id by {
                            if j != job_id {
                                assert(mid.jobs@.contains_key(j));
                            }
                        }
                    }
                    assert(self.jobs_below(idgen.next_id)) by {
                        assert forall|j: u64| #[trigger] self.jobs@.contains_key(j)
                            implies j < idgen.next_id by {
                            if j != job_id {
                                assert(mid.jobs@.contains_key(j));
                            }
                        }
                    }
                    assert(self.wf());
                    assert(resolved_from(inputs@, *self, rs)) by {
                        assert forall|i: int| 0 <= i < rs.len()
                            implies self.steps@.contains_key((#[trigger] rs[i]).from)
                                && self.steps@[rs[i].from].outputs@
                                    .contains_key(rs[i].output)
                                && (last_named(rs, i)
                                    ==> inputs@.contains_key(rs[i].name)
                                        && inputs@[rs[i].name]
                                            == self.steps@[rs[i].from]
                                                .outputs@[rs[i].output]) by {
                            assert(mid.steps@.contains_key(rs[i].from));
                            if rs[i].from == step_id@ {
                                assert(self.steps@[step_id@].outputs@
                                    == mid.steps@[step_id@].outputs@);
                            } else {
                                assert(self.steps@[rs[i].from] == mid.steps@[rs[i].from]);
                            }
                        };
                    }
                    assert(inputs@.dom() =~= request_names(rs));
                }
                Ok(())
            },
            StepResult::Completed(outputs) => {
                let ghost pre = *self;
                let ghost g_pre = *idgen;
                let ghost e_pre = effects@;
                match self.complete_step(step_id, outputs, script, schemas, idgen, effects,
                    (fuel - 1) as u64)
                {
                    Ok(_) => {
                        proof {
                            lemma_advances_trans(*old(self), pre, *self,
                                *old(idgen), g_pre, *idgen);
                            lemma_prefix_trans(old(effects)@, e_pre, effects@);
                        }
                        Ok(())
                    },
                    Err(e) => {
                        proof {
                            lemma_advances_trans(*old(self), pre, *self,
                                *old(idgen), g_pre, *idgen);
                            lemma_prefix_trans(old(effects)@, e_pre, effects@);
                        }
                        Err(e)
                    },
                }
            },
            StepResult::ProcessEnded(outputs) => {
                let ghost payload = outputs@;
                effects.push(EngineEffect::Ended { outputs });
                proof {
                    assert(e_mid.is_prefix_of(effects@)) by {
                        assert(e_mid =~= effects@.take(e_mid.len() as int));
                    }
                    lemma_prefix_trans(old(effects)@, e_mid, effects@);
                    assert(*self == mid);
                    assert(bindings_resolved(*self, step_id@));
                    assert(effects@.last() matches EngineEffect::Ended { outputs }
                        && outputs@ == self.steps@[step_id@].inputs@) by {
                        assert(payload == ctx_inputs@);
                    }
                }
                Ok(())
            },
        }
    }

    /// Record a step's completion: mark it Completed, merge the outputs
    /// into its state, check the output schema, and start the steps its
    /// edge selection chose, depth-first.
    pub fn complete_step<S: ScriptEngine>(
        &mut self,
        step_id: &String,
        outputs: ValueMap,
        script: &mut S,
        schemas: &StrTable<Schema>,
        idgen: &mut IdGen,
        effects: &mut Vec<EngineEffect>,
        fuel: u64,
    ) -> (r: Result<(), EngineError>)
        requires
            old(self).wf(),
            old(self).jobs_below(old(idgen).next_id),
            schemas.wf(),
        ensures
            final(self).wf(),
            final(self).jobs_below(final(idgen).next_id),
            advances(*old(self), *final(self), *old(idgen), *final(idgen)),
            old(effects)@.is_prefix_of(final(effects)@),
            !(r matches Err(e) && e is UnknownJob),
            r is Ok ==> final(self).steps@.contains_key(step_id@)
                && outputs@.dom().subset_of(final(self).steps@[step_id@].outputs@.dom())
                && !(final(self).steps@[step_id@].status is Started),
            r is Ok && !(old(self).definition.steps_map()[step_id@].spec_type()
                    is ConditionStep)
                ==> forall|x: int| 0 <= x < crate::steps::default_targets(
                        old(self).definition.next_of(step_id@)).len()
                    ==> final(self).steps@.contains_key(
                        #[trigger] crate::steps::default_targets(
                            old(self).definition.next_of(step_id@))[x]),
            forall|k: Seq<char>| #[trigger] old(self).steps@.contains_key(k)
                && k != step_id@
                && old(self).definition.steps_map().contains_key(k)
                && (old(self).definition.steps_map()[k].spec_type() is ActivityStep
                    || old(self).definition.steps_map()[k].spec_type() is CallStep)
                ==> final(self).steps@[k].outputs@ == old(self).steps@[k].outputs@,
            r is Ok && old(self).steps@.contains_key(step_id@)
                && old(self).definition.steps_map().contains_key(step_id@)
                && (old(self).definition.steps_map()[step_id@].spec_type() is ActivityStep
                    || old(self).definition.steps_map()[step_id@].spec_type() is CallStep)
                ==> final(self).steps@[step_id@].outputs@
                    == old(self).steps@[step_id@].outputs@.union_prefer_right(outputs@),
            fuel > 0 && old(self).steps@.contains_key(step_id@)
                && old(self).definition.steps_map().contains_key(step_id@)
                ==> (old(self).definition.steps_map()[step_id@].spec_output_schema()
                        matches Some(oname)
                    ==> (!(schemas@.contains_key(oname)
                            && crate::schema::payload_conforms(
                                old(self).steps@[step_id@].outputs@
                                    .union_prefer_right(outputs@),
                                schemas@[oname]))
                        ==> (r matches Err(e) && e is SchemaViolation)
                            && final(self).steps@ == old(self).steps@
                                .insert(step_id@, final(self).steps@[step_id@])
                            && final(self).jobs@ == old(self).jobs@
                            && final(effects)@ == old(effects)@
                            && *final(idgen) == *old(idgen))),
        decreases fuel, 2int, 0int,
    {
        if fuel == 0 {
            return Err(EngineError::LimitExceeded);
        }
        let out_schema = match self.definition.get_step(step_id) {
            Some(step) => step.output_schema(),
            None => {
                return Err(EngineError::StepNotFound);
            },
        };
        let mut state = match self.steps.take_out(step_id) {
            Some(state) => state,
            None => {
                return Err(EngineError::StepNotFound);
            },
        };
        state.status = StepExecutionStatus::Completed;
        state.outputs.extend_with(&outputs);
        let schema_ok = match out_schema {
            Some(schema_name) => {
                match schemas.get(&schema_name) {
                    Some(schema) => check_payload(&state.outputs, schema),
                    None => false,
                }
            },
            None => true,
        };
        self.steps.put(step_id.clone(), state);
        proof {
            assert(advances(*old(self), *self, *old(idgen), *idgen)) by {
                assert forall|k: Seq<char>| #[trigger] old(self).steps@.contains_key(k)
                    implies self.steps@.contains_key(k) by {
                }
            }
            assert(self.wf());
        }
        if !schema_ok {
            return Err(EngineError::SchemaViolation);
        }
        let ghost pre = *self;
        let ghost g_pre = *idgen;
        let ghost e_pre = effects@;
        let r = self.execute_next_steps(step_id, script, schemas, idgen, effects,
            (fuel - 1) as u64);
        proof {
            lemma_advances_trans(*old(self), pre, *self, *old(idgen), g_pre, *idgen);
            lemma_prefix_trans(old(effects)@, e_pre, effects@);
        }
        r
    }

    /// Ask the completed step which outgoing edges to follow, then start
    /// each selected target in order.
    #[verifier::loop_isolation(false)]
    pub fn execute_next_steps<S: ScriptEngine>(
        &mut self,
        step_id: &String,
        script: &mut S,
        schemas: &StrTable<Schema>,
        idgen: &mut IdGen,
        effects: &mut Vec<EngineEffect>,
        fuel: u64,
    ) -> (r: Result<(), EngineError>)
        requires
            old(self).wf(),
            old(self).jobs_below(old(idgen).next_id),
            schemas.wf(),
        ensures
            final(self).wf(),
            final(self).jobs_below(final(idgen).next_id),
            advances(*old(self), *final(self), *old(idgen), *final(idgen)),
            old(effects)@.is_prefix_of(final(effects)@),
            !(r matches Err(e) && e is UnknownJob),
            r is Ok ==> final(self).steps@.contains_key(step_id@)
                || !old(self).steps@.contains_key(step_id@),
            r is Ok && old(self).definition.steps_map().contains_key(step_id@)
                && !(old(self).definition.steps_map()[step_id@].spec_type() is ConditionStep)
                ==> forall|x: int| 0 <= x < crate::steps::default_targets(
                        old(self).definition.next_of(step_id@)).len()
                    ==> final(self).steps@.contains_key(
                        #[trigger] crate::steps::default_targets(
                            old(self).definition.next_of(step_id@))[x]),
            async_outputs_frozen(*old(self), *final(self)),
        decreases fuel, 1int, 0int,
    {
        if fuel == 0 {
            return Err(EngineError::LimitExceeded);
        }
        let next_steps = self.definition.get_next(step_id);
        let ctx_inputs = match self.steps.get(step_id) {
            Some(state) => state.inputs.clone(),
            None => {
                return Err(EngineError::StepNotFound);
            },
        };
        let selected = match self.definition.get_step(step_id) {
            Some(step) => step.get_next_steps(&ctx_inputs, &next_steps),
            None => {
                return Err(EngineError::StepNotFound);
            },
        };
        let n = selected.len();
        let mut i: usize = 0;
        while i < n
            invariant
                i <= n,
                n == selected@.len(),
                self.wf(),
                self.jobs_below(idgen.next_id),
                advances(*old(self), *self, *old(idgen), *idgen),
                async_outputs_frozen(*old(self), *self),
                old(effects)@.is_prefix_of(effects@),
                self.steps@.contains_key(step_id@),
                forall|x: int| 0 <= x < i
                    ==> self.steps@.contains_key(
                        (#[trigger] crate::steps::targets_view(selected@)[x])),
            decreases n - i,
        {
            let ghost pre = *self;
            let ghost g_pre = *idgen;
            let ghost e_pre = effects@;
            let step_r = self.start_step(&selected[i], script, schemas, idgen, effects,
                (fuel - 1) as u64);
            proof {
                lemma_advances_trans(*old(self), pre, *self, *old(idgen), g_pre, *idgen);
                lemma_prefix_trans(old(effects)@, e_pre, effects@);
                assert(async_outputs_frozen(*old(self), *self)) by {
                    assert forall|k: Seq<char>| #[trigger] old(self).steps@.contains_key(k)
                        && old(self).definition.steps_map().contains_key(k)
                        && (old(self).definition.steps_map()[k].spec_type() is ActivityStep
                            || old(self).definition.steps_map()[k].spec_type() is CallStep)
                        implies self.steps@[k].outputs@ == old(self).steps@[k].outputs@ by {
                        assert(pre.steps@.contains_key(k));
                        assert(pre.steps@[k].outputs@ == old(self).steps@[k].outputs@);
                    };
                }
            }
            match step_r {
                Ok(_) => {},
                Err(e) => {
                    return Err(e);
                },
            }
            proof {
                assert(crate::steps::targets_view(selected@)[i as int] == selected@[i as int]@);
                assert forall|x: int| 0 <= x < i + 1
                    implies self.steps@.contains_key(
                        (#[trigger] crate::steps::targets_view(selected@)[x])) by {
                    if x < i {
                        assert(pre.steps@.contains_key(
                            crate::steps::targets_view(selected@)[x]));
                    }
                };
            }
            i = i + 1;
        }
        Ok(())
    }

    /// Deliver the completion of a job: look up and drop the tracked job,
    /// then complete the owning step with the delivered outputs.
    ///
    /// A completion for an id the instance does not track fails with
    /// `UnknownJob` and changes nothing; this also makes a second delivery
    /// of the same completion harmless.
    pub fn on_job_completed<S: ScriptEngine>(
        &mut self,
        job_id: u64,
        outputs: ValueMap,
        script: &mut S,
        schemas: &StrTable<Schema>,
        idgen: &mut IdGen,
        effects: &mut Vec<EngineEffect>,
    ) -> (r: Result<(), EngineError>)
        requires
            old(self).wf(),
            old(self).jobs_below(old(idgen).next_id),
            schemas.wf(),
        ensures
            final(self).wf(),
            final(self).jobs_below(final(idgen).next_id),
            advances(*old(self), *final(self), *old(idgen), *final(idgen)),
            old(effects)@.is_prefix_of(final(effects)@),
            (r matches Err(e) && e is UnknownJob) <==> !old(self).jobs@.contains_key(job_id),
            !old(self).jobs@.contains_key(job_id)
                ==> *final(self) == *old(self) && *final(idgen) == *old(idgen)
                    && final(effects)@ == old(effects)@,
            !final(self).jobs@.contains_key(job_id),
            r is Ok ==> final(self).steps@.contains_key(old(self).jobs@[job_id]@)
                && outputs@.dom().subset_of(
                    final(self).steps@[old(self).jobs@[job_id]@].outputs@.dom())
                && !(final(self).steps@[old(self).jobs@[job_id]@].status is Started),
            r is Ok ==> final(self).steps@[old(self).jobs@[job_id]@].outputs@
                == old(self).steps@[old(self).jobs@[job_id]@].outputs@
                    .union_prefer_right(outputs@),
    {
        let step_id = match self.jobs.take_out(job_id) {
            Some(step_id) => step_id,
            None => {
                return Err(EngineError::UnknownJob);
            },
        };
        proof {
            assert(job_id < old(idgen).next_id);
            assert(advances(*old(self), *self, *old(idgen), *idgen));
        }
        let ghost pre = *self;
        let ghost g_pre = *idgen;
        let ghost e_pre = effects@;
        let r = self.complete_step(&step_id, outputs, script, schemas, idgen, effects, STEP_FUEL);
        proof {
            lemma_advances_trans(*old(self), pre, *self, *old(idgen), g_pre, *idgen);
            lemma_prefix_trans(old(effects)@, e_pre, effects@);
            assert(!self.jobs@.contains_key(job_id)) by {
                if self.jobs@.contains_key(job_id) {
                    assert(pre.jobs@.contains_key(job_id) || job_id >= g_pre.next_id);
                }
            }
        }
        r
    }

    /// Start the instance: record the start step's state pre-filled with
    /// the instance inputs, then start the start step.
    pub fn start<S: ScriptEngine>(
        &mut self,
        script: &mut S,
        schemas: &StrTable<Schema>,
        idgen: &mut IdGen,
        effects: &mut Vec<EngineEffect>,
    ) -> (r: Result<(), EngineError>)
        requires
            old(self).wf(),
            old(self).jobs_below(old(idgen).next_id),
            schemas.wf(),
        ensures
            final(self).wf(),
            final(self).jobs_below(final(idgen).next_id),
            advances(*old(self), *final(self), *old(idgen), *final(idgen)),
            old(effects)@.is_prefix_of(final(effects)@),
            !(r matches Err(e) && e is UnknownJob),
            r is Ok ==> final(self).steps@.contains_key(old(self).definition.start_id())
                && old(self).process_inputs@.dom().subset_of(
                    final(self).steps@[old(self).definition.start_id()].inputs@.dom()),
    {
        let start_id = self.definition.get_start_step_id();
        let mut state = match self.steps.take_out(&start_id) {
            Some(state) => state,
            None => StepState::new(start_id.clone()),
        };
        state.inputs.extend_with(&self.process_inputs);
        self.steps.put(start_id.clone(), state);
        proof {
            assert(advances(*old(self), *self, *old(idgen), *idgen)) by {
                assert forall|k: Seq<char>| #[trigger] old(self).steps@.contains_key(k)
                    implies self.steps@.contains_key(k) by {
                }
            }
            assert(self.wf());
            assert(self.process_inputs@.dom().subset_of(
                self.steps@[start_id@].inputs@.dom()));
        }
        let ghost pre = *self;
        let ghost g_pre = *idgen;
        let ghost e_pre = effects@;
        let r = self.start_step(&start_id, script, schemas, idgen, effects, STEP_FUEL);
        proof {
            lemma_advances_trans(*old(self), pre, *self, *old(idgen), g_pre, *idgen);
            lemma_prefix_trans(old(effects)@, e_pre, effects@);
            if r is Ok {
                assert(pre.steps@.contains_key(start_id@));
                assert(pre.steps@[start_id@].inputs@.dom().subset_of(
                    self.steps@[start_id@].inputs@.dom()));
            }
        }
        r
    }
}

} // verus!
