//! The definition validator: a depth-first proof, run before admission,
//! that a definition cannot derail its executor. It rejects cycles,
//! rejects paths that end anywhere but an End step, and checks every
//! declared input binding against the schemas of its two ends.
//!
//! Acceptance is a theorem: `ProcessValidator::validate` ensures that in
//! an accepted definition every step reachable from the start step has a
//! checked path to some End step, lies on no cycle, and passed the
//! required-fields and binding-schema checks.

use vstd::prelude::*;
use std::sync::Arc;
use crate::definition::ProcessDefinition;
use crate::schema::Schema;
use crate::steps::StepDef;
use crate::step::{StepInputRequest, StepInputRequestView};
use crate::tables::StrTable;

verus! {

/// There is an edge from `a` to `b`.
pub open spec fn has_edge(d: ProcessDefinition, a: Seq<char>, b: Seq<char>) -> bool {
    exists|i: int| 0 <= i < d.next_of(a).len() && (#[trigger] d.next_of(a)[i]).to == b
}

/// `p` is a non-empty chain of steps connected by edges.
pub open spec fn walk(d: ProcessDefinition, p: Seq<Seq<char>>) -> bool {
    p.len() > 0 && forall|i: int| 0 <= i < p.len() - 1 ==> has_edge(d, #[trigger] p[i], p[i + 1])
}

/// The step named `n` exists and is an End step.
pub open spec fn is_end_step(d: ProcessDefinition, n: Seq<char>) -> bool {
    d.steps_map().contains_key(n) && d.steps_map()[n].spec_type() is EndStep
}

/// `b` can be reached from `a` along edges.
pub open spec fn reachable(d: ProcessDefinition, a: Seq<char>, b: Seq<char>) -> bool {
    exists|p: Seq<Seq<char>>| walk(d, p) && p.first() == a && p.last() == b
}

/// From `n` some End step can be reached along edges.
pub open spec fn reaches_end(d: ProcessDefinition, n: Seq<char>) -> bool {
    exists|p: Seq<Seq<char>>| walk(d, p) && p.first() == n && is_end_step(d, p.last())
}

/// An End step reaches an End step: itself.
proof fn lemma_end_reaches(d: ProcessDefinition, n: Seq<char>)
    requires
        is_end_step(d, n),
    ensures
        reaches_end(d, n),
{
    let p = seq![n];
    assert(walk(d, p));
    assert(p.first() == n && is_end_step(d, p.last()));
}

/// One edge towards a step that reaches an End extends the path backwards.
proof fn lemma_edge_reaches(d: ProcessDefinition, a: Seq<char>, b: Seq<char>)
    requires
        has_edge(d, a, b),
        reaches_end(d, b),
    ensures
        reaches_end(d, a),
{
    let p = choose|p: Seq<Seq<char>>| walk(d, p) && p.first() == b && is_end_step(d, p.last());
    let q = seq![a] + p;
    assert(q.first() == a);
    assert(q.last() == p.last());
    assert(walk(d, q)) by {
        assert forall|i: int| #![trigger q[i]] 0 <= i < q.len() - 1
            implies has_edge(d, q[i], q[i + 1]) by {
            if i == 0 {
                assert(q[0] == a && q[1] == p[0]);
            } else {
                assert(q[i] == p[i - 1] && q[i + 1] == p[i]);
                assert(has_edge(d, p[i - 1], p[i]));
            }
        };
    }
}

/// There is a non-trivial walk from `n` back to `n`.
pub open spec fn has_cycle_at(d: ProcessDefinition, n: Seq<char>) -> bool {
    exists|p: Seq<Seq<char>>| walk(d, p) && p.len() >= 2 && p.first() == n && p.last() == n
}

/// The two marks of the traversal: `visiting` (on the call stack) and
/// `visited` (seen). A step that is visited and no longer visiting has
/// been fully checked; checked steps additionally carry a ghost rank, the
/// order in which the traversal finished them, which decreases along
/// every edge out of a checked step.
pub struct ProcessValidator {
    process_definition: Arc<ProcessDefinition>,
    stack: StrTable<bool>,
    visited: StrTable<bool>,
    order: Ghost<Map<Seq<char>, nat>>,
    stamp: Ghost<nat>,
}

impl ProcessValidator {
    /// The definition under validation.
    pub closed spec fn d(self) -> ProcessDefinition {
        *self.process_definition
    }

    /// `k` is marked visited.
    pub closed spec fn vis(self, k: Seq<char>) -> bool {
        self.visited@.contains_key(k) && self.visited@[k]
    }

    /// `k` is marked visiting: it is on the current traversal path.
    pub closed spec fn stk(self, k: Seq<char>) -> bool {
        self.stack@.contains_key(k) && self.stack@[k]
    }

    /// Every successor of the fully checked step `k` is visited.
    pub open spec fn succ_ok(self, k: Seq<char>) -> bool {
        forall|i: int| 0 <= i < self.d().next_of(k).len()
            ==> self.vis((#[trigger] self.d().next_of(k)[i]).to)
    }

    /// The rank each fully checked step was finished with.
    pub closed spec fn rank(self) -> Map<Seq<char>, nat> {
        self.order@
    }

    /// The next rank the traversal will hand out.
    pub closed spec fn clock(self) -> nat {
        self.stamp@
    }

    /// The rank decreases along every edge out of the checked step `k`.
    pub open spec fn succ_rank_ok(self, k: Seq<char>) -> bool {
        forall|i: int| 0 <= i < self.d().next_of(k).len()
            ==> self.rank().contains_key((#[trigger] self.d().next_of(k)[i]).to)
                && self.rank()[self.d().next_of(k)[i].to] < self.rank()[k]
    }

    /// Every fully checked step passed the required-fields and binding
    /// checks against the schema store.
    pub open spec fn all_checked(self, schemas: Map<Seq<char>, Schema>) -> bool {
        forall|k: Seq<char>| #[trigger] self.vis(k) && !self.stk(k)
            ==> step_checks_ok(self.d(), schemas, k)
    }

    /// The traversal invariant: a fully checked step reaches an End step,
    /// all its successors have been seen, and its rank sits above all of
    /// their ranks; exactly the fully checked steps carry a rank.
    pub closed spec fn inv(self) -> bool {
        &&& self.stack.wf()
        &&& self.visited.wf()
        &&& self.d().wf()
        &&& forall|k: Seq<char>| #[trigger] self.vis(k) && !self.stk(k)
                ==> reaches_end(self.d(), k) && self.succ_ok(k)
                    && self.rank().contains_key(k) && self.rank()[k] < self.clock()
                    && self.succ_rank_ok(k)
        &&& forall|k: Seq<char>| #[trigger] self.rank().contains_key(k)
                ==> self.vis(k) && !self.stk(k)
    }

    fn new(process_definition: Arc<ProcessDefinition>) -> (r: Self)
        requires
            (*process_definition).wf(),
        ensures
            r.inv(),
            r.d() == *process_definition,
            forall|k: Seq<char>| !r.vis(k) && !r.stk(k),
    {
        ProcessValidator {
            process_definition,
            stack: StrTable::new(),
            visited: StrTable::new(),
            order: Ghost(Map::empty()),
            stamp: Ghost(0),
        }
    }

    /// Validate a definition against the registered schemas.
    ///
    /// When this returns true, every step reachable from the start step
    /// has a path along edges to some End step of the definition; no walk
    /// from a reachable step ever returns to it (the traversal re-enters
    /// no step while it is still visiting it); and every reachable step
    /// passed the required-fields and binding-schema checks. A false
    /// result only reports rejection: which definitions pass depends on
    /// the traversal's visiting stack too (a binding from a control-flow
    /// source passes only while that source is being visited), so the
    /// boolean is not pinned to a predicate of the graph alone.
    pub fn validate(process_definition: &Arc<ProcessDefinition>, schemas: &StrTable<Schema>)
        -> (r: bool)
        requires
            (*process_definition).wf(),
            schemas.wf(),
        ensures
            r ==> forall|n: Seq<char>|
                reachable(**process_definition, (**process_definition).start_id(), n)
                    ==> reaches_end(**process_definition, n),
            r ==> forall|n: Seq<char>|
                reachable(**process_definition, (**process_definition).start_id(), n)
                    ==> !has_cycle_at(**process_definition, n),
            r ==> forall|n: Seq<char>|
                #[trigger] reachable(**process_definition, (**process_definition).start_id(), n)
                    ==> step_checks_ok(**process_definition, schemas@, n),
    {
        let definition = crate::definition::share_definition(process_definition);
        let mut validator = ProcessValidator::new(definition);
        proof {
            assert(validator.all_checked(schemas@)) by {
                assert forall|k: Seq<char>| #[trigger] validator.vis(k) && !validator.stk(k)
                    implies step_checks_ok(validator.d(), schemas@, k) by {
                    assert(!validator.vis(k));
                };
            }
        }
        let r = validator.validate_internal(schemas);
        proof {
            if r {
                let d = **process_definition;
                assert(validator.d() == d);
                assert forall|n: Seq<char>| #![trigger reachable(d, d.start_id(), n)]
                    reachable(d, d.start_id(), n)
                    implies reaches_end(d, n) && !has_cycle_at(d, n)
                        && step_checks_ok(d, schemas@, n) by {
                    let p = choose|p: Seq<Seq<char>>| walk(d, p)
                        && p.first() == d.start_id() && p.last() == n;
                    lemma_walk_stays_visited(validator, p);
                    assert(validator.vis(n) && !validator.stk(n));
                    if has_cycle_at(d, n) {
                        let c = choose|c: Seq<Seq<char>>| walk(d, c) && c.len() >= 2
                            && c.first() == n && c.last() == n;
                        lemma_walk_rank_decreases(validator, c);
                    }
                }
                assert(forall|n: Seq<char>| reachable(d, d.start_id(), n)
                    ==> reaches_end(d, n));
                assert(forall|n: Seq<char>| reachable(d, d.start_id(), n)
                    ==> !has_cycle_at(d, n));
                assert(forall|n: Seq<char>| #[trigger] reachable(d, d.start_id(), n)
                    ==> step_checks_ok(d, schemas@, n));
            }
        }
        r
    }

    fn validate_internal(&mut self, schemas: &StrTable<Schema>) -> (r: bool)
        requires
            old(self).inv(),
            old(self).all_checked(schemas@),
            schemas.wf(),
            forall|k: Seq<char>| !old(self).stk(k),
        ensures
            final(self).inv(),
            final(self).d() == old(self).d(),
            r ==> final(self).vis(final(self).d().start_id()),
            r ==> forall|k: Seq<char>| !final(self).stk(k),
            r ==> final(self).all_checked(schemas@),
    {
        let start_step = self.process_definition.get_start_step_id();
        let count = self.process_definition.step_count();
        let fuel: u64 = if count as u64 == u64::MAX { u64::MAX } else { count as u64 + 1 };
        self.validate_step(&start_step, schemas, fuel)
    }

    /// Check one step and, depth-first, everything after it.
    ///
    /// A step found on the current traversal path again is a cycle; a
    /// step with no outgoing edges must be an End step; every declared
    /// input binding must conform to the schemas of its two ends.
    ///
    /// A finished End step leaves the visiting mark like every other
    /// step. Two consequences are deliberate: several paths may converge
    /// on one shared End step without being mistaken for a cycle, and a
    /// binding whose source is a finished End step is rejected by the
    /// source-still-visiting rule exactly like any other finished
    /// control-flow source.
    #[verifier::loop_isolation(false)]
    fn validate_step(&mut self, step_id: &String, schemas: &StrTable<Schema>, fuel: u64)
        -> (r: bool)
        requires
            old(self).inv(),
            old(self).all_checked(schemas@),
            schemas.wf(),
        ensures
            final(self).inv(),
            final(self).d() == old(self).d(),
            forall|k: Seq<char>| old(self).vis(k) ==> final(self).vis(k),
            r ==> (forall|k: Seq<char>| final(self).stk(k) <==> old(self).stk(k)),
            r ==> final(self).vis(step_id@),
            r ==> !old(self).stk(step_id@),
            r ==> final(self).all_checked(schemas@),
            old(self).stk(step_id@) ==> !r && *final(self) == *old(self),
        decreases fuel,
    {
        if self.is_in_stack(step_id) {
            return false;
        }
        if self.was_already_visited(step_id) {
            return true;
        }
        if fuel == 0 {
            return false;
        }
        self.stack.put(step_id.clone(), true);
        self.visited.put(step_id.clone(), true);
        proof {
            assert forall|k: Seq<char>| #[trigger] self.vis(k) && !self.stk(k)
                implies reaches_end(self.d(), k) && self.succ_ok(k)
                    && self.rank().contains_key(k) && self.rank()[k] < self.clock()
                    && self.succ_rank_ok(k) by {
                assert(k != step_id@);
                assert(old(self).vis(k) && !old(self).stk(k));
            };
            assert forall|k: Seq<char>| #[trigger] self.rank().contains_key(k)
                implies self.vis(k) && !self.stk(k) by {
                assert(old(self).vis(k) && !old(self).stk(k));
                assert(k != step_id@);
            };
            assert(self.inv());
            assert forall|k: Seq<char>| #[trigger] self.vis(k) && !self.stk(k)
                implies step_checks_ok(self.d(), schemas@, k) by {
                assert(k != step_id@);
                assert(old(self).vis(k) && !old(self).stk(k));
            };
            assert(self.all_checked(schemas@));
        }
        let requests = match self.process_definition.get_step(step_id) {
            Some(step) => step.get_input_requests(),
            None => {
                return false;
            },
        };
        if !self.check_missing_required_input_requests(step_id, schemas) {
            return false;
        }
        let ghost checked = *self;
        let nreq = requests.len();
        let mut ri: usize = 0;
        while ri < nreq
            invariant
                ri <= nreq,
                *self == checked,
                forall|x: int| 0 <= x < ri
                    ==> static_binding_ok(self.d(), schemas@, step_id@,
                        #[trigger] crate::step::requests_view(requests@)[x]),
            decreases nreq - ri,
        {
            proof {
                assert(crate::step::requests_view(requests@)[ri as int]
                    == requests@[ri as int]@);
            }
            if !self.check_input_request_conformance(step_id, &requests[ri], schemas) {
                return false;
            }
            proof {
                assert(static_binding_ok(self.d(), schemas@, step_id@,
                    requests@[ri as int]@));
            }
            ri = ri + 1;
        }
        proof {
            assert(step_checks_ok(self.d(), schemas@, step_id@)) by {
                assert(crate::step::requests_view(requests@)
                    == self.d().steps_map()[step_id@].spec_input_requests());
            }
        }
        let next_steps = self.process_definition.get_next(step_id);
        if next_steps.len() == 0 {
            let ok = match self.process_definition.get_step(step_id) {
                Some(step) => step.get_type().is_end(),
                None => false,
            };
            if !ok {
                return false;
            }
            let ghost fin = *self;
            proof {
                self.order@ = self.order@.insert(step_id@, self.stamp@);
                self.stamp@ = self.stamp@ + 1;
            }
            self.stack.put(step_id.clone(), false);
            proof {
                lemma_end_reaches(self.d(), step_id@);
                assert(!fin.rank().contains_key(step_id@));
                assert(self.rank() == fin.rank().insert(step_id@, fin.clock()));
                assert forall|k: Seq<char>| #[trigger] self.vis(k) && !self.stk(k)
                    implies reaches_end(self.d(), k) && self.succ_ok(k)
                        && self.rank().contains_key(k) && self.rank()[k] < self.clock()
                        && self.succ_rank_ok(k) by {
                    if k != step_id@ {
                        assert(fin.vis(k) && !fin.stk(k));
                        assert(self.succ_rank_ok(k)) by {
                            assert forall|x: int| 0 <= x < self.d().next_of(k).len()
                                implies self.rank().contains_key(
                                        (#[trigger] self.d().next_of(k)[x]).to)
                                    && self.rank()[self.d().next_of(k)[x].to]
                                        < self.rank()[k] by {
                                let s = self.d().next_of(k)[x].to;
                                assert(fin.rank().contains_key(s));
                                assert(!fin.stk(s));
                                assert(s != step_id@);
                                assert(fin.rank()[s] < fin.rank()[k]);
                            };
                        }
                    } else {
                        assert(self.d().next_of(step_id@).len() == 0);
                    }
                };
                assert forall|k: Seq<char>| #[trigger] self.rank().contains_key(k)
                    implies self.vis(k) && !self.stk(k) by {
                    if k != step_id@ {
                        assert(fin.rank().contains_key(k));
                        assert(fin.vis(k) && !fin.stk(k));
                    }
                };
                assert(self.inv());
                assert forall|k: Seq<char>| self.stk(k) <==> old(self).stk(k) by {
                    if k != step_id@ {
                        assert(fin.stk(k) == old(self).stk(k));
                    }
                };
                assert forall|k: Seq<char>| old(self).vis(k) implies self.vis(k) by {
                    assert(fin.vis(k));
                };
                assert forall|k: Seq<char>| #[trigger] self.vis(k) && !self.stk(k)
                    implies step_checks_ok(self.d(), schemas@, k) by {
                    if k != step_id@ {
                        assert(fin.vis(k) && !fin.stk(k));
                        assert(checked.vis(k) && !checked.stk(k));
                    }
                };
                assert(self.all_checked(schemas@));
            }
            return true;
        }
        let ghost entered = *self;
        let n = next_steps.len();
        let mut i: usize = 0;
        while i < n
            invariant
                i <= n,
                self.inv(),
                self.all_checked(schemas@),
                schemas.wf(),
                self.d() == old(self).d(),
                n == next_steps@.len(),
                crate::steps::leaves_view(next_steps@) == old(self).d().next_of(step_id@),
                forall|k: Seq<char>| entered.vis(k) ==> self.vis(k),
                forall|k: Seq<char>| self.stk(k) <==> entered.stk(k),
                forall|x: int| 0 <= x < i ==> self.vis(old(self).d().next_of(step_id@)[x].to),
                forall|x: int| 0 <= x < i ==> !self.stk(old(self).d().next_of(step_id@)[x].to),
            decreases n - i,
        {
            let target = next_steps[i].to.clone();
            proof {
                assert(crate::steps::leaves_view(next_steps@)[i as int] == next_steps@[i as int]@);
            }
            let ghost before = *self;
            let sub = self.validate_step(&target, schemas, fuel - 1);
            if !sub {
                proof {
                    assert forall|k: Seq<char>| old(self).vis(k) implies self.vis(k) by {
                        assert(entered.vis(k));
                        assert(before.vis(k));
                    };
                }
                return false;
            }
            proof {
                assert forall|x: int| 0 <= x <= i
                    implies self.vis(old(self).d().next_of(step_id@)[x].to)
                        && !self.stk(old(self).d().next_of(step_id@)[x].to) by {
                    if x < i {
                        assert(before.vis(old(self).d().next_of(step_id@)[x].to));
                        assert(!before.stk(old(self).d().next_of(step_id@)[x].to));
                    } else {
                        assert(!before.stk(target@));
                    }
                };
            }
            i = i + 1;
        }
        let ghost fin = *self;
        proof {
            self.order@ = self.order@.insert(step_id@, self.stamp@);
            self.stamp@ = self.stamp@ + 1;
        }
        self.stack.put(step_id.clone(), false);
        proof {
            assert(entered.stk(step_id@));
            assert(fin.stk(step_id@));
            assert(!fin.rank().contains_key(step_id@)) by {
                if fin.rank().contains_key(step_id@) {
                    assert(fin.vis(step_id@) && !fin.stk(step_id@));
                }
            }
            assert(self.rank() == fin.rank().insert(step_id@, fin.clock()));
            assert(self.succ_ok(step_id@)) by {
                assert forall|x: int| 0 <= x < self.d().next_of(step_id@).len()
                    implies self.vis(self.d().next_of(step_id@)[x].to) by {
                    assert(fin.vis(old(self).d().next_of(step_id@)[x].to));
                };
            }
            assert(self.succ_rank_ok(step_id@)) by {
                assert forall|x: int| 0 <= x < self.d().next_of(step_id@).len()
                    implies self.rank().contains_key(
                            (#[trigger] self.d().next_of(step_id@)[x]).to)
                        && self.rank()[self.d().next_of(step_id@)[x].to]
                            < self.rank()[step_id@] by {
                    let s = self.d().next_of(step_id@)[x].to;
                    assert(fin.vis(s) && !fin.stk(s));
                    assert(fin.rank().contains_key(s));
                    assert(fin.rank()[s] < fin.clock());
                    assert(s != step_id@);
                };
            }
            assert(reaches_end(self.d(), step_id@)) by {
                let succ = self.d().next_of(step_id@)[0].to;
                assert(fin.vis(succ) && !fin.stk(succ));
                assert(reaches_end(self.d(), succ));
                assert(has_edge(self.d(), step_id@, succ)) by {
                    assert(self.d().next_of(step_id@)[0].to == succ);
                }
                lemma_edge_reaches(self.d(), step_id@, succ);
            }
            assert forall|k: Seq<char>| #[trigger] self.vis(k) && !self.stk(k)
                implies reaches_end(self.d(), k) && self.succ_ok(k)
                    && self.rank().contains_key(k) && self.rank()[k] < self.clock()
                    && self.succ_rank_ok(k) by {
                if k != step_id@ {
                    assert(fin.vis(k) && !fin.stk(k));
                    assert(self.succ_rank_ok(k)) by {
                        assert forall|x: int| 0 <= x < self.d().next_of(k).len()
                            implies self.rank().contains_key(
                                    (#[trigger] self.d().next_of(k)[x]).to)
                                && self.rank()[self.d().next_of(k)[x].to]
                                    < self.rank()[k] by {
                            let s = self.d().next_of(k)[x].to;
                            assert(fin.rank().contains_key(s));
                            assert(!fin.stk(s));
                            assert(s != step_id@);
                            assert(fin.rank()[s] < fin.rank()[k]);
                        };
                    }
                }
            };
            assert forall|k: Seq<char>| #[trigger] self.rank().contains_key(k)
                implies self.vis(k) && !self.stk(k) by {
                if k != step_id@ {
                    assert(fin.rank().contains_key(k));
                    assert(fin.vis(k) && !fin.stk(k));
                } else {
                    assert(entered.vis(step_id@));
                    assert(fin.vis(step_id@));
                }
            };
            assert(self.inv());
            assert forall|k: Seq<char>| self.stk(k) <==> old(self).stk(k) by {
                if k != step_id@ {
                    assert(fin.stk(k) == entered.stk(k));
                }
            };
            assert forall|k: Seq<char>| old(self).vis(k) implies self.vis(k) by {
                assert(entered.vis(k));
                assert(fin.vis(k));
            };
            assert(self.vis(step_id@)) by {
                assert(entered.vis(step_id@));
                assert(fin.vis(step_id@));
            }
            assert forall|k: Seq<char>| #[trigger] self.vis(k) && !self.stk(k)
                implies step_checks_ok(self.d(), schemas@, k) by {
                if k != step_id@ {
                    assert(fin.vis(k) && !fin.stk(k));
                }
            };
            assert(self.all_checked(schemas@));
        }
        true
    }

    fn is_in_stack(&self, step_id: &String) -> (r: bool)
        ensures
            r == self.stk(step_id@),
    {
        match self.stack.get(step_id) {
            Some(flag) => *flag,
            None => false,
        }
    }

    fn was_already_visited(&self, step_id: &String) -> (r: bool)
        ensures
            r == self.vis(step_id@),
    {
        match self.visited.get(step_id) {
            Some(flag) => *flag,
            None => false,
        }
    }

    fn check_missing_required_input_requests(&self, step_id: &String, schemas: &StrTable<Schema>)
        -> (r: bool)
        requires
            self.d().wf(),
        ensures
            r == required_verdict(self.d(), schemas@, step_id@),
    {
        let step = match self.process_definition.get_step(step_id) {
            Some(step) => step,
            None => {
                return false;
            },
        };
        let requests = step.get_input_requests();
        let schema_name = match step.input_schema() {
            Some(name) => name,
            None => {
                return true;
            },
        };
        let schema = match schemas.get(&schema_name) {
            Some(schema) => schema,
            None => {
                return false;
            },
        };
        required_requests_present(&requests, schema)
    }

    /// Check one declared binding: its source step must exist, a source
    /// taking part in control flow must lie on the current traversal
    /// path, and, where both ends declare schemas, the named fields must
    /// exist with equal types, a required input mapping from a required
    /// output.
    fn check_input_request_conformance(
        &self,
        step_id: &String,
        request: &StepInputRequest,
        schemas: &StrTable<Schema>,
    ) -> (r: bool)
        requires
            self.d().wf(),
        ensures
            r == self.binding_verdict(schemas@, step_id@, request@),
    {
        let source = match self.process_definition.get_step(&request.from) {
            Some(step) => step,
            None => {
                return false;
            },
        };
        if source.get_type().is_flow_step() && !self.is_in_stack(&request.from) {
            return false;
        }
        let output_schema_name = match source.output_schema() {
            Some(name) => name,
            None => {
                return true;
            },
        };
        let output_schema = match schemas.get(&output_schema_name) {
            Some(schema) => schema,
            None => {
                return false;
            },
        };
        let step = match self.process_definition.get_step(step_id) {
            Some(step) => step,
            None => {
                return false;
            },
        };
        let input_schema_name = match step.input_schema() {
            Some(name) => name,
            None => {
                return true;
            },
        };
        let input_schema = match schemas.get(&input_schema_name) {
            Some(schema) => schema,
            None => {
                return false;
            },
        };
        let output_field = match output_schema.get_field(&request.output) {
            Some(field) => field,
            None => {
                return false;
            },
        };
        let input_field = match input_schema.get_field(&request.name) {
            Some(field) => field,
            None => {
                return false;
            },
        };
        if output_field.rtype != input_field.rtype {
            return false;
        }
        if input_field.required && !output_field.required {
            return false;
        }
        true
    }

    /// The verdict of the binding check, as a predicate.
    pub closed spec fn binding_verdict(
        self,
        schemas: Map<Seq<char>, Schema>,
        step_id: Seq<char>,
        rq: StepInputRequestView,
    ) -> bool {
        let d = self.d();
        if !d.steps_map().contains_key(rq.from) {
            false
        } else {
            let source = d.steps_map()[rq.from];
            if !(source.spec_type() is DataStep || source.spec_type() is ScriptStep)
                && !self.stk(rq.from) {
                false
            } else {
                match source.spec_output_schema() {
                    None => true,
                    Some(oname) => {
                        if !schemas.contains_key(oname) {
                            false
                        } else if !d.steps_map().contains_key(step_id) {
                            false
                        } else {
                            match d.steps_map()[step_id].spec_input_schema() {
                                None => true,
                                Some(iname) => {
                                    if !schemas.contains_key(iname) {
                                        false
                                    } else {
                                        binding_conforms(schemas[oname], schemas[iname], rq)
                                    }
                                },
                            }
                        }
                    },
                }
            }
        }
    }
}

/// Where both ends declare schemas: the named output field exists, the
/// named input field exists, their declared types are equal, and a
/// required input maps from a required output.
pub open spec fn binding_conforms(osch: Schema, isch: Schema, rq: StepInputRequestView) -> bool {
    &&& osch.spec_props().contains_key(rq.output)
    &&& isch.spec_props().contains_key(rq.name)
    &&& osch.spec_props()[rq.output] == isch.spec_props()[rq.name]
    &&& (isch.is_required(rq.name) ==> osch.is_required(rq.output))
}

/// Some declared request supplies the field named `n`.
pub open spec fn name_listed(rs: Seq<StepInputRequestView>, n: Seq<char>) -> bool {
    exists|j: int| 0 <= j < rs.len() && (#[trigger] rs[j]).name == n
}

/// Every field the schema marks required is supplied by some request.
pub open spec fn required_covered(step: StepDef, sch: Schema) -> bool {
    forall|i: int| 0 <= i < sch.spec_required().len()
        ==> name_listed(step.spec_input_requests(), #[trigger] sch.spec_required()[i])
}

/// The verdict of the required-fields check, as a predicate.
pub open spec fn required_verdict(
    d: ProcessDefinition,
    schemas: Map<Seq<char>, Schema>,
    step_id: Seq<char>,
) -> bool {
    if !d.steps_map().contains_key(step_id) {
        false
    } else {
        let step = d.steps_map()[step_id];
        match step.spec_input_schema() {
            None => true,
            Some(name) => {
                if !schemas.contains_key(name) {
                    false
                } else {
                    required_covered(step, schemas[name])
                }
            },
        }
    }
}

/// The schema half of the binding check, independent of the traversal:
/// the source step exists and, where both ends declare registered
/// schemas, the named fields exist with equal types, a required input
/// mapping from a required output.
pub open spec fn static_binding_ok(
    d: ProcessDefinition,
    schemas: Map<Seq<char>, Schema>,
    step_id: Seq<char>,
    rq: StepInputRequestView,
) -> bool {
    &&& d.steps_map().contains_key(rq.from)
    &&& match d.steps_map()[rq.from].spec_output_schema() {
        None => true,
        Some(oname) => {
            &&& schemas.contains_key(oname)
            &&& d.steps_map().contains_key(step_id)
            &&& match d.steps_map()[step_id].spec_input_schema() {
                None => true,
                Some(iname) => schemas.contains_key(iname)
                    && binding_conforms(schemas[oname], schemas[iname], rq),
            }
        },
    }
}

/// Every check the validator runs on one step, stated of the graph and
/// the schema store alone: the required input fields are all bound, and
/// every declared binding passes the schema checks.
pub open spec fn step_checks_ok(
    d: ProcessDefinition,
    schemas: Map<Seq<char>, Schema>,
    k: Seq<char>,
) -> bool {
    &&& required_verdict(d, schemas, k)
    &&& forall|i: int| 0 <= i < d.steps_map()[k].spec_input_requests().len()
            ==> static_binding_ok(d, schemas, k,
                #[trigger] d.steps_map()[k].spec_input_requests()[i])
}

/// Whether some request in the vector carries the given field name.
#[verifier::loop_isolation(false)]
fn name_among(requests: &Vec<StepInputRequest>, name: &String) -> (r: bool)
    ensures
        r == name_listed(crate::step::requests_view(requests@), name@),
{
    let n = requests.len();
    let mut i: usize = 0;
    while i < n
        invariant
            i <= n,
            forall|j: int| 0 <= j < i
                ==> (#[trigger] crate::step::requests_view(requests@)[j]).name != name@,
        decreases n - i,
    {
        proof {
            assert(crate::step::requests_view(requests@)[i as int] == requests@[i as int]@);
        }
        if requests[i].name == *name {
            proof {
                assert(name_listed(crate::step::requests_view(requests@), name@));
            }
            return true;
        }
        i = i + 1;
    }
    proof {
        assert(!name_listed(crate::step::requests_view(requests@), name@));
    }
    false
}

/// Whether every required field of the schema is supplied by a request.
#[verifier::loop_isolation(false)]
fn required_requests_present(requests: &Vec<StepInputRequest>, sch: &Schema) -> (r: bool)
    ensures
        r == (forall|i: int| 0 <= i < sch.spec_required().len()
            ==> name_listed(crate::step::requests_view(requests@),
                #[trigger] sch.spec_required()[i])),
{
    let n = sch.required_count();
    let mut i: usize = 0;
    while i < n
        invariant
            i <= n,
            forall|x: int| 0 <= x < i
                ==> name_listed(crate::step::requests_view(requests@),
                    #[trigger] sch.spec_required()[x]),
        decreases n - i,
    {
        let field = sch.required_at(i);
        if !name_among(requests, field) {
            return false;
        }
        i = i + 1;
    }
    true
}

/// Along any walk of at least one edge that starts at a checked step of
/// a validator whose traversal has unwound, the rank strictly decreases;
/// so no such walk can return to its first step.
proof fn lemma_walk_rank_decreases(v: ProcessValidator, p: Seq<Seq<char>>)
    requires
        v.inv(),
        forall|k: Seq<char>| !v.stk(k),
        walk(v.d(), p),
        v.vis(p.first()),
        p.len() >= 2,
    ensures
        v.rank().contains_key(p.first()),
        v.rank().contains_key(p.last()),
        v.rank()[p.last()] < v.rank()[p.first()],
    decreases p.len(),
{
    assert(has_edge(v.d(), p[0], p[1]));
    assert(v.vis(p[0]) && !v.stk(p[0]));
    let i = choose|i: int| 0 <= i < v.d().next_of(p[0]).len()
        && (#[trigger] v.d().next_of(p[0])[i]).to == p[1];
    assert(v.rank().contains_key(p[1]) && v.rank()[p[1]] < v.rank()[p[0]]);
    assert(v.vis(p[1]));
    if p.len() > 2 {
        let q = p.drop_first();
        assert(walk(v.d(), q)) by {
            assert forall|x: int| #![trigger q[x]] 0 <= x < q.len() - 1
                implies has_edge(v.d(), q[x], q[x + 1]) by {
                assert(q[x] == p[x + 1] && q[x + 1] == p[x + 2]);
                assert(has_edge(v.d(), p[x + 1], p[x + 2]));
            };
        }
        assert(q.first() == p[1]);
        lemma_walk_rank_decreases(v, q);
        assert(q.last() == p.last());
    }
}

/// Along any walk that starts at a visited, fully checked step of a
/// validator whose traversal has unwound, every step stays visited and
/// fully checked.
proof fn lemma_walk_stays_visited(v: ProcessValidator, p: Seq<Seq<char>>)
    requires
        v.inv(),
        walk(v.d(), p),
        forall|k: Seq<char>| !v.stk(k),
        v.vis(p.first()),
    ensures
        v.vis(p.last()),
    decreases p.len(),
{
    if p.len() == 1 {
    } else {
        assert(has_edge(v.d(), p[0], p[1]));
        assert(v.vis(p[0]) && !v.stk(p[0]));
        assert(v.succ_ok(p[0]));
        let i = choose|i: int| 0 <= i < v.d().next_of(p[0]).len()
            && (#[trigger] v.d().next_of(p[0])[i]).to == p[1];
        assert(v.vis(p[1]));
        let q = p.drop_first();
        assert(walk(v.d(), q)) by {
            assert forall|i: int| #![trigger q[i]] 0 <= i < q.len() - 1
                implies has_edge(v.d(), q[i], q[i + 1]) by {
                assert(q[i] == p[i + 1] && q[i + 1] == p[i + 2]);
                assert(has_edge(v.d(), p[i + 1], p[i + 2]));
            };
        }
        assert(q.first() == p[1]);
        lemma_walk_stays_visited(v, q);
        assert(q.last() == p.last());
    }
}

} // verus!
