//! The commit ancestry walker: a lazy, pull-based traversal of every
//! identifier reachable from a starting tip.

use vstd::prelude::*;

use crate::identifier::Identifier;
use crate::model::{
    discover_all, exhausted, frontier, init_state, inv, is_commit_entry, outputs, parents_in,
    running, step, StoreModel, TravState,
};
use crate::objects::{id_views, EntryModel, ObjectKind, ResolveError, TraversalError};
use crate::resolver::ObjectResolver;

verus! {

/// The given failure is the one the store prescribes for pulling `x`.
pub open spec fn failure_reflects(g: StoreModel, x: Seq<u8>, e: TraversalError) -> bool {
    match e {
        TraversalError::NotFound(i) => i@ == x && !g.dom().contains(x),
        TraversalError::Decode(i, c) => {
            &&& i@ == x
            &&& g.dom().contains(x)
            &&& ((g[x] is Corrupt && c == ResolveError::Corrupt) || (g[x] is Io && c
                == ResolveError::Io))
        },
        TraversalError::UnexpectedKind(i) => {
            &&& i@ == x
            &&& g.dom().contains(x)
            &&& (g[x] matches EntryModel::Object(m) && m.kind != ObjectKind::Commit)
        },
    }
}

/// A traversal in progress over one resolver, from one tip.
///
/// Pulls yield `Result<Identifier, TraversalError>` values: every reachable
/// ancestor once, in first-discovered (breadth-preserving) order, until the
/// frontier drains or a resolution error ends the run. The walker owns its
/// pending and visited collections; the resolver only lends itself out for
/// the duration of each decode call.
pub struct Walker<'a, R: ObjectResolver> {
    resolver: &'a R,
    pending: Vec<Identifier>,
    visited: Vec<Identifier>,
    stopped: bool,
    emitted: Ghost<nat>,
}

impl<'a, R: ObjectResolver> Walker<'a, R> {
    /// The store this walker traverses.
    pub closed spec fn store(&self) -> StoreModel {
        self.resolver.store()
    }

    /// The ghost state of the run: discovery order, yield count, failure.
    pub closed spec fn state(&self) -> TravState {
        TravState {
            discovered: id_views(self.visited@),
            emitted: self.emitted@,
            failed: self.stopped,
        }
    }

    /// The identifier the traversal started from.
    pub closed spec fn tip(&self) -> Seq<u8> {
        self.state().discovered[0]
    }

    /// The walker is well-formed: its state satisfies the traversal
    /// invariant and its pending collection is the frontier of its
    /// discovery order.
    pub closed spec fn wf(&self) -> bool {
        &&& inv(self.store(), self.tip(), self.state())
        &&& (!self.stopped ==> {
            &&& self.emitted@ + self.pending@.len() == self.visited@.len()
            &&& id_views(self.pending@) == frontier(self.state())
        })
        &&& forall|i: int| 0 <= i < self.visited@.len() ==> (#[trigger] self.visited@[i]).wf()
        &&& forall|i: int| 0 <= i < self.pending@.len() ==> (#[trigger] self.pending@[i]).wf()
    }

    /// A well-formed walker's ghost state satisfies the traversal
    /// invariant for its store and tip: the laws of [`crate::laws`]
    /// therefore apply to it after any number of pulls.
    pub proof fn lemma_wf_inv(&self)
        requires
            self.wf(),
        ensures
            inv(self.store(), self.tip(), self.state()),
            self.tip() == self.state().discovered[0],
    {
    }

    /// Start a traversal at `tip`: the pending and visited collections hold
    /// exactly the tip, and nothing has been yielded.
    pub fn new(resolver: &'a R, tip: Identifier) -> (w: Self)
        requires
            tip.wf(),
        ensures
            w.wf(),
            w.store() == resolver.store(),
            w.tip() == tip@,
            w.state() == init_state(tip@),
    {
        let ghost t = tip@;
        let mut visited: Vec<Identifier> = Vec::new();
        let mut pending: Vec<Identifier> = Vec::new();
        visited.push(tip.clone());
        pending.push(tip);
        let w = Walker { resolver, pending, visited, stopped: false, emitted: Ghost(0) };
        proof {
            assert(id_views(w.visited@) =~= seq![t]);
            assert(id_views(w.pending@) =~= seq![t]);
            assert(w.state() =~= init_state(t));
            crate::model::lemma_init_inv(w.store(), t);
            assert(id_views(w.pending@) =~= id_views(w.visited@).skip(0));
        }
        w
    }

    /// One pull of the traversal.
    ///
    /// In a terminal state this returns `None` and changes nothing. While
    /// running, it removes the front of the frontier, resolves it, and
    /// either yields it — after enqueuing, in order, each of its parents
    /// not already visited — or surfaces the error the store prescribes,
    /// ending the run. The ghost state advances by exactly one [`step`].
    pub fn next(&mut self) -> (r: Option<Result<Identifier, TraversalError>>)
        requires
            old(self).wf(),
        ensures
            final(self).wf(),
            final(self).store() == old(self).store(),
            final(self).state() == step(old(self).store(), old(self).state()),
            !running(old(self).state()) ==> r is None && final(self).state() == old(self).state(),
            running(old(self).state()) ==> ({
                let x = old(self).state().discovered[old(self).state().emitted as int];
                let g = old(self).store();
                &&& (is_commit_entry(g, x) ==> (r matches Some(Ok(id)) && id@ == x && id.wf()))
                &&& (!is_commit_entry(g, x) ==> (r matches Some(Err(e)) && failure_reflects(
                    g,
                    x,
                    e,
                )))
            }),
    {
        let ghost g = self.store();
        let ghost s0 = self.state();
        let ghost tip0 = self.tip();
        if self.stopped {
            return None;
        }
        if self.pending.len() == 0 {
            proof {
                assert(id_views(self.pending@).len() == 0);
            }
            return None;
        }
        proof {
            assert(id_views(self.pending@)[0] == self.pending@[0]@);
            assert(id_views(self.visited@).skip(s0.emitted as int)[0] == id_views(self.visited@)[
                s0.emitted as int
            ]);
        }
        let ghost oldpen = self.pending@;
        let id = self.pending.remove(0);
        let ghost x = s0.discovered[s0.emitted as int];
        proof {
            assert(id@ == x);
            assert(self.pending@ =~= oldpen.drop_first());
            assert forall|k: int| 0 <= k < self.pending@.len() implies id_views(self.pending@)[k]
                == id_views(self.visited@).skip(s0.emitted as int + 1)[k] by {
                assert(id_views(self.pending@)[k] == self.pending@[k]@);
                assert(self.pending@[k] == oldpen[k + 1]);
                assert(id_views(oldpen)[k + 1] == oldpen[k + 1]@);
            }
            assert(id_views(self.pending@) =~= id_views(self.visited@).skip(
                s0.emitted as int + 1,
            ));
            crate::model::lemma_step_preserves_inv(g, tip0, s0);
        }
        match self.resolver.resolve(&id) {
            Ok(obj) => {
                if matches!(obj.kind, ObjectKind::Commit) {
                    proof {
                        assert(is_commit_entry(g, x));
                        assert(parents_in(g, x) == obj@.parents);
                    }
                    let ghost v0 = s0.discovered;
                    let n = obj.parents.len();
                    let mut j: usize = 0;
                    while j < n
                        invariant
                            n == obj.parents@.len(),
                            j <= n,
                            obj.wf(),
                            self.resolver == old(self).resolver,
                            self.stopped == false,
                            self.emitted == old(self).emitted,
                            id_views(self.visited@) == discover_all(
                                v0,
                                obj@.parents.take(j as int),
                            ),
                            id_views(self.visited@).no_duplicates(),
                            id_views(self.pending@) == id_views(self.visited@).skip(
                                s0.emitted as int + 1,
                            ),
                            self.emitted@ + 1 + self.pending@.len() == self.visited@.len(),
                            forall|k: int|
                                0 <= k < self.visited@.len() ==> (
                                #[trigger] self.visited@[k]).wf(),
                            forall|k: int|
                                0 <= k < self.pending@.len() ==> (
                                #[trigger] self.pending@[k]).wf(),
                        decreases n - j,
                    {
                        let ghost vis = id_views(self.visited@);
                        let ghost pen = id_views(self.pending@);
                        proof {
                            assert(obj@.parents.take(j + 1) =~= obj@.parents.take(
                                j as int,
                            ).push(obj@.parents[j as int]));
                            crate::model::lemma_discover_all_push(
                                v0,
                                obj@.parents.take(j as int),
                                obj@.parents[j as int],
                            );
                            assert(obj@.parents[j as int] == obj.parents@[j as int]@);
                        }
                        let p = &obj.parents[j];
                        if !contains_id(&self.visited, p) {
                            self.visited.push(p.clone());
                            self.pending.push(p.clone());
                            proof {
                                assert(id_views(self.visited@) =~= vis.push(p@));
                                assert(id_views(self.pending@) =~= pen.push(p@));
                                crate::model::lemma_discover_all(
                                    v0,
                                    obj@.parents.take(j + 1),
                                );
                                assert(id_views(self.pending@) =~= id_views(
                                    self.visited@,
                                ).skip(s0.emitted as int + 1));
                            }
                        }
                        j += 1;
                    }
                    proof {
                        assert(obj@.parents.take(n as int) =~= obj@.parents);
                    }
                    self.emitted = Ghost(self.emitted@ + 1);
                    proof {
                        assert(self.state() =~= step(g, s0));
                    }
                    Some(Ok(id))
                } else {
                    self.stopped = true;
                    proof {
                        assert(self.state() =~= step(g, s0));
                    }
                    Some(Err(TraversalError::UnexpectedKind(id)))
                }
            },
            Err(cause) => {
                self.stopped = true;
                proof {
                    assert(!is_commit_entry(g, x));
                    assert(self.state() =~= step(g, s0));
                }
                match cause {
                    ResolveError::NotFound => Some(Err(TraversalError::NotFound(id))),
                    ResolveError::Corrupt => Some(
                        Err(TraversalError::Decode(id, ResolveError::Corrupt)),
                    ),
                    ResolveError::Io => Some(Err(TraversalError::Decode(id, ResolveError::Io))),
                }
            },
        }
    }

    /// Drain the traversal: pull until it ends, collecting the yielded
    /// identifiers, or surface the first error.
    ///
    /// On success the run is exhausted and the returned identifiers are
    /// exactly the ones yielded by this call, in order; on failure the run
    /// ended on the error the store prescribes for the identifier at the
    /// front of the frontier.
    pub fn run_to_end(&mut self) -> (r: Result<Vec<Identifier>, TraversalError>)
        requires
            old(self).wf(),
        ensures
            final(self).wf(),
            final(self).store() == old(self).store(),
            final(self).tip() == old(self).tip(),
            old(self).state().failed ==> final(self).state() == old(self).state() && (
            r matches Ok(ids) && ids@.len() == 0),
            !old(self).state().failed ==> (r matches Ok(ids) ==> exhausted(final(self).state())
                && id_views(ids@) == outputs(final(self).state()).skip(
                old(self).state().emitted as int,
            )),
            !old(self).state().failed ==> (r matches Err(e) ==> final(self).state().failed
                && failure_reflects(
                final(self).store(),
                final(self).state().discovered[final(self).state().emitted as int],
                e,
            )),
    {
        if self.stopped {
            return Ok(Vec::new());
        }
        let ghost g = self.store();
        let ghost tip0 = self.tip();
        let ghost e0 = self.state().emitted;
        let mut out: Vec<Identifier> = Vec::new();
        proof {
            assert(id_views(out@) =~= outputs(self.state()).skip(e0 as int));
        }
        loop
            invariant
                self.wf(),
                self.store() == g,
                self.tip() == tip0,
                !self.state().failed,
                e0 <= self.state().emitted,
                id_views(out@) == outputs(self.state()).skip(e0 as int),
            decreases g.dom().len() - self.state().emitted,
        {
            proof {
                self.resolver.store_finite();
                crate::model::lemma_emitted_bounded(g, tip0, self.state());
            }
            let ghost s_before = self.state();
            match self.next() {
                None => {
                    return Ok(out);
                },
                Some(Ok(id)) => {
                    let ghost x = s_before.discovered[s_before.emitted as int];
                    proof {
                        crate::model::lemma_discover_all(
                            s_before.discovered,
                            parents_in(g, x),
                        );
                        assert(outputs(self.state()) =~= outputs(s_before).push(x));
                        assert(self.state().emitted == s_before.emitted + 1);
                        crate::model::lemma_emitted_bounded(g, tip0, self.state());
                    }
                    let ghost oldout = out@;
                    out.push(id);
                    proof {
                        assert(id_views(out@) =~= id_views(oldout).push(x));
                        assert(outputs(self.state()).skip(e0 as int) =~= outputs(
                            s_before,
                        ).skip(e0 as int).push(x));
                        assert(id_views(out@) =~= outputs(self.state()).skip(e0 as int));
                    }
                },
                Some(Err(e)) => {
                    return Err(e);
                },
            }
        }
    }
}

/// Whether any identifier in `v` denotes the same content address as `x`.
fn contains_id(v: &Vec<Identifier>, x: &Identifier) -> (r: bool)
    ensures
        r == id_views(v@).contains(x@),
{
    let n = v.len();
    let mut i: usize = 0;
    while i < n
        invariant
            n == v@.len(),
            i <= n,
            forall|j: int| 0 <= j < i ==> (#[trigger] v@[j])@ != x@,
        decreases n - i,
    {
        if v[i].eq_id(x) {
            proof {
                assert(id_views(v@)[i as int] == v@[i as int]@);
            }
            return true;
        }
        i += 1;
    }
    proof {
        assert forall|k: int| 0 <= k < id_views(v@).len() implies id_views(v@)[k] != x@ by {
            assert(id_views(v@)[k] == v@[k]@);
        }
    }
    false
}

} // verus!
