//! The guarantees of the traversal, stated and proved over its model.
//!
//! Each law speaks of a traversal state that satisfies the invariant
//! [`inv`]; the walker establishes that invariant at construction and
//! preserves it across every pull, advancing its ghost state by exactly
//! one [`step`] per pull.

use vstd::prelude::*;

use crate::model::{
    exhausted, init_state, inv, is_commit_entry, lemma_exhausted_complete, lemma_init_inv,
    lemma_run_steps_preserves_inv, lemma_take_no_duplicates, lemma_terminal_stuck, outputs,
    reaches, run_steps, running, step, StoreModel, TravState,
};
use crate::objects::{EntryModel, ObjectKind, ObjectModel};

verus! {

/// Tip-first: whenever a traversal has yielded anything, the first
/// yielded identifier is the starting tip itself.
pub proof fn lemma_tip_first(g: StoreModel, tip: Seq<u8>, s: TravState)
    requires
        inv(g, tip, s),
        outputs(s).len() > 0,
    ensures
        outputs(s)[0] == tip,
{
}

/// At-most-once: no identifier ever appears twice in the yielded sequence.
pub proof fn lemma_at_most_once(g: StoreModel, tip: Seq<u8>, s: TravState)
    requires
        inv(g, tip, s),
    ensures
        outputs(s).no_duplicates(),
{
    lemma_take_no_duplicates(s.discovered, s.emitted as int);
}

/// Completeness: when a traversal ends cleanly, the yielded identifiers
/// are exactly those reachable from the tip by following parent links —
/// each of them, by the at-most-once law, exactly once.
pub proof fn lemma_completeness(g: StoreModel, tip: Seq<u8>, s: TravState)
    requires
        inv(g, tip, s),
        exhausted(s),
    ensures
        forall|id: Seq<u8>| reaches(g, tip, id) <==> outputs(s).contains(id),
{
    lemma_exhausted_complete(g, tip, s);
}

/// Every state of a traversal run satisfies the traversal invariant: the
/// laws above therefore apply to any number of pulls from a fresh start.
pub proof fn lemma_run_from_tip_inv(g: StoreModel, tip: Seq<u8>, n: nat)
    ensures
        inv(g, tip, run_steps(g, init_state(tip), n)),
{
    lemma_init_inv(g, tip);
    lemma_run_steps_preserves_inv(g, tip, init_state(tip), n);
}

/// Error propagation: when the front of the frontier does not resolve to a
/// commit — it is missing, corrupt, unreadable, or of another kind — the
/// next pull surfaces the failure without yielding it, every identifier
/// discovered before it having already been yielded, and the traversal
/// stays terminal forever after.
pub proof fn lemma_error_propagation(g: StoreModel, tip: Seq<u8>, s: TravState)
    requires
        inv(g, tip, s),
        running(s),
        !is_commit_entry(g, s.discovered[s.emitted as int]),
    ensures
        step(g, s).failed,
        outputs(step(g, s)) == outputs(s),
        forall|n: nat| run_steps(g, step(g, s), n) == step(g, s),
{
    let s2 = step(g, s);
    assert forall|n: nat| run_steps(g, s2, n) == s2 by {
        lemma_terminal_stuck(g, s2, n);
    }
}

/// Missing-object propagation: the error-propagation law, at an absent
/// identifier in particular. The remainder of that history is unknowable,
/// so no further pull succeeds.
pub proof fn lemma_missing_object_propagation(g: StoreModel, tip: Seq<u8>, s: TravState)
    requires
        inv(g, tip, s),
        running(s),
        !g.dom().contains(s.discovered[s.emitted as int]),
    ensures
        step(g, s).failed,
        outputs(step(g, s)) == outputs(s),
        forall|n: nat| run_steps(g, step(g, s), n) == step(g, s),
{
    lemma_error_propagation(g, tip, s);
}

/// The store records `x` as a commit with exactly the given parents.
pub open spec fn commit_with_parents(g: StoreModel, x: Seq<u8>, ps: Seq<Seq<u8>>) -> bool {
    &&& g.dom().contains(x)
    &&& g[x] == EntryModel::Object(ObjectModel { kind: ObjectKind::Commit, parents: ps })
}

/// Root termination: a traversal started at a commit with zero parents
/// yields exactly that one identifier and ends after a single pull.
pub proof fn lemma_root_termination(g: StoreModel, tip: Seq<u8>)
    requires
        commit_with_parents(g, tip, Seq::empty()),
    ensures
        exhausted(run_steps(g, init_state(tip), 1)),
        outputs(run_steps(g, init_state(tip), 1)) == seq![tip],
{
    reveal_with_fuel(run_steps, 2);
    let s0 = init_state(tip);
    let s1 = step(g, s0);
    assert(is_commit_entry(g, tip));
    assert(s1.discovered =~= seq![tip]);
    assert(run_steps(g, s0, 1) == s1);
    assert(outputs(s1) =~= seq![tip]);
}

/// Linear-chain order: over a chain `tip -> p1 -> p2 -> p3` of distinct
/// identifiers, each commit recording exactly the next as its parent and
/// `p3` a root, the traversal ends after four pulls having yielded exactly
/// `[tip, p1, p2, p3]`, in that order.
pub proof fn lemma_linear_chain_order(
    g: StoreModel,
    tip: Seq<u8>,
    p1: Seq<u8>,
    p2: Seq<u8>,
    p3: Seq<u8>,
)
    requires
        tip != p1 && tip != p2 && tip != p3 && p1 != p2 && p1 != p3 && p2 != p3,
        commit_with_parents(g, tip, seq![p1]),
        commit_with_parents(g, p1, seq![p2]),
        commit_with_parents(g, p2, seq![p3]),
        commit_with_parents(g, p3, Seq::empty()),
    ensures
        exhausted(run_steps(g, init_state(tip), 4)),
        outputs(run_steps(g, init_state(tip), 4)) == seq![tip, p1, p2, p3],
{
    reveal_with_fuel(crate::model::discover_all, 2);
    reveal_with_fuel(run_steps, 5);
    let s0 = init_state(tip);
    let s1 = step(g, s0);
    assert(!seq![tip].contains(p1));
    assert(seq![p1].drop_first() =~= Seq::<Seq<u8>>::empty());
    assert(s1.discovered =~= seq![tip, p1]);
    assert(s1.emitted == 1 && !s1.failed);
    let s2 = step(g, s1);
    assert(s1.discovered[1] == p1);
    assert(!seq![tip, p1].contains(p2));
    assert(seq![p2].drop_first() =~= Seq::<Seq<u8>>::empty());
    assert(s2.discovered =~= seq![tip, p1, p2]);
    assert(s2.emitted == 2 && !s2.failed);
    let s3 = step(g, s2);
    assert(s2.discovered[2] == p2);
    assert(!seq![tip, p1, p2].contains(p3));
    assert(seq![p3].drop_first() =~= Seq::<Seq<u8>>::empty());
    assert(s3.discovered =~= seq![tip, p1, p2, p3]);
    assert(s3.emitted == 3 && !s3.failed);
    let s4 = step(g, s3);
    assert(s3.discovered[3] == p3);
    assert(s4.discovered =~= seq![tip, p1, p2, p3]);
    assert(s4.emitted == 4 && !s4.failed);
    assert(run_steps(g, s0, 4) == s4);
    assert(exhausted(s4));
    assert(outputs(s4) =~= seq![tip, p1, p2, p3]);
}

/// Merge deduplication: when two parents of a merge commit share an
/// ancestor, that ancestor is yielded exactly once — the traversal of
/// `m -> {p1, p2}`, `p1 -> gp`, `p2 -> gp`, `gp` a root, ends after four
/// pulls having yielded exactly `[m, p1, p2, gp]`: four identifiers, not
/// five.
pub proof fn lemma_merge_visits_shared_ancestor_once(
    g: StoreModel,
    m: Seq<u8>,
    p1: Seq<u8>,
    p2: Seq<u8>,
    gp: Seq<u8>,
)
    requires
        m != p1 && m != p2 && m != gp && p1 != p2 && p1 != gp && p2 != gp,
        commit_with_parents(g, m, seq![p1, p2]),
        commit_with_parents(g, p1, seq![gp]),
        commit_with_parents(g, p2, seq![gp]),
        commit_with_parents(g, gp, Seq::empty()),
    ensures
        exhausted(run_steps(g, init_state(m), 4)),
        outputs(run_steps(g, init_state(m), 4)) == seq![m, p1, p2, gp],
        outputs(run_steps(g, init_state(m), 4)).len() == 4,
{
    reveal_with_fuel(crate::model::discover_all, 3);
    reveal_with_fuel(run_steps, 5);
    let s0 = init_state(m);
    let s1 = step(g, s0);
    assert(!seq![m].contains(p1));
    assert(!seq![m, p1].contains(p2));
    assert(seq![p1, p2].drop_first() =~= seq![p2]);
    assert(seq![p2].drop_first() =~= Seq::<Seq<u8>>::empty());
    assert(s1.discovered =~= seq![m, p1, p2]);
    assert(s1.emitted == 1 && !s1.failed);
    let s2 = step(g, s1);
    assert(s1.discovered[1] == p1);
    assert(!seq![m, p1, p2].contains(gp));
    assert(seq![gp].drop_first() =~= Seq::<Seq<u8>>::empty());
    assert(s2.discovered =~= seq![m, p1, p2, gp]);
    assert(s2.emitted == 2 && !s2.failed);
    let s3 = step(g, s2);
    assert(s2.discovered[2] == p2);
    assert(seq![m, p1, p2, gp].contains(gp)) by {
        assert(seq![m, p1, p2, gp][3] == gp);
    }
    assert(s3.discovered =~= seq![m, p1, p2, gp]);
    assert(s3.emitted == 3 && !s3.failed);
    let s4 = step(g, s3);
    assert(s3.discovered[3] == gp);
    assert(s4.discovered =~= seq![m, p1, p2, gp]);
    assert(s4.emitted == 4 && !s4.failed);
    assert(run_steps(g, s0, 4) == s4);
    assert(outputs(s4) =~= seq![m, p1, p2, gp]);
}

} // verus!
