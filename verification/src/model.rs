//! Mathematical model of the ancestry traversal: its state, its step
//! function, reachability over the store, and the traversal invariant.

use vstd::prelude::*;

use crate::objects::{EntryModel, ObjectKind};

verus! {

/// The abstract store: what each known identifier resolves to.
pub type StoreModel = Map<Seq<u8>, EntryModel>;

/// Ghost state of one traversal run.
///
/// `discovered` lists every identifier added to the visited set, in the
/// order of discovery; the first `emitted` of them have been yielded, the
/// rest form the pending frontier, front first. `failed` records that a
/// resolution error ended the run.
#[verifier::ext_equal]
pub struct TravState {
    pub discovered: Seq<Seq<u8>>,
    pub emitted: nat,
    pub failed: bool,
}

/// The state a walker starts in: the tip discovered, nothing yielded.
pub open spec fn init_state(tip: Seq<u8>) -> TravState {
    TravState { discovered: seq![tip], emitted: 0, failed: false }
}

/// The identifiers yielded so far, in order.
pub open spec fn outputs(s: TravState) -> Seq<Seq<u8>> {
    s.discovered.take(s.emitted as int)
}

/// The pending frontier: discovered but not yet yielded, front first.
pub open spec fn frontier(s: TravState) -> Seq<Seq<u8>> {
    s.discovered.skip(s.emitted as int)
}

/// The run ended cleanly: the frontier drained with no error.
pub open spec fn exhausted(s: TravState) -> bool {
    !s.failed && s.emitted == s.discovered.len()
}

/// The run can still take a step.
pub open spec fn running(s: TravState) -> bool {
    !s.failed && s.emitted < s.discovered.len()
}

/// The store resolves `x` to a commit object.
pub open spec fn is_commit_entry(g: StoreModel, x: Seq<u8>) -> bool {
    &&& g.dom().contains(x)
    &&& g[x] matches EntryModel::Object(m) && m.kind == ObjectKind::Commit
}

/// The parent identifiers the store records for commit `x`.
pub open spec fn parents_in(g: StoreModel, x: Seq<u8>) -> Seq<Seq<u8>>
    recommends
        is_commit_entry(g, x),
{
    match g[x] {
        EntryModel::Object(m) => m.parents,
        _ => Seq::empty(),
    }
}

/// Appends to `acc` each element of `ps`, in order, that is not already
/// present — the discipline by which a frontier expansion enqueues parents.
pub open spec fn discover_all(acc: Seq<Seq<u8>>, ps: Seq<Seq<u8>>) -> Seq<Seq<u8>>
    decreases ps.len(),
{
    if ps.len() == 0 {
        acc
    } else {
        let acc2 = if acc.contains(ps[0]) {
            acc
        } else {
            acc.push(ps[0])
        };
        discover_all(acc2, ps.drop_first())
    }
}

/// One pull of the traversal: expand the front of the frontier if it is a
/// commit, otherwise record the failure; do nothing in a terminal state.
pub open spec fn step(g: StoreModel, s: TravState) -> TravState {
    if !running(s) {
        s
    } else {
        let x = s.discovered[s.emitted as int];
        if is_commit_entry(g, x) {
            TravState {
                discovered: discover_all(s.discovered, parents_in(g, x)),
                emitted: s.emitted + 1,
                failed: false,
            }
        } else {
            TravState { discovered: s.discovered, emitted: s.emitted, failed: true }
        }
    }
}

/// `n` pulls of the traversal.
pub open spec fn run_steps(g: StoreModel, s: TravState, n: nat) -> TravState
    decreases n,
{
    if n == 0 {
        s
    } else {
        run_steps(g, step(g, s), (n - 1) as nat)
    }
}

/// `b` is recorded as a parent of commit `a`.
pub open spec fn linked(g: StoreModel, a: Seq<u8>, b: Seq<u8>) -> bool {
    is_commit_entry(g, a) && parents_in(g, a).contains(b)
}

/// `p` is a chain of parent links through the store.
pub open spec fn is_path(g: StoreModel, p: Seq<Seq<u8>>) -> bool {
    &&& p.len() >= 1
    &&& forall|i: int| 0 <= i < p.len() - 1 ==> linked(g, p[i], #[trigger] p[i + 1])
}

/// `to` is reachable from `from` by following parent links, in zero or
/// more steps.
pub open spec fn reaches(g: StoreModel, from: Seq<u8>, to: Seq<u8>) -> bool {
    exists|p: Seq<Seq<u8>>| #[trigger] is_path(g, p) && p.first() == from && p.last() == to
}

/// Every parent the store records for `x` occurs in `d`.
pub open spec fn parents_covered(g: StoreModel, x: Seq<u8>, d: Seq<Seq<u8>>) -> bool {
    forall|j: int| 0 <= j < parents_in(g, x).len() ==> d.contains(#[trigger] parents_in(g, x)[j])
}

/// The traversal invariant, for a run over store `g` started at `tip`.
///
/// Discovery order never repeats an identifier, begins with the tip, and
/// stays within the identifiers reachable from the tip; every yielded
/// identifier was resolved as a commit whose parents were all discovered.
pub open spec fn inv(g: StoreModel, tip: Seq<u8>, s: TravState) -> bool {
    &&& s.discovered.len() >= 1
    &&& s.discovered[0] == tip
    &&& s.discovered.no_duplicates()
    &&& s.emitted <= s.discovered.len()
    &&& s.failed ==> s.emitted < s.discovered.len()
    &&& forall|i: int| 0 <= i < s.emitted ==> is_commit_entry(g, #[trigger] s.discovered[i])
    &&& forall|i: int|
        0 <= i < s.emitted ==> parents_covered(g, #[trigger] s.discovered[i], s.discovered)
    &&& forall|i: int| 0 <= i < s.discovered.len() ==> reaches(g, tip, #[trigger] s.discovered[i])
}

/// An identifier reaches itself: the one-element path.
pub proof fn lemma_reaches_self(g: StoreModel, x: Seq<u8>)
    ensures
        reaches(g, x, x),
{
    let p = seq![x];
    assert(is_path(g, p));
    assert(p.first() == x && p.last() == x);
}

/// Reachability extends along one parent link.
pub proof fn lemma_reaches_linked(g: StoreModel, from: Seq<u8>, a: Seq<u8>, b: Seq<u8>)
    requires
        reaches(g, from, a),
        linked(g, a, b),
    ensures
        reaches(g, from, b),
{
    let p = choose|p: Seq<Seq<u8>>| #[trigger] is_path(g, p) && p.first() == from && p.last() == a;
    let q = p.push(b);
    assert forall|i: int| 0 <= i < q.len() - 1 implies linked(g, q[i], #[trigger] q[i + 1]) by {
        if i < p.len() - 1 {
            assert(linked(g, p[i], p[i + 1]));
        } else {
            assert(q[i] == p.last() && q[i + 1] == b);
        }
    }
    assert(is_path(g, q));
    assert(q.first() == from && q.last() == b);
}

/// What one frontier expansion does to the discovery order: it keeps it a
/// duplicate-free extension whose new elements all come from `ps`, and
/// afterwards every element of `ps` is present.
pub proof fn lemma_discover_all(acc: Seq<Seq<u8>>, ps: Seq<Seq<u8>>)
    requires
        acc.no_duplicates(),
    ensures
        ({
            let r = discover_all(acc, ps);
            &&& r.no_duplicates()
            &&& r.len() >= acc.len()
            &&& r.take(acc.len() as int) == acc
            &&& forall|x: Seq<u8>| r.contains(x) <==> acc.contains(x) || ps.contains(x)
        }),
    decreases ps.len(),
{
    let r = discover_all(acc, ps);
    if ps.len() == 0 {
        assert(r.take(acc.len() as int) =~= acc);
        assert(forall|x: Seq<u8>| ps.contains(x) ==> false);
    } else {
        let acc2 = if acc.contains(ps[0]) {
            acc
        } else {
            acc.push(ps[0])
        };
        assert(acc2.no_duplicates()) by {
            if !acc.contains(ps[0]) {
                assert(forall|i: int|
                    0 <= i < acc.len() ==> acc.push(ps[0])[i] == #[trigger] acc[i]);
            }
        }
        lemma_discover_all(acc2, ps.drop_first());
        assert(acc2.take(acc.len() as int) =~= acc);
        assert(r.take(acc.len() as int) =~= r.take(acc2.len() as int).take(acc.len() as int));
        assert forall|x: Seq<u8>| r.contains(x) implies acc.contains(x) || ps.contains(x) by {
            if acc2.contains(x) {
                if !acc.contains(x) {
                    assert(x == ps[0]);
                    assert(ps.contains(x));
                }
            } else {
                assert(ps.drop_first().contains(x));
                let j = choose|j: int| 0 <= j < ps.drop_first().len() && ps.drop_first()[j] == x;
                assert(ps[j + 1] == x);
            }
        }
        assert forall|x: Seq<u8>| acc.contains(x) || ps.contains(x) implies r.contains(x) by {
            if acc.contains(x) {
                assert(acc2.contains(x)) by {
                    if !acc.contains(ps[0]) {
                        let j = choose|j: int| 0 <= j < acc.len() && acc[j] == x;
                        assert(acc.push(ps[0])[j] == x);
                    }
                }
            } else {
                let j = choose|j: int| 0 <= j < ps.len() && ps[j] == x;
                if j == 0 {
                    assert(acc2.contains(x)) by {
                        if !acc.contains(ps[0]) {
                            assert(acc.push(ps[0])[acc.len() as int] == ps[0]);
                        }
                    }
                } else {
                    assert(ps.drop_first()[j - 1] == x);
                    assert(ps.drop_first().contains(x));
                }
            }
        }
    }
}

/// Taking a prefix of a duplicate-free sequence keeps it duplicate-free.
pub proof fn lemma_take_no_duplicates(s: Seq<Seq<u8>>, n: int)
    requires
        s.no_duplicates(),
        0 <= n <= s.len(),
    ensures
        s.take(n).no_duplicates(),
{
    assert forall|i: int, j: int|
        0 <= i < s.take(n).len() && 0 <= j < s.take(n).len() && i != j implies s.take(n)[i] != s.take(
        n,
    )[j] by {
        assert(s.take(n)[i] == s[i] && s.take(n)[j] == s[j]);
    }
}

/// One step preserves the traversal invariant.
pub proof fn lemma_step_preserves_inv(g: StoreModel, tip: Seq<u8>, s: TravState)
    requires
        inv(g, tip, s),
    ensures
        inv(g, tip, step(g, s)),
{
    if running(s) {
        let x = s.discovered[s.emitted as int];
        if is_commit_entry(g, x) {
            let ps = parents_in(g, x);
            let s2 = step(g, s);
            lemma_discover_all(s.discovered, ps);
            assert(s2.discovered.take(s.discovered.len() as int) == s.discovered);
            assert(forall|i: int|
                0 <= i < s.discovered.len() ==> s2.discovered[i] == #[trigger] s.discovered[i]);
            assert forall|i: int| 0 <= i < s2.emitted implies is_commit_entry(
                g,
                #[trigger] s2.discovered[i],
            ) by {
                assert(s2.discovered[i] == s.discovered[i]);
            }
            assert forall|i: int| 0 <= i < s2.emitted implies parents_covered(
                g,
                #[trigger] s2.discovered[i],
                s2.discovered,
            ) by {
                assert(s2.discovered[i] == s.discovered[i]);
                if i < s.emitted {
                    assert forall|j: int|
                        0 <= j < parents_in(g, s.discovered[i]).len() implies s2.discovered.contains(
                        #[trigger] parents_in(g, s.discovered[i])[j],
                    ) by {
                        assert(s.discovered.contains(parents_in(g, s.discovered[i])[j]));
                    }
                } else {
                    assert(s.discovered[i] == x);
                    assert forall|j: int|
                        0 <= j < parents_in(g, x).len() implies s2.discovered.contains(
                        #[trigger] parents_in(g, x)[j],
                    ) by {
                        assert(ps.contains(ps[j]));
                    }
                }
            }
            assert forall|i: int| 0 <= i < s2.discovered.len() implies reaches(
                g,
                tip,
                #[trigger] s2.discovered[i],
            ) by {
                if i < s.discovered.len() {
                    assert(s2.discovered[i] == s.discovered[i]);
                } else {
                    let y = s2.discovered[i];
                    assert(s2.discovered.contains(y));
                    if !s.discovered.contains(y) {
                        assert(ps.contains(y));
                        assert(reaches(g, tip, x));
                        lemma_reaches_linked(g, tip, x, y);
                    } else {
                        let j = choose|j: int|
                            0 <= j < s.discovered.len() && s.discovered[j] == y;
                        assert(reaches(g, tip, s.discovered[j]));
                    }
                }
            }
        }
    }
}

/// Any number of steps preserves the traversal invariant.
pub proof fn lemma_run_steps_preserves_inv(g: StoreModel, tip: Seq<u8>, s: TravState, n: nat)
    requires
        inv(g, tip, s),
    ensures
        inv(g, tip, run_steps(g, s, n)),
    decreases n,
{
    if n > 0 {
        lemma_step_preserves_inv(g, tip, s);
        lemma_run_steps_preserves_inv(g, tip, step(g, s), (n - 1) as nat);
    }
}

/// The initial state satisfies the traversal invariant.
pub proof fn lemma_init_inv(g: StoreModel, tip: Seq<u8>)
    ensures
        inv(g, tip, init_state(tip)),
{
    let s = init_state(tip);
    lemma_reaches_self(g, tip);
    assert(forall|i: int| 0 <= i < s.discovered.len() ==> s.discovered[i] == tip);
}

/// In an exhausted run, every identifier on a parent-link path from the tip
/// was discovered.
proof fn lemma_path_covered(g: StoreModel, tip: Seq<u8>, s: TravState, p: Seq<Seq<u8>>)
    requires
        inv(g, tip, s),
        exhausted(s),
        is_path(g, p),
        p.first() == tip,
    ensures
        s.discovered.contains(p.last()),
    decreases p.len(),
{
    if p.len() == 1 {
        assert(p.last() == tip);
        assert(s.discovered[0] == tip);
    } else {
        let q = p.drop_last();
        assert(is_path(g, q)) by {
            assert(forall|i: int| 0 <= i < q.len() - 1 ==> linked(g, p[i], #[trigger] p[i + 1]));
            assert(forall|i: int| 0 <= i < q.len() ==> q[i] == p[i]);
        }
        lemma_path_covered(g, tip, s, q);
        let a = q.last();
        let i = choose|i: int| 0 <= i < s.discovered.len() && s.discovered[i] == a;
        assert(i < s.emitted);
        assert(parents_covered(g, s.discovered[i], s.discovered));
        let k = p.len() - 2;
        assert(linked(g, p[k], p[k + 1]));
        assert(a == p[k]);
        let ps = parents_in(g, a);
        let j = choose|j: int| 0 <= j < ps.len() && ps[j] == p.last();
        assert(s.discovered.contains(ps[j]));
    }
}

/// Completeness of an exhausted run: the yielded identifiers are exactly
/// those reachable from the tip.
pub proof fn lemma_exhausted_complete(g: StoreModel, tip: Seq<u8>, s: TravState)
    requires
        inv(g, tip, s),
        exhausted(s),
    ensures
        forall|id: Seq<u8>| reaches(g, tip, id) <==> outputs(s).contains(id),
{
    assert(outputs(s) =~= s.discovered);
    assert forall|id: Seq<u8>| reaches(g, tip, id) implies outputs(s).contains(id) by {
        let p = choose|p: Seq<Seq<u8>>|
            #[trigger] is_path(g, p) && p.first() == tip && p.last() == id;
        lemma_path_covered(g, tip, s, p);
    }
    assert forall|id: Seq<u8>| outputs(s).contains(id) implies reaches(g, tip, id) by {
        let i = choose|i: int| 0 <= i < s.discovered.len() && s.discovered[i] == id;
        assert(reaches(g, tip, s.discovered[i]));
    }
}

/// Appending one element to the scanned sequence appends it to the result
/// exactly when it is still missing.
pub proof fn lemma_discover_all_push(acc: Seq<Seq<u8>>, ps: Seq<Seq<u8>>, x: Seq<u8>)
    ensures
        discover_all(acc, ps.push(x)) == ({
            let r = discover_all(acc, ps);
            if r.contains(x) {
                r
            } else {
                r.push(x)
            }
        }),
    decreases ps.len(),
{
    reveal_with_fuel(discover_all, 2);
    if ps.len() == 0 {
        assert(ps.push(x).drop_first() =~= ps);
        assert(ps.push(x)[0] == x);
        assert(discover_all(acc, ps.push(x)) == (if acc.contains(x) {
            acc
        } else {
            acc.push(x)
        }));
        assert(discover_all(acc, ps) == acc);
    } else {
        let acc2 = if acc.contains(ps[0]) {
            acc
        } else {
            acc.push(ps[0])
        };
        assert(ps.push(x)[0] == ps[0]);
        assert(ps.push(x).drop_first() =~= ps.drop_first().push(x));
        lemma_discover_all_push(acc2, ps.drop_first(), x);
        assert(discover_all(acc, ps.push(x)) == discover_all(acc2, ps.drop_first().push(x)));
        assert(discover_all(acc, ps) == discover_all(acc2, ps.drop_first()));
    }
}

/// No more identifiers can be yielded than the store holds objects: the
/// yielded ones are distinct and each resolved as a commit of the store.
pub proof fn lemma_emitted_bounded(g: StoreModel, tip: Seq<u8>, s: TravState)
    requires
        inv(g, tip, s),
        g.dom().finite(),
    ensures
        s.emitted <= g.dom().len(),
{
    let outs = outputs(s);
    lemma_take_no_duplicates(s.discovered, s.emitted as int);
    outs.unique_seq_to_set();
    assert forall|x: Seq<u8>| outs.to_set().contains(x) implies g.dom().contains(x) by {
        let i = choose|i: int| 0 <= i < outs.len() && outs[i] == x;
        assert(s.discovered[i] == x);
        assert(is_commit_entry(g, s.discovered[i]));
    }
    assert(outs.to_set().subset_of(g.dom()));
    vstd::set_lib::lemma_len_subset(outs.to_set(), g.dom());
}

/// A terminal state is stuck: further pulls change nothing.
pub proof fn lemma_terminal_stuck(g: StoreModel, s: TravState, n: nat)
    requires
        !running(s),
    ensures
        run_steps(g, s, n) == s,
    decreases n,
{
    if n > 0 {
        assert(step(g, s) == s);
        lemma_terminal_stuck(g, step(g, s), (n - 1) as nat);
    }
}

} // verus!
