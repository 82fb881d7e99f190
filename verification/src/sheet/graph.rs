//! The dependency graph: for each cell, the cells whose formulas read it.

use vstd::prelude::*;
use std::collections::{HashMap, HashSet, VecDeque};
use crate::sheet::CellRef;

verus! {

broadcast use vstd::std_specs::hash::group_hash_axioms;

/// Hash key of a position: the row and column shifted to `0..2^32` and packed
/// into one word.  Every word is the key of exactly one position.
pub open spec fn key_of(x: CellRef) -> u64 {
    (((x.row as int) + 0x8000_0000) * 0x1_0000_0000 + ((x.col as int) + 0x8000_0000)) as u64
}

pub proof fn lemma_key_of_injective(x: CellRef, y: CellRef)
    ensures
        key_of(x) == key_of(y) ==> x == y,
{
    let a1 = (x.row as int) + 0x8000_0000;
    let b1 = (x.col as int) + 0x8000_0000;
    let a2 = (y.row as int) + 0x8000_0000;
    let b2 = (y.col as int) + 0x8000_0000;
    assert(0 <= a1 * 0x1_0000_0000 + b1 < 0x1_0000_0000_0000_0000) by (nonlinear_arith)
        requires
            0 <= a1 < 0x1_0000_0000,
            0 <= b1 < 0x1_0000_0000,
    ;
    assert(0 <= a2 * 0x1_0000_0000 + b2 < 0x1_0000_0000_0000_0000) by (nonlinear_arith)
        requires
            0 <= a2 < 0x1_0000_0000,
            0 <= b2 < 0x1_0000_0000,
    ;
    if a1 * 0x1_0000_0000 + b1 == a2 * 0x1_0000_0000 + b2 {
        assert(a1 == a2 && b1 == b2) by (nonlinear_arith)
            requires
                a1 * 0x1_0000_0000 + b1 == a2 * 0x1_0000_0000 + b2,
                0 <= b1 < 0x1_0000_0000,
                0 <= b2 < 0x1_0000_0000,
        ;
    }
}

pub fn cell_key(x: CellRef) -> (k: u64)
    ensures
        k == key_of(x),
{
    let a: u64 = ((x.row as i64) + 0x8000_0000) as u64;
    let b: u64 = ((x.col as i64) + 0x8000_0000) as u64;
    proof {
        assert(a * 0x1_0000_0000 + b < 0x1_0000_0000_0000_0000) by (nonlinear_arith)
            requires
                a < 0x1_0000_0000,
                b < 0x1_0000_0000,
        ;
    }
    a * 0x1_0000_0000 + b
}

/// The graph as values: the dependents of each cell, and the count of
/// references recorded for it (and whether one was ever recorded).
#[verifier::ext_equal]
pub struct GModel {
    pub succs: spec_fn(CellRef) -> Seq<CellRef>,
    pub deg: spec_fn(CellRef) -> i32,
    pub has_deg: spec_fn(CellRef) -> bool,
}

/// Dependency graph: `dependents` maps a cell to the cells that read it, and
/// `in_degree` counts, for each cell, the references recorded for it.
pub struct DependencyGraph {
    dependents: HashMap<u64, Vec<CellRef>>,
    in_degree: HashMap<u64, i32>,
    nodes: Ghost<Set<CellRef>>,
}

impl DependencyGraph {
    /// The cells that read `x`, in the order their references were added.
    pub closed spec fn succs(&self, x: CellRef) -> Seq<CellRef> {
        if self.dependents@.contains_key(key_of(x)) {
            self.dependents@[key_of(x)]@
        } else {
            Seq::empty()
        }
    }

    /// The number of references recorded for `x`.
    pub closed spec fn in_deg(&self, x: CellRef) -> i32 {
        if self.in_degree@.contains_key(key_of(x)) {
            self.in_degree@[key_of(x)]
        } else {
            0
        }
    }

    pub closed spec fn has_in_deg(&self, x: CellRef) -> bool {
        self.in_degree@.contains_key(key_of(x))
    }

    /// The positions the graph mentions, a finite set.
    pub closed spec fn nodes(&self) -> Set<CellRef> {
        self.nodes@
    }

    pub closed spec fn model(&self) -> GModel {
        GModel {
            succs: |x: CellRef| self.succs(x),
            deg: |x: CellRef| self.in_deg(x),
            has_deg: |x: CellRef| self.has_in_deg(x),
        }
    }

    pub closed spec fn wf(&self) -> bool {
        &&& self.nodes@.finite()
        &&& forall|x: CellRef| #[trigger]
            self.dependents@.contains_key(key_of(x)) ==> self.nodes@.contains(x)
        &&& forall|x: CellRef| #[trigger]
            self.in_degree@.contains_key(key_of(x)) ==> self.nodes@.contains(x)
        &&& forall|x: CellRef, i: int|
            0 <= i < self.succs(x).len() ==> self.nodes@.contains(#[trigger] self.succs(x)[i])
    }
}

/// `p` follows edges of the graph from cell to dependent cell.
pub open spec fn is_path(g: GModel, p: Seq<CellRef>) -> bool {
    &&& p.len() >= 1
    &&& forall|i: int| 0 <= i < p.len() - 1 ==> (g.succs)(#[trigger] p[i]).contains(p[i + 1])
}

/// `b` depends, directly or not, on `a` (or is `a`).
pub open spec fn reaches(g: GModel, a: CellRef, b: CellRef) -> bool {
    exists|p: Seq<CellRef>| is_path(g, p) && p[0] == a && p.last() == b
}

/// No cell depends, directly or not, on itself.
pub open spec fn acyclic(g: GModel) -> bool {
    forall|a: CellRef, b: CellRef| #[trigger] (g.succs)(a).contains(b) ==> !reaches(g, b, a)
}

/// A set that holds every dependent of its members holds everything its
/// members reach.
pub proof fn lemma_closed_holds_reached(g: GModel, vis: Set<CellRef>, p: Seq<CellRef>)
    requires
        is_path(g, p),
        vis.contains(p[0]),
        forall|x: CellRef, y: CellRef| vis.contains(x) && #[trigger] (g.succs)(x).contains(y) ==> vis.contains(y),
    ensures
        vis.contains(p.last()),
    decreases p.len(),
{
    if p.len() > 1 {
        let q = p.drop_last();
        assert(is_path(g, q)) by {
            assert forall|i: int| 0 <= i < q.len() - 1 implies (g.succs)(#[trigger] q[i]).contains(q[i + 1]) by {
                assert(q[i] == p[i] && q[i + 1] == p[i + 1]);
            }
        }
        lemma_closed_holds_reached(g, vis, q);
        assert((g.succs)(p[p.len() - 2]).contains(p[p.len() - 1]));
    }
}

pub proof fn lemma_path_extend(g: GModel, p: Seq<CellRef>, y: CellRef)
    requires
        is_path(g, p),
        (g.succs)(p.last()).contains(y),
    ensures
        is_path(g, p.push(y)),
{
    let q = p.push(y);
    assert forall|i: int| 0 <= i < q.len() - 1 implies (g.succs)(#[trigger] q[i]).contains(q[i + 1]) by {
        if i < p.len() - 1 {
            assert(q[i] == p[i] && q[i + 1] == p[i + 1]);
        } else {
            assert(q[i] == p.last() && q[i + 1] == y);
        }
    }
}

impl DependencyGraph {
    pub fn new() -> (g: DependencyGraph)
        ensures
            g.wf(),
            g.model() == empty_model(),
            g.nodes() == Set::<CellRef>::empty(),
    {
        let g = DependencyGraph {
            dependents: HashMap::new(),
            in_degree: HashMap::new(),
            nodes: Ghost(Set::empty()),
        };
        assert(g.model() =~= empty_model());
        g
    }

    /// A copy of the reference counts, keyed by `key_of`.
    pub fn in_degree_copy(&self) -> (m: HashMap<u64, i32>)
        ensures
            forall|x: CellRef| #[trigger] m@.contains_key(key_of(x)) == (self.model().has_deg)(x),
            forall|x: CellRef| #[trigger] m@.contains_key(key_of(x)) ==> m@[key_of(x)] == (self.model().deg)(x),
    {
        self.in_degree.clone()
    }

    /// The cells that read `x`.
    pub fn dependents_of(&self, x: CellRef) -> (v: Vec<CellRef>)
        ensures
            v@ == self.succs(x),
            v@ == (self.model().succs)(x),
    {
        let k = cell_key(x);
        match self.dependents.get(&k) {
            Some(v) => v.clone(),
            None => Vec::new(),
        }
    }

    /// Whether `target` depends, directly or not, on `start` (breadth-first).
    pub fn is_reachable(&self, start: CellRef, target: CellRef) -> (b: bool)
        requires
            self.wf(),
        ensures
            b == reaches(self.model(), start, target),
    {
        let ghost universe = self.nodes@.insert(start);
        let mut visited: HashSet<u64> = HashSet::new();
        let mut queue: VecDeque<CellRef> = VecDeque::new();
        let ghost mut vis: Set<CellRef> = Set::empty();
        queue.push_back(start);
        visited.insert(cell_key(start));
        proof {
            vis = vis.insert(start);
            assert(is_path(self.model(), seq![start]));
            assert(seq![start][0] == start && seq![start].last() == start);
            assert(reaches(self.model(), start, start));
            assert(queue@[0] == start);
            assert(queue@.contains(start));
            assert forall|x: CellRef| visited@.contains(key_of(x)) <==> vis.contains(x) by {
                lemma_key_of_injective(x, start);
            }
        }
        while queue.len() > 0
            invariant
                self.wf(),
                universe == self.nodes@.insert(start),
                universe.finite(),
                vis.subset_of(universe),
                vis.contains(start),
                forall|x: CellRef| visited@.contains(key_of(x)) <==> vis.contains(x),
                forall|x: CellRef| vis.contains(x) ==> reaches(self.model(), start, x),
                forall|i: int| 0 <= i < queue@.len() ==> vis.contains(#[trigger] queue@[i]),
                forall|x: CellRef, y: CellRef|
                    vis.contains(x) && !queue@.contains(x) && #[trigger] self.succs(x).contains(y)
                        ==> vis.contains(y),
                vis.contains(target) ==> queue@.contains(target),
            decreases 2 * universe.difference(vis).len() + queue@.len(),
        {
            let ghost m0 = 2 * universe.difference(vis).len() + queue@.len();
            let ghost q0 = queue@;
            let ghost vis0 = vis;
            let current = queue.pop_front().unwrap();
            assert(queue@ == q0.drop_first());
            if current == target {
                return true;
            }
            assert(vis.contains(current)) by {
                assert(q0[0] == current);
            }
            let deps = self.dependents_of(current);
            let mut j: usize = 0;
            assert(queue@.subrange(0, q0.len() - 1) == q0.drop_first());
            while j < deps.len()
                invariant
                    self.wf(),
                    deps@ == self.succs(current),
                    j <= deps.len(),
                    universe == self.nodes@.insert(start),
                    universe.finite(),
                    vis0.subset_of(vis),
                    vis.subset_of(universe),
                    vis.contains(start),
                    vis.contains(current),
                    current != target,
                    q0.len() >= 1,
                    q0[0] == current,
                    queue@.len() >= q0.len() - 1,
                    queue@.subrange(0, q0.len() - 1) == q0.drop_first(),
                    forall|x: CellRef| visited@.contains(key_of(x)) <==> vis.contains(x),
                    forall|x: CellRef| vis.contains(x) ==> reaches(self.model(), start, x),
                    forall|i: int| 0 <= i < queue@.len() ==> vis.contains(#[trigger] queue@[i]),
                    forall|x: CellRef| vis.contains(x) && !vis0.contains(x) ==> queue@.contains(x),
                    forall|x: CellRef, y: CellRef|
                        vis0.contains(x) && !q0.contains(x) && #[trigger] self.succs(x).contains(y)
                            ==> vis0.contains(y),
                    forall|k: int| 0 <= k < j ==> vis.contains(#[trigger] deps@[k]),
                    vis0.contains(target) ==> q0.contains(target),
                    2 * universe.difference(vis).len() + queue@.len() < m0,
                decreases deps.len() - j,
            {
                let next = deps[j];
                let k = cell_key(next);
                if !visited.contains(&k) {
                    proof {
                        let old_vis = vis;
                        assert(!vis.contains(next));
                        assert(self.nodes@.contains(next)) by {
                            assert(self.succs(current)[j as int] == next);
                        }
                        let w = choose|p: Seq<CellRef>|
                            is_path(self.model(), p) && p[0] == start && p.last() == current;
                        assert(self.succs(current).contains(next)) by {
                            assert(self.succs(current)[j as int] == next);
                        }
                        lemma_path_extend(self.model(), w, next);
                        assert(w.push(next)[0] == start && w.push(next).last() == next);
                        vis = vis.insert(next);
                        assert(universe.difference(vis) == universe.difference(old_vis).remove(next));
                        assert forall|x: CellRef| visited@.insert(k).contains(key_of(x)) <==> vis.contains(x) by {
                            lemma_key_of_injective(x, next);
                        }
                    }
                    let ghost qb = queue@;
                    visited.insert(k);
                    queue.push_back(next);
                    proof {
                        assert(queue@ == qb.push(next));
                        assert(queue@.subrange(0, q0.len() - 1) == qb.subrange(0, q0.len() - 1));
                        assert(queue@[queue@.len() - 1] == next);
                        assert forall|x: CellRef| vis.contains(x) && !vis0.contains(x) implies queue@.contains(x) by {
                            if x != next {
                                let i = choose|i: int| 0 <= i < qb.len() && qb[i] == x;
                                assert(queue@[i] == x);
                            }
                        }
                    }
                }
                j += 1;
            }
            proof {
                assert forall|y: CellRef| #[trigger] self.succs(current).contains(y) implies vis.contains(y) by {
                    let k = choose|k: int| 0 <= k < deps@.len() && deps@[k] == y;
                    assert(vis.contains(deps@[k]));
                }
                assert forall|x: CellRef, y: CellRef|
                    vis.contains(x) && !queue@.contains(x) && #[trigger] self.succs(x).contains(y)
                        implies vis.contains(y) by {
                    if x != current {
                        if vis0.contains(x) {
                            if q0.contains(x) {
                                let i = choose|i: int| 0 <= i < q0.len() && q0[i] == x;
                                assert(i != 0);
                                assert(queue@.subrange(0, q0.len() - 1)[i - 1] == x);
                                assert(queue@[i - 1] == x);
                            }
                        }
                    }
                }
                if vis.contains(target) {
                    if vis0.contains(target) {
                        let i = choose|i: int| 0 <= i < q0.len() && q0[i] == target;
                        assert(i != 0);
                        assert(queue@.subrange(0, q0.len() - 1)[i - 1] == target);
                        assert(queue@[i - 1] == target);
                    }
                }
            }
        }
        proof {
            if reaches(self.model(), start, target) {
                let p = choose|p: Seq<CellRef>| is_path(self.model(), p) && p[0] == start && p.last() == target;
                assert forall|x: CellRef, y: CellRef| vis.contains(x) && #[trigger] self.succs(x).contains(y)
                    implies vis.contains(y) by {
                    assert(!queue@.contains(x));
                }
                lemma_closed_holds_reached(self.model(), vis, p);
                assert(!queue@.contains(target));
            }
        }
        false
    }
}

impl DependencyGraph {
    /// Records that `dependent` reads `reference`, unless `reference` already
    /// depends on `dependent` (directly, indirectly, or by being the same
    /// cell): then the graph is left as it was, `cycle_detected` is set and
    /// the result is `false`.
    pub fn add_dependency(&mut self, reference: CellRef, dependent: CellRef, cycle_detected: &mut bool) -> (added: bool)
        requires
            old(self).wf(),
        ensures
            final(self).wf(),
            added == !reaches(old(self).model(), dependent, reference),
            !added ==> *final(cycle_detected) && final(self).model() == old(self).model()
                && final(self).nodes() == old(self).nodes(),
            added ==> *final(cycle_detected) == *old(cycle_detected) && final(self).model()
                == model_add(old(self).model(), reference, dependent) && final(self).nodes()
                == old(self).nodes().insert(reference).insert(dependent),
    {
        if self.is_reachable(dependent, reference) {
            *cycle_detected = true;
            return false;
        }
        let kr = cell_key(reference);
        let kd = cell_key(dependent);
        let ghost old_self = *self;
        let list = match self.dependents.remove(&kr) {
            Some(mut v) => {
                v.push(dependent);
                v
            },
            None => vec![dependent],
        };
        self.dependents.insert(kr, list);
        let d = match self.in_degree.get(&kd) {
            Some(v) => *v,
            None => 0,
        };
        self.in_degree.insert(kd, d.wrapping_add(1));
        proof {
            self.nodes@ = self.nodes@.insert(reference).insert(dependent);
            assert forall|x: CellRef| #[trigger] self.succs(x) == if x == reference {
                old_self.succs(x).push(dependent)
            } else {
                old_self.succs(x)
            } by {
                lemma_key_of_injective(x, reference);
            }
            assert forall|x: CellRef| #[trigger] self.in_deg(x) == if x == dependent {
                old_self.in_deg(x).wrapping_add(1)
            } else {
                old_self.in_deg(x)
            } by {
                lemma_key_of_injective(x, dependent);
            }
            assert forall|x: CellRef| #[trigger] self.has_in_deg(x) == (old_self.has_in_deg(x) || x == dependent) by {
                lemma_key_of_injective(x, dependent);
            }
            assert forall|x: CellRef| #[trigger]
                self.dependents@.contains_key(key_of(x)) implies self.nodes@.contains(x) by {
                lemma_key_of_injective(x, reference);
            }
            assert forall|x: CellRef| #[trigger]
                self.in_degree@.contains_key(key_of(x)) implies self.nodes@.contains(x) by {
                lemma_key_of_injective(x, dependent);
            }
            assert forall|x: CellRef, i: int| 0 <= i < self.succs(x).len() implies self.nodes@.contains(
                #[trigger] self.succs(x)[i],
            ) by {
                if x == reference && i == old_self.succs(x).len() {
                } else {
                    assert(self.succs(x)[i] == old_self.succs(x)[i]);
                }
            }
            assert(self.model() =~= model_add(old_self.model(), reference, dependent));
        }
        true
    }
}

/// The graph with no references.
pub open spec fn empty_model() -> GModel {
    GModel {
        succs: |x: CellRef| Seq::<CellRef>::empty(),
        deg: |x: CellRef| 0i32,
        has_deg: |x: CellRef| false,
    }
}

/// The graph after one more reference of `dependent` to `reference`.
pub open spec fn model_add(old: GModel, reference: CellRef, dependent: CellRef) -> GModel {
    GModel {
        succs: |x: CellRef| if x == reference {
            (old.succs)(x).push(dependent)
        } else {
            (old.succs)(x)
        },
        deg: |x: CellRef| if x == dependent {
            (old.deg)(x).wrapping_add(1)
        } else {
            (old.deg)(x)
        },
        has_deg: |x: CellRef| (old.has_deg)(x) || x == dependent,
    }
}

pub proof fn lemma_path_concat(g: GModel, p: Seq<CellRef>, q: Seq<CellRef>)
    requires
        is_path(g, p),
        is_path(g, q),
        p.last() == q[0],
    ensures
        is_path(g, p + q.drop_first()),
        (p + q.drop_first())[0] == p[0],
        (p + q.drop_first()).last() == q.last(),
{
    let r = p + q.drop_first();
    assert forall|i: int| 0 <= i < r.len() - 1 implies (g.succs)(#[trigger] r[i]).contains(r[i + 1]) by {
        if i < p.len() - 1 {
            assert(r[i] == p[i] && r[i + 1] == p[i + 1]);
        } else if i == p.len() - 1 {
            assert(r[i] == q[0] && r[i + 1] == q[1]);
        } else {
            assert(r[i] == q[i - p.len() + 1] && r[i + 1] == q[i - p.len() + 2]);
        }
    }
    if q.len() == 1 {
        assert(r == p);
    }
}

pub proof fn lemma_reaches_trans(g: GModel, a: CellRef, b: CellRef, c: CellRef)
    requires
        reaches(g, a, b),
        reaches(g, b, c),
    ensures
        reaches(g, a, c),
{
    let p = choose|p: Seq<CellRef>| is_path(g, p) && p[0] == a && p.last() == b;
    let q = choose|q: Seq<CellRef>| is_path(g, q) && q[0] == b && q.last() == c;
    lemma_path_concat(g, p, q);
}

pub proof fn lemma_reaches_edge(g: GModel, a: CellRef, b: CellRef)
    requires
        (g.succs)(a).contains(b),
    ensures
        reaches(g, a, b),
{
    let p = seq![a, b];
    assert(is_path(g, p)) by {
        assert forall|i: int| 0 <= i < p.len() - 1 implies (g.succs)(#[trigger] p[i]).contains(p[i + 1]) by {
            assert(i == 0);
        }
    }
    assert(p[0] == a && p.last() == b);
}

pub proof fn lemma_reaches_refl(g: GModel, a: CellRef)
    ensures
        reaches(g, a, a),
{
    assert(is_path(g, seq![a]));
    assert(seq![a][0] == a && seq![a].last() == a);
}

/// A path in `new` either exists in `old`, or passes the new reference from
/// `reference` to `dependent`.
proof fn lemma_reaches_after_add(
    new: GModel,
    old: GModel,
    reference: CellRef,
    dependent: CellRef,
    p: Seq<CellRef>,
)
    requires
        new == model_add(old, reference, dependent),
        is_path(new, p),
    ensures
        reaches(old, p[0], p.last()) || (reaches(old, p[0], reference) && reaches(
            old,
            dependent,
            p.last(),
        )),
    decreases p.len(),
{
    if p.len() == 1 {
        lemma_reaches_refl(old, p[0]);
    } else {
        let q = p.drop_last();
        assert(is_path(new, q)) by {
            assert forall|i: int| 0 <= i < q.len() - 1 implies (new.succs)(#[trigger] q[i]).contains(q[i + 1]) by {
                assert(q[i] == p[i] && q[i + 1] == p[i + 1]);
            }
        }
        lemma_reaches_after_add(new, old, reference, dependent, q);
        let u = q.last();
        let v = p.last();
        assert((new.succs)(p[p.len() - 2]).contains(p[p.len() - 1]));
        assert(u == p[p.len() - 2]);
        assert((new.succs)(u).contains(v));
        if (old.succs)(u).contains(v) {
            lemma_reaches_edge(old, u, v);
            if reaches(old, p[0], u) {
                lemma_reaches_trans(old, p[0], u, v);
            } else {
                lemma_reaches_trans(old, dependent, u, v);
            }
        } else {
            assert(u == reference && v == dependent) by {
                if u != reference {
                    assert((new.succs)(u) == (old.succs)(u));
                } else {
                    let k = choose|k: int| 0 <= k < (new.succs)(u).len() && #[trigger] (new.succs)(u)[k] == v;
                    if k < (old.succs)(u).len() {
                        assert((new.succs)(u)[k] == (old.succs)(u)[k]);
                    }
                }
            }
            lemma_reaches_refl(old, dependent);
            if reaches(old, p[0], u) {
            } else {
                lemma_reaches_trans(old, dependent, u, reference);
            }
        }
    }
}

/// Law: a reference added by `add_dependency` never closes a cycle; an
/// acyclic graph stays acyclic.
pub proof fn law_add_dependency_keeps_acyclic(
    new: GModel,
    old: GModel,
    reference: CellRef,
    dependent: CellRef,
)
    requires
        acyclic(old),
        !reaches(old, dependent, reference),
        new == model_add(old, reference, dependent),
    ensures
        acyclic(new),
{
    assert forall|a: CellRef, b: CellRef| #[trigger] (new.succs)(a).contains(b) implies !reaches(new, b, a) by {
        if reaches(new, b, a) {
            let p = choose|p: Seq<CellRef>| is_path(new, p) && p[0] == b && p.last() == a;
            lemma_reaches_after_add(new, old, reference, dependent, p);
            if (old.succs)(a).contains(b) {
                if reaches(old, b, a) {
                } else {
                    lemma_reaches_edge(old, a, b);
                    lemma_reaches_trans(old, dependent, a, b);
                    lemma_reaches_trans(old, dependent, b, reference);
                }
            } else {
                assert(a == reference && b == dependent) by {
                    if a != reference {
                        assert((new.succs)(a) == (old.succs)(a));
                    } else {
                        let k = choose|k: int| 0 <= k < (new.succs)(a).len() && #[trigger] (new.succs)(a)[k] == b;
                        if k < (old.succs)(a).len() {
                            assert((new.succs)(a)[k] == (old.succs)(a)[k]);
                        }
                    }
                }
            }
        }
    }
}

/// Law: the empty graph is acyclic.
pub proof fn law_new_graph_acyclic()
    ensures
        acyclic(empty_model()),
{
}

} // verus!
