//! The dependency graph of the incremental engine: one node per cell, in
//! row-major order, holding the cells that read it (its dependents) and the
//! cells it reads (its dependencies).

use vstd::prelude::*;
use crate::sheet::CellRef;

verus! {

// ---------------------------------------------------------------------------
// A singly linked list of cells
// ---------------------------------------------------------------------------

/// A node of a linked list of cells.
pub struct Node {
    pub cell: CellRef,
    pub next: Option<Box<Node>>,
}

/// The cells of a list, in order.
pub open spec fn list_view(l: Option<Box<Node>>) -> Seq<CellRef>
    decreases l,
{
    match l {
        None => Seq::empty(),
        Some(n) => seq![n.cell] + list_view(n.next),
    }
}

/// The sequence without the first occurrence of `x`.
pub open spec fn remove_first(s: Seq<CellRef>, x: CellRef) -> Seq<CellRef>
    decreases s.len(),
{
    if s.len() == 0 {
        s
    } else if s[0] == x {
        s.drop_first()
    } else {
        seq![s[0]] + remove_first(s.drop_first(), x)
    }
}

/// Unlinks the first node that holds `target`.
pub fn remove_from_list(list: Option<Box<Node>>, target: CellRef) -> (res: Option<Box<Node>>)
    ensures
        list_view(res) == remove_first(list_view(list), target),
    decreases list,
{
    match list {
        None => None,
        Some(node) => {
            let Node { cell, next } = *node;
            assert(list_view(Some(node)).drop_first() == list_view(next));
            if cell.row == target.row && cell.col == target.col {
                next
            } else {
                let rest = remove_from_list(next, target);
                Some(Box::new(Node { cell, next: rest }))
            }
        },
    }
}

// ---------------------------------------------------------------------------
// Nodes of the graph
// ---------------------------------------------------------------------------

/// The node of one cell: how many references were recorded to it, the cells
/// that read it and the cells it reads, each held once.
pub struct DAGNode {
    pub in_degree: i32,
    pub dependents: Vec<(i32, i32)>,
    pub dependencies: Vec<(i32, i32)>,
}

impl DAGNode {
    /// A node with no reference recorded.
    pub fn new() -> (d: DAGNode)
        ensures
            d.in_degree == 0,
            d.dependents@ == Seq::<(i32, i32)>::empty(),
            d.dependencies@ == Seq::<(i32, i32)>::empty(),
    {
        DAGNode { in_degree: 0, dependents: Vec::new(), dependencies: Vec::new() }
    }
}

/// A node as values.
pub struct DNode {
    pub in_degree: i32,
    pub dependents: Seq<(i32, i32)>,
    pub dependencies: Seq<(i32, i32)>,
}

pub open spec fn node_view(o: Option<Box<DAGNode>>) -> DNode {
    match o {
        Some(d) => DNode { in_degree: d.in_degree, dependents: d.dependents@, dependencies: d.dependencies@ },
        None => DNode { in_degree: 0, dependents: Seq::empty(), dependencies: Seq::empty() },
    }
}

/// The graph as values.
pub open spec fn dag_view(g: Seq<Option<Box<DAGNode>>>) -> Seq<DNode> {
    g.map_values(|o: Option<Box<DAGNode>>| node_view(o))
}

/// Index of a cell in row-major order.
pub open spec fn cell_index(p: (i32, i32), c: int) -> int {
    p.0 * c + p.1
}

pub open spec fn pair_in_sheet(p: (i32, i32), r: int, c: int) -> bool {
    0 <= p.0 < r && 0 <= p.1 < c
}

/// The graph of a sheet of `r` rows and `c` columns: one node per cell, every
/// recorded cell inside the sheet, no cell recorded twice in a list.
pub open spec fn dag_wf(g: Seq<Option<Box<DAGNode>>>, r: int, c: int) -> bool {
    &&& 0 <= r
    &&& 0 <= c
    &&& r * c <= i32::MAX
    &&& g.len() == r * c
    &&& forall|k: int| 0 <= k < g.len() ==> (#[trigger] g[k]) is Some
    &&& view_wf(dag_view(g), r, c)
}

/// Every recorded cell lies in the sheet, and no list holds a cell twice.
pub open spec fn view_wf(v: Seq<DNode>, r: int, c: int) -> bool {
    &&& forall|k: int, i: int|
        0 <= k < v.len() && 0 <= i < v[k].dependents.len() ==> pair_in_sheet(#[trigger] v[k].dependents[i], r, c)
    &&& forall|k: int, i: int|
        0 <= k < v.len() && 0 <= i < v[k].dependencies.len() ==> pair_in_sheet(#[trigger] v[k].dependencies[i], r, c)
    &&& forall|k: int| 0 <= k < v.len() ==> (#[trigger] v[k]).dependents.no_duplicates()
    &&& forall|k: int| 0 <= k < v.len() ==> (#[trigger] v[k]).dependencies.no_duplicates()
}

/// The indices of the dependents of node `k`.
pub open spec fn dag_succs(g: Seq<DNode>, c: int, k: int) -> Seq<int> {
    if 0 <= k < g.len() {
        g[k].dependents.map_values(|p: (i32, i32)| cell_index(p, c))
    } else {
        Seq::empty()
    }
}

/// `p` follows the graph from a cell to a cell that reads it.
pub open spec fn dag_path(g: Seq<DNode>, c: int, p: Seq<int>) -> bool {
    &&& p.len() >= 1
    &&& forall|i: int| 0 <= i < p.len() - 1 ==> dag_succs(g, c, #[trigger] p[i]).contains(p[i + 1])
}

/// Node `b` reads node `a`, directly or not (or is `a`).
pub open spec fn dag_reaches(g: Seq<DNode>, c: int, a: int, b: int) -> bool {
    exists|p: Seq<int>| dag_path(g, c, p) && p[0] == a && p.last() == b
}

/// The graph of an empty sheet: a node with nothing recorded for every cell.
pub fn new_graph(r: i32, c: i32) -> (g: Vec<Option<Box<DAGNode>>>)
    requires
        0 <= r,
        0 <= c,
        r * c <= i32::MAX,
    ensures
        dag_wf(g@, r as int, c as int),
        forall|k: int| 0 <= k < g.len() ==> (#[trigger] dag_view(g@)[k]) == (DNode {
            in_degree: 0,
            dependents: Seq::empty(),
            dependencies: Seq::empty(),
        }),
{
    let total = (r * c) as usize;
    let mut g: Vec<Option<Box<DAGNode>>> = Vec::new();
    let mut k: usize = 0;
    while k < total
        invariant
            k <= total,
            total == r * c,
            g.len() == k,
            forall|m: int| 0 <= m < k ==> (#[trigger] g@[m]) is Some,
            forall|m: int| 0 <= m < k ==> (#[trigger] g@[m])->Some_0.dependents@.len() == 0,
            forall|m: int| 0 <= m < k ==> (#[trigger] g@[m])->Some_0.dependencies@.len() == 0,
            forall|m: int| 0 <= m < k ==> (#[trigger] g@[m])->Some_0.in_degree == 0,
        decreases total - k,
    {
        g.push(Some(Box::new(DAGNode::new())));
        k += 1;
    }
    proof {
        let v = dag_view(g@);
        assert forall|m: int| 0 <= m < g.len() implies (#[trigger] v[m]) == (DNode {
            in_degree: 0,
            dependents: Seq::empty(),
            dependencies: Seq::empty(),
        }) by {
            assert(v[m].dependents =~= Seq::<(i32, i32)>::empty());
            assert(v[m].dependencies =~= Seq::<(i32, i32)>::empty());
        }
    }
    g
}

// ---------------------------------------------------------------------------
// Reachability, depth first
// ---------------------------------------------------------------------------

/// Number of cells not visited yet.
pub open spec fn unvisited(v: Seq<bool>) -> nat
    decreases v.len(),
{
    if v.len() == 0 {
        0
    } else {
        unvisited(v.drop_last()) + if v.last() {
            0nat
        } else {
            1nat
        }
    }
}

proof fn lemma_unvisited_mark(v: Seq<bool>, k: int)
    requires
        0 <= k < v.len(),
        !v[k],
    ensures
        unvisited(v.update(k, true)) + 1 == unvisited(v),
    decreases v.len(),
{
    let w = v.update(k, true);
    if k < v.len() - 1 {
        lemma_unvisited_mark(v.drop_last(), k);
        assert(w.drop_last() == v.drop_last().update(k, true));
    } else {
        assert(w.drop_last() == v.drop_last());
    }
}

proof fn lemma_unvisited_grow(v: Seq<bool>, w: Seq<bool>)
    requires
        v.len() == w.len(),
        forall|k: int| 0 <= k < v.len() && v[k] ==> w[k],
    ensures
        unvisited(w) <= unvisited(v),
    decreases v.len(),
{
    if v.len() > 0 {
        lemma_unvisited_grow(v.drop_last(), w.drop_last());
    }
}

/// Every visited cell outside `active` has all its dependents visited.
pub open spec fn closed_outside(g: Seq<DNode>, c: int, vis: Seq<bool>, active: Set<int>) -> bool {
    forall|v: int, j: int|
        0 <= v < vis.len() && vis[v] && !active.contains(v) && 0 <= j < dag_succs(g, c, v).len()
            ==> 0 <= #[trigger] dag_succs(g, c, v)[j] < vis.len() && vis[dag_succs(g, c, v)[j]]
}

proof fn lemma_path_stays(g: Seq<DNode>, c: int, vis: Seq<bool>, p: Seq<int>)
    requires
        dag_path(g, c, p),
        0 <= p[0] < vis.len(),
        vis[p[0]],
        closed_outside(g, c, vis, Set::empty()),
    ensures
        0 <= p.last() < vis.len() && vis[p.last()],
    decreases p.len(),
{
    if p.len() > 1 {
        let q = p.drop_last();
        assert(dag_path(g, c, q)) by {
            assert forall|i: int| 0 <= i < q.len() - 1 implies dag_succs(g, c, #[trigger] q[i]).contains(q[i + 1]) by {
                assert(q[i] == p[i] && q[i + 1] == p[i + 1]);
            }
        }
        lemma_path_stays(g, c, vis, q);
        let a = p[p.len() - 2];
        assert(dag_succs(g, c, a).contains(p.last()));
        let j = choose|j: int| 0 <= j < dag_succs(g, c, a).len() && dag_succs(g, c, a)[j] == p.last();
        assert(q.last() == a);
    }
}

proof fn lemma_reaches_step(g: Seq<DNode>, c: int, a: int, b: int, t: int)
    requires
        dag_succs(g, c, a).contains(b),
        dag_reaches(g, c, b, t),
    ensures
        dag_reaches(g, c, a, t),
{
    let p = choose|p: Seq<int>| dag_path(g, c, p) && p[0] == b && p.last() == t;
    let q = seq![a] + p;
    assert forall|i: int| 0 <= i < q.len() - 1 implies dag_succs(g, c, #[trigger] q[i]).contains(q[i + 1]) by {
        if i > 0 {
            assert(q[i] == p[i - 1] && q[i + 1] == p[i]);
        }
    }
    assert(dag_path(g, c, q) && q[0] == a && q.last() == t);
}

proof fn lemma_reaches_self(g: Seq<DNode>, c: int, a: int)
    ensures
        dag_reaches(g, c, a, a),
{
    let p = seq![a];
    assert(dag_path(g, c, p) && p[0] == a && p.last() == a);
}

/// Depth-first search from `curr` along dependents for `target`, skipping
/// visited cells and marking the ones it enters.
fn dfs(
    graph: &Vec<Option<Box<DAGNode>>>,
    r: i32,
    c: i32,
    curr: usize,
    target: usize,
    visited: &mut Vec<bool>,
    Ghost(active): Ghost<Set<int>>,
) -> (found: bool)
    requires
        dag_wf(graph@, r as int, c as int),
        old(visited).len() == graph.len(),
        target < graph.len(),
        !old(visited)[target as int],
        forall|v: int| active.contains(v) ==> 0 <= v < old(visited).len() && old(visited)[v],
        closed_outside(dag_view(graph@), c as int, old(visited)@, active),
    ensures
        final(visited).len() == old(visited).len(),
        forall|k: int| 0 <= k < old(visited).len() && old(visited)[k] ==> final(visited)[k],
        found ==> dag_reaches(dag_view(graph@), c as int, curr as int, target as int),
        !found ==> !final(visited)[target as int] && closed_outside(dag_view(graph@), c as int, final(visited)@, active)
            && (curr < graph.len() ==> final(visited)[curr as int]),
    decreases unvisited(old(visited)@),
{
    let total = graph.len();
    if curr >= total || visited[curr] {
        return false;
    }
    if curr == target {
        proof {
            lemma_reaches_self(dag_view(graph@), c as int, curr as int);
        }
        return true;
    }
    proof {
        lemma_unvisited_mark(visited@, curr as int);
    }
    visited.set(curr, true);
    let ghost entry = visited@;
    let ghost act2 = active.insert(curr as int);
    let ghost g = dag_view(graph@);
    match &graph[curr] {
        Some(dag) => {
            let mut i: usize = 0;
            while i < dag.dependents.len()
                invariant
                    dag_wf(graph@, r as int, c as int),
                    g == dag_view(graph@),
                    graph@[curr as int] == Some(*dag),
                    g[curr as int].dependents == dag.dependents@,
                    curr < total == graph.len() == visited.len(),
                    entry.len() == total,
                    old(visited).len() == total,
                    target < total,
                    curr != target,
                    visited[curr as int],
                    !visited[target as int],
                    i <= dag.dependents.len(),
                    unvisited(visited@) <= unvisited(entry),
                    unvisited(entry) + 1 == unvisited(old(visited)@),
                    forall|k: int| 0 <= k < total && old(visited)[k] ==> visited[k],
                    forall|k: int| 0 <= k < total && entry[k] ==> visited[k],
                    forall|v: int| act2.contains(v) ==> 0 <= v < visited.len() && visited[v],
                    act2 == active.insert(curr as int),
                    closed_outside(g, c as int, visited@, act2),
                    forall|j: int| 0 <= j < i ==> 0 <= #[trigger] dag_succs(g, c as int, curr as int)[j] < total
                        && visited[dag_succs(g, c as int, curr as int)[j]],
                decreases dag.dependents.len() - i,
            {
                let (dr, dc) = dag.dependents[i];
                proof {
                    assert(pair_in_sheet(g[curr as int].dependents[i as int], r as int, c as int));
                    assert(dr * c + dc < r * c) by (nonlinear_arith)
                        requires
                            0 <= dr < r,
                            0 <= dc < c,
                    ;
                    assert(dag_succs(g, c as int, curr as int)[i as int] == dr * c + dc);
                }
                let next = (dr * c + dc) as usize;
                if next < total {
                    let ghost before = visited@;
                    proof {
                        lemma_unvisited_grow(entry, visited@);
                    }
                    let hit = dfs(graph, r, c, next, target, visited, Ghost(act2));
                    proof {
                        lemma_unvisited_grow(before, visited@);
                    }
                    if hit {
                        proof {
                            assert(dag_succs(g, c as int, curr as int).contains(next as int));
                            lemma_reaches_step(g, c as int, curr as int, next as int, target as int);
                        }
                        return true;
                    }
                }
                i += 1;
            }
        },
        None => {},
    }
    proof {
        assert forall|v: int, j: int|
            0 <= v < visited.len() && visited[v] && !active.contains(v) && 0 <= j < dag_succs(g, c as int, v).len()
                implies 0 <= #[trigger] dag_succs(g, c as int, v)[j] < visited.len() && visited[dag_succs(g, c as int, v)[j]] by {
            if v != curr as int {
                assert(!act2.contains(v));
            }
        }
    }
    false
}

/// Whether node `target` reads node `start`, directly or not, following
/// dependents from `start`.
pub fn is_reachable(graph: &Vec<Option<Box<DAGNode>>>, r: i32, c: i32, start: usize, target: usize) -> (b: bool)
    requires
        dag_wf(graph@, r as int, c as int),
        target < graph.len(),
    ensures
        b == (start < graph.len() && dag_reaches(dag_view(graph@), c as int, start as int, target as int)),
{
    let total = (r * c) as usize;
    let mut visited: Vec<bool> = Vec::new();
    let mut k: usize = 0;
    while k < total
        invariant
            k <= total,
            total == graph.len(),
            visited.len() == k,
            forall|m: int| 0 <= m < k ==> !(#[trigger] visited@[m]),
        decreases total - k,
    {
        visited.push(false);
        k += 1;
    }
    let found = dfs(graph, r, c, start, target, &mut visited, Ghost(Set::empty()));
    proof {
        if !found && start < graph.len() {
            if dag_reaches(dag_view(graph@), c as int, start as int, target as int) {
                let p = choose|p: Seq<int>| dag_path(dag_view(graph@), c as int, p) && p[0] == start as int && p.last() == target as int;
                lemma_path_stays(dag_view(graph@), c as int, visited@, p);
            }
        }
    }
    found
}

// ---------------------------------------------------------------------------
// Recording and dropping references
// ---------------------------------------------------------------------------

/// The list with `x` added unless it holds it already.
pub open spec fn set_insert(s: Seq<(i32, i32)>, x: (i32, i32)) -> Seq<(i32, i32)> {
    if s.contains(x) {
        s
    } else {
        s.push(x)
    }
}

/// The list without `x` (which it holds at most once).
pub open spec fn set_remove(s: Seq<(i32, i32)>, x: (i32, i32)) -> Seq<(i32, i32)> {
    if s.contains(x) {
        s.remove(choose|i: int| 0 <= i < s.len() && s[i] == x)
    } else {
        s
    }
}

fn copy_pairs(v: &Vec<(i32, i32)>) -> (w: Vec<(i32, i32)>)
    ensures
        w@ == v@,
{
    let mut w: Vec<(i32, i32)> = Vec::new();
    let mut i: usize = 0;
    while i < v.len()
        invariant
            i <= v.len(),
            w@ == v@.take(i as int),
        decreases v.len() - i,
    {
        w.push(v[i]);
        assert(v@.take(i + 1) == v@.take(i as int).push(v@[i as int]));
        i += 1;
    }
    assert(v@.take(v.len() as int) == v@);
    w
}

fn insert_pair(v: &mut Vec<(i32, i32)>, x: (i32, i32))
    ensures
        final(v)@ == set_insert(old(v)@, x),
{
    let mut i: usize = 0;
    while i < v.len()
        invariant
            i <= v.len(),
            forall|j: int| 0 <= j < i ==> v@[j] != x,
        decreases v.len() - i,
    {
        if v[i].0 == x.0 && v[i].1 == x.1 {
            assert(v@[i as int] == x);
            return;
        }
        i += 1;
    }
    v.push(x);
}

fn remove_pair(v: &mut Vec<(i32, i32)>, x: (i32, i32)) -> (removed: bool)
    requires
        old(v)@.no_duplicates(),
    ensures
        removed == old(v)@.contains(x),
        final(v)@ == set_remove(old(v)@, x),
{
    let mut i: usize = 0;
    while i < v.len()
        invariant
            i <= v.len(),
            v@ == old(v)@,
            v@.no_duplicates(),
            forall|j: int| 0 <= j < i ==> v@[j] != x,
        decreases v.len() - i,
    {
        if v[i].0 == x.0 && v[i].1 == x.1 {
            let ghost s = v@;
            assert(s[i as int] == x);
            let ghost k = choose|k: int| 0 <= k < s.len() && s[k] == x;
            assert(k == i as int) by {
                if k != i as int {
                    assert(s[k] == s[i as int]);
                }
            }
            v.remove(i);
            return true;
        }
        i += 1;
    }
    false
}

proof fn lemma_insert_keeps(s: Seq<(i32, i32)>, x: (i32, i32), r: int, c: int)
    requires
        s.no_duplicates(),
        forall|i: int| 0 <= i < s.len() ==> pair_in_sheet(#[trigger] s[i], r, c),
        pair_in_sheet(x, r, c),
    ensures
        set_insert(s, x).no_duplicates(),
        forall|i: int| 0 <= i < set_insert(s, x).len() ==> pair_in_sheet(#[trigger] set_insert(s, x)[i], r, c),
{
    let t = set_insert(s, x);
    if !s.contains(x) {
        assert forall|i: int, j: int| 0 <= i < j < t.len() implies t[i] != t[j] by {
            if j == t.len() - 1 {
                assert(t[i] == s[i]);
            }
        }
        assert forall|i: int| 0 <= i < t.len() implies pair_in_sheet(#[trigger] t[i], r, c) by {
            if i < s.len() {
                assert(t[i] == s[i]);
            }
        }
    }
}

proof fn lemma_remove_keeps(s: Seq<(i32, i32)>, x: (i32, i32), r: int, c: int)
    requires
        s.no_duplicates(),
        forall|i: int| 0 <= i < s.len() ==> pair_in_sheet(#[trigger] s[i], r, c),
    ensures
        set_remove(s, x).no_duplicates(),
        forall|i: int| 0 <= i < set_remove(s, x).len() ==> pair_in_sheet(#[trigger] set_remove(s, x)[i], r, c),
{
    if s.contains(x) {
        let k = choose|i: int| 0 <= i < s.len() && s[i] == x;
        let t = s.remove(k);
        assert forall|i: int| 0 <= i < t.len() implies pair_in_sheet(#[trigger] t[i], r, c) by {
            if i < k {
                assert(t[i] == s[i]);
            } else {
                assert(t[i] == s[i + 1]);
            }
        }
        assert forall|i: int, j: int| 0 <= i < j < t.len() implies t[i] != t[j] by {
            let a = if i < k { i } else { i + 1 };
            let b = if j < k { j } else { j + 1 };
            assert(t[i] == s[a] && t[j] == s[b]);
        }
    }
}

pub(crate) proof fn lemma_index_in_range(row: int, col: int, r: int, c: int)
    requires
        0 <= row < r,
        0 <= col < c,
    ensures
        0 <= row * c + col < r * c,
{
    assert(0 <= row * c + col < r * c) by (nonlinear_arith)
        requires
            0 <= row < r,
            0 <= col < c,
    ;
}

proof fn lemma_index_injective(a: (i32, i32), b: (i32, i32), r: int, c: int)
    requires
        pair_in_sheet(a, r, c),
        pair_in_sheet(b, r, c),
        a != b,
    ensures
        cell_index(a, c) != cell_index(b, c),
{
    if a.0 == b.0 {
        assert(a.1 != b.1);
    } else if a.0 < b.0 {
        assert(a.0 * c + a.1 < b.0 * c + b.1) by (nonlinear_arith)
            requires
                a.0 < b.0,
                0 <= a.1 < c,
                0 <= b.1,
        ;
    } else {
        assert(b.0 * c + b.1 < a.0 * c + a.1) by (nonlinear_arith)
            requires
                b.0 < a.0,
                0 <= b.1 < c,
                0 <= a.1,
        ;
    }
}

/// The graph after `dep` is recorded as reading `rf`: the reference gains
/// the dependent, the dependent gains the reference and one more recorded
/// reference.
pub open spec fn dag_add(v: Seq<DNode>, c: int, dep: (i32, i32), rf: (i32, i32)) -> Seq<DNode> {
    let ri = cell_index(rf, c);
    let di = cell_index(dep, c);
    let v1 = v.update(ri, DNode { dependents: set_insert(v[ri].dependents, dep), ..v[ri] });
    v1.update(di, DNode { dependencies: set_insert(v1[di].dependencies, rf), in_degree: v1[di].in_degree.wrapping_add(1), ..v1[di] })
}

/// The graph after the reference of `dep` to `rf` is dropped from both
/// nodes; the dependent's count goes down by one when it held the reference.
pub open spec fn dag_remove(v: Seq<DNode>, c: int, dep: (i32, i32), rf: (i32, i32)) -> Seq<DNode> {
    let ri = cell_index(rf, c);
    let di = cell_index(dep, c);
    let v1 = v.update(ri, DNode { dependents: set_remove(v[ri].dependents, dep), ..v[ri] });
    let held = v1[di].dependencies.contains(rf);
    v1.update(
        di,
        DNode {
            dependencies: set_remove(v1[di].dependencies, rf),
            in_degree: if held {
                v1[di].in_degree.wrapping_sub(1)
            } else {
                v1[di].in_degree
            },
            ..v1[di]
        },
    )
}

fn read_node(graph: &Vec<Option<Box<DAGNode>>>, k: usize) -> (d: DAGNode)
    requires
        k < graph.len(),
    ensures
        node_view(Some(Box::new(d))) == dag_view(graph@)[k as int],
{
    match &graph[k] {
        Some(n) => DAGNode {
            in_degree: n.in_degree,
            dependents: copy_pairs(&n.dependents),
            dependencies: copy_pairs(&n.dependencies),
        },
        None => DAGNode::new(),
    }
}

fn write_node(graph: &mut Vec<Option<Box<DAGNode>>>, k: usize, d: DAGNode)
    requires
        k < old(graph).len(),
    ensures
        final(graph).len() == old(graph).len(),
        forall|m: int| 0 <= m < final(graph).len() && m != k ==> #[trigger] final(graph)@[m] == old(graph)@[m],
        final(graph)@[k as int] is Some,
        dag_view(final(graph)@) == dag_view(old(graph)@).update(k as int, node_view(Some(Box::new(d)))),
{
    let ghost dv = node_view(Some(Box::new(d)));
    graph.set(k, Some(Box::new(d)));
    assert(dag_view(graph@) =~= dag_view(old(graph)@).update(k as int, dv));
}

proof fn lemma_update_wf(v: Seq<DNode>, k: int, n: DNode, r: int, c: int)
    requires
        view_wf(v, r, c),
        0 <= k < v.len(),
        forall|i: int| 0 <= i < n.dependents.len() ==> pair_in_sheet(#[trigger] n.dependents[i], r, c),
        forall|i: int| 0 <= i < n.dependencies.len() ==> pair_in_sheet(#[trigger] n.dependencies[i], r, c),
        n.dependents.no_duplicates(),
        n.dependencies.no_duplicates(),
    ensures
        view_wf(v.update(k, n), r, c),
{
    let w = v.update(k, n);
    assert forall|m: int, i: int| 0 <= m < w.len() && 0 <= i < w[m].dependents.len() implies pair_in_sheet(#[trigger] w[m].dependents[i], r, c) by {
        if m != k {
            assert(w[m] == v[m]);
        }
    }
    assert forall|m: int, i: int| 0 <= m < w.len() && 0 <= i < w[m].dependencies.len() implies pair_in_sheet(#[trigger] w[m].dependencies[i], r, c) by {
        if m != k {
            assert(w[m] == v[m]);
        }
    }
}

/// Records that cell `(dep_row, dep_col)` reads cell `(ref_row, ref_col)`. A
/// cell outside the sheet is ignored; a reference of a cell to itself, or one
/// whose dependent is read, directly or not, by the reference... that is, one
/// that would close a cycle, is refused and raises `cycle_detected`.
pub fn add_dependency(
    graph: &mut Vec<Option<Box<DAGNode>>>,
    dep_row: i32,
    dep_col: i32,
    ref_row: i32,
    ref_col: i32,
    r: i32,
    c: i32,
    cycle_detected: &mut bool,
)
    requires
        dag_wf(old(graph)@, r as int, c as int),
    ensures
        dag_wf(final(graph)@, r as int, c as int),
        ({
            let dep = (dep_row, dep_col);
            let rf = (ref_row, ref_col);
            let v = dag_view(old(graph)@);
            if !(pair_in_sheet(dep, r as int, c as int) && pair_in_sheet(rf, r as int, c as int)) {
                dag_view(final(graph)@) == v && *final(cycle_detected) == *old(cycle_detected)
            } else if dep == rf || dag_reaches(v, c as int, cell_index(dep, c as int), cell_index(rf, c as int)) {
                dag_view(final(graph)@) == v && *final(cycle_detected)
            } else {
                dag_view(final(graph)@) == dag_add(v, c as int, dep, rf) && *final(cycle_detected) == *old(cycle_detected)
            }
        }),
{
    if dep_row < 0 || dep_row >= r || dep_col < 0 || dep_col >= c || ref_row < 0 || ref_row >= r || ref_col < 0
        || ref_col >= c {
        return;
    }
    if dep_row == ref_row && dep_col == ref_col {
        *cycle_detected = true;
        return;
    }
    proof {
        lemma_index_in_range(dep_row as int, dep_col as int, r as int, c as int);
        lemma_index_in_range(ref_row as int, ref_col as int, r as int, c as int);
        lemma_index_injective((dep_row, dep_col), (ref_row, ref_col), r as int, c as int);
    }
    let dependent_index = (dep_row * c + dep_col) as usize;
    let reference_index = (ref_row * c + ref_col) as usize;
    if is_reachable(graph, r, c, dependent_index, reference_index) {
        *cycle_detected = true;
        return;
    }
    let ghost v0 = dag_view(graph@);
    let mut rn = read_node(graph, reference_index);
    proof {
        lemma_insert_keeps(rn.dependents@, (dep_row, dep_col), r as int, c as int);
    }
    insert_pair(&mut rn.dependents, (dep_row, dep_col));
    write_node(graph, reference_index, rn);
    proof {
        lemma_update_wf(v0, reference_index as int, dag_view(graph@)[reference_index as int], r as int, c as int);
    }
    let ghost v1 = dag_view(graph@);
    let mut dn = read_node(graph, dependent_index);
    proof {
        lemma_insert_keeps(dn.dependencies@, (ref_row, ref_col), r as int, c as int);
    }
    insert_pair(&mut dn.dependencies, (ref_row, ref_col));
    dn.in_degree = dn.in_degree.wrapping_add(1);
    write_node(graph, dependent_index, dn);
    proof {
        lemma_update_wf(v1, dependent_index as int, dag_view(graph@)[dependent_index as int], r as int, c as int);
        assert(dag_view(graph@) =~= dag_add(v0, c as int, (dep_row, dep_col), (ref_row, ref_col)));
    }
}

/// Drops the reference of cell `(dep_row, dep_col)` to cell `(ref_row,
/// ref_col)` from both nodes (see `dag_remove`).
pub fn remove_dependency(
    graph: &mut Vec<Option<Box<DAGNode>>>,
    dep_row: i32,
    dep_col: i32,
    ref_row: i32,
    ref_col: i32,
    r: i32,
    c: i32,
)
    requires
        dag_wf(old(graph)@, r as int, c as int),
        pair_in_sheet((dep_row, dep_col), r as int, c as int),
        pair_in_sheet((ref_row, ref_col), r as int, c as int),
    ensures
        dag_wf(final(graph)@, r as int, c as int),
        dag_view(final(graph)@) == dag_remove(dag_view(old(graph)@), c as int, (dep_row, dep_col), (ref_row, ref_col)),
{
    proof {
        lemma_index_in_range(dep_row as int, dep_col as int, r as int, c as int);
        lemma_index_in_range(ref_row as int, ref_col as int, r as int, c as int);
    }
    let dependent_index = (dep_row * c + dep_col) as usize;
    let reference_index = (ref_row * c + ref_col) as usize;
    let ghost v0 = dag_view(graph@);
    let mut rn = read_node(graph, reference_index);
    proof {
        lemma_remove_keeps(rn.dependents@, (dep_row, dep_col), r as int, c as int);
    }
    remove_pair(&mut rn.dependents, (dep_row, dep_col));
    write_node(graph, reference_index, rn);
    proof {
        lemma_update_wf(v0, reference_index as int, dag_view(graph@)[reference_index as int], r as int, c as int);
    }
    let ghost v1 = dag_view(graph@);
    let mut dn = read_node(graph, dependent_index);
    proof {
        lemma_remove_keeps(dn.dependencies@, (ref_row, ref_col), r as int, c as int);
    }
    let held = remove_pair(&mut dn.dependencies, (ref_row, ref_col));
    if held {
        dn.in_degree = dn.in_degree.wrapping_sub(1);
    }
    write_node(graph, dependent_index, dn);
    proof {
        lemma_update_wf(v1, dependent_index as int, dag_view(graph@)[dependent_index as int], r as int, c as int);
        assert(dag_view(graph@) =~= dag_remove(v0, c as int, (dep_row, dep_col), (ref_row, ref_col)));
    }
}

/// The graph after the references of `dep` to each cell of `list` are
/// dropped, in order.
pub open spec fn drop_all(v: Seq<DNode>, c: int, dep: (i32, i32), list: Seq<(i32, i32)>) -> Seq<DNode>
    decreases list.len(),
{
    if list.len() == 0 {
        v
    } else {
        drop_all(dag_remove(v, c, dep, list[0]), c, dep, list.drop_first())
    }
}

/// The graph once the assigned cell's references are dropped: its list of
/// references is emptied, each referenced cell forgets it, its count is 0.
pub open spec fn cleared_graph(v: Seq<DNode>, c: int, cell: (i32, i32)) -> Seq<DNode> {
    let idx = cell_index(cell, c);
    let old_deps = v[idx].dependencies;
    let v1 = v.update(idx, DNode { dependencies: Seq::empty(), ..v[idx] });
    let v2 = drop_all(v1, c, cell, old_deps);
    v2.update(idx, DNode { in_degree: 0, ..v2[idx] })
}

/// Drops every reference the cell `cell` holds (see `cleared_graph`).
pub fn clear_dependencies(graph: &mut Vec<Option<Box<DAGNode>>>, row: i32, col: i32, r: i32, c: i32)
    requires
        dag_wf(old(graph)@, r as int, c as int),
        pair_in_sheet((row, col), r as int, c as int),
    ensures
        dag_wf(final(graph)@, r as int, c as int),
        dag_view(final(graph)@) == cleared_graph(dag_view(old(graph)@), c as int, (row, col)),
{
    proof {
        lemma_index_in_range(row as int, col as int, r as int, c as int);
    }
    let idx = (row * c + col) as usize;
    let ghost v0 = dag_view(graph@);
    let mut n = read_node(graph, idx);
    let old_deps = copy_pairs(&n.dependencies);
    n.dependencies = Vec::new();
    write_node(graph, idx, n);
    proof {
        lemma_update_wf(v0, idx as int, dag_view(graph@)[idx as int], r as int, c as int);
    }
    let ghost v1 = dag_view(graph@);
    assert(v1 =~= v0.update(idx as int, DNode { dependencies: Seq::empty(), ..v0[idx as int] }));
    let mut i: usize = 0;
    assert(old_deps@.skip(0) =~= old_deps@);
    while i < old_deps.len()
        invariant
            dag_wf(graph@, r as int, c as int),
            pair_in_sheet((row, col), r as int, c as int),
            i <= old_deps.len(),
            old_deps@ == v0[idx as int].dependencies,
            forall|m: int| 0 <= m < old_deps.len() ==> pair_in_sheet(#[trigger] old_deps@[m], r as int, c as int),
            drop_all(dag_view(graph@), c as int, (row, col), old_deps@.skip(i as int)) == drop_all(
                v1,
                c as int,
                (row, col),
                old_deps@,
            ),
        decreases old_deps.len() - i,
    {
        let d = old_deps[i];
        assert(old_deps@.skip(i as int)[0] == d);
        assert(old_deps@.skip(i as int).drop_first() == old_deps@.skip(i + 1));
        remove_dependency(graph, row, col, d.0, d.1, r, c);
        i += 1;
    }
    assert(old_deps@.skip(i as int) =~= Seq::<(i32, i32)>::empty());
    let ghost v2 = dag_view(graph@);
    let mut n2 = read_node(graph, idx);
    n2.in_degree = 0;
    write_node(graph, idx, n2);
    proof {
        lemma_update_wf(v2, idx as int, dag_view(graph@)[idx as int], r as int, c as int);
        assert(dag_view(graph@) =~= cleared_graph(v0, c as int, (row, col)));
    }
}

/// The graph and cycle flag after `add_dependency` of `dep` to `rf`.
pub open spec fn add_one(v: Seq<DNode>, r: int, c: int, dep: (i32, i32), rf: (i32, i32), cyc: bool) -> (Seq<DNode>, bool) {
    if !(pair_in_sheet(dep, r, c) && pair_in_sheet(rf, r, c)) {
        (v, cyc)
    } else if dep == rf || dag_reaches(v, c, cell_index(dep, c), cell_index(rf, c)) {
        (v, true)
    } else {
        (dag_add(v, c, dep, rf), cyc)
    }
}

/// No cell reads itself, directly or not: no recorded dependent `b` of a
/// cell `a` is read by `a`, directly or not.
pub open spec fn dag_acyclic(v: Seq<DNode>, c: int) -> bool {
    forall|a: int, b: int| #[trigger] dag_succs(v, c, a).contains(b) ==> !dag_reaches(v, c, b, a)
}

proof fn lemma_path_then_reaches(g: Seq<DNode>, c: int, p: Seq<int>, t: int)
    requires
        dag_path(g, c, p),
        dag_reaches(g, c, p.last(), t),
    ensures
        dag_reaches(g, c, p[0], t),
    decreases p.len(),
{
    if p.len() > 1 {
        let q = p.drop_first();
        assert(dag_path(g, c, q)) by {
            assert forall|i: int| 0 <= i < q.len() - 1 implies dag_succs(g, c, #[trigger] q[i]).contains(q[i + 1]) by {
                assert(q[i] == p[i + 1] && q[i + 1] == p[i + 2]);
            }
        }
        lemma_path_then_reaches(g, c, q, t);
        assert(dag_succs(g, c, p[0]).contains(p[1]));
        lemma_reaches_step(g, c, p[0], p[1], t);
    }
}

proof fn lemma_reaches_trans(g: Seq<DNode>, c: int, a: int, b: int, t: int)
    requires
        dag_reaches(g, c, a, b),
        dag_reaches(g, c, b, t),
    ensures
        dag_reaches(g, c, a, t),
{
    let p = choose|p: Seq<int>| dag_path(g, c, p) && p[0] == a && p.last() == b;
    lemma_path_then_reaches(g, c, p, t);
}

proof fn lemma_reaches_edge(g: Seq<DNode>, c: int, a: int, b: int)
    requires
        dag_succs(g, c, a).contains(b),
    ensures
        dag_reaches(g, c, a, b),
{
    lemma_reaches_self(g, c, b);
    lemma_reaches_step(g, c, a, b, b);
}

/// A path in `w`, which has the edges of `v` and one more from `ri` to `di`,
/// either is one of `v` or passes that edge.
proof fn lemma_reaches_after_edge(w: Seq<DNode>, v: Seq<DNode>, c: int, ri: int, di: int, p: Seq<int>)
    requires
        forall|k: int| k != ri ==> #[trigger] dag_succs(w, c, k) == dag_succs(v, c, k),
        forall|x: int| #[trigger] dag_succs(w, c, ri).contains(x) ==> dag_succs(v, c, ri).contains(x) || x == di,
        dag_path(w, c, p),
    ensures
        dag_reaches(v, c, p[0], p.last()) || (dag_reaches(v, c, p[0], ri) && dag_reaches(v, c, di, p.last())),
    decreases p.len(),
{
    if p.len() == 1 {
        lemma_reaches_self(v, c, p[0]);
    } else {
        let q = p.drop_last();
        assert(dag_path(w, c, q)) by {
            assert forall|i: int| 0 <= i < q.len() - 1 implies dag_succs(w, c, #[trigger] q[i]).contains(q[i + 1]) by {
                assert(q[i] == p[i] && q[i + 1] == p[i + 1]);
            }
        }
        lemma_reaches_after_edge(w, v, c, ri, di, q);
        let u = q.last();
        let x = p.last();
        assert(dag_succs(w, c, p[p.len() - 2]).contains(p[p.len() - 1]));
        assert(u == p[p.len() - 2]);
        if dag_succs(v, c, u).contains(x) {
            lemma_reaches_edge(v, c, u, x);
            if dag_reaches(v, c, p[0], u) {
                lemma_reaches_trans(v, c, p[0], u, x);
            } else {
                lemma_reaches_trans(v, c, di, u, x);
            }
        } else {
            assert(u == ri && x == di);
            lemma_reaches_self(v, c, di);
            if !dag_reaches(v, c, p[0], u) {
                lemma_reaches_trans(v, c, di, u, ri);
            }
        }
    }
}

/// The edges of the graph after `dag_add`: those of the graph before, and
/// one from the reference to the dependent.
proof fn lemma_dag_add_succs(v: Seq<DNode>, r: int, c: int, dep: (i32, i32), rf: (i32, i32))
    requires
        v.len() == r * c,
        pair_in_sheet(dep, r, c),
        pair_in_sheet(rf, r, c),
    ensures
        forall|k: int| k != cell_index(rf, c) ==> #[trigger] dag_succs(dag_add(v, c, dep, rf), c, k) == dag_succs(v, c, k),
        forall|x: int| #[trigger] dag_succs(dag_add(v, c, dep, rf), c, cell_index(rf, c)).contains(x) ==> dag_succs(
            v,
            c,
            cell_index(rf, c),
        ).contains(x) || x == cell_index(dep, c),
{
    let ri = cell_index(rf, c);
    let di = cell_index(dep, c);
    lemma_index_in_range(rf.0 as int, rf.1 as int, r, c);
    lemma_index_in_range(dep.0 as int, dep.1 as int, r, c);
    let w = dag_add(v, c, dep, rf);
    assert forall|k: int| k != ri implies #[trigger] dag_succs(w, c, k) == dag_succs(v, c, k) by {
        if 0 <= k < v.len() {
            assert(w[k].dependents == v[k].dependents);
        }
    }
    assert forall|x: int| #[trigger] dag_succs(w, c, ri).contains(x) implies dag_succs(v, c, ri).contains(x) || x
        == di by {
        let j = choose|j: int| 0 <= j < dag_succs(w, c, ri).len() && dag_succs(w, c, ri)[j] == x;
        assert(w[ri].dependents == set_insert(v[ri].dependents, dep));
        if j < v[ri].dependents.len() {
            assert(dag_succs(v, c, ri)[j] == x);
        }
    }
}

/// Recording that `dep` reads `rf`, where `rf` is not read by `dep`, directly
/// or not, adds nothing to what `dep` reaches.
pub(crate) proof fn lemma_add_keeps_unreached(v: Seq<DNode>, r: int, c: int, dep: (i32, i32), rf: (i32, i32), t: int)
    requires
        v.len() == r * c,
        pair_in_sheet(dep, r, c),
        pair_in_sheet(rf, r, c),
        !dag_reaches(v, c, cell_index(dep, c), cell_index(rf, c)),
        !dag_reaches(v, c, cell_index(dep, c), t),
    ensures
        !dag_reaches(dag_add(v, c, dep, rf), c, cell_index(dep, c), t),
{
    let w = dag_add(v, c, dep, rf);
    let di = cell_index(dep, c);
    let ri = cell_index(rf, c);
    lemma_dag_add_succs(v, r, c, dep, rf);
    if dag_reaches(w, c, di, t) {
        let p = choose|p: Seq<int>| dag_path(w, c, p) && p[0] == di && p.last() == t;
        lemma_reaches_after_edge(w, v, c, ri, di, p);
    }
}

/// Dropping references of cells of the sheet keeps one node per cell.
pub(crate) proof fn lemma_drop_all_len(v: Seq<DNode>, r: int, c: int, dep: (i32, i32), list: Seq<(i32, i32)>)
    requires
        v.len() == r * c,
        pair_in_sheet(dep, r, c),
        forall|k: int| 0 <= k < list.len() ==> pair_in_sheet(#[trigger] list[k], r, c),
    ensures
        drop_all(v, c, dep, list).len() == r * c,
    decreases list.len(),
{
    if list.len() > 0 {
        lemma_index_in_range(dep.0 as int, dep.1 as int, r, c);
        lemma_index_in_range(list[0].0 as int, list[0].1 as int, r, c);
        let rest = list.drop_first();
        assert forall|k: int| 0 <= k < rest.len() implies pair_in_sheet(#[trigger] rest[k], r, c) by {
            assert(rest[k] == list[k + 1]);
        }
        lemma_drop_all_len(dag_remove(v, c, dep, list[0]), r, c, dep, rest);
    }
}

/// Clearing the references of a cell of the sheet keeps one node per cell.
pub(crate) proof fn lemma_cleared_graph_len(v: Seq<DNode>, r: int, c: int, cell: (i32, i32))
    requires
        v.len() == r * c,
        view_wf(v, r, c),
        pair_in_sheet(cell, r, c),
    ensures
        cleared_graph(v, c, cell).len() == r * c,
{
    let idx = cell_index(cell, c);
    lemma_index_in_range(cell.0 as int, cell.1 as int, r, c);
    let old_deps = v[idx].dependencies;
    let v1 = v.update(idx, DNode { dependencies: Seq::empty(), ..v[idx] });
    assert forall|k: int| 0 <= k < old_deps.len() implies pair_in_sheet(#[trigger] old_deps[k], r, c) by {
        assert(pair_in_sheet(v[idx].dependencies[k], r, c));
    }
    lemma_drop_all_len(v1, r, c, cell, old_deps);
}

/// Law: `add_dependency` keeps the graph free of cycles. Whatever the cells,
/// the graph it leaves (`add_one`) has no cell that reads itself, directly or
/// not, when the graph it was given had none.
pub proof fn law_add_dependency_keeps_acyclic(
    v: Seq<DNode>,
    r: int,
    c: int,
    dep: (i32, i32),
    rf: (i32, i32),
    cyc: bool,
)
    requires
        view_wf(v, r, c),
        v.len() == r * c,
        dag_acyclic(v, c),
    ensures
        dag_acyclic(add_one(v, r, c, dep, rf, cyc).0, c),
{
    if pair_in_sheet(dep, r, c) && pair_in_sheet(rf, r, c) && dep != rf && !dag_reaches(
        v,
        c,
        cell_index(dep, c),
        cell_index(rf, c),
    ) {
        let ri = cell_index(rf, c);
        let di = cell_index(dep, c);
        lemma_index_in_range(rf.0 as int, rf.1 as int, r, c);
        lemma_index_in_range(dep.0 as int, dep.1 as int, r, c);
        lemma_index_injective(dep, rf, r, c);
        let w = dag_add(v, c, dep, rf);
        lemma_dag_add_succs(v, r, c, dep, rf);
        assert forall|a: int, b: int| #[trigger] dag_succs(w, c, a).contains(b) implies !dag_reaches(w, c, b, a) by {
            if dag_reaches(w, c, b, a) {
                let p = choose|p: Seq<int>| dag_path(w, c, p) && p[0] == b && p.last() == a;
                lemma_reaches_after_edge(w, v, c, ri, di, p);
                if dag_succs(v, c, a).contains(b) {
                    if !dag_reaches(v, c, b, a) {
                        lemma_reaches_edge(v, c, a, b);
                        lemma_reaches_trans(v, c, di, a, b);
                        lemma_reaches_trans(v, c, di, b, ri);
                    }
                } else {
                    assert(a == ri && b == di);
                }
            }
        }
    }
}


proof fn lemma_remove_after_insert(s: Seq<(i32, i32)>, x: (i32, i32))
    requires
        !s.contains(x),
    ensures
        set_remove(set_insert(s, x), x) == s,
{
    let t = s.push(x);
    assert(t[s.len() as int] == x);
    assert(t.contains(x));
    let i = choose|i: int| 0 <= i < t.len() && t[i] == x;
    if i < s.len() {
        assert(s[i] == x);
    }
    assert(i == s.len());
    assert(t.remove(i) =~= s);
}

/// Law: dropping a reference undoes recording it. When `dep` did not read
/// `rf` before, `remove_dependency` after `add_dependency` (that is,
/// `dag_remove` after `dag_add`) gives back the graph, counts included.
pub proof fn law_remove_undoes_add(v: Seq<DNode>, r: int, c: int, dep: (i32, i32), rf: (i32, i32))
    requires
        v.len() == r * c,
        pair_in_sheet(dep, r, c),
        pair_in_sheet(rf, r, c),
        !v[cell_index(rf, c)].dependents.contains(dep),
        !v[cell_index(dep, c)].dependencies.contains(rf),
    ensures
        dag_remove(dag_add(v, c, dep, rf), c, dep, rf) == v,
{
    let ri = cell_index(rf, c);
    let di = cell_index(dep, c);
    lemma_index_in_range(rf.0 as int, rf.1 as int, r, c);
    lemma_index_in_range(dep.0 as int, dep.1 as int, r, c);
    lemma_remove_after_insert(v[ri].dependents, dep);
    lemma_remove_after_insert(v[di].dependencies, rf);
    let w = dag_add(v, c, dep, rf);
    let u = dag_remove(w, c, dep, rf);
    let k = v[di].in_degree;
    assert(k.wrapping_add(1).wrapping_sub(1) == k) by (bit_vector);
    assert(u[ri] == v[ri]);
    assert(u[di] == v[di]);
    assert(u =~= v);
}

} // verus!
