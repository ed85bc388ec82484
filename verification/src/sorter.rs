//! The stable ordering engine: a cycle check followed by a reorder that moves
//! a mod forward only where a constraint forces it.

use vstd::prelude::*;
use toposort_scc::IndexGraph;
use crate::graph::{graph_edges, graph_vertices, has_cycle, is_topological_order, is_walk};
use crate::rules::{order_rule_views, EOrderRule, EOrderRuleView};
use crate::seqs::{first_index, is_first_index, lemma_first_index};

verus! {

/// The ordering constraints contain a cycle, so no load order satisfies them.
#[derive(Debug, Clone, Copy, PartialEq, Eq, Structural)]
pub struct CycleError;

impl CycleError {
    /// The message shown to the user.
    pub fn message(&self) -> (s: String)
        ensures
            s@ == "Graph contains a cycle"@,
    {
        "Graph contains a cycle".to_owned()
    }
}

// ---------------------------------------------------------------------------
// Positions of names
// ---------------------------------------------------------------------------

/// The first position of `name` among `names`, if it occurs.
pub fn find_index(names: &Vec<String>, name: &String) -> (r: Option<usize>)
    ensures
        match r {
            Some(i) => is_first_index(names.deep_view(), name@, i as int),
            None => !names.deep_view().contains(name@),
        },
{
    let mut i: usize = 0;
    while i < names.len()
        invariant
            i <= names.len(),
            forall|k: int| 0 <= k < i ==> names.deep_view()[k] != name@,
        decreases names.len() - i,
    {
        if names[i] == *name {
            return Some(i);
        }
        i += 1;
    }
    None
}

/// Whether the list of edges holds the edge `from -> to`.
pub fn has_edge(edges: &[(usize, usize)], from: usize, to: usize) -> (r: bool)
    ensures
        r == edges@.contains((from, to)),
{
    let mut i: usize = 0;
    while i < edges.len()
        invariant
            i <= edges.len(),
            forall|k: int| 0 <= k < i ==> edges@[k] != (from, to),
        decreases edges.len() - i,
    {
        if edges[i].0 == from && edges[i].1 == to {
            return true;
        }
        i += 1;
    }
    false
}

// ---------------------------------------------------------------------------
// The reorder, as mathematics
// ---------------------------------------------------------------------------

/// The element at the later position `i` is required before the element at
/// the earlier position `j`.
pub open spec fn is_violation<T>(s: Seq<T>, edges: Set<(T, T)>, i: int, j: int) -> bool {
    0 <= j < i < s.len() && edges.contains((s[i], s[j]))
}

/// Some element stands behind one that it is required before.
pub open spec fn has_violation<T>(s: Seq<T>, edges: Set<(T, T)>) -> bool {
    exists|i: int, j: int| is_violation(s, edges, i, j)
}

/// `(i, j)` is the violation that a scan by rising `i`, then rising `j`,
/// meets first.
pub open spec fn is_first_violation<T>(s: Seq<T>, edges: Set<(T, T)>, i: int, j: int) -> bool {
    &&& is_violation(s, edges, i, j)
    &&& forall|i2: int, j2: int|
        is_violation(s, edges, i2, j2) ==> i < i2 || (i == i2 && j <= j2)
}

/// `s` with the element at `i` taken out and put back at `j`.
pub open spec fn move_forward<T>(s: Seq<T>, i: int, j: int) -> Seq<T> {
    s.remove(i).insert(j, s[i])
}

/// One step of the reorder: resolve the first violation, if there is one.
pub open spec fn reorder_step<T>(s: Seq<T>, edges: Set<(T, T)>) -> Seq<T> {
    if has_violation(s, edges) {
        let (i, j) = choose|i: int, j: int| is_first_violation(s, edges, i, j);
        move_forward(s, i, j)
    } else {
        s
    }
}

/// `k` steps of the reorder.
pub open spec fn reorder_n<T>(s: Seq<T>, edges: Set<(T, T)>, k: nat) -> Seq<T>
    decreases k,
{
    if k == 0 {
        s
    } else {
        reorder_step(reorder_n(s, edges, (k - 1) as nat), edges)
    }
}

/// `sorted` is what the reorder makes of `start`: it is reached from `start`
/// by resolving the first violation again and again, and has none left.
pub open spec fn is_stable_order<T>(start: Seq<T>, edges: Set<(T, T)>, sorted: Seq<T>) -> bool {
    &&& exists|k: nat| sorted == reorder_n(start, edges, k)
    &&& !has_violation(sorted, edges)
}

/// Every edge between elements of `s` points from an earlier position to a
/// later one.
pub open spec fn respects<T>(s: Seq<T>, edges: Set<(T, T)>) -> bool {
    forall|i: int, j: int|
        0 <= i < s.len() && 0 <= j < s.len() && edges.contains((s[i], s[j])) ==> i < j
}

/// The constraints that bear on `mods`: the pairs of `order` whose two names
/// both occur in `mods`.
pub open spec fn present_edges(
    mods: Seq<Seq<char>>,
    order: Seq<(Seq<char>, Seq<char>)>,
) -> Set<(Seq<char>, Seq<char>)> {
    Set::new(
        |e: (Seq<char>, Seq<char>)| order.contains(e) && mods.contains(e.0) && mods.contains(e.1),
    )
}

/// The edges between names that a list of index pairs stands for, where a
/// name's index is its first position in `dict`.
pub open spec fn named_edges(dict: Seq<Seq<char>>, edges: Seq<(usize, usize)>) -> Set<
    (Seq<char>, Seq<char>),
> {
    Set::new(
        |e: (Seq<char>, Seq<char>)|
            dict.contains(e.0) && dict.contains(e.1) && edges.contains(
                (first_index(dict, e.0) as usize, first_index(dict, e.1) as usize),
            ),
    )
}

/// What moving an element forward does to a sequence.
pub proof fn lemma_move_forward<T>(s: Seq<T>, i: int, j: int)
    requires
        0 <= j < i < s.len(),
    ensures
        move_forward(s, i, j).len() == s.len(),
        forall|k: int| 0 <= k < j ==> move_forward(s, i, j)[k] == s[k],
        move_forward(s, i, j)[j] == s[i],
        forall|k: int| j < k <= i ==> move_forward(s, i, j)[k] == s[k - 1],
        forall|k: int| i < k < s.len() ==> move_forward(s, i, j)[k] == s[k],
        move_forward(s, i, j).to_multiset() == s.to_multiset(),
{
    broadcast use vstd::seq_lib::to_multiset_remove, vstd::seq_lib::to_multiset_insert;

    let r = s.remove(i);
    assert(r.insert(j, s[i]).to_multiset() == r.to_multiset().insert(s[i]));
    assert(r.to_multiset() == s.to_multiset().remove(s[i]));
    assert(s.to_multiset().count(s[i]) > 0) by {
        s.to_multiset_ensures();
    }
    assert(s.to_multiset().remove(s[i]).insert(s[i]) =~= s.to_multiset());
}

/// The first violation is unique, so a step of the reorder is the move that
/// resolves it.
pub proof fn lemma_reorder_step<T>(s: Seq<T>, edges: Set<(T, T)>, i: int, j: int)
    requires
        is_first_violation(s, edges, i, j),
    ensures
        reorder_step(s, edges) == move_forward(s, i, j),
{
    assert(is_violation(s, edges, i, j));
    let (i2, j2) = choose|i2: int, j2: int| is_first_violation(s, edges, i2, j2);
    assert(is_first_violation(s, edges, i2, j2));
    assert(is_violation(s, edges, i2, j2));
    assert(i2 == i && j2 == j);
}

// ---------------------------------------------------------------------------
// One pass of the reorder
// ---------------------------------------------------------------------------

/// Scans the first `n` entries of `result` for the first pair of positions
/// `j < i` whose names are constrained the other way round, and moves the
/// entry at `i` to `j`. Returns whether it moved anything.
///
/// `edges` constrains indices into `index_dict`; a name stands for the index
/// of its first occurrence there, and a name that does not occur is
/// unconstrained.
#[verifier::rlimit(40)]
pub fn stable_topo_sort_inner(
    n: usize,
    edges: &[(usize, usize)],
    index_dict: &Vec<String>,
    result: &mut Vec<String>,
) -> (changed: bool)
    requires
        n <= old(result).len(),
    ensures
        ({
            let before = old(result).deep_view();
            let after = final(result).deep_view();
            let rel = named_edges(index_dict.deep_view(), edges@);
            if changed {
                exists|i: int, j: int|
                    is_first_violation(before.take(n as int), rel, i, j) && after == move_forward(
                        before,
                        i,
                        j,
                    )
            } else {
                !has_violation(before.take(n as int), rel) && after == before
            }
        }),
{
    let ghost before = result.deep_view();
    let ghost dict = index_dict.deep_view();
    let ghost rel = named_edges(dict, edges@);
    let mut i: usize = 0;
    while i < n
        invariant
            i <= n <= result.len(),
            result.deep_view() == before,
            before == old(result).deep_view(),
            dict == index_dict.deep_view(),
            rel == named_edges(dict, edges@),
            forall|i2: int, j2: int|
                is_violation(before.take(n as int), rel, i2, j2) ==> i <= i2,
        decreases n - i,
    {
        let ox = find_index(index_dict, &result[i]);
        let mut j: usize = 0;
        while j < i
            invariant
                j <= i < n <= result.len(),
                result.deep_view() == before,
                before == old(result).deep_view(),
                dict == index_dict.deep_view(),
                rel == named_edges(dict, edges@),
                match ox {
                    Some(x) => is_first_index(dict, before[i as int], x as int),
                    None => !dict.contains(before[i as int]),
                },
                forall|i2: int, j2: int|
                    is_violation(before.take(n as int), rel, i2, j2) ==> i < i2 || (i == i2 && j
                        <= j2),
            decreases i - j,
        {
            let oy = find_index(index_dict, &result[j]);
            let hit = match (ox, oy) {
                (Some(x), Some(y)) => has_edge(edges, x, y),
                _ => false,
            };
            proof {
                let a = before[i as int];
                let b = before[j as int];
                if dict.contains(a) && dict.contains(b) {
                    lemma_first_index(dict, a);
                    lemma_first_index(dict, b);
                }
                assert(hit == rel.contains((a, b)));
                assert(before.take(n as int)[i as int] == a);
                assert(before.take(n as int)[j as int] == b);
            }
            if hit {
                let t = result.remove(i);
                result.insert(j, t);
                proof {
                    assert(is_first_violation(before.take(n as int), rel, i as int, j as int));
                    assert(result.deep_view() =~= move_forward(before, i as int, j as int));
                }
                return true;
            }
            j += 1;
        }
        i += 1;
    }
    false
}

// ---------------------------------------------------------------------------
// From names to vertices and back
// ---------------------------------------------------------------------------

/// Both names of the pair occur in `mods`.
pub open spec fn is_present(mods: Seq<Seq<char>>, pair: (Seq<char>, Seq<char>)) -> bool {
    mods.contains(pair.0) && mods.contains(pair.1)
}

/// The pair of names as a pair of vertices.
pub open spec fn edge_of(mods: Seq<Seq<char>>, pair: (Seq<char>, Seq<char>)) -> (usize, usize) {
    (first_index(mods, pair.0) as usize, first_index(mods, pair.1) as usize)
}

/// `idx` holds the present pairs of `order` as pairs of vertices, and nothing
/// else.
pub open spec fn edges_match(
    mods: Seq<Seq<char>>,
    order: Seq<(Seq<char>, Seq<char>)>,
    idx: Seq<(usize, usize)>,
) -> bool {
    &&& forall|e: (usize, usize)| #[trigger]
        idx.contains(e) ==> exists|t: int|
            0 <= t < order.len() && is_present(mods, #[trigger] order[t]) && edge_of(
                mods,
                order[t],
            ) == e
    &&& forall|t: int|
        0 <= t < order.len() && is_present(mods, #[trigger] order[t]) ==> idx.contains(
            edge_of(mods, order[t]),
        )
}

proof fn lemma_named_edges(
    mods: Seq<Seq<char>>,
    order: Seq<(Seq<char>, Seq<char>)>,
    idx: Seq<(usize, usize)>,
)
    requires
        mods.len() <= usize::MAX,
        edges_match(mods, order, idx),
    ensures
        named_edges(mods, idx) == present_edges(mods, order),
{
    let named = named_edges(mods, idx);
    let present = present_edges(mods, order);
    assert forall|e: (Seq<char>, Seq<char>)| named.contains(e) implies present.contains(e) by {
        let v = edge_of(mods, e);
        assert(idx.contains(v));
        let t = choose|t: int|
            0 <= t < order.len() && is_present(mods, #[trigger] order[t]) && edge_of(mods, order[t])
                == v;
        lemma_first_index(mods, e.0);
        lemma_first_index(mods, e.1);
        lemma_first_index(mods, order[t].0);
        lemma_first_index(mods, order[t].1);
        assert(order[t].0 == e.0);
        assert(order[t].1 == e.1);
        assert(order[t] == e);
    }
    assert forall|e: (Seq<char>, Seq<char>)| present.contains(e) implies named.contains(e) by {
        let t = choose|t: int| 0 <= t < order.len() && order[t] == e;
        assert(is_present(mods, order[t]));
    }
    assert(named =~= present);
}

#[verifier::rlimit(40)]
proof fn lemma_cycle_among_names(
    mods: Seq<Seq<char>>,
    order: Seq<(Seq<char>, Seq<char>)>,
    idx: Seq<(usize, usize)>,
    p: Seq<usize>,
)
    requires
        mods.len() <= usize::MAX,
        edges_match(mods, order, idx),
        is_walk(idx.to_set(), p),
        p.first() == p.last(),
    ensures
        has_cycle(present_edges(mods, order)),
{
    let present = present_edges(mods, order);
    let q = Seq::new(p.len(), |k: int| mods[p[k] as int]);
    assert forall|k: int| #![trigger q[k]] 0 <= k < q.len() - 1 implies present.contains(
        (q[k], q[k + 1]),
    ) by {
        let e = (p[k], p[k + 1]);
        assert(idx.to_set().contains(e));
        assert(idx.contains(e));
        let t = choose|t: int|
            0 <= t < order.len() && is_present(mods, #[trigger] order[t]) && edge_of(mods, order[t])
                == e;
        lemma_first_index(mods, order[t].0);
        lemma_first_index(mods, order[t].1);
        assert(q[k] == order[t].0);
        assert(q[k + 1] == order[t].1);
        assert((q[k], q[k + 1]) == order[t]);
    }
    assert(is_walk(present, q));
    assert(q.first() == q.last());
}

proof fn lemma_cycle_among_vertices(
    mods: Seq<Seq<char>>,
    order: Seq<(Seq<char>, Seq<char>)>,
    idx: Seq<(usize, usize)>,
    q: Seq<Seq<char>>,
)
    requires
        mods.len() <= usize::MAX,
        edges_match(mods, order, idx),
        is_walk(present_edges(mods, order), q),
        q.first() == q.last(),
    ensures
        has_cycle(idx.to_set()),
{
    let present = present_edges(mods, order);
    let p = Seq::new(q.len(), |k: int| first_index(mods, q[k]) as usize);
    assert forall|k: int| #![trigger p[k]] 0 <= k < p.len() - 1 implies idx.to_set().contains(
        (p[k], p[k + 1]),
    ) by {
        let e = (q[k], q[k + 1]);
        assert(present.contains(e));
        let t = choose|t: int| 0 <= t < order.len() && order[t] == e;
        assert(is_present(mods, order[t]));
        assert(idx.contains(edge_of(mods, order[t])));
    }
    assert(is_walk(idx.to_set(), p));
    assert(p.first() == p.last());
}

proof fn lemma_cycle_of_vertices(
    mods: Seq<Seq<char>>,
    order: Seq<(Seq<char>, Seq<char>)>,
    idx: Seq<(usize, usize)>,
)
    requires
        mods.len() <= usize::MAX,
        edges_match(mods, order, idx),
    ensures
        has_cycle(idx.to_set()) <==> has_cycle(present_edges(mods, order)),
{
    let present = present_edges(mods, order);
    if has_cycle(idx.to_set()) {
        let p = choose|p: Seq<usize>| #[trigger] is_walk(idx.to_set(), p) && p.first() == p.last();
        lemma_cycle_among_names(mods, order, idx, p);
    }
    if has_cycle(present) {
        let q = choose|q: Seq<Seq<char>>| #[trigger] is_walk(present, q) && q.first() == q.last();
        lemma_cycle_among_vertices(mods, order, idx, q);
    }
}

/// Along a walk through edges that a sequence respects, first positions rise.
proof fn lemma_walk_rises(
    mods: Seq<Seq<char>>,
    order: Seq<(Seq<char>, Seq<char>)>,
    p: Seq<Seq<char>>,
    k: int,
)
    requires
        respects(mods, present_edges(mods, order)),
        is_walk(present_edges(mods, order), p),
        1 <= k < p.len(),
    ensures
        first_index(mods, p[0]) < first_index(mods, p[k]),
    decreases k,
{
    let e = (p[k - 1], p[k]);
    assert(present_edges(mods, order).contains(e));
    lemma_first_index(mods, e.0);
    lemma_first_index(mods, e.1);
    if k > 1 {
        lemma_walk_rises(mods, order, p, k - 1);
    }
}

/// A list that already satisfies its constraints shows that they have no
/// cycle.
pub proof fn lemma_respected_edges_have_no_cycle(
    mods: Seq<Seq<char>>,
    order: Seq<(Seq<char>, Seq<char>)>,
)
    requires
        respects(mods, present_edges(mods, order)),
    ensures
        !has_cycle(present_edges(mods, order)),
{
    let present = present_edges(mods, order);
    if has_cycle(present) {
        let p = choose|p: Seq<Seq<char>>| #[trigger] is_walk(present, p) && p.first() == p.last();
        lemma_walk_rises(mods, order, p, p.len() - 1);
    }
}

/// Without violations and without self-loops, every edge points forward.
pub proof fn lemma_sorted_respects<T>(s: Seq<T>, edges: Set<(T, T)>)
    requires
        !has_violation(s, edges),
        !has_cycle(edges),
    ensures
        respects(s, edges),
{
    assert forall|i: int, j: int|
        0 <= i < s.len() && 0 <= j < s.len() && edges.contains((s[i], s[j])) implies i < j by {
        if i == j {
            let p = seq![s[i], s[i]];
            assert(is_walk(edges, p));
            assert(p.first() == p.last());
        } else if j < i {
            assert(is_violation(s, edges, i, j));
        }
    }
}

// ---------------------------------------------------------------------------
// Why the reorder ends
// ---------------------------------------------------------------------------

/// The place of a name in a topological order of the vertices.
pub open spec fn rank_of(topo: Seq<usize>, mods: Seq<Seq<char>>, name: Seq<char>) -> int {
    topo.index_of(first_index(mods, name) as usize)
}

/// The places of the names of `s`, position by position.
pub open spec fn ranks(topo: Seq<usize>, mods: Seq<Seq<char>>, s: Seq<Seq<char>>) -> Seq<int> {
    Seq::new(s.len(), |k: int| rank_of(topo, mods, s[k]))
}

/// The number that `d` writes in the given base, first digit first.
pub open spec fn weight(d: Seq<int>, base: int) -> int
    decreases d.len(),
{
    if d.len() == 0 {
        0
    } else {
        weight(d.drop_last(), base) * base + d.last()
    }
}

proof fn lemma_weight_nonnegative(d: Seq<int>, base: int)
    requires
        base >= 0,
        forall|k: int| #![trigger d[k]] 0 <= k < d.len() ==> 0 <= d[k],
    ensures
        weight(d, base) >= 0,
    decreases d.len(),
{
    if d.len() > 0 {
        lemma_weight_nonnegative(d.drop_last(), base);
        assert(weight(d.drop_last(), base) * base >= 0) by (nonlinear_arith)
            requires
                weight(d.drop_last(), base) >= 0,
                base >= 0,
        ;
    }
}

/// A sequence of digits that agrees with another up to `j` and is smaller at
/// `j` writes a smaller number.
proof fn lemma_weight_lex(a: Seq<int>, b: Seq<int>, base: int, j: int)
    requires
        a.len() == b.len(),
        0 <= j < a.len(),
        forall|k: int| #![trigger a[k]] 0 <= k < a.len() ==> 0 <= a[k] < base,
        forall|k: int| #![trigger b[k]] 0 <= k < b.len() ==> 0 <= b[k] < base,
        forall|k: int| 0 <= k < j ==> a[k] == b[k],
        b[j] < a[j],
    ensures
        weight(b, base) < weight(a, base),
    decreases a.len(),
{
    let a0 = a.drop_last();
    let b0 = b.drop_last();
    if j == a.len() - 1 {
        assert(a0 =~= b0);
    } else {
        lemma_weight_lex(a0, b0, base, j);
        let wa = weight(a0, base);
        let wb = weight(b0, base);
        assert(wb * base + base <= wa * base) by (nonlinear_arith)
            requires
                wb + 1 <= wa,
                base >= 0,
        ;
    }
}

proof fn lemma_rank(topo: Seq<usize>, mods: Seq<Seq<char>>, idx: Seq<(usize, usize)>, name: Seq<char>)
    requires
        mods.len() <= usize::MAX,
        is_topological_order(topo, mods.len(), idx.to_set()),
        mods.contains(name),
    ensures
        0 <= rank_of(topo, mods, name) < mods.len(),
        topo[rank_of(topo, mods, name)] == first_index(mods, name),
{
    lemma_first_index(mods, name);
    let v = first_index(mods, name) as usize;
    assert(topo.contains(v));
}

proof fn lemma_rank_rises(
    topo: Seq<usize>,
    mods: Seq<Seq<char>>,
    idx: Seq<(usize, usize)>,
    a: Seq<char>,
    b: Seq<char>,
)
    requires
        mods.len() <= usize::MAX,
        is_topological_order(topo, mods.len(), idx.to_set()),
        named_edges(mods, idx).contains((a, b)),
    ensures
        rank_of(topo, mods, a) < rank_of(topo, mods, b),
{
    lemma_rank(topo, mods, idx, a);
    lemma_rank(topo, mods, idx, b);
    let i = rank_of(topo, mods, a);
    let j = rank_of(topo, mods, b);
    let e = (first_index(mods, a) as usize, first_index(mods, b) as usize);
    assert(idx.to_set().contains(e));
    if j <= i {
        assert(!idx.to_set().contains((topo[i], topo[j])));
    }
}

/// Resolving the first violation lowers the weight of the ranks.
#[verifier::rlimit(40)]
proof fn lemma_step_lowers_weight(
    topo: Seq<usize>,
    mods: Seq<Seq<char>>,
    idx: Seq<(usize, usize)>,
    before: Seq<Seq<char>>,
    i: int,
    j: int,
)
    requires
        mods.len() <= usize::MAX,
        is_topological_order(topo, mods.len(), idx.to_set()),
        forall|k: int| 0 <= k < before.len() ==> mods.contains(#[trigger] before[k]),
        is_violation(before, named_edges(mods, idx), i, j),
    ensures
        0 <= weight(ranks(topo, mods, move_forward(before, i, j)), mods.len() as int) < weight(
            ranks(topo, mods, before),
            mods.len() as int,
        ),
{
    let after = move_forward(before, i, j);
    lemma_move_forward(before, i, j);
    let a = ranks(topo, mods, before);
    let b = ranks(topo, mods, after);
    let base = mods.len() as int;
    assert forall|k: int| #![trigger a[k]] 0 <= k < a.len() implies 0 <= a[k] < base by {
        lemma_rank(topo, mods, idx, before[k]);
    }
    assert forall|k: int| #![trigger b[k]] 0 <= k < b.len() implies 0 <= b[k] < base by {
        if k < j {
            assert(after[k] == before[k]);
        } else if k == j {
            assert(after[k] == before[i]);
        } else if k <= i {
            assert(after[k] == before[k - 1]);
        } else {
            assert(after[k] == before[k]);
        }
        lemma_rank(topo, mods, idx, after[k]);
    }
    lemma_rank_rises(topo, mods, idx, before[i], before[j]);
    lemma_weight_lex(a, b, base, j);
    lemma_weight_nonnegative(b, base);
}

// ---------------------------------------------------------------------------
// The sort
// ---------------------------------------------------------------------------

/// Orders `mods` so that every pair `(a, b)` of `order` whose two names are
/// both installed has `a` before `b`, moving a mod only where a constraint
/// forces it. Pairs that name a mod that is not installed are ignored.
///
/// Fails exactly when the constraints that remain contain a cycle. The list
/// may hold at most as many mods as the graph can allocate vertices for.
#[verifier::rlimit(40)]
pub fn topo_sort(mods: &Vec<String>, order: &Vec<(String, String)>) -> (r: Result<
    Vec<String>,
    CycleError,
>)
    requires
        mods.len() * 64 <= isize::MAX,
    ensures
        r is Err <==> has_cycle(present_edges(mods.deep_view(), order.deep_view())),
        r matches Ok(sorted) ==> {
            let edges = present_edges(mods.deep_view(), order.deep_view());
            &&& is_stable_order(mods.deep_view(), edges, sorted.deep_view())
            &&& sorted.deep_view().to_multiset() == mods.deep_view().to_multiset()
            &&& respects(sorted.deep_view(), edges)
        },
        respects(mods.deep_view(), present_edges(mods.deep_view(), order.deep_view())) ==> (r matches Ok(
            sorted,
        ) && sorted.deep_view() == mods.deep_view()),
{
    let n = mods.len();
    let ghost names = mods.deep_view();
    let ghost pairs = order.deep_view();
    let ghost rel = present_edges(names, pairs);

    let mut g = IndexGraph::with_vertices(n);
    let mut edges: Vec<(usize, usize)> = Vec::new();
    let mut t: usize = 0;
    while t < order.len()
        invariant
            t <= order.len(),
            n == mods.len(),
            names == mods.deep_view(),
            pairs == order.deep_view(),
            graph_vertices(g) == n,
            graph_edges(g) == edges@.to_set(),
            edges_match(names, pairs.take(t as int), edges@),
        decreases order.len() - t,
    {
        let oa = find_index(mods, &order[t].0);
        let ob = find_index(mods, &order[t].1);
        let ghost old_edges = edges@;
        let ghost pair = pairs[t as int];
        proof {
            assert(pair == (order[t as int].0@, order[t as int].1@));
            assert(pairs.take(t + 1) =~= pairs.take(t as int).push(pair));
            if names.contains(pair.0) {
                lemma_first_index(names, pair.0);
            }
            if names.contains(pair.1) {
                lemma_first_index(names, pair.1);
            }
        }
        match (oa, ob) {
            (Some(ia), Some(ib)) => {
                g.add_edge(ia, ib);
                edges.push((ia, ib));
                proof {
                    let e = (ia, ib);
                    assert(edge_of(names, pair) == e);
                    assert(is_present(names, pair));
                    assert(edges@ == old_edges.push(e));
                    assert(edges@.to_set() =~= old_edges.to_set().insert(e)) by {
                        assert forall|x: (usize, usize)|
                            edges@.to_set().contains(x) <==> old_edges.to_set().insert(e).contains(
                                x,
                            ) by {
                            if old_edges.contains(x) {
                                let k = choose|k: int| 0 <= k < old_edges.len() && old_edges[k] == x;
                                assert(edges@[k] == x);
                            }
                            if x == e {
                                assert(edges@[old_edges.len() as int] == x);
                            }
                        }
                    }
                    let next = pairs.take(t + 1);
                    assert forall|x: (usize, usize)| #[trigger] edges@.contains(x) implies exists|
                        u: int,
                    |
                        0 <= u < next.len() && is_present(names, #[trigger] next[u]) && edge_of(
                            names,
                            next[u],
                        ) == x by {
                        if old_edges.contains(x) {
                            let u = choose|u: int|
                                0 <= u < pairs.take(t as int).len() && is_present(
                                    names,
                                    #[trigger] pairs.take(t as int)[u],
                                ) && edge_of(names, pairs.take(t as int)[u]) == x;
                            assert(next[u] == pairs.take(t as int)[u]);
                        } else {
                            assert(x == e);
                            assert(next[t as int] == pair);
                        }
                    }
                    assert forall|u: int|
                        0 <= u < next.len() && is_present(
                            names,
                            #[trigger] next[u],
                        ) implies edges@.contains(edge_of(names, next[u])) by {
                        if u < t {
                            assert(next[u] == pairs.take(t as int)[u]);
                            let x = edge_of(names, next[u]);
                            assert(old_edges.contains(x));
                            let k = choose|k: int| 0 <= k < old_edges.len() && old_edges[k] == x;
                            assert(edges@[k] == x);
                        } else {
                            assert(edges@[old_edges.len() as int] == e);
                        }
                    }
                }
            },
            _ => {
                proof {
                    assert(!is_present(names, pair));
                    let next = pairs.take(t + 1);
                    assert forall|x: (usize, usize)| #[trigger] edges@.contains(x) implies exists|
                        u: int,
                    |
                        0 <= u < next.len() && is_present(names, #[trigger] next[u]) && edge_of(
                            names,
                            next[u],
                        ) == x by {
                        let u = choose|u: int|
                            0 <= u < pairs.take(t as int).len() && is_present(
                                names,
                                #[trigger] pairs.take(t as int)[u],
                            ) && edge_of(names, pairs.take(t as int)[u]) == x;
                        assert(next[u] == pairs.take(t as int)[u]);
                    }
                    assert forall|u: int|
                        0 <= u < next.len() && is_present(
                            names,
                            #[trigger] next[u],
                        ) implies edges@.contains(edge_of(names, next[u])) by {
                        if u < t {
                            assert(next[u] == pairs.take(t as int)[u]);
                        } else {
                            assert(next[u] == pair);
                        }
                    }
                }
            },
        }
        t += 1;
    }
    proof {
        assert(pairs.take(t as int) =~= pairs);
        lemma_named_edges(names, pairs, edges@);
        lemma_cycle_of_vertices(names, pairs, edges@);
        if respects(names, rel) {
            lemma_respected_edges_have_no_cycle(names, pairs);
        }
    }

    // cycle check
    let topo = match g.toposort() {
        Some(topo) => topo,
        None => {
            return Err(CycleError);
        },
    };

    // sort
    let mut result: Vec<String> = Vec::new();
    let mut c: usize = 0;
    while c < n
        invariant
            c <= n,
            n == mods.len(),
            names == mods.deep_view(),
            result.len() == c,
            result.deep_view() == names.take(c as int),
        decreases n - c,
    {
        let name = mods[c].clone();
        assert(name@ == mods@[c as int]@);
        let ghost prev = result@;
        result.push(name);
        proof {
            assert(result@ == prev.push(name));
            assert(result.deep_view().len() == c + 1);
            assert forall|k: int| 0 <= k < c + 1 implies result.deep_view()[k] == names.take(c + 1)[k] by {
                if k < c {
                    assert(result.deep_view()[k] == prev[k]@);
                    assert(names.take(c as int)[k] == prev[k]@);
                }
            }
            assert(result.deep_view() =~= names.take(c + 1));
        }
        c += 1;
    }
    proof {
        assert(names.take(n as int) =~= names);
    }
    let ghost mut steps: nat = 0;
    loop
        invariant_except_break
            n == mods.len(),
            names == mods.deep_view(),
            rel == present_edges(names, pairs),
            named_edges(names, edges@) == rel,
            is_topological_order(topo@, n as nat, edges@.to_set()),
            result.len() == n,
            result.deep_view() == reorder_n(names, rel, steps),
            result.deep_view().to_multiset() == names.to_multiset(),
            forall|k: int| 0 <= k < n ==> names.contains(#[trigger] result.deep_view()[k]),
            respects(names, rel) ==> result.deep_view() == names,
        ensures
            n == mods.len(),
            names == mods.deep_view(),
            rel == present_edges(names, pairs),
            result.deep_view() == reorder_n(names, rel, steps),
            result.deep_view().to_multiset() == names.to_multiset(),
            respects(names, rel) ==> result.deep_view() == names,
            !has_violation(result.deep_view(), rel),
        decreases weight(ranks(topo@, names, result.deep_view()), n as int),
    {
        let ghost before = result.deep_view();
        let changed = stable_topo_sort_inner(n, edges.as_slice(), mods, &mut result);
        proof {
            assert(before.take(n as int) =~= before);
        }
        if !changed {
            break ;
        }
        proof {
            let (i, j) = choose|i: int, j: int|
                is_first_violation(before, rel, i, j) && result.deep_view() == move_forward(
                    before,
                    i,
                    j,
                );
            lemma_reorder_step(before, rel, i, j);
            lemma_move_forward(before, i, j);
            lemma_step_lowers_weight(topo@, names, edges@, before, i, j);
            let after = result.deep_view();
            assert forall|k: int| 0 <= k < n implies names.contains(#[trigger] after[k]) by {
                if k < j {
                    assert(after[k] == before[k]);
                } else if k == j {
                    assert(after[k] == before[i]);
                } else if k <= i {
                    assert(after[k] == before[k - 1]);
                } else {
                    assert(after[k] == before[k]);
                }
            }
            if respects(names, rel) {
                assert(is_violation(names, rel, i, j));
            }
            steps = steps + 1;
        }
    }
    proof {
        lemma_sorted_respects(result.deep_view(), rel);
    }
    Ok(result)
}

// ---------------------------------------------------------------------------
// From rules to constraints
// ---------------------------------------------------------------------------

/// The pairs of neighbours of a list of names: each name with the next.
pub open spec fn chain_pairs(names: Seq<Seq<char>>) -> Seq<(Seq<char>, Seq<char>)> {
    if names.len() < 2 {
        Seq::empty()
    } else {
        Seq::new((names.len() - 1) as nat, |i: int| (names[i], names[i + 1]))
    }
}

/// The constraints that a list of ordering rules states: for each `Order`
/// rule the pairs of neighbours of its names. The other rules state none.
pub open spec fn order_pairs(rules: Seq<EOrderRuleView>) -> Seq<(Seq<char>, Seq<char>)>
    decreases rules.len(),
{
    if rules.len() == 0 {
        Seq::empty()
    } else {
        order_pairs(rules.drop_last()) + match rules.last() {
            EOrderRuleView::Order(names) => chain_pairs(names),
            _ => Seq::empty(),
        }
    }
}

/// The constraints that the ordering rules state, as pairs `(a, b)`: `a`
/// must load before `b`.
pub fn get_order_from_rules(rules: &Vec<EOrderRule>) -> (order: Vec<(String, String)>)
    ensures
        order.deep_view() == order_pairs(order_rule_views(rules@)),
{
    let ghost rs = order_rule_views(rules@);
    let mut order: Vec<(String, String)> = Vec::new();
    let mut r: usize = 0;
    proof {
        assert(rs.take(0).len() == 0);
        assert(order.deep_view() =~= order_pairs(rs.take(0)));
    }
    while r < rules.len()
        invariant
            r <= rules.len(),
            rs == order_rule_views(rules@),
            order.deep_view() == order_pairs(rs.take(r as int)),
        decreases rules.len() - r,
    {
        proof {
            crate::text::lemma_take_step(rs, r as int);
            assert(rs[r as int] == rules@[r as int]@);
        }
        let ghost base = order.deep_view();
        match &rules[r] {
            EOrderRule::Order(o) => {
                let ghost names = o.names.deep_view();
                let mut i: usize = 0;
                proof {
                    assert(base + chain_pairs(names).take(0) =~= base);
                }
                while i + 1 < o.names.len()
                    invariant
                        i <= o.names.len(),
                        names == o.names.deep_view(),
                        o.names.len() >= 2 ==> i + 1 <= o.names.len(),
                        o.names.len() < 2 ==> i == 0,
                        order.deep_view() == base + chain_pairs(names).take(i as int),
                    decreases o.names.len() - i,
                {
                    let ghost before = order.deep_view();
                    let a = o.names[i].clone();
                    let b = o.names[i + 1].clone();
                    order.push((a, b));
                    proof {
                        let pair = (names[i as int], names[i + 1]);
                        assert(order.deep_view() =~= before.push(pair));
                        assert(chain_pairs(names)[i as int] == pair);
                        assert(before.push(pair) =~= base + chain_pairs(names).take(i + 1));
                    }
                    i += 1;
                }
                proof {
                    let all = chain_pairs(names);
                    assert(all.take(i as int) =~= all);
                }
            },
            _ => {
                proof {
                    assert(base + Seq::<(Seq<char>, Seq<char>)>::empty() =~= base);
                }
            },
        }
        r += 1;
    }
    proof {
        assert(rs.take(rules.len() as int) =~= rs);
    }
    order
}

/// The list with one more name at its end, unless it holds that name.
pub open spec fn push_unique(names: Seq<Seq<char>>, name: Seq<char>) -> Seq<Seq<char>> {
    if names.contains(name) {
        names
    } else {
        names.push(name)
    }
}

/// The names that the constraints speak of, each once, in the order in
/// which they first occur.
pub open spec fn mods_of(order: Seq<(Seq<char>, Seq<char>)>) -> Seq<Seq<char>>
    decreases order.len(),
{
    if order.len() == 0 {
        Seq::empty()
    } else {
        push_unique(push_unique(mods_of(order.drop_last()), order.last().0), order.last().1)
    }
}

/// The names that the constraints speak of, each once, in the order in
/// which they first occur.
pub fn get_mods_from_rules(order: &[(String, String)]) -> (result: Vec<String>)
    ensures
        result.deep_view() == mods_of(order.deep_view()),
{
    let ghost pairs = order.deep_view();
    let mut result: Vec<String> = Vec::new();
    let mut i: usize = 0;
    proof {
        assert(pairs.take(0).len() == 0);
        assert(result.deep_view() =~= mods_of(pairs.take(0)));
    }
    while i < order.len()
        invariant
            i <= order.len(),
            pairs == order.deep_view(),
            result.deep_view() == mods_of(pairs.take(i as int)),
        decreases order.len() - i,
    {
        proof {
            crate::text::lemma_take_step(pairs, i as int);
            assert(pairs[i as int] == (order@[i as int].0@, order@[i as int].1@));
        }
        let ghost before = result.deep_view();
        if find_index(&result, &order[i].0).is_none() {
            result.push(order[i].0.clone());
            proof {
                assert(result.deep_view() =~= before.push(pairs[i as int].0));
            }
        }
        let ghost middle = result.deep_view();
        if find_index(&result, &order[i].1).is_none() {
            result.push(order[i].1.clone());
            proof {
                assert(result.deep_view() =~= middle.push(pairs[i as int].1));
            }
        }
        i += 1;
    }
    proof {
        assert(pairs.take(order.len() as int) =~= pairs);
    }
    result
}

} // verus!
