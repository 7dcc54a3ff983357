use vstd::prelude::*;
use crate::crdt::{OperationParameter, VertexLabel};
use crate::dag::Vertex;
use crate::crdt::process_scores::score_of;
use crate::crdt::reconciliation_functions::{
    conflict_scan, resolve_conflicts, fair_scan, fair_level, fair_beats, ids_of, sort_by_op_id, op_keys, level_vertices,
    fair_state, conflict_order,
};
use crate::dag::{Dag, VertexId};
use crate::sorting::{TotalKey, KeyPosition, key_leq};
use crate::crdt::convergence::lemma_map_same_multiset;

verus! {

/// The entry of `table` for the operation of `a` against the operation of `b`.
pub open spec fn entry<P: OperationParameter, X>(table: Seq<Seq<X>>, a: Vertex<VertexLabel<P>>, b: Vertex<VertexLabel<P>>) -> X {
    table[a.label.op.id as int][b.label.op.id as int]
}

/// The identifier of `v` is that of no other vertex of `vs`.
pub open spec fn id_unique_in<P: OperationParameter>(vs: Seq<Vertex<VertexLabel<P>>>, v: Vertex<VertexLabel<P>>) -> bool {
    forall|w: Vertex<VertexLabel<P>>| vs.contains(w) && w.id == v.id ==> w == v
}

proof fn lemma_filter_sub<V>(s: Seq<V>, p: spec_fn(V) -> bool)
    ensures
        forall|x: V| s.filter(p).contains(x) ==> s.contains(x),
{
    assert forall|x: V| s.filter(p).contains(x) implies s.contains(x) by {
        s.lemma_filter_contains_rev(p, x);
    }
}

proof fn lemma_filter_keeps<V>(s: Seq<V>, p: spec_fn(V) -> bool, x: V)
    requires
        s.contains(x),
        p(x),
    ensures
        s.filter(p).contains(x),
{
    let i = choose|i: int| 0 <= i < s.len() && s[i] == x;
    s.lemma_filter_contains(p, i);
}

// ---------------------------------------------------------------------------------
// Semantic resolution with a winner table (`handling_conflict`).

/// What the scan of `v1` against `rest` finds: it removes only vertices whose entry names
/// `v1`'s operation the winner; it stops in conflict only on an entry that names another
/// winner; when not in conflict, every vertex of `rest` either commutes with `v1` (no
/// entry) or is removed.
proof fn lemma_conflict_scan<P: OperationParameter>(
    table: Seq<Seq<Option<usize>>>,
    v1: Vertex<VertexLabel<P>>,
    rest: Seq<Vertex<VertexLabel<P>>>,
)
    ensures
        forall|id: crate::dag::VertexId| #[trigger] conflict_scan(table, v1, rest).1.contains(id) ==> exists|x: Vertex<VertexLabel<P>>|
            rest.contains(x) && x.id == id && #[trigger] entry(table, v1, x) == Some(v1.label.op.id),
        conflict_scan(table, v1, rest).0 ==> exists|x: Vertex<VertexLabel<P>>|
            rest.contains(x) && #[trigger] entry(table, v1, x) is Some && entry(table, v1, x)->0 != v1.label.op.id,
        !conflict_scan(table, v1, rest).0 ==> forall|x: Vertex<VertexLabel<P>>| rest.contains(x) ==>
            #[trigger] entry(table, v1, x) is None || conflict_scan(table, v1, rest).1.contains(x.id),
    decreases rest.len(),
{
    if rest.len() > 0 {
        let q = rest.drop_last();
        let y = rest.last();
        lemma_conflict_scan(table, v1, q);
        let prev = conflict_scan(table, v1, q);
        let r = conflict_scan(table, v1, rest);
        assert forall|x: Vertex<VertexLabel<P>>| q.contains(x) implies rest.contains(x) by {
            let i = choose|i: int| 0 <= i < q.len() && q[i] == x;
            assert(rest[i] == x);
        }
        assert(rest.contains(y)) by {
            assert(rest[rest.len() - 1] == y);
        }
        assert(entry(table, v1, y) == table[v1.label.op.id as int][rest.last().label.op.id as int]);
        assert forall|id: crate::dag::VertexId| #[trigger] r.1.contains(id) implies exists|x: Vertex<VertexLabel<P>>|
            rest.contains(x) && x.id == id && #[trigger] entry(table, v1, x) == Some(v1.label.op.id) by {
            if prev.1.contains(id) {
                let x = choose|x: Vertex<VertexLabel<P>>| q.contains(x) && x.id == id && #[trigger] entry(table, v1, x) == Some(v1.label.op.id);
                assert(rest.contains(x));
            } else {
                assert(r.1 == prev.1.push(y.id));
                let k = choose|k: int| 0 <= k < r.1.len() && r.1[k] == id;
                assert(k == prev.1.len());
            }
        }
        if r.0 && !prev.0 {
            assert(entry(table, v1, y) is Some);
        }
        if !r.0 {
            assert forall|x: Vertex<VertexLabel<P>>| rest.contains(x) implies
                #[trigger] entry(table, v1, x) is None || r.1.contains(x.id) by {
                let i = choose|i: int| 0 <= i < rest.len() && rest[i] == x;
                if i < q.len() {
                    assert(q[i] == x);
                    if prev.1.contains(x.id) {
                        let k = choose|k: int| 0 <= k < prev.1.len() && prev.1[k] == x.id;
                        assert(r.1[k] == x.id);
                    }
                } else {
                    assert(x == y);
                    if entry(table, v1, y) is Some {
                        assert(r.1 == prev.1.push(y.id));
                        assert(r.1[prev.1.len() as int] == y.id);
                    }
                }
            }
        }
    }
}

/// What `resolve_conflicts` keeps is among the vertices it is given.
proof fn lemma_resolve_sub<P: OperationParameter>(table: Seq<Seq<Option<usize>>>, vs: Seq<Vertex<VertexLabel<P>>>)
    ensures
        forall|x: Vertex<VertexLabel<P>>| #[trigger] resolve_conflicts(table, vs).contains(x) ==> vs.contains(x),
    decreases vs.len(),
{
    if vs.len() > 1 {
        let v1 = vs.last();
        let rest = vs.drop_last();
        let scan = conflict_scan(table, v1, rest);
        let pred = |x: Vertex<VertexLabel<P>>| !scan.1.contains(x.id);
        let rest2 = rest.filter(pred);
        rest.lemma_filter_len(pred);
        lemma_resolve_sub(table, rest2);
        lemma_filter_sub(rest, pred);
        let head: Seq<Vertex<VertexLabel<P>>> = if scan.0 { Seq::empty() } else { seq![v1] };
        assert forall|x: Vertex<VertexLabel<P>>| #[trigger] resolve_conflicts(table, vs).contains(x) implies vs.contains(x) by {
            let r = resolve_conflicts(table, vs);
            assert(r == head + resolve_conflicts(table, rest2));
            let i = choose|i: int| 0 <= i < r.len() && r[i] == x;
            if i < head.len() {
                assert(vs[vs.len() - 1] == x);
            } else {
                assert(resolve_conflicts(table, rest2)[i - head.len()] == x);
                assert(resolve_conflicts(table, rest2).contains(x));
                assert(rest2.contains(x));
                assert(rest.contains(x));
                let j = choose|j: int| 0 <= j < rest.len() && rest[j] == x;
                assert(vs[j] == x);
            }
        }
    }
}

/// A vertex that the semantic resolution of a level does not keep lost to another: some
/// vertex of the level has an entry against it that names that vertex's operation the
/// winner, or it has an entry against some vertex of the level that names an operation
/// other than its own the winner.
pub proof fn lemma_resolve_loser_lost<P: OperationParameter>(
    table: Seq<Seq<Option<usize>>>,
    vs: Seq<Vertex<VertexLabel<P>>>,
    u: Vertex<VertexLabel<P>>,
)
    requires
        vs.contains(u),
        id_unique_in(vs, u),
        !resolve_conflicts(table, vs).contains(u),
    ensures
        exists|w: Vertex<VertexLabel<P>>| #![trigger vs.contains(w)]
            vs.contains(w) && (entry(table, w, u) == Some(w.label.op.id) || (entry(table, u, w) is Some
                && entry(table, u, w)->0 != u.label.op.id)),
    decreases vs.len(),
{
    if vs.len() <= 1 {
        assert(resolve_conflicts(table, vs) == vs);
    } else {
        let v1 = vs.last();
        let rest = vs.drop_last();
        let scan = conflict_scan(table, v1, rest);
        let pred = |x: Vertex<VertexLabel<P>>| !scan.1.contains(x.id);
        let rest2 = rest.filter(pred);
        rest.lemma_filter_len(pred);
        lemma_filter_sub(rest, pred);
        lemma_conflict_scan(table, v1, rest);
        let head: Seq<Vertex<VertexLabel<P>>> = if scan.0 { Seq::empty() } else { seq![v1] };
        let r = resolve_conflicts(table, vs);
        assert(r == head + resolve_conflicts(table, rest2));
        assert(vs.contains(v1)) by {
            assert(vs[vs.len() - 1] == v1);
        }
        assert forall|x: Vertex<VertexLabel<P>>| rest.contains(x) implies vs.contains(x) by {
            let j = choose|j: int| 0 <= j < rest.len() && rest[j] == x;
            assert(vs[j] == x);
        }
        if u == v1 {
            if !scan.0 {
                assert(r[0] == u);
            }
            let x = choose|x: Vertex<VertexLabel<P>>|
                rest.contains(x) && #[trigger] entry(table, v1, x) is Some && entry(table, v1, x)->0 != v1.label.op.id;
            assert(vs.contains(x));
        } else {
            assert(rest.contains(u)) by {
                let j = choose|j: int| 0 <= j < vs.len() && vs[j] == u;
                assert(j != vs.len() - 1);
                assert(rest[j] == u);
            }
            if scan.1.contains(u.id) {
                let x = choose|x: Vertex<VertexLabel<P>>|
                    rest.contains(x) && x.id == u.id && #[trigger] entry(table, v1, x) == Some(v1.label.op.id);
                assert(x == u);
            } else {
                lemma_filter_keeps(rest, pred, u);
                assert(!resolve_conflicts(table, rest2).contains(u)) by {
                    if resolve_conflicts(table, rest2).contains(u) {
                        let i = choose|i: int| 0 <= i < resolve_conflicts(table, rest2).len() && resolve_conflicts(table, rest2)[i] == u;
                        assert(r[head.len() + i] == u);
                    }
                }
                assert forall|w: Vertex<VertexLabel<P>>| rest2.contains(w) && w.id == u.id implies w == u by {
                    assert(vs.contains(w));
                }
                lemma_resolve_loser_lost(table, rest2, u);
                let w = choose|w: Vertex<VertexLabel<P>>| #![trigger rest2.contains(w)]
                    rest2.contains(w) && (entry(table, w, u) == Some(w.label.op.id) || (entry(table, u, w) is Some
                        && entry(table, u, w)->0 != u.label.op.id));
                assert(vs.contains(w));
            }
        }
    }
}

/// Two vertices with different identifiers that the semantic resolution of a level both
/// keeps commute one way at least: the entry of one of them against the other names no
/// winner.
pub proof fn lemma_resolve_kept_commute<P: OperationParameter>(
    table: Seq<Seq<Option<usize>>>,
    vs: Seq<Vertex<VertexLabel<P>>>,
    u: Vertex<VertexLabel<P>>,
    v: Vertex<VertexLabel<P>>,
)
    requires
        resolve_conflicts(table, vs).contains(u),
        resolve_conflicts(table, vs).contains(v),
        u.id != v.id,
    ensures
        entry(table, u, v) is None || entry(table, v, u) is None,
    decreases vs.len(),
{
    if vs.len() > 1 {
        let v1 = vs.last();
        let rest = vs.drop_last();
        let scan = conflict_scan(table, v1, rest);
        let pred = |x: Vertex<VertexLabel<P>>| !scan.1.contains(x.id);
        let rest2 = rest.filter(pred);
        rest.lemma_filter_len(pred);
        lemma_filter_sub(rest, pred);
        lemma_conflict_scan(table, v1, rest);
        lemma_resolve_sub(table, rest2);
        let head: Seq<Vertex<VertexLabel<P>>> = if scan.0 { Seq::empty() } else { seq![v1] };
        let r = resolve_conflicts(table, vs);
        let r2 = resolve_conflicts(table, rest2);
        assert(r == head + r2);
        let iu = choose|i: int| 0 <= i < r.len() && r[i] == u;
        let iv = choose|i: int| 0 <= i < r.len() && r[i] == v;
        if iu >= head.len() && iv >= head.len() {
            assert(r2[iu - head.len()] == u);
            assert(r2[iv - head.len()] == v);
            lemma_resolve_kept_commute(table, rest2, u, v);
        } else if iu < head.len() {
            assert(u == v1 && !scan.0);
            assert(iv != iu);
            assert(r2[iv - head.len()] == v);
            assert(r2.contains(v));
            assert(rest2.contains(v));
            rest.lemma_filter_contains_rev(pred, v);
            assert(entry(table, v1, v) is None || scan.1.contains(v.id));
        } else {
            assert(v == v1 && !scan.0);
            assert(r2[iu - head.len()] == u);
            assert(r2.contains(u));
            assert(rest2.contains(u));
            rest.lemma_filter_contains_rev(pred, u);
            assert(entry(table, v1, u) is None || scan.1.contains(u.id));
        }
    }
}

// ---------------------------------------------------------------------------------
// Resolution fair to the processes, with a conflict table (`fair_reconciliation`).

/// What the fair scan of `v1` against `rest` finds: it removes only vertices the table
/// marks as conflicting with `v1`; it is in conflict only with a vertex the table marks
/// as conflicting and over which `v1` does not prevail.
proof fn lemma_fair_scan<P: OperationParameter>(
    table: Seq<Seq<bool>>,
    scores: Map<u32, nat>,
    v1: Vertex<VertexLabel<P>>,
    rest: Seq<Vertex<VertexLabel<P>>>,
)
    ensures
        forall|x: Vertex<VertexLabel<P>>| #[trigger] fair_scan(table, scores, v1, rest).1.contains(x)
            ==> rest.contains(x) && entry(table, v1, x),
        fair_scan(table, scores, v1, rest).0 ==> exists|x: Vertex<VertexLabel<P>>|
            rest.contains(x) && #[trigger] entry(table, v1, x) && !fair_beats(scores, v1, x),
    decreases rest.len(),
{
    if rest.len() > 0 {
        let q = rest.drop_last();
        let y = rest.last();
        lemma_fair_scan(table, scores, v1, q);
        let prev = fair_scan(table, scores, v1, q);
        let r = fair_scan(table, scores, v1, rest);
        assert forall|x: Vertex<VertexLabel<P>>| q.contains(x) implies rest.contains(x) by {
            let i = choose|i: int| 0 <= i < q.len() && q[i] == x;
            assert(rest[i] == x);
        }
        assert(rest.contains(y)) by {
            assert(rest[rest.len() - 1] == y);
        }
        assert(entry(table, v1, y) == table[v1.label.op.id as int][y.label.op.id as int]);
        assert forall|x: Vertex<VertexLabel<P>>| #[trigger] r.1.contains(x) implies rest.contains(x) && entry(table, v1, x) by {
            if !prev.1.contains(x) {
                assert(r.1 == prev.1.push(y));
                let k = choose|k: int| 0 <= k < r.1.len() && r.1[k] == x;
                assert(k == prev.1.len());
            }
        }
    }
}

/// What the fair resolution of a level makes winners and losers is among its vertices,
/// and every loser has a conflict that the table marks with some vertex of the level.
pub proof fn lemma_fair_level_losers<P: OperationParameter>(
    table: Seq<Seq<bool>>,
    scores: Map<u32, nat>,
    vs: Seq<Vertex<VertexLabel<P>>>,
)
    ensures
        forall|x: Vertex<VertexLabel<P>>| #[trigger] fair_level(table, scores, vs).0.contains(x) ==> vs.contains(x),
        forall|u: Vertex<VertexLabel<P>>| #[trigger] fair_level(table, scores, vs).1.contains(u) ==> exists|w: Vertex<VertexLabel<P>>|
            #![trigger vs.contains(w)]
            vs.contains(w) && (entry(table, w, u) || entry(table, u, w)),
    decreases vs.len(),
{
    if vs.len() > 1 {
        let v1 = vs.last();
        let rest = vs.drop_last();
        let scan = fair_scan(table, scores, v1, rest);
        let pred = |x: Vertex<VertexLabel<P>>| !ids_of(scan.1).contains(x.id);
        let rest2 = rest.filter(pred);
        rest.lemma_filter_len(pred);
        lemma_filter_sub(rest, pred);
        lemma_fair_scan(table, scores, v1, rest);
        lemma_fair_level_losers(table, scores, rest2);
        let sub = fair_level(table, scores, rest2);
        let lv = fair_level(table, scores, vs);
        assert(vs.contains(v1)) by {
            assert(vs[vs.len() - 1] == v1);
        }
        assert forall|x: Vertex<VertexLabel<P>>| rest.contains(x) implies vs.contains(x) by {
            let j = choose|j: int| 0 <= j < rest.len() && rest[j] == x;
            assert(vs[j] == x);
        }
        let head: Seq<Vertex<VertexLabel<P>>> = if scan.0 { Seq::empty() } else { seq![v1] };
        let mid: Seq<Vertex<VertexLabel<P>>> = if scan.0 { seq![v1] } else { Seq::empty() };
        assert(lv.0 == head + sub.0);
        assert(lv.1 == scan.1 + mid + sub.1);
        assert forall|x: Vertex<VertexLabel<P>>| #[trigger] lv.0.contains(x) implies vs.contains(x) by {
            let i = choose|i: int| 0 <= i < lv.0.len() && lv.0[i] == x;
            if i >= head.len() {
                assert(sub.0[i - head.len()] == x);
                assert(sub.0.contains(x));
                assert(rest2.contains(x));
                assert(rest.contains(x));
            }
        }
        assert forall|u: Vertex<VertexLabel<P>>| #[trigger] lv.1.contains(u) implies exists|w: Vertex<VertexLabel<P>>|
            #![trigger vs.contains(w)]
            vs.contains(w) && (entry(table, w, u) || entry(table, u, w)) by {
            let i = choose|i: int| 0 <= i < lv.1.len() && lv.1[i] == u;
            if i < scan.1.len() {
                assert(scan.1[i] == u);
                assert(scan.1.contains(u));
                assert(entry(table, v1, u));
            } else if i < scan.1.len() + mid.len() {
                assert(u == v1);
                let x = choose|x: Vertex<VertexLabel<P>>| rest.contains(x) && #[trigger] entry(table, v1, x) && !fair_beats(scores, v1, x);
                assert(vs.contains(x));
            } else {
                assert(sub.1[i - scan.1.len() - mid.len()] == u);
                assert(sub.1.contains(u));
                let w = choose|w: Vertex<VertexLabel<P>>| #![trigger rest2.contains(w)]
                    rest2.contains(w) && (entry(table, w, u) || entry(table, u, w));
                assert(vs.contains(w));
            }
        }
    } else {
        assert(fair_level(table, scores, vs).1.len() == 0);
    }
}

/// A vertex of a level that the table marks as conflicting with no other vertex of the
/// level, either way, wins in the fair resolution of the level.
pub proof fn lemma_fair_level_keeps_free<P: OperationParameter>(
    table: Seq<Seq<bool>>,
    scores: Map<u32, nat>,
    vs: Seq<Vertex<VertexLabel<P>>>,
    v: Vertex<VertexLabel<P>>,
)
    requires
        vs.contains(v),
        id_unique_in(vs, v),
        forall|w: Vertex<VertexLabel<P>>| #[trigger] vs.contains(w) && w.id != v.id ==> !entry(table, v, w) && !entry(table, w, v),
    ensures
        fair_level(table, scores, vs).0.contains(v),
    decreases vs.len(),
{
    if vs.len() <= 1 {
    } else {
        let v1 = vs.last();
        let rest = vs.drop_last();
        let scan = fair_scan(table, scores, v1, rest);
        let pred = |x: Vertex<VertexLabel<P>>| !ids_of(scan.1).contains(x.id);
        let rest2 = rest.filter(pred);
        rest.lemma_filter_len(pred);
        lemma_filter_sub(rest, pred);
        lemma_fair_scan(table, scores, v1, rest);
        let sub = fair_level(table, scores, rest2);
        let lv = fair_level(table, scores, vs);
        let head: Seq<Vertex<VertexLabel<P>>> = if scan.0 { Seq::empty() } else { seq![v1] };
        assert(lv.0 == head + sub.0);
        assert(vs.contains(v1)) by {
            assert(vs[vs.len() - 1] == v1);
        }
        assert forall|x: Vertex<VertexLabel<P>>| rest.contains(x) implies vs.contains(x) by {
            let j = choose|j: int| 0 <= j < rest.len() && rest[j] == x;
            assert(vs[j] == x);
        }
        if v == v1 {
            if scan.0 {
                let x = choose|x: Vertex<VertexLabel<P>>| rest.contains(x) && #[trigger] entry(table, v1, x) && !fair_beats(scores, v1, x);
                assert(vs.contains(x));
                if x.id == v.id {
                    assert(x == v);
                }
            }
            assert(lv.0[0] == v);
        } else {
            assert(rest.contains(v)) by {
                let j = choose|j: int| 0 <= j < vs.len() && vs[j] == v;
                assert(j != vs.len() - 1);
                assert(rest[j] == v);
            }
            assert(v1.id != v.id);
            assert(!entry(table, v1, v));
            assert(!ids_of(scan.1).contains(v.id)) by {
                if ids_of(scan.1).contains(v.id) {
                    let k = choose|k: int| 0 <= k < ids_of(scan.1).len() && ids_of(scan.1)[k] == v.id;
                    let x = scan.1[k];
                    assert(scan.1.contains(x));
                    assert(rest.contains(x) && entry(table, v1, x));
                    assert(vs.contains(x) && x.id == v.id);
                    assert(x == v);
                }
            }
            lemma_filter_keeps(rest, pred, v);
            assert forall|w: Vertex<VertexLabel<P>>| rest2.contains(w) && w.id == v.id implies w == v by {
                assert(vs.contains(w));
            }
            assert forall|w: Vertex<VertexLabel<P>>| #[trigger] rest2.contains(w) && w.id != v.id implies !entry(table, v, w) && !entry(table, w, v) by {
                assert(vs.contains(w));
            }
            lemma_fair_level_keeps_free(table, scores, rest2, v);
            let i = choose|i: int| 0 <= i < sub.0.len() && sub.0[i] == v;
            assert(lv.0[head.len() + i] == v);
        }
    }
}

// ---------------------------------------------------------------------------------
// The levels of the walk from the root, as the two resolutions see them.

/// A level of the walk holds distinct identifiers of vertices of the DAG, no more of
/// them than fit in memory.
proof fn lemma_level_fits<T>(dag: Dag<T>, k: nat)
    requires
        dag.wf(),
    ensures
        dag.level_ids(k).no_duplicates(),
        dag.all_contained(dag.level_ids(k)),
        dag.level_ids(k).len() <= usize::MAX,
{
    let l = dag.level_ids(k);
    dag.lemma_level_contained(k);
    if k > 0 {
        dag.lemma_gather(dag.level_ids((k - 1) as nat));
    }
    l.unique_seq_to_set();
    assert(l.to_set().subset_of(dag.id_set())) by {
        assert forall|x: VertexId| l.to_set().contains(x) implies dag.id_set().contains(x) by {
            assert(l.contains(x));
            let i = choose|i: int| 0 <= i < l.len() && l[i] == x;
            assert(dag.contains_id(l[i]));
            let t = choose|t: int| 0 <= t < dag.vertex_seq().len() && #[trigger] dag.vertex_seq()[t].id == x;
            assert(dag.ids()[t] == x);
        }
    }
    vstd::seq_lib::seq_to_set_is_finite(dag.ids());
    vstd::set_lib::lemma_len_subset(l.to_set(), dag.id_set());
    dag.ids().lemma_cardinality_of_set();
    dag.lemma_len_fits();
}

/// The vertices of a level carry the identifiers of the level: distinct identifiers,
/// so each of them is the only one with its identifier.
proof fn lemma_level_vertices<T>(dag: Dag<T>, k: nat)
    requires
        dag.wf(),
    ensures
        level_vertices(dag, k).len() <= usize::MAX,
        forall|i: int| 0 <= i < level_vertices(dag, k).len() ==> #[trigger] level_vertices(dag, k)[i].id == dag.level_ids(k)[i],
        forall|i: int, j: int| 0 <= i < level_vertices(dag, k).len() && 0 <= j < level_vertices(dag, k).len()
            && #[trigger] level_vertices(dag, k)[i].id == #[trigger] level_vertices(dag, k)[j].id ==> i == j,
{
    lemma_level_fits(dag, k);
    let l = dag.level_ids(k);
    let vs = level_vertices(dag, k);
    assert forall|i: int| 0 <= i < vs.len() implies #[trigger] vs[i].id == l[i] by {
        assert(dag.contains_id(l[i]));
        let t = choose|t: int| 0 <= t < dag.vertex_seq().len() && #[trigger] dag.vertex_seq()[t].id == l[i];
        dag.lemma_first_exists(t, l[i]);
    }
}

/// Ordering vertices by operation identifier keeps them, each as often, and puts
/// their operation identifiers in increasing order.
pub proof fn lemma_sort_by_op_id_same<P: OperationParameter>(vs: Seq<Vertex<VertexLabel<P>>>)
    requires
        vs.len() <= usize::MAX,
    ensures
        sort_by_op_id(vs).to_multiset() == vs.to_multiset(),
        forall|x: Vertex<VertexLabel<P>>| #[trigger] sort_by_op_id(vs).contains(x) <==> vs.contains(x),
        forall|i: int, j: int| 0 <= i <= j < sort_by_op_id(vs).len()
            ==> #[trigger] sort_by_op_id(vs)[i].label.op.id <= #[trigger] sort_by_op_id(vs)[j].label.op.id,
{
    broadcast use vstd::seq_lib::group_to_multiset_ensures;
    let keys = op_keys(vs);
    let leq = key_leq::<KeyPosition>();
    KeyPosition::lemma_key_total();
    assert(leq == (|x: KeyPosition, y: KeyPosition| KeyPosition::key_le(x, y)));
    let sorted = keys.sort_by(leq);
    keys.lemma_sort_by_ensures(leq);
    let g = |key: KeyPosition| vs[key.position as int];
    assert(sort_by_op_id(vs) == sorted.map_values(g));
    assert(vs =~= keys.map_values(g)) by {
        assert forall|i: int| 0 <= i < vs.len() implies #[trigger] vs[i] == keys.map_values(g)[i] by {
            assert(keys[i].position == i);
        }
    }
    lemma_map_same_multiset(sorted, keys, g);
    assert forall|x: Vertex<VertexLabel<P>>| #[trigger] sort_by_op_id(vs).contains(x) <==> vs.contains(x) by {
        assert(sort_by_op_id(vs).to_multiset().count(x) == vs.to_multiset().count(x));
    }
    vstd::seq_lib::to_multiset_len(keys);
    vstd::seq_lib::to_multiset_len(sorted);
    assert forall|i: int| 0 <= i < sorted.len() implies #[trigger] g(sorted[i]).label.op.id == sorted[i].key by {
        assert(sorted.to_multiset().count(sorted[i]) > 0);
        assert(keys.contains(sorted[i]));
        let t = choose|t: int| 0 <= t < keys.len() && keys[t] == sorted[i];
    }
    assert forall|i: int, j: int| 0 <= i <= j < sort_by_op_id(vs).len()
        implies #[trigger] sort_by_op_id(vs)[i].label.op.id <= #[trigger] sort_by_op_id(vs)[j].label.op.id by {
        assert(sort_by_op_id(vs)[i] == g(sorted[i]));
        assert(sort_by_op_id(vs)[j] == g(sorted[j]));
        if i < j {
            assert(leq(sorted[i], sorted[j]));
        }
    }
}

/// A vertex of a level, ordered by operation identifier, is the only one there with its
/// identifier.
proof fn lemma_sorted_level_unique<P: OperationParameter>(dag: Dag<VertexLabel<P>>, k: nat, v: Vertex<VertexLabel<P>>)
    requires
        dag.wf(),
        level_vertices(dag, k).contains(v),
    ensures
        sort_by_op_id(level_vertices(dag, k)).contains(v),
        id_unique_in(sort_by_op_id(level_vertices(dag, k)), v),
        forall|w: Vertex<VertexLabel<P>>| #[trigger] sort_by_op_id(level_vertices(dag, k)).contains(w) <==> level_vertices(dag, k).contains(w),
{
    let vs = level_vertices(dag, k);
    lemma_level_vertices(dag, k);
    lemma_sort_by_op_id_same(vs);
    assert forall|w: Vertex<VertexLabel<P>>| sort_by_op_id(vs).contains(w) && w.id == v.id implies w == v by {
        assert(vs.contains(w));
        let a = choose|a: int| 0 <= a < vs.len() && vs[a] == w;
        let b = choose|b: int| 0 <= b < vs.len() && vs[b] == v;
        assert(vs[a].id == vs[b].id);
    }
}

proof fn lemma_fair_state_grows<P: OperationParameter>(table: Seq<Seq<bool>>, dag: Dag<VertexLabel<P>>, k: nat, j: nat)
    requires
        k <= j,
    ensures
        forall|x: Vertex<VertexLabel<P>>| fair_state(table, dag, k).0.contains(x) ==> #[trigger] fair_state(table, dag, j).0.contains(x),
    decreases j - k,
{
    if k < j {
        lemma_fair_state_grows(table, dag, k, (j - 1) as nat);
        let prev = fair_state(table, dag, (j - 1) as nat);
        assert forall|x: Vertex<VertexLabel<P>>| prev.0.contains(x) implies #[trigger] fair_state(table, dag, j).0.contains(x) by {
            let i = choose|i: int| 0 <= i < prev.0.len() && prev.0[i] == x;
            assert(fair_state(table, dag, j).0[i] == x);
        }
    }
}

proof fn lemma_conflict_order_grows<P: OperationParameter>(table: Seq<Seq<Option<usize>>>, dag: Dag<VertexLabel<P>>, k: nat, j: nat)
    requires
        k <= j,
    ensures
        forall|x: Vertex<VertexLabel<P>>| conflict_order(table, dag, k).contains(x) ==> #[trigger] conflict_order(table, dag, j).contains(x),
    decreases j - k,
{
    if k < j {
        lemma_conflict_order_grows(table, dag, k, (j - 1) as nat);
        let prev = conflict_order(table, dag, (j - 1) as nat);
        assert forall|x: Vertex<VertexLabel<P>>| prev.contains(x) implies #[trigger] conflict_order(table, dag, j).contains(x) by {
            let i = choose|i: int| 0 <= i < prev.len() && prev[i] == x;
            assert(conflict_order(table, dag, j)[i] == x);
        }
    }
}

/// A vertex of level `k >= 1` of the walk from the root that the table marks as
/// conflicting with no other vertex of its level, either way, is kept by
/// `fair_reconciliation`: it is among the vertices kept from level `k` on, and so among
/// those returned (which are those kept up to any empty level).
pub proof fn lemma_fair_keeps_free<P: OperationParameter>(
    table: Seq<Seq<bool>>,
    dag: Dag<VertexLabel<P>>,
    k: nat,
    v: Vertex<VertexLabel<P>>,
)
    requires
        dag.wf(),
        k >= 1,
        level_vertices(dag, k).contains(v),
        forall|w: Vertex<VertexLabel<P>>| #[trigger] level_vertices(dag, k).contains(w) && w.id != v.id
            ==> !entry(table, v, w) && !entry(table, w, v),
    ensures
        forall|j: nat| j >= k || dag.level_ids(j).len() == 0 ==> #[trigger] fair_state(table, dag, j).0.contains(v),
{
    let vs = sort_by_op_id(level_vertices(dag, k));
    lemma_sorted_level_unique(dag, k, v);
    let prev = fair_state(table, dag, (k - 1) as nat);
    assert forall|w: Vertex<VertexLabel<P>>| #[trigger] vs.contains(w) && w.id != v.id implies !entry(table, v, w) && !entry(table, w, v) by {
        assert(level_vertices(dag, k).contains(w));
    }
    lemma_fair_level_keeps_free(table, prev.1, vs, v);
    let lv = fair_level(table, prev.1, vs);
    assert(fair_state(table, dag, k).0 == prev.0 + lv.0);
    let i = choose|i: int| 0 <= i < lv.0.len() && lv.0[i] == v;
    assert(fair_state(table, dag, k).0[prev.0.len() + i] == v);
    assert forall|j: nat| j >= k || dag.level_ids(j).len() == 0 implies #[trigger] fair_state(table, dag, j).0.contains(v) by {
        if j < k {
            let l = dag.level_ids(k);
            lemma_level_vertices(dag, k);
            dag.lemma_level_empty_after(j, k);
            assert(level_vertices(dag, k).len() == 0);
        }
        lemma_fair_state_grows(table, dag, k, j);
    }
}

/// A vertex of level `k >= 1` of the walk from the root that `handling_conflict` does
/// not keep (it is not among the vertices kept up to some level `j >= k`) lost to
/// another vertex of its level: the entry of some vertex of the level against it names
/// that vertex's operation the winner, or its own entry against some vertex of the
/// level names an operation other than its own.
pub proof fn lemma_conflict_loser_lost<P: OperationParameter>(
    table: Seq<Seq<Option<usize>>>,
    dag: Dag<VertexLabel<P>>,
    k: nat,
    j: nat,
    u: Vertex<VertexLabel<P>>,
)
    requires
        dag.wf(),
        1 <= k <= j,
        level_vertices(dag, k).contains(u),
        !conflict_order(table, dag, j).contains(u),
    ensures
        exists|w: Vertex<VertexLabel<P>>| #![trigger level_vertices(dag, k).contains(w)]
            level_vertices(dag, k).contains(w) && (entry(table, w, u) == Some(w.label.op.id) || (entry(table, u, w) is Some
                && entry(table, u, w)->0 != u.label.op.id)),
{
    let vs = sort_by_op_id(level_vertices(dag, k));
    lemma_sorted_level_unique(dag, k, u);
    lemma_conflict_order_grows(table, dag, k, j);
    let prev = conflict_order(table, dag, (k - 1) as nat);
    let rv = resolve_conflicts(table, vs);
    assert(conflict_order(table, dag, k) == prev + rv);
    assert(!rv.contains(u)) by {
        if rv.contains(u) {
            let i = choose|i: int| 0 <= i < rv.len() && rv[i] == u;
            assert(conflict_order(table, dag, k)[prev.len() + i] == u);
        }
    }
    lemma_resolve_loser_lost(table, vs, u);
    let w = choose|w: Vertex<VertexLabel<P>>| #![trigger vs.contains(w)]
        vs.contains(w) && (entry(table, w, u) == Some(w.label.op.id) || (entry(table, u, w) is Some
            && entry(table, u, w)->0 != u.label.op.id));
    assert(level_vertices(dag, k).contains(w));
}

} // verus!
