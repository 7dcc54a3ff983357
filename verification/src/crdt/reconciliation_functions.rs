use vstd::prelude::*;
use std::cmp::Ordering;
use crate::crdt::{Operation, OperationParameter, VertexLabel, applied, mutation_chain};
use crate::dag::{Dag, Vertex, VertexId};
use crate::sorting::{TotalKey, DistancePosition, KeyPosition, sort_keys, key_leq, lemma_sort_keys_contains, idx};
use crate::dag::{root_id, id_in};
use crate::crdt::process_scores::{ProcessScores, score_of};
use crate::crdt::fair_walk::{fair_order, fair_order_no_n};
use crate::crdt::{apply_order, ops_of, after_first};
use crate::crdt::convergence::{basic_ops, distance_ordered};

verus! {

/// The values a sequence of references points to.
pub open spec fn derefs<V>(s: Seq<&V>) -> Seq<V> {
    s.map_values(|x: &V| *x)
}

/// The operations of a sequence of vertices.
pub open spec fn vertex_ops<P: OperationParameter>(vs: Seq<Vertex<VertexLabel<P>>>) -> Seq<Operation<P>> {
    vs.map_values(|v: Vertex<VertexLabel<P>>| v.label.op)
}

/// The labels of the vertices of `dag` ordered by distance from the root, vertices at
/// the same distance keeping the order in which they were added (each identifier
/// standing for the first vertex added with it). The root comes first.
pub fn basic_exploration<P: OperationParameter>(dag: &Dag<VertexLabel<P>>) -> (r: Vec<&VertexLabel<P>>)
    ensures
        r@.len() == dag.ids().len(),
        forall|k: int| 0 <= k < r@.len() ==> *r@[k] == dag.all_vertices()[dag.distance_order()[k]].label,
        dag.wf() ==> after_first(ops_of(r@)) == basic_ops(*dag),
{
    let ids = dag.get_all_ids();
    let mut verts: Vec<&Vertex<VertexLabel<P>>> = Vec::new();
    let mut keys: Vec<DistancePosition> = Vec::new();
    let mut i: usize = 0;
    while i < ids.len()
        invariant
            0 <= i <= ids@.len(),
            ids@ == dag.ids(),
            verts@.len() == i,
            keys@.len() == i,
            forall|j: int| 0 <= j < i ==> *verts@[j] == dag.all_vertices()[j],
            forall|j: int| 0 <= j < i ==> keys@[j] == (DistancePosition { distance: dag.all_vertices()[j].distance, position: j as usize }),
        decreases ids@.len() - i,
    {
        proof {
            assert(dag.contains_id(ids@[i as int])) by {
                assert(dag.vertex_seq()[i as int].id == ids@[i as int]);
            }
        }
        let v = dag.get_vertex(&ids[i]).unwrap();
        verts.push(v);
        keys.push(DistancePosition { distance: v.distance, position: i });
        i = i + 1;
    }
    let ghost key_seq = dag.distance_keys();
    assert(keys@ =~= key_seq);
    let sorted = sort_keys(&keys);
    proof {
        vstd::seq_lib::to_multiset_len(keys@);
        vstd::seq_lib::to_multiset_len(sorted@);
    }
    let mut r: Vec<&VertexLabel<P>> = Vec::new();
    let mut k: usize = 0;
    while k < sorted.len()
        invariant
            0 <= k <= sorted@.len(),
            sorted@ == key_seq.sort_by(key_leq::<DistancePosition>()),
            key_seq == dag.distance_keys(),
            sorted@.len() == ids@.len(),
            verts@.len() == ids@.len(),
            ids@ == dag.ids(),
            key_seq.len() == ids@.len(),
            forall|j: int| 0 <= j < key_seq.len() ==> #[trigger] key_seq[j] == (DistancePosition { distance: dag.all_vertices()[j].distance, position: j as usize }),
            forall|j: int| 0 <= j < ids@.len() ==> *verts@[j] == dag.all_vertices()[j],
            r@.len() == k,
            forall|j: int| 0 <= j < k ==> *r@[j] == dag.all_vertices()[dag.distance_order()[j]].label,
        decreases sorted@.len() - k,
    {
        let key = sorted[k];
        proof {
            assert(sorted@.contains(key));
            lemma_sort_keys_contains(key_seq, key);
            let t = choose|t: int| 0 <= t < key_seq.len() && key_seq[t] == key;
            assert(key.position == t);
            assert(dag.distance_order()[k as int] == key.position as int);
        }
        r.push(&verts[key.position].label);
        k = k + 1;
    }
    proof {
        dag.lemma_distance_order();
        let o = distance_ordered(*dag);
        if dag.wf() {
            dag.lemma_root_first();
            assert(r@.len() >= 1);
            assert(o.len() == r@.len());
            assert(after_first(ops_of(r@)).len() == r@.len() - 1);
            assert(basic_ops(*dag).len() == r@.len() - 1);
            assert forall|k: int| 0 <= k < r@.len() - 1 implies #[trigger] after_first(ops_of(r@))[k] == basic_ops(*dag)[k] by {
                assert(*r@[k + 1] == dag.all_vertices()[dag.distance_order()[k + 1]].label);
                assert(o[k + 1] == dag.all_vertices()[dag.distance_order()[k + 1]]);
            }
            assert(after_first(ops_of(r@)) =~= basic_ops(*dag));
        }
    }
    r
}

/// For each identifier, in vertex order, a reference to the first vertex added with it.
fn all_vertex_refs<T>(dag: &Dag<T>) -> (r: Vec<&Vertex<T>>)
    requires
        dag.wf(),
    ensures
        derefs(r@) == dag.all_vertices(),
{
    let ids = dag.get_all_ids();
    let mut verts: Vec<&Vertex<T>> = Vec::new();
    let mut i: usize = 0;
    while i < ids.len()
        invariant
            0 <= i <= ids@.len(),
            ids@ == dag.ids(),
            verts@.len() == i,
            forall|j: int| 0 <= j < i ==> *verts@[j] == dag.all_vertices()[j],
        decreases ids@.len() - i,
    {
        proof {
            assert(dag.contains_id(ids@[i as int])) by {
                assert(dag.vertex_seq()[i as int].id == ids@[i as int]);
            }
        }
        let v = dag.get_vertex(&ids[i]).unwrap();
        verts.push(v);
        i = i + 1;
    }
    assert(derefs(verts@) =~= dag.all_vertices());
    verts
}

/// The vertices of `vs` at distance `d`, in order.
fn vertices_at<'a, T>(vs: &Vec<&'a Vertex<T>>, d: u32) -> (r: Vec<&'a Vertex<T>>)
    ensures
        derefs(r@) == derefs(vs@).filter(|v: Vertex<T>| v.distance == d),
{
    let ghost pred = |v: Vertex<T>| v.distance == d;
    let mut r: Vec<&'a Vertex<T>> = Vec::new();
    let mut i: usize = 0;
    while i < vs.len()
        invariant
            0 <= i <= vs@.len(),
            pred == (|v: Vertex<T>| v.distance == d),
            derefs(r@) == derefs(vs@).take(i as int).filter(pred),
        decreases vs@.len() - i,
    {
        proof {
            reveal(Seq::filter);
            assert(derefs(vs@).take(i + 1).drop_last() =~= derefs(vs@).take(i as int));
            assert(derefs(vs@).take(i + 1).last() == *vs@[i as int]);
        }
        if vs[i].distance == d {
            r.push(vs[i]);
            assert(derefs(r@) =~= derefs(vs@).take(i + 1).filter(pred));
        } else {
            assert(derefs(r@) =~= derefs(vs@).take(i + 1).filter(pred));
        }
        i = i + 1;
    }
    assert(derefs(vs@).take(i as int) =~= derefs(vs@));
    r
}

/// Applies `mutate` to `state` and then to the operation of each vertex of `vs`.
fn apply_vertices<P: OperationParameter, S, M: Fn(&S, &Operation<P>) -> S>(
    state: S,
    vs: &Vec<&Vertex<VertexLabel<P>>>,
    mutate: &M,
) -> (r: S)
    requires
        forall|s: &S, op: &Operation<P>| call_requires(*mutate, (s, op)),
    ensures
        applied(*mutate, state, vertex_ops(derefs(vs@)), r),
{
    let ghost ops = vertex_ops(derefs(vs@));
    let ghost s0 = state;
    let ghost mut states: Seq<S> = seq![state];
    let mut state = state;
    let mut i: usize = 0;
    while i < vs.len()
        invariant
            0 <= i <= vs@.len(),
            ops == vertex_ops(derefs(vs@)),
            forall|s: &S, op: &Operation<P>| call_requires(*mutate, (s, op)),
            mutation_chain(*mutate, s0, ops.take(i as int), states),
            states.last() == state,
        decreases vs@.len() - i,
    {
        state = mutate(&state, &vs[i].label.op);
        proof {
            assert(ops.take(i + 1)[i as int] == vs@[i as int].label.op);
            states = states.push(state);
            assert forall|k: int| 0 <= k < ops.take(i + 1).len() implies call_ensures(*mutate, (&states[k], &ops.take(i + 1)[k]), #[trigger] states[k + 1]) by {
                if k < i {
                    assert(ops.take(i + 1)[k] == ops.take(i as int)[k]);
                }
            }
        }
        i = i + 1;
    }
    proof {
        assert(ops.take(i as int) =~= ops);
        assert(applied(*mutate, s0, ops, state));
    }
    state
}

/// `a` may stand before `b` in an order `order` was used to sort by (the greater
/// first): `order` returned something other than `Less` for `(a, b)`, or `Less` for
/// `(b, a)`.
pub open spec fn placed_in_order<V, C: Fn(&V, &V) -> Ordering>(order: C, a: V, b: V) -> bool {
    (exists|o: Ordering| #[trigger] call_ensures(order, (&a, &b), o) && o != Ordering::Less)
        || call_ensures(order, (&b, &a), Ordering::Less)
}

/// `out[k]` is `input[perm[k]]`, each position of `input` taken once, and an element
/// stands before one that came earlier in `input` only where `order` found the
/// earlier one less: elements that `order` does not find less keep their order.
pub open spec fn keeps_input_order<V, C: Fn(&V, &V) -> Ordering>(order: C, input: Seq<V>, out: Seq<V>, perm: Seq<int>) -> bool {
    &&& perm.len() == out.len()
    &&& forall|k: int| 0 <= k < out.len() ==> 0 <= #[trigger] perm[k] < input.len() && out[k] == input[perm[k]]
    &&& forall|k: int, l: int| 0 <= k < l < out.len() ==> #[trigger] perm[k] != #[trigger] perm[l]
    &&& forall|k: int, l: int|
        0 <= k < l < out.len() && #[trigger] perm[k] > #[trigger] perm[l] ==> call_ensures(order, (&out[l], &out[k]), Ordering::Less)
}

/// `out` holds the elements of `input` (with their multiplicities), each next to
/// the following one as `order` placed them, and elements that `order` does not find
/// less keep the order they had in `input`.
pub open spec fn sorted_by_order<V, C: Fn(&V, &V) -> Ordering>(order: C, input: Seq<V>, out: Seq<V>) -> bool {
    &&& out.to_multiset() == input.to_multiset()
    &&& forall|k: int| 0 <= k < out.len() - 1 ==> #[trigger] placed_in_order(order, out[k], out[k + 1])
    &&& exists|perm: Seq<int>| #[trigger] keeps_input_order(order, input, out, perm)
}

/// Sorts `items` so that `order` finds each one not less than the next (the greater
/// first); elements it finds equal keep their order. An insertion sort.
pub fn sort_by_order<'a, V, C: Fn(&V, &V) -> Ordering>(items: &Vec<&'a V>, order: &C) -> (r: Vec<&'a V>)
    requires
        forall|a: &V, b: &V| call_requires(*order, (a, b)),
    ensures
        sorted_by_order(*order, derefs(items@), derefs(r@)),
{
    broadcast use vstd::seq_lib::group_to_multiset_ensures;
    let mut r: Vec<&'a V> = Vec::new();
    let mut i: usize = 0;
    let ghost mut perm: Seq<int> = Seq::empty();
    assert(derefs(items@.take(idx(i))) =~= Seq::<V>::empty());
    assert(derefs(r@) =~= Seq::<V>::empty());
    assert(keeps_input_order(*order, derefs(items@.take(idx(i))), derefs(r@), perm));
    while i < items.len()
        invariant
            0 <= i <= items@.len(),
            forall|a: &V, b: &V| call_requires(*order, (a, b)),
            derefs(r@).to_multiset() == derefs(items@.take(idx(i))).to_multiset(),
            forall|k: int| 0 <= k < derefs(r@).len() - 1 ==> #[trigger] placed_in_order(*order, derefs(r@)[k], derefs(r@)[k + 1]),
            keeps_input_order(*order, derefs(items@.take(idx(i))), derefs(r@), perm),
        decreases items@.len() - i,
    {
        let x = items[i];
        let mut j: usize = r.len();
        loop
            invariant_except_break
                0 <= j <= r@.len(),
                forall|a: &V, b: &V| call_requires(*order, (a, b)),
                forall|m: int| j <= m < r@.len() ==> call_ensures(*order, (#[trigger] r@[m], x), Ordering::Less),
            ensures
                0 <= j <= r@.len(),
                forall|m: int| j <= m < r@.len() ==> call_ensures(*order, (#[trigger] r@[m], x), Ordering::Less),
                j > 0 ==> exists|o: Ordering| #[trigger] call_ensures(*order, (r@[idx(j) - 1], x), o) && o != Ordering::Less,
            decreases j,
        {
            if j == 0 {
                break;
            }
            let o = order(r[j - 1], x);
            match o {
                Ordering::Less => {
                    j = j - 1;
                },
                _ => {
                    assert(call_ensures(*order, (r@[idx(j) - 1], x), o) && o != Ordering::Less);
                    break;
                },
            }
        }
        let ghost old_r = derefs(r@);
        let ghost old_refs = r@;
        r.insert(j, x);
        proof {
            let nr = derefs(r@);
            let inp = derefs(items@.take(idx(i) + 1));
            let old_inp = derefs(items@.take(idx(i)));
            let np = perm.insert(idx(j), idx(i));
            assert(inp =~= old_inp.push(*x));
            assert forall|k: int| 0 <= k < nr.len() implies 0 <= #[trigger] np[k] < inp.len() && nr[k] == inp[np[k]] by {
                if k < j {
                    assert(np[k] == perm[k] && nr[k] == old_r[k]);
                    assert(inp[perm[k]] == old_inp[perm[k]]);
                } else if k == j {
                    assert(np[k] == i && nr[k] == *x);
                } else {
                    assert(np[k] == perm[k - 1] && nr[k] == old_r[k - 1]);
                    assert(inp[perm[k - 1]] == old_inp[perm[k - 1]]);
                }
            }
            assert forall|k: int, l: int| 0 <= k < l < nr.len() implies #[trigger] np[k] != #[trigger] np[l] by {
                if k < j && l < j {
                    assert(perm[k] != perm[l]);
                } else if k < j && l > j {
                    assert(perm[k] != perm[l - 1]);
                } else if k > j {
                    assert(perm[k - 1] != perm[l - 1]);
                } else if k == j {
                    assert(np[l] == perm[l - 1]);
                    assert(perm[l - 1] < i);
                } else {
                    assert(np[k] == perm[k]);
                    assert(perm[k] < i);
                }
            }
            assert forall|k: int, l: int|
                0 <= k < l < nr.len() && #[trigger] np[k] > #[trigger] np[l] implies call_ensures(*order, (&nr[l], &nr[k]), Ordering::Less) by {
                if k < j && l < j {
                    assert(np[k] == perm[k] && np[l] == perm[l]);
                    assert(perm[k] > perm[l]);
                } else if k < j && l > j {
                    assert(np[k] == perm[k] && np[l] == perm[l - 1]);
                    assert(perm[k] > perm[l - 1]);
                } else if k > j {
                    assert(np[k] == perm[k - 1] && np[l] == perm[l - 1]);
                    assert(perm[k - 1] > perm[l - 1]);
                } else if k == j {
                    assert(nr[k] == *x);
                    assert(nr[l] == old_r[l - 1]);
                    assert(call_ensures(*order, (old_refs[l - 1], x), Ordering::Less));
                } else {
                    assert(np[k] == perm[k]);
                    assert(perm[k] < i);
                }
            }
            assert(keeps_input_order(*order, inp, nr, np));
            assert(nr =~= old_r.insert(idx(j), *x));
            assert forall|k: int| 0 <= k < nr.len() - 1 implies #[trigger] placed_in_order(*order, nr[k], nr[k + 1]) by {
                if k + 1 < j {
                    assert(nr[k] == old_r[k] && nr[k + 1] == old_r[k + 1]);
                    assert(placed_in_order(*order, old_r[k], old_r[k + 1]));
                } else if k + 1 == j {
                    assert(nr[k] == old_r[k] && nr[k + 1] == *x);
                } else if k == j {
                    assert(nr[k] == *x && nr[k + 1] == old_r[k]);
                } else {
                    let k1 = k - 1;
                    assert(nr[k] == old_r[k1] && nr[k + 1] == old_r[k1 + 1]);
                    assert(placed_in_order(*order, old_r[k1], old_r[k1 + 1]));
                }
            }
            assert(derefs(items@.take(idx(i) + 1)) =~= derefs(items@.take(idx(i))).push(*x));
            vstd::seq_lib::to_multiset_insert(old_r, idx(j), *x);
            vstd::seq_lib::to_multiset_build(derefs(items@.take(idx(i))), *x);
        }
        proof {
            perm = perm.insert(idx(j), idx(i));
        }
        i = i + 1;
    }
    assert(items@.take(idx(items.len())) =~= items@);
    assert(keeps_input_order(*order, derefs(items@), derefs(r@), perm));
    r
}

/// Concatenation of the sequences of `parts`, in order.
pub open spec fn concat_parts<V>(parts: Seq<Seq<V>>) -> Seq<V>
    decreases parts.len(),
{
    if parts.len() == 0 {
        Seq::empty()
    } else {
        concat_parts(parts.drop_last()) + parts.last()
    }
}

/// `parts` holds, for each distance from 1 to the DAG's length, the vertices at that
/// distance sorted by `order` (the greater first).
pub open spec fn stable_parts<P: OperationParameter, C: Fn(&Vertex<VertexLabel<P>>, &Vertex<VertexLabel<P>>) -> Ordering>(
    dag: Dag<VertexLabel<P>>,
    order: C,
    parts: Seq<Seq<Vertex<VertexLabel<P>>>>,
) -> bool {
    &&& parts.len() == dag.length_of()
    &&& forall|i: int| 0 <= i < parts.len() ==> sorted_by_order(order, dag.level(i + 1), #[trigger] parts[i])
}

/// Applies to a copy of `initial_state` the operations of the vertices at distance
/// 1, then 2, and so on up to the DAG's length, each distance sorted by `order` (the
/// greater first). The root is not applied.
pub fn stable_reconciliation<P, S, M, C>(dag: &Dag<VertexLabel<P>>, initial_state: &S, mutate: M, order: C) -> (r: S) where
    P: OperationParameter,
    S: Clone,
    M: Fn(&S, &Operation<P>) -> S,
    C: Fn(&Vertex<VertexLabel<P>>, &Vertex<VertexLabel<P>>) -> Ordering,

    requires
        dag.wf(),
        dag.length_of() < u32::MAX,
        forall|s: &S, op: &Operation<P>| call_requires(mutate, (s, op)),
        forall|a: &Vertex<VertexLabel<P>>, b: &Vertex<VertexLabel<P>>| call_requires(order, (a, b)),
    ensures
        exists|parts: Seq<Seq<Vertex<VertexLabel<P>>>>, s0: S|
            #![trigger stable_parts(*dag, order, parts), cloned(*initial_state, s0)]
            stable_parts(*dag, order, parts) && cloned(*initial_state, s0) && applied(
                mutate,
                s0,
                vertex_ops(concat_parts(parts)),
                r,
            ),
{
    let all = all_vertex_refs(dag);
    let mut state = initial_state.clone();
    let ghost s0 = state;
    let ghost mut parts: Seq<Seq<Vertex<VertexLabel<P>>>> = Seq::empty();
    proof {
        assert(mutation_chain(mutate, s0, Seq::empty(), seq![s0]));
        assert(vertex_ops(concat_parts(parts)) =~= Seq::empty());
    }
    let mut i: u32 = 1;
    while i <= dag.length()
        invariant
            1 <= i <= dag.length_of() + 1,
            dag.length_of() < u32::MAX,
            derefs(all@) == dag.all_vertices(),
            forall|s: &S, op: &Operation<P>| call_requires(mutate, (s, op)),
            forall|a: &Vertex<VertexLabel<P>>, b: &Vertex<VertexLabel<P>>| call_requires(order, (a, b)),
            cloned(*initial_state, s0),
            parts.len() == i - 1,
            forall|k: int| 0 <= k < parts.len() ==> sorted_by_order(order, dag.level(k + 1), #[trigger] parts[k]),
            applied(mutate, s0, vertex_ops(concat_parts(parts)), state),
        decreases dag.length_of() + 1 - i,
    {
        let level = vertices_at(&all, i);
        let sorted = sort_by_order(&level, &order);
        let ghost before = state;
        state = apply_vertices(state, &sorted, &mutate);
        proof {
            let part = derefs(sorted@);
            let new_parts = parts.push(part);
            assert(new_parts.drop_last() =~= parts);
            assert(concat_parts(new_parts) == concat_parts(parts) + part);
            assert(vertex_ops(concat_parts(parts) + part) =~= vertex_ops(concat_parts(parts)) + vertex_ops(part));
            crate::crdt::lemma_applied_concat(mutate, s0, vertex_ops(concat_parts(parts)), before, vertex_ops(part), state);
            assert forall|k: int| 0 <= k < new_parts.len() implies sorted_by_order(order, dag.level(k + 1), #[trigger] new_parts[k]) by {
                if k < parts.len() {
                    assert(new_parts[k] == parts[k]);
                }
            }
            parts = new_parts;
        }
        i = i + 1;
    }
    proof {
        assert(stable_parts(*dag, order, parts));
    }
    state
}

/// The length of `s` as an integer.
pub open spec fn idx_of_len<A>(s: Seq<A>) -> int {
    s.len() as int
}

/// The vertices of `vs` at a distance from 1 to `k`, in order.
pub open spec fn within_distance<T>(vs: Seq<Vertex<T>>, k: int) -> Seq<Vertex<T>> {
    vs.filter(|v: Vertex<T>| 1 <= v.distance && v.distance <= k)
}

proof fn lemma_within_split<T>(vs: Seq<Vertex<T>>, k: int)
    requires
        k >= 1,
    ensures
        within_distance(vs, k).to_multiset() =~= within_distance(vs, k - 1).to_multiset().add(
            vs.filter(|v: Vertex<T>| v.distance == k).to_multiset(),
        ),
    decreases vs.len(),
{
    broadcast use vstd::seq_lib::group_to_multiset_ensures;
    reveal(Seq::filter);
    if vs.len() > 0 {
        lemma_within_split(vs.drop_last(), k);
    }
}

proof fn lemma_concat_levels<T>(dag: Dag<T>, parts: Seq<Seq<Vertex<T>>>, k: nat)
    requires
        k <= parts.len(),
        forall|i: int| 0 <= i < parts.len() ==> (#[trigger] parts[i]).to_multiset() == dag.level(i + 1).to_multiset(),
    ensures
        concat_parts(parts.take(k as int)).to_multiset() == within_distance(dag.all_vertices(), k as int).to_multiset(),
    decreases k,
{
    broadcast use vstd::seq_lib::group_to_multiset_ensures;
    if k == 0 {
        assert(concat_parts(parts.take(0)) =~= Seq::<Vertex<T>>::empty());
        assert(within_distance(dag.all_vertices(), 0).len() == 0) by {
            reveal(Seq::filter);
            lemma_within_empty(dag.all_vertices());
        }
        assert(within_distance(dag.all_vertices(), 0) =~= Seq::<Vertex<T>>::empty());
    } else {
        lemma_concat_levels(dag, parts, (k - 1) as nat);
        let t = parts.take(k as int);
        assert(t.drop_last() =~= parts.take(k - 1));
        assert(t.last() == parts[k - 1]);
        vstd::seq_lib::lemma_multiset_commutative(concat_parts(t.drop_last()), t.last());
        lemma_within_split(dag.all_vertices(), k as int);
    }
}

proof fn lemma_within_empty<T>(vs: Seq<Vertex<T>>)
    ensures
        within_distance(vs, 0).len() == 0,
    decreases vs.len(),
{
    reveal(Seq::filter);
    if vs.len() > 0 {
        lemma_within_empty(vs.drop_last());
    }
}

proof fn lemma_filter_agree<T>(vs: Seq<Vertex<T>>, p: spec_fn(Vertex<T>) -> bool, q: spec_fn(Vertex<T>) -> bool)
    requires
        forall|i: int| 0 <= i < vs.len() ==> p(#[trigger] vs[i]) == q(vs[i]),
    ensures
        vs.filter(p) == vs.filter(q),
    decreases vs.len(),
{
    reveal(Seq::filter);
    if vs.len() > 0 {
        lemma_filter_agree(vs.drop_last(), p, q);
        assert(p(vs[vs.len() - 1]) == q(vs[vs.len() - 1]));
    }
}

/// `stable_reconciliation` applies every vertex other than the root exactly once:
/// when the root is at distance 0 and every other vertex within the DAG's length and
/// above 0, the parts hold the vertices of `all_vertices` whose identifier is not the
/// root's, each as many times.
pub proof fn lemma_stable_parts_cover<P, C>(dag: Dag<VertexLabel<P>>, order: C, parts: Seq<Seq<Vertex<VertexLabel<P>>>>)
    where
        P: OperationParameter,
        C: Fn(&Vertex<VertexLabel<P>>, &Vertex<VertexLabel<P>>) -> Ordering,
    requires
        dag.wf(),
        dag.distances_fit(),
        stable_parts(dag, order, parts),
    ensures
        concat_parts(parts).to_multiset() == dag.all_vertices().filter(|v: Vertex<VertexLabel<P>>| v.id != root_id()).to_multiset(),
{
    let all = dag.all_vertices();
    let len = dag.length_of();
    dag.lemma_root_first();
    assert forall|i: int| 0 <= i < parts.len() implies (#[trigger] parts[i]).to_multiset() == dag.level(i + 1).to_multiset() by {
        assert(sorted_by_order(order, dag.level(i + 1), parts[i]));
    }
    lemma_concat_levels(dag, parts, parts.len());
    assert(parts.take(idx_of_len(parts)) =~= parts);
    assert forall|i: int| 0 <= i < all.len() implies (1 <= (#[trigger] all[i]).distance && all[i].distance <= len) == (all[i].id != root_id()) by {
        let x = dag.ids()[i];
        assert(dag.vertex_seq()[i].id == x);
        dag.lemma_first_exists(i, x);
        let f = dag.first_index(x);
        assert(all[i] == dag.vertex_seq()[f]);
        assert(dag.vertex_seq()[f].distance <= len);
        if f == 0 {
            assert(x == root_id());
        } else {
            assert(dag.vertex_seq()[f].distance > 0);
            assert(dag.vertex_seq()[0].id == root_id());
            assert(dag.vertex_seq()[0].id != x);
        }
    }
    lemma_filter_agree(
        all,
        |v: Vertex<VertexLabel<P>>| 1 <= v.distance && v.distance <= len,
        |v: Vertex<VertexLabel<P>>| v.id != root_id(),
    );
}

/// `order` compares by `key`: `Less` exactly when the first key is smaller, `Greater`
/// exactly when it is larger.
pub open spec fn ranks_by<V, C: Fn(&V, &V) -> Ordering>(order: C, key: spec_fn(V) -> int) -> bool {
    forall|a: V, b: V, o: Ordering|
        #[trigger] call_ensures(order, (&a, &b), o) ==> (o == Ordering::Less <==> key(a) < key(b)) && (o
            == Ordering::Greater <==> key(a) > key(b))
}

/// No two different elements of `s` share a key.
pub open spec fn keys_distinct<V>(s: Seq<V>, key: spec_fn(V) -> int) -> bool {
    forall|i: int, j: int| 0 <= i < s.len() && 0 <= j < s.len() && key(#[trigger] s[i]) == key(#[trigger] s[j]) ==> s[i] == s[j]
}

proof fn lemma_filter_count<V>(s: Seq<V>, p: spec_fn(V) -> bool, x: V)
    ensures
        s.filter(p).to_multiset().count(x) == (if p(x) { s.to_multiset().count(x) } else { 0 }),
    decreases s.len(),
{
    broadcast use vstd::seq_lib::group_to_multiset_ensures;
    reveal(Seq::filter);
    if s.len() > 0 {
        lemma_filter_count(s.drop_last(), p, x);
        assert(s.drop_last().push(s.last()) =~= s);
    }
}

pub(crate) proof fn lemma_filter_same_multiset<V>(a: Seq<V>, b: Seq<V>, p: spec_fn(V) -> bool)
    requires
        a.to_multiset() == b.to_multiset(),
    ensures
        a.filter(p).to_multiset() == b.filter(p).to_multiset(),
{
    assert forall|x: V| a.filter(p).to_multiset().count(x) == b.filter(p).to_multiset().count(x) by {
        lemma_filter_count(a, p, x);
        lemma_filter_count(b, p, x);
    }
    assert(a.filter(p).to_multiset() =~= b.filter(p).to_multiset());
}

proof fn lemma_sorted_keys_descend<V, C: Fn(&V, &V) -> Ordering>(order: C, key: spec_fn(V) -> int, input: Seq<V>, out: Seq<V>, i: int, j: int)
    requires
        ranks_by(order, key),
        sorted_by_order(order, input, out),
        0 <= i <= j < out.len(),
    ensures
        key(out[i]) >= key(out[j]),
    decreases j - i,
{
    if i < j {
        lemma_sorted_keys_descend(order, key, input, out, i + 1, j);
        assert(placed_in_order(order, out[i], out[i + 1]));
        if exists|o: Ordering| #[trigger] call_ensures(order, (&out[i], &out[i + 1]), o) && o != Ordering::Less {
            let o = choose|o: Ordering| #[trigger] call_ensures(order, (&out[i], &out[i + 1]), o) && o != Ordering::Less;
        } else {
            assert(call_ensures(order, (&out[i + 1], &out[i]), Ordering::Less));
        }
    }
}

/// Two sequences with the same elements, both with keys that do not grow, and no two
/// different elements sharing a key, are equal.
proof fn lemma_descending_unique<V>(key: spec_fn(V) -> int, a: Seq<V>, b: Seq<V>)
    requires
        a.to_multiset() == b.to_multiset(),
        keys_distinct(a, key),
        forall|i: int, j: int| 0 <= i <= j < a.len() ==> key(#[trigger] a[i]) >= key(#[trigger] a[j]),
        forall|i: int, j: int| 0 <= i <= j < b.len() ==> key(#[trigger] b[i]) >= key(#[trigger] b[j]),
    ensures
        a == b,
    decreases a.len(),
{
    broadcast use vstd::seq_lib::group_to_multiset_ensures;
    vstd::seq_lib::to_multiset_len(a);
    vstd::seq_lib::to_multiset_len(b);
    if a.len() > 0 {
        let x = a[0];
        let y = b[0];
        assert(b.contains(y));
        vstd::seq_lib::to_multiset_contains(b, y);
        vstd::seq_lib::to_multiset_contains(a, y);
        assert(a.contains(y));
        let j = choose|j: int| 0 <= j < a.len() && a[j] == y;
        assert(key(a[0]) >= key(a[j]));
        assert(a.contains(x));
        vstd::seq_lib::to_multiset_contains(a, x);
        vstd::seq_lib::to_multiset_contains(b, x);
        assert(b.contains(x));
        let k = choose|k: int| 0 <= k < b.len() && b[k] == x;
        assert(key(b[0]) >= key(b[k]));
        assert(key(a[0]) == key(a[j]));
        assert(x == y);
        let ta = a.remove(0);
        let tb = b.remove(0);
        assert(ta.to_multiset() == a.to_multiset().remove(x));
        assert(tb.to_multiset() == b.to_multiset().remove(y));
        assert forall|i: int, j2: int| 0 <= i < ta.len() && 0 <= j2 < ta.len() && key(#[trigger] ta[i]) == key(#[trigger] ta[j2]) implies ta[i] == ta[j2] by {
            assert(ta[i] == a[i + 1] && ta[j2] == a[j2 + 1]);
        }
        assert forall|i: int, j2: int| 0 <= i <= j2 < ta.len() implies key(#[trigger] ta[i]) >= key(#[trigger] ta[j2]) by {
            assert(ta[i] == a[i + 1] && ta[j2] == a[j2 + 1]);
        }
        assert forall|i: int, j2: int| 0 <= i <= j2 < tb.len() implies key(#[trigger] tb[i]) >= key(#[trigger] tb[j2]) by {
            assert(tb[i] == b[i + 1] && tb[j2] == b[j2 + 1]);
        }
        lemma_descending_unique(key, ta, tb);
        assert(a =~= seq![x] + ta);
        assert(b =~= seq![y] + tb);
    }
}

/// Replicas whose DAGs hold the same vertices (whatever the order they arrived in) and
/// have the same length read the same state through `stable_reconciliation`, when
/// `order` ranks vertices by a key that tells the DAG's vertices apart and `mutate`
/// and the cloning of states each give one result.
pub proof fn lemma_stable_converges<P, S, M, C>(
    d1: Dag<VertexLabel<P>>,
    d2: Dag<VertexLabel<P>>,
    order: C,
    key: spec_fn(Vertex<VertexLabel<P>>) -> int,
    initial_state: S,
    mutate: M,
    parts1: Seq<Seq<Vertex<VertexLabel<P>>>>,
    parts2: Seq<Seq<Vertex<VertexLabel<P>>>>,
    s1: S,
    s2: S,
    r1: S,
    r2: S,
)
    where
        P: OperationParameter,
        S: Clone,
        M: Fn(&S, &Operation<P>) -> S,
        C: Fn(&Vertex<VertexLabel<P>>, &Vertex<VertexLabel<P>>) -> Ordering,
    requires
        d1.all_vertices().to_multiset() == d2.all_vertices().to_multiset(),
        d1.length_of() == d2.length_of(),
        ranks_by(order, key),
        keys_distinct(d1.all_vertices(), key),
        crate::crdt::deterministic_mutate(mutate),
        forall|a: S, b1: S, b2: S| #[trigger] cloned(a, b1) && #[trigger] cloned(a, b2) ==> b1 == b2,
        stable_parts(d1, order, parts1),
        stable_parts(d2, order, parts2),
        cloned(initial_state, s1),
        cloned(initial_state, s2),
        applied(mutate, s1, vertex_ops(concat_parts(parts1)), r1),
        applied(mutate, s2, vertex_ops(concat_parts(parts2)), r2),
    ensures
        r1 == r2,
{
    broadcast use vstd::seq_lib::group_to_multiset_ensures;
    let all1 = d1.all_vertices();
    assert forall|k: int| 0 <= k < parts1.len() implies #[trigger] parts1[k] == parts2[k] by {
        let pred = |v: Vertex<VertexLabel<P>>| v.distance == k + 1;
        assert(sorted_by_order(order, d1.level(k + 1), parts1[k]));
        assert(sorted_by_order(order, d2.level(k + 1), parts2[k]));
        lemma_filter_same_multiset(all1, d2.all_vertices(), pred);
        let a = parts1[k];
        let b = parts2[k];
        assert(a.to_multiset() == b.to_multiset());
        assert forall|i: int, j: int| 0 <= i < a.len() && 0 <= j < a.len() && key(#[trigger] a[i]) == key(#[trigger] a[j]) implies a[i] == a[j] by {
            assert(a.contains(a[i]) && a.contains(a[j]));
            vstd::seq_lib::to_multiset_contains(a, a[i]);
            vstd::seq_lib::to_multiset_contains(a, a[j]);
            vstd::seq_lib::to_multiset_contains(d1.level(k + 1), a[i]);
            vstd::seq_lib::to_multiset_contains(d1.level(k + 1), a[j]);
            assert(d1.level(k + 1).contains(a[i]) && d1.level(k + 1).contains(a[j]));
            all1.lemma_filter_contains_rev(pred, a[i]);
            all1.lemma_filter_contains_rev(pred, a[j]);
            let ii = choose|ii: int| 0 <= ii < all1.len() && all1[ii] == a[i];
            let jj = choose|jj: int| 0 <= jj < all1.len() && all1[jj] == a[j];
            assert(key(all1[ii]) == key(all1[jj]));
        }
        assert forall|i: int, j: int| 0 <= i <= j < a.len() implies key(#[trigger] a[i]) >= key(#[trigger] a[j]) by {
            lemma_sorted_keys_descend(order, key, d1.level(k + 1), a, i, j);
        }
        assert forall|i: int, j: int| 0 <= i <= j < b.len() implies key(#[trigger] b[i]) >= key(#[trigger] b[j]) by {
            lemma_sorted_keys_descend(order, key, d2.level(k + 1), b, i, j);
        }
        lemma_descending_unique(key, a, b);
    }
    assert(parts1 =~= parts2);
    assert(s1 == s2);
    crate::crdt::lemma_applied_unique(mutate, s1, vertex_ops(concat_parts(parts1)), r1, r2);
}

/// Two sortings by `order` of sequences with the same elements are the same, when
/// `order` ranks by a key that tells the elements apart.
proof fn lemma_sorted_by_key_unique<V, C: Fn(&V, &V) -> Ordering>(
    order: C,
    key: spec_fn(V) -> int,
    in1: Seq<V>,
    in2: Seq<V>,
    a: Seq<V>,
    b: Seq<V>,
)
    requires
        in1.to_multiset() == in2.to_multiset(),
        ranks_by(order, key),
        keys_distinct(in1, key),
        sorted_by_order(order, in1, a),
        sorted_by_order(order, in2, b),
    ensures
        a == b,
{
    broadcast use vstd::seq_lib::group_to_multiset_ensures;
    assert forall|i: int, j: int| 0 <= i < a.len() && 0 <= j < a.len() && key(#[trigger] a[i]) == key(#[trigger] a[j]) implies a[i] == a[j] by {
        assert(a.contains(a[i]) && a.contains(a[j]));
        vstd::seq_lib::to_multiset_contains(a, a[i]);
        vstd::seq_lib::to_multiset_contains(a, a[j]);
        assert(in1.contains(a[i]) && in1.contains(a[j]));
        let ii = choose|ii: int| 0 <= ii < in1.len() && in1[ii] == a[i];
        let jj = choose|jj: int| 0 <= jj < in1.len() && in1[jj] == a[j];
        assert(key(in1[ii]) == key(in1[jj]));
    }
    assert forall|i: int, j: int| 0 <= i <= j < a.len() implies key(#[trigger] a[i]) >= key(#[trigger] a[j]) by {
        lemma_sorted_keys_descend(order, key, in1, a, i, j);
    }
    assert forall|i: int, j: int| 0 <= i <= j < b.len() implies key(#[trigger] b[i]) >= key(#[trigger] b[j]) by {
        lemma_sorted_keys_descend(order, key, in2, b, i, j);
    }
    lemma_descending_unique(key, a, b);
}

/// Replicas whose DAGs hold the same vertices, whatever the order they arrived in, read
/// the same state through `crdt_reconciliation`, when `order` ranks vertices by a key
/// that tells the DAG's vertices apart and `mutate` and the cloning of states each give
/// one result.
pub proof fn lemma_crdt_converges<P, S, M, C>(
    d1: Dag<VertexLabel<P>>,
    d2: Dag<VertexLabel<P>>,
    order: C,
    key: spec_fn(Vertex<VertexLabel<P>>) -> int,
    initial_state: S,
    mutate: M,
    out1: Seq<Vertex<VertexLabel<P>>>,
    out2: Seq<Vertex<VertexLabel<P>>>,
    s1: S,
    s2: S,
    r1: S,
    r2: S,
)
    where
        P: OperationParameter,
        S: Clone,
        M: Fn(&S, &Operation<P>) -> S,
        C: Fn(&Vertex<VertexLabel<P>>, &Vertex<VertexLabel<P>>) -> Ordering,
    requires
        d1.all_vertices().to_multiset() == d2.all_vertices().to_multiset(),
        ranks_by(order, key),
        keys_distinct(d1.all_vertices(), key),
        crate::crdt::deterministic_mutate(mutate),
        forall|a: S, b1: S, b2: S| #[trigger] cloned(a, b1) && #[trigger] cloned(a, b2) ==> b1 == b2,
        sorted_by_order(order, d1.all_vertices(), out1),
        sorted_by_order(order, d2.all_vertices(), out2),
        cloned(initial_state, s1),
        cloned(initial_state, s2),
        applied(mutate, s1, vertex_ops(out1), r1),
        applied(mutate, s2, vertex_ops(out2), r2),
    ensures
        r1 == r2,
{
    lemma_sorted_by_key_unique(order, key, d1.all_vertices(), d2.all_vertices(), out1, out2);
    assert(s1 == s2);
    crate::crdt::lemma_applied_unique(mutate, s1, vertex_ops(out1), r1, r2);
}

/// Replicas whose DAGs hold the same vertices, whatever the order they arrived in, and
/// whose roots carry the same label, get the same labels from `crdt_exploration`, when
/// `order` ranks vertices by a key that tells the DAG's vertices apart.
pub proof fn lemma_crdt_exploration_converges<P, C>(
    d1: Dag<VertexLabel<P>>,
    d2: Dag<VertexLabel<P>>,
    order: C,
    key: spec_fn(Vertex<VertexLabel<P>>) -> int,
    out1: Seq<Vertex<VertexLabel<P>>>,
    out2: Seq<Vertex<VertexLabel<P>>>,
)
    where
        P: OperationParameter,
        C: Fn(&Vertex<VertexLabel<P>>, &Vertex<VertexLabel<P>>) -> Ordering,
    requires
        d1.all_vertices().to_multiset() == d2.all_vertices().to_multiset(),
        d1.vertex_seq()[0].label == d2.vertex_seq()[0].label,
        ranks_by(order, key),
        keys_distinct(d1.all_vertices(), key),
        sorted_by_order(order, d1.all_vertices(), out1),
        sorted_by_order(order, d2.all_vertices(), out2),
    ensures
        seq![d1.vertex_seq()[0].label] + labels_of(out1) == seq![d2.vertex_seq()[0].label] + labels_of(out2),
{
    lemma_sorted_by_key_unique(order, key, d1.all_vertices(), d2.all_vertices(), out1, out2);
}

/// Applies to a copy of `initial_state` the operations of all vertices, the root
/// included, sorted by `order` (the greater first).
pub fn crdt_reconciliation<P, S, M, C>(dag: &Dag<VertexLabel<P>>, initial_state: &S, mutate: M, order: C) -> (r: S) where
    P: OperationParameter,
    S: Clone,
    M: Fn(&S, &Operation<P>) -> S,
    C: Fn(&Vertex<VertexLabel<P>>, &Vertex<VertexLabel<P>>) -> Ordering,

    requires
        dag.wf(),
        forall|s: &S, op: &Operation<P>| call_requires(mutate, (s, op)),
        forall|a: &Vertex<VertexLabel<P>>, b: &Vertex<VertexLabel<P>>| call_requires(order, (a, b)),
    ensures
        exists|out: Seq<Vertex<VertexLabel<P>>>, s0: S|
            #![trigger sorted_by_order(order, dag.all_vertices(), out), cloned(*initial_state, s0)]
            sorted_by_order(order, dag.all_vertices(), out) && cloned(*initial_state, s0) && applied(
                mutate,
                s0,
                vertex_ops(out),
                r,
            ),
{
    let all = all_vertex_refs(dag);
    let sorted = sort_by_order(&all, &order);
    let state = initial_state.clone();
    let ghost s0 = state;
    let r = apply_vertices(state, &sorted, &mutate);
    proof {
        assert(sorted_by_order(order, dag.all_vertices(), derefs(sorted@)));
        assert(sorted_by_order(order, dag.all_vertices(), derefs(sorted@)) && cloned(*initial_state, s0) && applied(
            mutate, s0, vertex_ops(derefs(sorted@)), r));
    }
    r
}

/// The identifiers of levels 0 to `k - 1` of the level-by-level walk from the root
/// (see `Dag::level_ids`), each level from its last identifier to its first.
pub open spec fn level_walk<T>(dag: Dag<T>, k: nat) -> Seq<VertexId>
    decreases k,
{
    if k == 0 {
        Seq::empty()
    } else {
        level_walk(dag, (k - 1) as nat) + dag.level_ids((k - 1) as nat).reverse()
    }
}

proof fn lemma_level_walk_stops<T>(dag: Dag<T>, k: nat, j: nat)
    requires
        dag.level_ids(k).len() == 0,
        k <= j,
    ensures
        level_walk(dag, j) == level_walk(dag, k),
    decreases j - k,
{
    if k < j {
        lemma_level_walk_stops(dag, k, (j - 1) as nat);
        dag.lemma_level_empty_after(k, (j - 1) as nat);
        assert(dag.level_ids((j - 1) as nat).reverse() =~= Seq::<VertexId>::empty());
        assert(level_walk(dag, j) =~= level_walk(dag, (j - 1) as nat));
    }
}

/// The labels met by the level-by-level walk from the root: each level, from its last
/// vertex to its first (the first vertex of each identifier standing for it), and the
/// next level gathered from the children of its vertices, until a level is empty.
pub fn level_exploration<'a, P: OperationParameter>(dag: &'a Dag<VertexLabel<P>>) -> (r: Vec<&'a VertexLabel<P>>)
    requires
        dag.wf(),
        dag.levels_end(),
    ensures
        forall|k: nat| #[trigger] dag.level_ids(k).len() == 0
            ==> derefs(r@) == level_walk(*dag, k).map_values(|id: VertexId| dag.vertex_of(id).label),
{
    let ghost end = choose|k: nat| #[trigger] dag.level_ids(k).len() == 0;
    let ghost labels = |id: VertexId| dag.vertex_of(id).label;
    let mut level: Vec<VertexId> = Vec::new();
    level.push(dag.get_root().id);
    let mut order: Vec<&'a VertexLabel<P>> = Vec::new();
    let ghost mut k: nat = 0;
    proof {
        assert(level@ =~= dag.level_ids(0));
        assert(derefs(order@) =~= level_walk(*dag, 0).map_values(labels));
    }
    while level.len() > 0
        invariant
            dag.wf(),
            dag.level_ids(end).len() == 0,
            labels == (|id: VertexId| dag.vertex_of(id).label),
            level@ == dag.level_ids(k),
            k <= end,
            derefs(order@) == level_walk(*dag, k).map_values(labels),
        decreases end - k,
    {
        proof {
            dag.lemma_level_contained(k);
            if end <= k {
                dag.lemma_level_empty_after(end, k);
            }
        }
        let ghost before = derefs(order@);
        let mut i: usize = level.len();
        while i > 0
            invariant
                0 <= i <= level@.len(),
                dag.all_contained(level@),
                derefs(order@) == before + level@.subrange(i as int, level@.len() as int).reverse().map_values(labels),
                labels == (|id: VertexId| dag.vertex_of(id).label),
            decreases i,
        {
            i = i - 1;
            assert(dag.contains_id(level@[i as int]));
            let ghost prev = derefs(order@);
            let v = dag.get_vertex(&level[i]).unwrap();
            order.push(&v.label);
            proof {
                let s1 = level@.subrange(i + 1, level@.len() as int).reverse();
                let s0 = level@.subrange(i as int, level@.len() as int).reverse();
                assert(s0 =~= s1.push(level@[i as int]));
                assert(s0.map_values(labels) =~= s1.map_values(labels).push(labels(level@[i as int])));
                assert(labels(level@[i as int]) == v.label);
                assert(derefs(order@) =~= prev.push(v.label));
            }
            assert(derefs(order@) =~= before + level@.subrange(i as int, level@.len() as int).reverse().map_values(labels));
        }
        assert(level@.subrange(0, level@.len() as int) =~= level@);
        proof {
            assert(derefs(order@) =~= level_walk(*dag, k + 1).map_values(labels));
        }
        level = dag.next_level(&level);
        proof {
            k = k + 1;
        }
    }
    proof {
        assert forall|j: nat| #[trigger] dag.level_ids(j).len() == 0
            implies derefs(order@) == level_walk(*dag, j).map_values(labels) by {
            if j <= k {
                lemma_level_walk_stops(*dag, j, k);
            } else {
                lemma_level_walk_stops(*dag, k, j);
            }
        }
    }
    order
}

/// The labels of `vs`, in order, after `out`.
fn push_labels<'a, P: OperationParameter>(out: &mut Vec<&'a VertexLabel<P>>, vs: &Vec<&'a Vertex<VertexLabel<P>>>)
    ensures
        derefs(final(out)@) == derefs(old(out)@) + labels_of(derefs(vs@)),
{
    let mut i: usize = 0;
    while i < vs.len()
        invariant
            0 <= i <= vs@.len(),
            derefs(out@) == derefs(old(out)@) + labels_of(derefs(vs@.take(i as int))),
        decreases vs@.len() - i,
    {
        let ghost before = derefs(out@);
        out.push(&vs[i].label);
        proof {
            let t = derefs(vs@.take(i + 1));
            assert(t =~= derefs(vs@.take(i as int)).push(*vs@[i as int]));
            assert(labels_of(t) =~= labels_of(derefs(vs@.take(i as int))).push(vs@[i as int].label));
            assert(derefs(out@) =~= before.push(vs@[i as int].label));
        }
        i = i + 1;
        assert(derefs(out@) =~= derefs(old(out)@) + labels_of(derefs(vs@.take(i as int))));
    }
    assert(vs@.take(i as int) =~= vs@);
}

/// The labels of the root and then of the vertices at distance 1, 2, and so on up to
/// the DAG's length, each distance sorted by `order` (the greater first): the order
/// `stable_reconciliation` applies, as a replica's reconciliation.
pub fn stable_exploration<'a, P, C>(dag: &'a Dag<VertexLabel<P>>, order: C) -> (r: Vec<&'a VertexLabel<P>>) where
    P: OperationParameter,
    C: Fn(&Vertex<VertexLabel<P>>, &Vertex<VertexLabel<P>>) -> Ordering,

    requires
        dag.wf(),
        dag.length_of() < u32::MAX,
        forall|a: &Vertex<VertexLabel<P>>, b: &Vertex<VertexLabel<P>>| call_requires(order, (a, b)),
    ensures
        exists|parts: Seq<Seq<Vertex<VertexLabel<P>>>>|
            #[trigger] stable_parts(*dag, order, parts) && derefs(r@) == seq![dag.vertex_seq()[0].label] + labels_of(
                concat_parts(parts),
            ),
{
    let all = all_vertex_refs(dag);
    let mut out: Vec<&'a VertexLabel<P>> = Vec::new();
    out.push(&dag.get_root().label);
    let ghost mut parts: Seq<Seq<Vertex<VertexLabel<P>>>> = Seq::empty();
    assert(derefs(out@) =~= seq![dag.vertex_seq()[0].label] + labels_of(concat_parts(parts)));
    let mut i: u32 = 1;
    while i <= dag.length()
        invariant
            1 <= i <= dag.length_of() + 1,
            dag.length_of() < u32::MAX,
            derefs(all@) == dag.all_vertices(),
            forall|a: &Vertex<VertexLabel<P>>, b: &Vertex<VertexLabel<P>>| call_requires(order, (a, b)),
            parts.len() == i - 1,
            forall|k: int| 0 <= k < parts.len() ==> sorted_by_order(order, dag.level(k + 1), #[trigger] parts[k]),
            derefs(out@) == seq![dag.vertex_seq()[0].label] + labels_of(concat_parts(parts)),
        decreases dag.length_of() + 1 - i,
    {
        let level = vertices_at(&all, i);
        let sorted = sort_by_order(&level, &order);
        push_labels(&mut out, &sorted);
        proof {
            let part = derefs(sorted@);
            let new_parts = parts.push(part);
            assert(new_parts.drop_last() =~= parts);
            assert(concat_parts(new_parts) == concat_parts(parts) + part);
            assert(labels_of(concat_parts(parts) + part) =~= labels_of(concat_parts(parts)) + labels_of(part));
            assert forall|k: int| 0 <= k < new_parts.len() implies sorted_by_order(order, dag.level(k + 1), #[trigger] new_parts[k]) by {
                if k < parts.len() {
                    assert(new_parts[k] == parts[k]);
                }
            }
            parts = new_parts;
        }
        i = i + 1;
    }
    assert(stable_parts(*dag, order, parts));
    out
}

/// The labels of the root and then of all the vertices, the root included, sorted by
/// `order` (the greater first): the order `crdt_reconciliation` applies, as a
/// replica's reconciliation.
pub fn crdt_exploration<'a, P, C>(dag: &'a Dag<VertexLabel<P>>, order: C) -> (r: Vec<&'a VertexLabel<P>>) where
    P: OperationParameter,
    C: Fn(&Vertex<VertexLabel<P>>, &Vertex<VertexLabel<P>>) -> Ordering,

    requires
        dag.wf(),
        forall|a: &Vertex<VertexLabel<P>>, b: &Vertex<VertexLabel<P>>| call_requires(order, (a, b)),
    ensures
        exists|out: Seq<Vertex<VertexLabel<P>>>|
            #[trigger] sorted_by_order(order, dag.all_vertices(), out) && derefs(r@) == seq![dag.vertex_seq()[0].label]
                + labels_of(out),
{
    let all = all_vertex_refs(dag);
    let sorted = sort_by_order(&all, &order);
    let mut out: Vec<&'a VertexLabel<P>> = Vec::new();
    out.push(&dag.get_root().label);
    assert(derefs(out@) =~= seq![dag.vertex_seq()[0].label]);
    push_labels(&mut out, &sorted);
    assert(sorted_by_order(order, dag.all_vertices(), derefs(sorted@)));
    out
}

/// A table of vectors as sequences.
pub open spec fn table_view<X>(t: Vec<Vec<X>>) -> Seq<Seq<X>> {
    t@.map_values(|row: Vec<X>| row@)
}

/// The vertices of level `k` of the level-by-level walk (see `Dag::level_ids`).
pub open spec fn level_vertices<T>(dag: Dag<T>, k: nat) -> Seq<Vertex<T>> {
    dag.level_ids(k).map_values(|id: VertexId| dag.vertex_of(id))
}

/// The keys that order vertices by operation identifier, then position.
pub open spec fn op_keys<P: OperationParameter>(vs: Seq<Vertex<VertexLabel<P>>>) -> Seq<KeyPosition> {
    Seq::new(vs.len(), |i: int| KeyPosition { key: vs[i].label.op.id, position: i as usize })
}

/// `vs` ordered by operation identifier, equal identifiers keeping their order.
pub open spec fn sort_by_op_id<P: OperationParameter>(vs: Seq<Vertex<VertexLabel<P>>>) -> Seq<Vertex<VertexLabel<P>>> {
    op_keys(vs).sort_by(key_leq::<KeyPosition>()).map_values(|k: KeyPosition| vs[k.position as int])
}

/// The scan of `v1` against `rest`, in order, in `handling_conflict`: where the table
/// names `v1`'s operation as winner the other vertex is to be removed; where it names
/// another winner the scan stops with `v1` in conflict; where it names none the two
/// commute. Gives whether `v1` is in conflict and the identifiers to remove.
pub open spec fn conflict_scan<P: OperationParameter>(
    table: Seq<Seq<Option<usize>>>,
    v1: Vertex<VertexLabel<P>>,
    rest: Seq<Vertex<VertexLabel<P>>>,
) -> (bool, Seq<VertexId>)
    decreases rest.len(),
{
    if rest.len() == 0 {
        (false, Seq::empty())
    } else {
        let prev = conflict_scan(table, v1, rest.drop_last());
        if prev.0 {
            prev
        } else {
            match table[v1.label.op.id as int][rest.last().label.op.id as int] {
                Some(w) => if w == v1.label.op.id {
                    (false, prev.1.push(rest.last().id))
                } else {
                    (true, prev.1)
                },
                None => prev,
            }
        }
    }
}

/// The winners of a level of `handling_conflict` (sorted by operation identifier):
/// the last vertex is scanned against the others; the ones it beats leave; it is kept
/// unless in conflict; the rest is resolved the same way; a last vertex alone is kept.
pub open spec fn resolve_conflicts<P: OperationParameter>(
    table: Seq<Seq<Option<usize>>>,
    vs: Seq<Vertex<VertexLabel<P>>>,
) -> Seq<Vertex<VertexLabel<P>>>
    decreases vs.len(),
{
    if vs.len() <= 1 {
        vs
    } else {
        let v1 = vs.last();
        let rest = vs.drop_last();
        let scan = conflict_scan(table, v1, rest);
        let rest2 = rest.filter(|x: Vertex<VertexLabel<P>>| !scan.1.contains(x.id));
        proof {
            rest.lemma_filter_len(|x: Vertex<VertexLabel<P>>| !scan.1.contains(x.id));
        }
        (if scan.0 {
            Seq::empty()
        } else {
            seq![v1]
        }) + resolve_conflicts(table, rest2)
    }
}

/// The vertices `handling_conflict` keeps from levels 1 to `k`, in order.
pub open spec fn conflict_order<P: OperationParameter>(
    table: Seq<Seq<Option<usize>>>,
    dag: Dag<VertexLabel<P>>,
    k: nat,
) -> Seq<Vertex<VertexLabel<P>>>
    decreases k,
{
    if k == 0 {
        Seq::empty()
    } else {
        conflict_order(table, dag, (k - 1) as nat) + resolve_conflicts(table, sort_by_op_id(level_vertices(dag, k)))
    }
}

/// `table` has an entry for operation `a` against operation `b`.
pub open spec fn reads<X>(table: Seq<Seq<X>>, a: usize, b: usize) -> bool {
    a < table.len() && b < table[a as int].len()
}

/// Every entry the scan of `conflict_scan` looks up is in `table`.
pub open spec fn conflict_scan_reads<P: OperationParameter>(
    table: Seq<Seq<Option<usize>>>,
    v1: Vertex<VertexLabel<P>>,
    rest: Seq<Vertex<VertexLabel<P>>>,
) -> bool
    decreases rest.len(),
{
    if rest.len() == 0 {
        true
    } else {
        conflict_scan_reads(table, v1, rest.drop_last()) && (conflict_scan(table, v1, rest.drop_last()).0 || reads(
            table,
            v1.label.op.id,
            rest.last().label.op.id,
        ))
    }
}

/// Every entry the resolution of `resolve_conflicts` looks up is in `table`.
pub open spec fn resolve_reads<P: OperationParameter>(table: Seq<Seq<Option<usize>>>, vs: Seq<Vertex<VertexLabel<P>>>) -> bool
    decreases vs.len(),
{
    if vs.len() <= 1 {
        true
    } else {
        let v1 = vs.last();
        let rest = vs.drop_last();
        let scan = conflict_scan(table, v1, rest);
        let rest2 = rest.filter(|x: Vertex<VertexLabel<P>>| !scan.1.contains(x.id));
        proof {
            rest.lemma_filter_len(|x: Vertex<VertexLabel<P>>| !scan.1.contains(x.id));
        }
        conflict_scan_reads(table, v1, rest) && resolve_reads(table, rest2)
    }
}

/// Every entry `handling_conflict` looks up in `table` is there.
pub open spec fn conflict_reads<P: OperationParameter>(table: Seq<Seq<Option<usize>>>, dag: Dag<VertexLabel<P>>) -> bool {
    forall|k: nat| k > 0 ==> #[trigger] resolve_reads(table, sort_by_op_id(level_vertices(dag, k)))
}

proof fn lemma_conflict_scan_reads_prefix<P: OperationParameter>(
    table: Seq<Seq<Option<usize>>>,
    v1: Vertex<VertexLabel<P>>,
    rest: Seq<Vertex<VertexLabel<P>>>,
    j: int,
)
    requires
        conflict_scan_reads(table, v1, rest),
        0 <= j <= rest.len(),
    ensures
        conflict_scan_reads(table, v1, rest.take(j)),
    decreases rest.len() - j,
{
    if j == rest.len() {
        assert(rest.take(j) =~= rest);
    } else {
        assert(rest.drop_last().take(j) =~= rest.take(j));
        lemma_conflict_scan_reads_prefix(table, v1, rest.drop_last(), j);
    }
}

/// The labels of a sequence of vertices.
pub open spec fn labels_of<P: OperationParameter>(vs: Seq<Vertex<VertexLabel<P>>>) -> Seq<VertexLabel<P>> {
    vs.map_values(|v: Vertex<VertexLabel<P>>| v.label)
}

/// References to the first vertices with the given identifiers.
fn vertex_refs<'a, T>(dag: &'a Dag<T>, ids: &Vec<VertexId>) -> (r: Vec<&'a Vertex<T>>)
    requires
        dag.wf(),
        dag.all_contained(ids@),
    ensures
        derefs(r@) == ids@.map_values(|id: VertexId| dag.vertex_of(id)),
{
    let mut r: Vec<&'a Vertex<T>> = Vec::new();
    let mut i: usize = 0;
    while i < ids.len()
        invariant
            0 <= i <= ids@.len(),
            dag.all_contained(ids@),
            r@.len() == i,
            forall|j: int| 0 <= j < i ==> *r@[j] == dag.vertex_of(ids@[j]),
        decreases ids@.len() - i,
    {
        assert(dag.contains_id(ids@[i as int]));
        r.push(dag.get_vertex(&ids[i]).unwrap());
        i = i + 1;
    }
    assert(derefs(r@) =~= ids@.map_values(|id: VertexId| dag.vertex_of(id)));
    r
}

/// `vs` ordered by operation identifier, equal identifiers keeping their order.
fn sort_vertices_by_op<'a, P: OperationParameter>(vs: &Vec<&'a Vertex<VertexLabel<P>>>) -> (r: Vec<&'a Vertex<VertexLabel<P>>>)
    ensures
        derefs(r@) == sort_by_op_id(derefs(vs@)),
        forall|x: Vertex<VertexLabel<P>>| derefs(r@).contains(x) ==> derefs(vs@).contains(x),
{
    let ghost d = derefs(vs@);
    let mut keys: Vec<KeyPosition> = Vec::new();
    let mut i: usize = 0;
    while i < vs.len()
        invariant
            0 <= i <= vs@.len(),
            d == derefs(vs@),
            keys@ == op_keys(d).take(i as int),
        decreases vs@.len() - i,
    {
        keys.push(KeyPosition { key: vs[i].label.op.id, position: i });
        i = i + 1;
        assert(keys@ =~= op_keys(d).take(i as int));
    }
    assert(keys@ =~= op_keys(d));
    let sorted = sort_keys(&keys);
    proof {
        vstd::seq_lib::to_multiset_len(keys@);
        vstd::seq_lib::to_multiset_len(sorted@);
    }
    let mut r: Vec<&'a Vertex<VertexLabel<P>>> = Vec::new();
    let mut k: usize = 0;
    while k < sorted.len()
        invariant
            0 <= k <= sorted@.len(),
            d == derefs(vs@),
            sorted@ == op_keys(d).sort_by(key_leq::<KeyPosition>()),
            sorted@.len() == vs@.len(),
            derefs(r@) == sort_by_op_id(d).take(k as int),
            forall|j: int| 0 <= j < k ==> d.contains(#[trigger] derefs(r@)[j]),
        decreases sorted@.len() - k,
    {
        let key = sorted[k];
        proof {
            assert(sorted@.contains(key));
            lemma_sort_keys_contains(op_keys(d), key);
            let t = choose|t: int| 0 <= t < op_keys(d).len() && op_keys(d)[t] == key;
            assert(key.position == t);
            assert(d[t] == *vs@[t]);
            assert(sort_by_op_id(d)[k as int] == d[key.position as int]);
        }
        let ghost old_r = derefs(r@);
        let ghost kk = k as int;
        r.push(vs[key.position]);
        k = k + 1;
        proof {
            assert(derefs(r@) =~= old_r.push(d[key.position as int]));
            assert(sort_by_op_id(d).take(kk + 1) =~= sort_by_op_id(d).take(kk).push(sort_by_op_id(d)[kk]));
        }
        assert(derefs(r@) =~= sort_by_op_id(d).take(k as int));
    }
    assert(sort_by_op_id(d).take(k as int) =~= sort_by_op_id(d));
    assert forall|x: Vertex<VertexLabel<P>>| derefs(r@).contains(x) implies d.contains(x) by {
        let j = choose|j: int| 0 <= j < derefs(r@).len() && derefs(r@)[j] == x;
        assert(d.contains(derefs(r@)[j]));
    }
    r
}

/// Once the scan of a prefix is in conflict, longer prefixes scan the same.
proof fn lemma_scan_stops<P: OperationParameter>(
    table: Seq<Seq<Option<usize>>>,
    v1: Vertex<VertexLabel<P>>,
    rest: Seq<Vertex<VertexLabel<P>>>,
    n: int,
)
    requires
        0 <= n <= rest.len(),
        conflict_scan(table, v1, rest.take(n)).0,
    ensures
        conflict_scan(table, v1, rest) == conflict_scan(table, v1, rest.take(n)),
    decreases rest.len() - n,
{
    if n < rest.len() {
        assert(rest.drop_last().take(n) =~= rest.take(n));
        lemma_scan_stops(table, v1, rest.drop_last(), n);
    } else {
        assert(rest.take(n) =~= rest);
    }
}

/// Scans `v1` against `rest` (see `conflict_scan`).
fn scan_conflicts<P: OperationParameter>(
    table: &Vec<Vec<Option<usize>>>,
    v1: &Vertex<VertexLabel<P>>,
    rest: &Vec<&Vertex<VertexLabel<P>>>,
) -> (r: (bool, Vec<VertexId>))
    requires
        conflict_scan_reads(table_view(*table), *v1, derefs(rest@)),
    ensures
        r.0 == conflict_scan(table_view(*table), *v1, derefs(rest@)).0,
        r.1@ == conflict_scan(table_view(*table), *v1, derefs(rest@)).1,
{
    let ghost tv = table_view(*table);
    let ghost d = derefs(rest@);
    let mut toremove: Vec<VertexId> = Vec::new();
    let mut j: usize = 0;
    while j < rest.len()
        invariant
            0 <= j <= rest@.len(),
            tv == table_view(*table),
            d == derefs(rest@),
            conflict_scan_reads(tv, *v1, d),
            conflict_scan(tv, *v1, d.take(j as int)) == (false, toremove@),
        decreases rest@.len() - j,
    {
        let v2 = rest[j];
        proof {
            assert(d.take(j + 1).drop_last() =~= d.take(j as int));
            assert(d.take(j + 1).last() == *v2);
            lemma_conflict_scan_reads_prefix(tv, *v1, d, j + 1);
            assert(reads(tv, v1.label.op.id, v2.label.op.id));
        }
        let row = &table[v1.label.op.id];
        let winner = row[v2.label.op.id];
        match winner {
            Some(w) => {
                if w == v1.label.op.id {
                    toremove.push(v2.id);
                } else {
                    proof {
                        lemma_scan_stops(tv, *v1, d, j + 1);
                    }
                    return (true, toremove);
                }
            },
            None => {},
        }
        j = j + 1;
    }
    assert(d.take(j as int) =~= d);
    (false, toremove)
}

/// The vertices of `vs` whose identifiers are not in `ids`, in order.
fn without_ids<'a, T>(vs: &Vec<&'a Vertex<T>>, ids: &Vec<VertexId>) -> (r: Vec<&'a Vertex<T>>)
    ensures
        derefs(r@) == derefs(vs@).filter(|x: Vertex<T>| !ids@.contains(x.id)),
{
    let ghost pred = |x: Vertex<T>| !ids@.contains(x.id);
    let mut r: Vec<&'a Vertex<T>> = Vec::new();
    let mut i: usize = 0;
    while i < vs.len()
        invariant
            0 <= i <= vs@.len(),
            pred == (|x: Vertex<T>| !ids@.contains(x.id)),
            derefs(r@) == derefs(vs@).take(i as int).filter(pred),
        decreases vs@.len() - i,
    {
        proof {
            reveal(Seq::filter);
            assert(derefs(vs@).take(i + 1).drop_last() =~= derefs(vs@).take(i as int));
            assert(derefs(vs@).take(i + 1).last() == *vs@[i as int]);
        }
        if !id_in(ids, &vs[i].id) {
            r.push(vs[i]);
            assert(derefs(r@) =~= derefs(vs@).take(i + 1).filter(pred));
        } else {
            assert(derefs(r@) =~= derefs(vs@).take(i + 1).filter(pred));
        }
        i = i + 1;
    }
    assert(derefs(vs@).take(i as int) =~= derefs(vs@));
    r
}

/// The winners of one level of `handling_conflict` (see `resolve_conflicts`).
fn resolve_level<'a, P: OperationParameter>(
    table: &Vec<Vec<Option<usize>>>,
    vs: Vec<&'a Vertex<VertexLabel<P>>>,
) -> (r: Vec<&'a Vertex<VertexLabel<P>>>)
    requires
        resolve_reads(table_view(*table), derefs(vs@)),
    ensures
        derefs(r@) == resolve_conflicts(table_view(*table), derefs(vs@)),
{
    let ghost tv = table_view(*table);
    let ghost goal = resolve_conflicts(tv, derefs(vs@));
    let mut next = vs;
    let mut out: Vec<&'a Vertex<VertexLabel<P>>> = Vec::new();
    while next.len() > 1
        invariant
            tv == table_view(*table),
            resolve_reads(tv, derefs(next@)),
            derefs(out@) + resolve_conflicts(tv, derefs(next@)) == goal,
        decreases next@.len(),
    {
        let ghost before = derefs(next@);
        let v1 = next.pop().unwrap();
        proof {
            assert(derefs(next@) =~= before.drop_last());
            assert(before.last() == *v1);
        }
        let scan = scan_conflicts(table, v1, &next);
        let conflicted = scan.0;
        let toremove = scan.1;
        let ghost rest = derefs(next@);
        next = without_ids(&next, &toremove);
        proof {
            rest.lemma_filter_len(|x: Vertex<VertexLabel<P>>| !toremove@.contains(x.id));
            assert(resolve_reads(tv, derefs(next@)));
        }
        let ghost old_out = derefs(out@);
        if !conflicted {
            out.push(v1);
            assert(derefs(out@) =~= old_out + seq![*v1]);
        } else {
            assert(derefs(out@) =~= old_out + Seq::<Vertex<VertexLabel<P>>>::empty());
        }
        proof {
            let pushed = if conflicted { Seq::<Vertex<VertexLabel<P>>>::empty() } else { seq![*v1] };
            assert(resolve_conflicts(tv, before) == pushed + resolve_conflicts(tv, derefs(next@)));
            assert(old_out + (pushed + resolve_conflicts(tv, derefs(next@))) =~= (old_out + pushed) + resolve_conflicts(tv, derefs(next@)));
        }
    }
    if next.len() == 1 {
        let ghost old_out = derefs(out@);
        out.push(next[0]);
        assert(derefs(out@) =~= old_out + derefs(next@));
    } else {
        assert(derefs(out@) =~= derefs(out@) + derefs(next@));
    }
    out
}

/// Once level `k` is empty, `conflict_order` gains nothing past `k`.
proof fn lemma_conflict_order_stops<P: OperationParameter>(
    table: Seq<Seq<Option<usize>>>,
    dag: Dag<VertexLabel<P>>,
    k: nat,
    j: nat,
)
    requires
        dag.level_ids(k).len() == 0,
        k <= j,
    ensures
        conflict_order(table, dag, j) == conflict_order(table, dag, k),
    decreases j - k,
{
    if k < j {
        lemma_conflict_order_stops(table, dag, k, (j - 1) as nat);
        dag.lemma_level_empty_after(k, j);
        let vs = level_vertices(dag, j);
        assert(vs =~= Seq::<Vertex<VertexLabel<P>>>::empty());
        assert(op_keys(vs) =~= Seq::<KeyPosition>::empty());
        KeyPosition::lemma_key_total();
        op_keys(vs).lemma_sort_by_ensures(key_leq::<KeyPosition>());
        vstd::seq_lib::to_multiset_len(op_keys(vs));
        vstd::seq_lib::to_multiset_len(op_keys(vs).sort_by(key_leq::<KeyPosition>()));
        assert(sort_by_op_id(vs).len() == 0);
        assert(conflict_order(table, dag, j) =~= conflict_order(table, dag, (j - 1) as nat));
    }
}

/// The labels kept by a semantic resolution of conflicts: the DAG is walked level by
/// level from the root (see `Dag::level_ids`); in each level past the root, ordered by
/// operation identifier, the last vertex is scanned against the others with the table
/// `op_order` (see `conflict_scan`) and the level is resolved as `resolve_conflicts`
/// says. The root is left out.
pub fn handling_conflict<'a, P: OperationParameter>(
    op_order: &Vec<Vec<Option<usize>>>,
    dag: &'a Dag<VertexLabel<P>>,
) -> (r: Vec<&'a VertexLabel<P>>)
    requires
        dag.wf(),
        dag.levels_end(),
        conflict_reads(table_view(*op_order), *dag),
    ensures
        forall|k: nat| #[trigger] dag.level_ids(k).len() == 0
            ==> derefs(r@) == labels_of(conflict_order(table_view(*op_order), *dag, k)),
{
    let ghost tv = table_view(*op_order);
    let ghost end = choose|k: nat| #[trigger] dag.level_ids(k).len() == 0;
    let mut level: Vec<VertexId> = Vec::new();
    level.push(VertexId::new(0, 0));
    let mut order: Vec<&'a VertexLabel<P>> = Vec::new();
    let ghost mut k: nat = 0;
    assert(level@ =~= dag.level_ids(0));
    assert(derefs(order@) =~= labels_of(conflict_order(tv, *dag, 0)));
    while level.len() > 0
        invariant
            dag.wf(),
            dag.level_ids(end).len() == 0,
            tv == table_view(*op_order),
            conflict_reads(tv, *dag),
            level@ == dag.level_ids(k),
            derefs(order@) == labels_of(conflict_order(tv, *dag, k)),
            k <= end,
        decreases end - k,
    {
        proof {
            dag.lemma_level_contained(k + 1);
            if end <= k {
                dag.lemma_level_empty_after(end, k);
            }
        }
        let next = dag.next_level(&level);
        let vs = vertex_refs(dag, &next);
        let sorted = sort_vertices_by_op(&vs);
        proof {
            assert(derefs(vs@) =~= level_vertices(*dag, k + 1));
            assert(resolve_reads(tv, sort_by_op_id(level_vertices(*dag, (k + 1) as nat))));
        }
        let winners = resolve_level(op_order, sorted);
        let ghost old_order = derefs(order@);
        let mut w: usize = 0;
        while w < winners.len()
            invariant
                0 <= w <= winners@.len(),
                derefs(order@) == old_order + labels_of(derefs(winners@)).take(w as int),
            decreases winners@.len() - w,
        {
            let ghost before = derefs(order@);
            let ghost ww = w as int;
            order.push(&winners[w].label);
            w = w + 1;
            proof {
                let ls = labels_of(derefs(winners@));
                assert(derefs(order@) =~= before.push(ls[ww]));
                assert(ls.take(ww + 1) =~= ls.take(ww).push(ls[ww]));
            }
            assert(derefs(order@) =~= old_order + labels_of(derefs(winners@)).take(w as int));
        }
        proof {
            assert(labels_of(derefs(winners@)).take(w as int) =~= labels_of(derefs(winners@)));
            assert(labels_of(conflict_order(tv, *dag, k + 1)) =~= labels_of(conflict_order(tv, *dag, k)) + labels_of(derefs(winners@)));
        }
        level = next;
        proof {
            k = k + 1;
        }
    }
    proof {
        assert forall|j: nat| #[trigger] dag.level_ids(j).len() == 0
            implies derefs(order@) == labels_of(conflict_order(tv, *dag, j)) by {
            if j <= k {
                lemma_conflict_order_stops(tv, *dag, j, k);
            } else {
                lemma_conflict_order_stops(tv, *dag, k, j);
            }
        }
    }
    order
}

/// `v1` prevails over `v2`: its process has the higher score, or the same score and
/// an identifier at least as high.
pub open spec fn fair_beats<P: OperationParameter>(
    scores: Map<u32, nat>,
    v1: Vertex<VertexLabel<P>>,
    v2: Vertex<VertexLabel<P>>,
) -> bool {
    let s1 = score_of(scores, v1.label.process_id);
    let s2 = score_of(scores, v2.label.process_id);
    s1 > s2 || (s1 == s2 && v1.label.process_id >= v2.label.process_id)
}

/// The scan of `v1` against `rest` in `fair_reconciliation`: each vertex whose
/// operation the table says conflicts with `v1`'s is to be removed when `v1` prevails
/// over it, else `v1` is in conflict (the scan goes on). Gives whether `v1` is in
/// conflict and the vertices to remove, in order.
pub open spec fn fair_scan<P: OperationParameter>(
    table: Seq<Seq<bool>>,
    scores: Map<u32, nat>,
    v1: Vertex<VertexLabel<P>>,
    rest: Seq<Vertex<VertexLabel<P>>>,
) -> (bool, Seq<Vertex<VertexLabel<P>>>)
    decreases rest.len(),
{
    if rest.len() == 0 {
        (false, Seq::empty())
    } else {
        let prev = fair_scan(table, scores, v1, rest.drop_last());
        let v2 = rest.last();
        if table[v1.label.op.id as int][v2.label.op.id as int] {
            if fair_beats(scores, v1, v2) {
                (prev.0, prev.1.push(v2))
            } else {
                (true, prev.1)
            }
        } else {
            prev
        }
    }
}

/// The identifiers of a sequence of vertices.
pub open spec fn ids_of<T>(vs: Seq<Vertex<T>>) -> Seq<VertexId> {
    vs.map_values(|v: Vertex<T>| v.id)
}

/// The winners and the losers of a level of `fair_reconciliation` (sorted by
/// operation identifier): the last vertex is scanned against the others; those it
/// prevails over lose and leave; it wins unless in conflict, and then loses; the rest
/// is resolved the same way; a last vertex alone wins.
pub open spec fn fair_level<P: OperationParameter>(
    table: Seq<Seq<bool>>,
    scores: Map<u32, nat>,
    vs: Seq<Vertex<VertexLabel<P>>>,
) -> (Seq<Vertex<VertexLabel<P>>>, Seq<Vertex<VertexLabel<P>>>)
    decreases vs.len(),
{
    if vs.len() <= 1 {
        (vs, Seq::empty())
    } else {
        let v1 = vs.last();
        let rest = vs.drop_last();
        let scan = fair_scan(table, scores, v1, rest);
        let rest2 = rest.filter(|x: Vertex<VertexLabel<P>>| !ids_of(scan.1).contains(x.id));
        proof {
            rest.lemma_filter_len(|x: Vertex<VertexLabel<P>>| !ids_of(scan.1).contains(x.id));
        }
        let sub = fair_level(table, scores, rest2);
        (
            if scan.0 {
                sub.0
            } else {
                seq![v1] + sub.0
            },
            scan.1 + (if scan.0 {
                seq![v1]
            } else {
                Seq::empty()
            }) + sub.1,
        )
    }
}

/// The scores once the process of each winner, in order, is set to 0.
pub open spec fn reset_winners<P: OperationParameter>(scores: Map<u32, nat>, w: Seq<Vertex<VertexLabel<P>>>) -> Map<u32, nat>
    decreases w.len(),
{
    if w.len() == 0 {
        scores
    } else {
        reset_winners(scores, w.drop_last()).insert(w.last().label.process_id, 0)
    }
}

/// The scores once the process of each loser, in order, gains 1.
pub open spec fn count_losers<P: OperationParameter>(scores: Map<u32, nat>, l: Seq<Vertex<VertexLabel<P>>>) -> Map<u32, nat>
    decreases l.len(),
{
    if l.len() == 0 {
        scores
    } else {
        let m = count_losers(scores, l.drop_last());
        m.insert(l.last().label.process_id, score_of(m, l.last().label.process_id) + 1)
    }
}

/// Every entry the scan of `fair_scan` looks up is in `table`.
pub open spec fn fair_scan_reads<P: OperationParameter, X>(
    table: Seq<Seq<X>>,
    v1: Vertex<VertexLabel<P>>,
    rest: Seq<Vertex<VertexLabel<P>>>,
) -> bool {
    forall|i: int| 0 <= i < rest.len() ==> reads(table, v1.label.op.id, #[trigger] rest[i].label.op.id)
}

/// Every entry the resolution of `fair_level` looks up is in `table`.
pub open spec fn fair_level_reads<P: OperationParameter>(
    table: Seq<Seq<bool>>,
    scores: Map<u32, nat>,
    vs: Seq<Vertex<VertexLabel<P>>>,
) -> bool
    decreases vs.len(),
{
    if vs.len() <= 1 {
        true
    } else {
        let v1 = vs.last();
        let rest = vs.drop_last();
        let scan = fair_scan(table, scores, v1, rest);
        let rest2 = rest.filter(|x: Vertex<VertexLabel<P>>| !ids_of(scan.1).contains(x.id));
        proof {
            rest.lemma_filter_len(|x: Vertex<VertexLabel<P>>| !ids_of(scan.1).contains(x.id));
        }
        fair_scan_reads(table, v1, rest) && fair_level_reads(table, scores, rest2)
    }
}

/// Every entry `fair_reconciliation` looks up in `table` is there.
pub open spec fn fair_reads<P: OperationParameter>(table: Seq<Seq<bool>>, dag: Dag<VertexLabel<P>>) -> bool {
    forall|k: nat| #[trigger] fair_level_reads(table, fair_state(table, dag, k).1, sort_by_op_id(level_vertices(dag, k + 1)))
}

/// The vertices `fair_reconciliation` keeps from levels 1 to `k`, in order, and the
/// scores of the processes after level `k`.
pub open spec fn fair_state<P: OperationParameter>(
    table: Seq<Seq<bool>>,
    dag: Dag<VertexLabel<P>>,
    k: nat,
) -> (Seq<Vertex<VertexLabel<P>>>, Map<u32, nat>)
    decreases k,
{
    if k == 0 {
        (Seq::empty(), Map::empty())
    } else {
        let prev = fair_state(table, dag, (k - 1) as nat);
        let lv = fair_level(table, prev.1, sort_by_op_id(level_vertices(dag, k)));
        (prev.0 + lv.0, count_losers(reset_winners(prev.1, lv.0), lv.1))
    }
}

/// No score of `fair_reconciliation` goes past `u32::MAX` after any level.
pub open spec fn fair_scores_fit<P: OperationParameter>(table: Seq<Seq<bool>>, dag: Dag<VertexLabel<P>>) -> bool {
    forall|k: nat, p: u32| #[trigger] score_of(fair_state(table, dag, k).1, p) <= u32::MAX
}

proof fn lemma_count_losers_grows<P: OperationParameter>(scores: Map<u32, nat>, l: Seq<Vertex<VertexLabel<P>>>, j: int, p: u32)
    requires
        0 <= j <= l.len(),
    ensures
        score_of(count_losers(scores, l.take(j)), p) <= score_of(count_losers(scores, l), p),
    decreases l.len() - j,
{
    if j < l.len() {
        assert(l.drop_last().take(j) =~= l.take(j));
        lemma_count_losers_grows(scores, l.drop_last(), j, p);
    } else {
        assert(l.take(j) =~= l);
    }
}

/// Scans `v1` against `rest` (see `fair_scan`).
fn scan_fair<'a, P: OperationParameter>(
    table: &Vec<Vec<bool>>,
    scores: &ProcessScores,
    v1: &Vertex<VertexLabel<P>>,
    rest: &Vec<&'a Vertex<VertexLabel<P>>>,
) -> (r: (bool, Vec<&'a Vertex<VertexLabel<P>>>))
    requires
        scores.wf(),
        fair_scan_reads(table_view(*table), *v1, derefs(rest@)),
    ensures
        r.0 == fair_scan(table_view(*table), scores.view_map(), *v1, derefs(rest@)).0,
        derefs(r.1@) == fair_scan(table_view(*table), scores.view_map(), *v1, derefs(rest@)).1,
{
    let ghost tv = table_view(*table);
    let ghost d = derefs(rest@);
    let mut conflicted = false;
    let mut toremove: Vec<&'a Vertex<VertexLabel<P>>> = Vec::new();
    let mut j: usize = 0;
    while j < rest.len()
        invariant
            0 <= j <= rest@.len(),
            tv == table_view(*table),
            d == derefs(rest@),
            scores.wf(),
            fair_scan_reads(tv, *v1, d),
            fair_scan(tv, scores.view_map(), *v1, d.take(j as int)) == (conflicted, derefs(toremove@)),
        decreases rest@.len() - j,
    {
        let v2 = rest[j];
        proof {
            assert(reads(tv, v1.label.op.id, d[j as int].label.op.id));
            assert(d.take(j + 1).drop_last() =~= d.take(j as int));
            assert(d.take(j + 1).last() == *v2);
        }
        let row = &table[v1.label.op.id];
        if row[v2.label.op.id] {
            let p1 = v1.label.process_id;
            let p2 = v2.label.process_id;
            let s1 = scores.get(p1);
            let s2 = scores.get(p2);
            if s1 > s2 || (s1 == s2 && p1 >= p2) {
                let ghost before = derefs(toremove@);
                toremove.push(v2);
                assert(derefs(toremove@) =~= before.push(*v2));
            } else {
                conflicted = true;
            }
        }
        j = j + 1;
    }
    assert(d.take(j as int) =~= d);
    (conflicted, toremove)
}

/// The identifiers of the given vertices.
fn vertex_ids<T>(vs: &Vec<&Vertex<T>>) -> (r: Vec<VertexId>)
    ensures
        r@ == ids_of(derefs(vs@)),
{
    let mut r: Vec<VertexId> = Vec::new();
    let mut i: usize = 0;
    while i < vs.len()
        invariant
            0 <= i <= vs@.len(),
            r@ == ids_of(derefs(vs@)).take(i as int),
        decreases vs@.len() - i,
    {
        r.push(vs[i].id);
        i = i + 1;
        assert(r@ =~= ids_of(derefs(vs@)).take(i as int));
    }
    assert(ids_of(derefs(vs@)).take(i as int) =~= ids_of(derefs(vs@)));
    r
}

/// The winners and losers of one level of `fair_reconciliation` (see `fair_level`).
fn fair_resolve_level<'a, P: OperationParameter>(
    table: &Vec<Vec<bool>>,
    scores: &ProcessScores,
    vs: Vec<&'a Vertex<VertexLabel<P>>>,
) -> (r: (Vec<&'a Vertex<VertexLabel<P>>>, Vec<&'a Vertex<VertexLabel<P>>>))
    requires
        scores.wf(),
        fair_level_reads(table_view(*table), scores.view_map(), derefs(vs@)),
    ensures
        derefs(r.0@) == fair_level(table_view(*table), scores.view_map(), derefs(vs@)).0,
        derefs(r.1@) == fair_level(table_view(*table), scores.view_map(), derefs(vs@)).1,
{
    let ghost tv = table_view(*table);
    let ghost sc = scores.view_map();
    let ghost goal = fair_level(tv, sc, derefs(vs@));
    let mut next = vs;
    let mut winners: Vec<&'a Vertex<VertexLabel<P>>> = Vec::new();
    let mut losers: Vec<&'a Vertex<VertexLabel<P>>> = Vec::new();
    while next.len() > 1
        invariant
            tv == table_view(*table),
            sc == scores.view_map(),
            scores.wf(),
            fair_level_reads(tv, sc, derefs(next@)),
            derefs(winners@) + fair_level(tv, sc, derefs(next@)).0 == goal.0,
            derefs(losers@) + fair_level(tv, sc, derefs(next@)).1 == goal.1,
        decreases next@.len(),
    {
        let ghost before = derefs(next@);
        let v1 = next.pop().unwrap();
        proof {
            assert(derefs(next@) =~= before.drop_last());
            assert(before.last() == *v1);
        }
        let scan = scan_fair(table, scores, v1, &next);
        let conflicted = scan.0;
        let toremove = scan.1;
        let ids = vertex_ids(&toremove);
        let ghost rest = derefs(next@);
        next = without_ids(&next, &ids);
        proof {
            rest.lemma_filter_len(|x: Vertex<VertexLabel<P>>| !ids@.contains(x.id));
            assert(ids_of(fair_scan(tv, sc, *v1, rest).1) == ids@);
            assert(fair_level_reads(tv, sc, derefs(next@)));
        }
        let ghost old_w = derefs(winners@);
        let ghost old_l = derefs(losers@);
        let mut t: usize = 0;
        while t < toremove.len()
            invariant
                0 <= t <= toremove@.len(),
                derefs(losers@) == old_l + derefs(toremove@).take(t as int),
            decreases toremove@.len() - t,
        {
            let ghost bl = derefs(losers@);
            let ghost tt = t as int;
            losers.push(toremove[t]);
            t = t + 1;
            proof {
                assert(derefs(losers@) =~= bl.push(derefs(toremove@)[tt]));
                assert(derefs(toremove@).take(tt + 1) =~= derefs(toremove@).take(tt).push(derefs(toremove@)[tt]));
            }
        }
        assert(derefs(toremove@).take(t as int) =~= derefs(toremove@));
        if conflicted {
            let ghost bl = derefs(losers@);
            losers.push(v1);
            assert(derefs(losers@) =~= bl.push(*v1));
        } else {
            let ghost bw = derefs(winners@);
            winners.push(v1);
            assert(derefs(winners@) =~= bw.push(*v1));
        }
        proof {
            let sub = fair_level(tv, sc, derefs(next@));
            let scanned = fair_scan(tv, sc, *v1, rest);
            assert(ids_of(scanned.1) == ids@);
            assert(fair_level(tv, sc, before).0 == (if scanned.0 { sub.0 } else { seq![*v1] + sub.0 }));
            assert(fair_level(tv, sc, before).1 == scanned.1 + (if scanned.0 { seq![*v1] } else { Seq::empty() }) + sub.1);
            if conflicted {
                assert(derefs(winners@) + sub.0 =~= old_w + fair_level(tv, sc, before).0);
                assert(derefs(losers@) + sub.1 =~= old_l + fair_level(tv, sc, before).1);
            } else {
                assert(derefs(winners@) + sub.0 =~= old_w + fair_level(tv, sc, before).0);
                assert(derefs(losers@) + sub.1 =~= old_l + fair_level(tv, sc, before).1);
            }
        }
    }
    if next.len() == 1 {
        let ghost bw = derefs(winners@);
        winners.push(next[0]);
        assert(derefs(winners@) =~= bw + derefs(next@));
    } else {
        assert(derefs(winners@) =~= derefs(winners@) + derefs(next@));
    }
    assert(derefs(losers@) =~= derefs(losers@) + Seq::<Vertex<VertexLabel<P>>>::empty());
    (winners, losers)
}

/// Once level `k` is empty, `fair_state` changes no more past `k`.
proof fn lemma_fair_state_stops<P: OperationParameter>(
    table: Seq<Seq<bool>>,
    dag: Dag<VertexLabel<P>>,
    k: nat,
    j: nat,
)
    requires
        dag.level_ids(k).len() == 0,
        k <= j,
    ensures
        fair_state(table, dag, j) == fair_state(table, dag, k),
    decreases j - k,
{
    if k < j {
        lemma_fair_state_stops(table, dag, k, (j - 1) as nat);
        dag.lemma_level_empty_after(k, j);
        let vs = level_vertices(dag, j);
        assert(vs =~= Seq::<Vertex<VertexLabel<P>>>::empty());
        assert(op_keys(vs) =~= Seq::<KeyPosition>::empty());
        KeyPosition::lemma_key_total();
        op_keys(vs).lemma_sort_by_ensures(key_leq::<KeyPosition>());
        vstd::seq_lib::to_multiset_len(op_keys(vs));
        vstd::seq_lib::to_multiset_len(op_keys(vs).sort_by(key_leq::<KeyPosition>()));
        assert(sort_by_op_id(vs).len() == 0);
        let prev = fair_state(table, dag, (j - 1) as nat);
        let lv = fair_level(table, prev.1, sort_by_op_id(vs));
        assert(lv.0.len() == 0 && lv.1.len() == 0);
        assert(prev.0 + lv.0 =~= prev.0);
    }
}

/// The labels kept by a reconciliation fair to the processes: the DAG is walked
/// level by level from the root (see `Dag::level_ids`); in each level past the root,
/// ordered by operation identifier, the vertices are resolved as `fair_level` says
/// with the processes' current scores and the table `op_conflicts`; then the process
/// of each winner gets score 0 and that of each loser gains 1. The root is left out.
pub fn fair_reconciliation<'a, P: OperationParameter>(
    op_conflicts: &Vec<Vec<bool>>,
    dag: &'a Dag<VertexLabel<P>>,
) -> (r: Vec<&'a VertexLabel<P>>)
    requires
        dag.wf(),
        dag.levels_end(),
        fair_reads(table_view(*op_conflicts), *dag),
        fair_scores_fit(table_view(*op_conflicts), *dag),
    ensures
        forall|k: nat| #[trigger] dag.level_ids(k).len() == 0
            ==> derefs(r@) == labels_of(fair_state(table_view(*op_conflicts), *dag, k).0),
{
    let ghost tv = table_view(*op_conflicts);
    let ghost end = choose|k: nat| #[trigger] dag.level_ids(k).len() == 0;
    let mut level: Vec<VertexId> = Vec::new();
    level.push(VertexId::new(0, 0));
    let mut order: Vec<&'a VertexLabel<P>> = Vec::new();
    let mut scores = ProcessScores::new();
    let ghost mut k: nat = 0;
    assert(level@ =~= dag.level_ids(0));
    assert(derefs(order@) =~= labels_of(fair_state(tv, *dag, 0).0));
    while level.len() > 0
        invariant
            dag.wf(),
            dag.level_ids(end).len() == 0,
            tv == table_view(*op_conflicts),
            fair_reads(tv, *dag),
            fair_scores_fit(tv, *dag),
            level@ == dag.level_ids(k),
            scores.wf(),
            derefs(order@) == labels_of(fair_state(tv, *dag, k).0),
            scores.view_map() == fair_state(tv, *dag, k).1,
            k <= end,
        decreases end - k,
    {
        proof {
            dag.lemma_level_contained(k + 1);
            if end <= k {
                dag.lemma_level_empty_after(end, k);
            }
        }
        let next = dag.next_level(&level);
        let vs = vertex_refs(dag, &next);
        let sorted = sort_vertices_by_op(&vs);
        proof {
            assert(derefs(vs@) =~= level_vertices(*dag, k + 1));
            assert(fair_level_reads(tv, fair_state(tv, *dag, k).1, sort_by_op_id(level_vertices(*dag, k + 1))));
        }
        let ghost sc0 = scores.view_map();
        let lv = fair_resolve_level(op_conflicts, &scores, sorted);
        let winners = lv.0;
        let losers = lv.1;
        let ghost old_order = derefs(order@);
        let mut w: usize = 0;
        while w < winners.len()
            invariant
                0 <= w <= winners@.len(),
                scores.wf(),
                derefs(order@) == old_order + labels_of(derefs(winners@)).take(w as int),
                scores.view_map() == reset_winners(sc0, derefs(winners@).take(w as int)),
            decreases winners@.len() - w,
        {
            let ghost before = derefs(order@);
            let ghost ww = w as int;
            scores.set(winners[w].label.process_id, 0);
            order.push(&winners[w].label);
            w = w + 1;
            proof {
                let ls = labels_of(derefs(winners@));
                assert(derefs(order@) =~= before.push(ls[ww]));
                assert(ls.take(ww + 1) =~= ls.take(ww).push(ls[ww]));
                assert(derefs(winners@).take(ww + 1).drop_last() =~= derefs(winners@).take(ww));
            }
            assert(derefs(order@) =~= old_order + labels_of(derefs(winners@)).take(w as int));
        }
        assert(derefs(winners@).take(w as int) =~= derefs(winners@));
        let ghost sc1 = scores.view_map();
        proof {
            assert(fair_state(tv, *dag, k + 1).1 == count_losers(sc1, derefs(losers@)));
            assert(fair_scores_fit(tv, *dag));
        }
        let mut l: usize = 0;
        while l < losers.len()
            invariant
                0 <= l <= losers@.len(),
                scores.wf(),
                scores.view_map() == count_losers(sc1, derefs(losers@).take(l as int)),
                fair_state(tv, *dag, k + 1).1 == count_losers(sc1, derefs(losers@)),
                forall|p: u32| #[trigger] score_of(fair_state(tv, *dag, k + 1).1, p) <= u32::MAX,
            decreases losers@.len() - l,
        {
            let ghost ll = l as int;
            let p = losers[l].label.process_id;
            let s = scores.get(p);
            proof {
                assert(derefs(losers@).take(ll + 1).drop_last() =~= derefs(losers@).take(ll));
                assert(derefs(losers@).take(ll + 1).last().label.process_id == p);
                lemma_count_losers_grows(sc1, derefs(losers@), ll + 1, p);
            }
            scores.set(p, s + 1);
            l = l + 1;
        }
        assert(derefs(losers@).take(l as int) =~= derefs(losers@));
        proof {
            assert(labels_of(fair_state(tv, *dag, k + 1).0) =~= labels_of(fair_state(tv, *dag, k).0) + labels_of(derefs(winners@)));
        }
        level = next;
        proof {
            k = k + 1;
        }
    }
    proof {
        assert forall|j: nat| #[trigger] dag.level_ids(j).len() == 0
            implies derefs(order@) == labels_of(fair_state(tv, *dag, j).0) by {
            if j <= k {
                lemma_fair_state_stops(tv, *dag, j, k);
            } else {
                lemma_fair_state_stops(tv, *dag, k, j);
            }
        }
    }
    order
}

/// The operations of the vertices of `fair_order`, each identifier standing for the
/// first vertex added with it.
pub open spec fn fair_ops<P: OperationParameter>(dag: Dag<VertexLabel<P>>) -> Seq<Operation<P>> {
    fair_order(dag).map_values(|id: VertexId| dag.vertex_of(id).label.op)
}

/// The labels of the root and then of the vertices of `fair_order`, in that order
/// (the order `fair_reconciliation_no_n` applies, as a CRDT's reconciliation).
pub fn fair_exploration_no_n<P: OperationParameter>(dag: &Dag<VertexLabel<P>>) -> (r: Vec<&VertexLabel<P>>)
    requires
        dag.wf(),
        dag.acyclic(),
        dag.vertex_seq().len() <= u32::MAX,
    ensures
        r@.len() == fair_order(*dag).len() + 1,
        *r@[0] == dag.vertex_seq()[0].label,
        forall|k: int| 0 <= k < fair_order(*dag).len() ==> *r@[k + 1] == dag.vertex_of(fair_order(*dag)[k]).label,
{
    let order = fair_order_no_n(dag);
    let mut r: Vec<&VertexLabel<P>> = Vec::new();
    r.push(&dag.get_root().label);
    let mut i: usize = 0;
    while i < order.len()
        invariant
            0 <= i <= order@.len(),
            order@ == fair_order(*dag),
            dag.all_contained(order@),
            r@.len() == i + 1,
            *r@[0] == dag.vertex_seq()[0].label,
            forall|k: int| 0 <= k < i ==> *r@[k + 1] == dag.vertex_of(order@[k]).label,
        decreases order@.len() - i,
    {
        assert(dag.contains_id(order@[i as int]));
        let v = dag.get_vertex(&order[i]).unwrap();
        r.push(&v.label);
        i = i + 1;
    }
    r
}

/// Applies to a copy of `initial_state` the operations of the vertices in the order of
/// the fair walk (`fair_order`); the root is not applied.
pub fn fair_reconciliation_no_n<P, S, M>(dag: &Dag<VertexLabel<P>>, initial_state: &S, mutate: M) -> (r: S) where
    P: OperationParameter,
    S: Clone,
    M: Fn(&S, &Operation<P>) -> S,

    requires
        dag.wf(),
        dag.acyclic(),
        dag.vertex_seq().len() <= u32::MAX,
        forall|s: &S, op: &Operation<P>| call_requires(mutate, (s, op)),
    ensures
        exists|s0: S| cloned(*initial_state, s0) && applied(mutate, s0, fair_ops(*dag), r),
{
    let order = fair_exploration_no_n(dag);
    let r = apply_order(&order, initial_state, &mutate);
    proof {
        assert(after_first(ops_of(order@)) =~= fair_ops(*dag));
    }
    r
}

} // verus!
