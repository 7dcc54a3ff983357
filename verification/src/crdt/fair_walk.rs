use vstd::prelude::*;
use crate::dag::{Dag, VertexId, root_id, sort_ids, lemma_sort_ids, push_unseen};
use crate::crdt::process_scores::{ProcessScores, score_of};
use crate::sorting::sort_keys;

verus! {

/// The identifiers of `ids` that are not in `explored`, in order.
pub open spec fn unexplored(ids: Seq<VertexId>, explored: Set<VertexId>) -> Seq<VertexId> {
    ids.filter(|p: VertexId| !explored.contains(p))
}

/// The smallest count among the processes of `ps` (0 when there is none).
pub open spec fn min_count(counter: Map<u32, nat>, ps: Seq<u32>) -> nat
    decreases ps.len(),
{
    if ps.len() == 0 {
        0
    } else if ps.len() == 1 {
        score_of(counter, ps[0])
    } else {
        let m = min_count(counter, ps.drop_last());
        let x = score_of(counter, ps.last());
        if x < m {
            x
        } else {
            m
        }
    }
}

/// The processes of `alive` whose count is the smallest, in order.
pub open spec fn starving(counter: Map<u32, nat>, alive: Seq<u32>) -> Seq<u32> {
    alive.filter(|p: u32| score_of(counter, p) == min_count(counter, alive))
}

/// The count of `p` raised by one.
pub open spec fn bump(counter: Map<u32, nat>, p: u32) -> Map<u32, nat> {
    counter.insert(p, score_of(counter, p) + 1)
}

/// What a round led by `current` applies before it: the part of its past not yet
/// explored, as `sorted_past` gives it from its unexplored parents.
pub open spec fn round_past<T>(dag: Dag<T>, current: VertexId, explored: Set<VertexId>) -> Seq<VertexId> {
    dag.past_walk(unexplored(dag.parents_of(current), explored), explored, Seq::empty()).reverse()
}

/// The processes with a vertex in the future of `current` (`processes_in_future_no_n`).
pub open spec fn alive_after<T>(dag: Dag<T>, current: VertexId) -> Seq<u32> {
    dag.processes_walk(sort_ids(dag.children(current)), set![current], Seq::empty(), None)
}

/// The leader of the next round: the first vertex past `current` of a process with
/// the smallest count among those still alive (`first_from_processes`).
pub open spec fn next_leader<T>(dag: Dag<T>, current: VertexId, counter: Map<u32, nat>) -> VertexId {
    dag.first_walk(sort_ids(dag.children(current)), set![current], starving(counter, alive_after(dag, current)))
}

/// The rounds of the fair walk from the leader `current`, with `explored` the
/// vertices applied so far, `counter` the rounds each process has led and `out` the
/// order so far. A round applies the unexplored past of its leader, then the leader,
/// and counts one more round for the leader's process; the walk stops when no process
/// has a vertex past the leader, else the next round is led by `next_leader`. The
/// result is the explored set and the order at the end.
pub open spec fn fair_walk<T>(
    dag: Dag<T>,
    current: VertexId,
    explored: Set<VertexId>,
    counter: Map<u32, nat>,
    out: Seq<VertexId>,
) -> (Set<VertexId>, Seq<VertexId>)
    decreases dag.vertex_seq().len() - dag.some_rank()(current),
    when dag.wf() && dag.acyclic() && dag.contains_id(current)
{
    let past = round_past(dag, current, explored);
    let explored2 = explored.union(past.to_set()).insert(current);
    let out2 = out + past.push(current);
    let counter2 = bump(counter, current.process_id);
    if alive_after(dag, current).len() == 0 {
        (explored2, out2)
    } else {
        proof {
            lemma_next_leader(dag, current, counter2);
        }
        fair_walk(dag, next_leader(dag, current, counter2), explored2, counter2, out2)
    }
}

/// The order in which `fair_reconciliation_no_n` applies the vertices: the rounds of
/// the fair walk led first by the child of the root with the smallest identifier (none
/// when the root has no child), then what is left unexplored of the past of the heads,
/// taken in increasing identifier order.
pub open spec fn fair_order<T>(dag: Dag<T>) -> Seq<VertexId> {
    let first = sort_ids(dag.children(root_id()));
    let walked = if first.len() == 0 {
        (set![root_id()], Seq::<VertexId>::empty())
    } else {
        fair_walk(dag, first[0], set![root_id()], Map::empty(), Seq::empty())
    };
    walked.1 + dag.past_walk(unexplored(sort_ids(dag.heads()), walked.0), walked.0, Seq::empty()).reverse()
}

pub proof fn lemma_min_count(counter: Map<u32, nat>, ps: Seq<u32>)
    requires
        ps.len() > 0,
    ensures
        forall|i: int| 0 <= i < ps.len() ==> min_count(counter, ps) <= score_of(counter, #[trigger] ps[i]),
        exists|i: int| 0 <= i < ps.len() && score_of(counter, #[trigger] ps[i]) == min_count(counter, ps),
    decreases ps.len(),
{
    if ps.len() == 1 {
        assert(score_of(counter, ps[0]) == min_count(counter, ps));
    } else {
        let q = ps.drop_last();
        lemma_min_count(counter, q);
        assert forall|i: int| 0 <= i < ps.len() implies min_count(counter, ps) <= score_of(counter, #[trigger] ps[i]) by {
            if i < q.len() {
                assert(ps[i] == q[i]);
            }
        }
        let j = choose|j: int| 0 <= j < q.len() && score_of(counter, #[trigger] q[j]) == min_count(counter, q);
        if score_of(counter, ps.last()) < min_count(counter, q) {
            assert(score_of(counter, ps[ps.len() - 1]) == min_count(counter, ps));
        } else {
            assert(ps[j] == q[j]);
            assert(score_of(counter, ps[j]) == min_count(counter, ps));
        }
    }
}

/// The children of `x`, sorted, are reached from `x`, and every child is among them.
pub proof fn lemma_children_reached<T>(dag: Dag<T>, x: VertexId)
    requires
        dag.wf(),
    ensures
        forall|i: int| 0 <= i < sort_ids(dag.children(x)).len() ==> dag.reaches(x, #[trigger] sort_ids(dag.children(x))[i]),
        forall|c: VertexId| dag.has_edge(c, x) ==> #[trigger] sort_ids(dag.children(x)).contains(c),
{
    lemma_sort_ids(dag.children(x));
    assert forall|i: int| 0 <= i < sort_ids(dag.children(x)).len() implies dag.reaches(x, #[trigger] sort_ids(dag.children(x))[i]) by {
        let c = sort_ids(dag.children(x))[i];
        assert(sort_ids(dag.children(x)).contains(c));
        assert(dag.children(x).contains(c));
        let t = choose|t: int| 0 <= t < dag.children(x).len() && dag.children(x)[t] == c;
        dag.ids().lemma_filter_pred(|w: VertexId| dag.has_edge(w, x), t);
        dag.lemma_reaches_child(x, x, c);
    }
    assert forall|c: VertexId| dag.has_edge(c, x) implies #[trigger] sort_ids(dag.children(x)).contains(c) by {
        dag.lemma_child_listed(c, x);
    }
}

/// What `start` reaches is a vertex of the DAG.
pub proof fn lemma_reached_contained<T>(dag: Dag<T>, start: VertexId, x: VertexId)
    requires
        dag.wf(),
        dag.reaches(start, x),
    ensures
        dag.contains_id(x),
{
    let path = choose|path: Seq<VertexId>|
        #[trigger] dag.is_child_path(path) && path.len() >= 2 && path[0] == start && path.last() == x;
    let j = path.len() - 2;
    assert(dag.has_edge(path[j + 1], path[j]));
    dag.lemma_child_listed(path[j + 1], path[j]);
}

/// When a process still has a vertex past `current`, the next leader is a vertex of
/// the DAG reached from `current`, of a higher rank.
pub proof fn lemma_next_leader<T>(dag: Dag<T>, current: VertexId, counter: Map<u32, nat>)
    requires
        dag.wf(),
        dag.acyclic(),
        dag.contains_id(current),
        alive_after(dag, current).len() > 0,
    ensures
        dag.reaches(current, next_leader(dag, current, counter)),
        dag.contains_id(next_leader(dag, current, counter)),
        dag.some_rank()(current) < dag.some_rank()(next_leader(dag, current, counter)),
        dag.some_rank()(next_leader(dag, current, counter)) < dag.vertex_seq().len(),
{
    let rank = dag.some_rank();
    assert(dag.ranked_by(rank));
    let queue = sort_ids(dag.children(current));
    let alive = alive_after(dag, current);
    lemma_children_reached(dag, current);
    dag.lemma_children_contained(current);
    dag.lemma_processes_reached(current, queue, set![current], Seq::empty(), None);
    lemma_min_count(counter, alive);
    let i = choose|i: int| 0 <= i < alive.len() && score_of(counter, #[trigger] alive[i]) == min_count(counter, alive);
    let st = starving(counter, alive);
    alive.lemma_filter_contains(|p: u32| score_of(counter, p) == min_count(counter, alive), i);
    assert(st.contains(alive[i]));
    assert(dag.reaches_process(current, alive[i]));
    let x = choose|x: VertexId| #[trigger] dag.reaches(current, x) && x.process_id == alive[i];
    let path = choose|path: Seq<VertexId>|
        #[trigger] dag.is_child_path(path) && path.len() >= 2 && path[0] == current && path.last() == x;
    dag.lemma_reaches_rank(rank, current, x);
    assert forall|y: VertexId, c: VertexId|
        #![trigger set![current].contains(y), dag.has_edge(c, y)]
        set![current].contains(y) && dag.has_edge(c, y) implies set![current].contains(c) || queue.contains(c) by {
        assert(y == current);
    }
    dag.lemma_first_walk_finds(current, queue, set![current], st, path);
    let next = next_leader(dag, current, counter);
    dag.lemma_reaches_rank(rank, current, next);
    lemma_reached_contained(dag, current, next);
    let k = choose|k: int| 0 <= k < dag.vertex_seq().len() && #[trigger] dag.vertex_seq()[k].id == next;
    assert(rank(dag.vertex_seq()[k].id) < dag.vertex_seq().len());
}

/// Appends the elements of `src` to `dst`.
fn append_ids(dst: &mut Vec<VertexId>, src: &Vec<VertexId>)
    ensures
        final(dst)@ == old(dst)@ + src@,
{
    let mut i: usize = 0;
    while i < src.len()
        invariant
            0 <= i <= src@.len(),
            dst@ == old(dst)@ + src@.take(i as int),
        decreases src@.len() - i,
    {
        dst.push(src[i]);
        i = i + 1;
        assert(dst@ =~= old(dst)@ + src@.take(i as int));
    }
    assert(src@.take(i as int) =~= src@);
}

/// The smallest count among the processes of `alive` (0 when there is none).
fn min_score(counter: &ProcessScores, alive: &Vec<u32>) -> (r: u32)
    requires
        counter.wf(),
    ensures
        r as nat == min_count(counter.view_map(), alive@),
{
    if alive.len() == 0 {
        return 0;
    }
    let mut m = counter.get(alive[0]);
    let mut i: usize = 1;
    assert(min_count(counter.view_map(), alive@.take(1)) == score_of(counter.view_map(), alive@[0]));
    while i < alive.len()
        invariant
            1 <= i <= alive@.len(),
            counter.wf(),
            m as nat == min_count(counter.view_map(), alive@.take(i as int)),
        decreases alive@.len() - i,
    {
        let x = counter.get(alive[i]);
        assert(alive@.take(i + 1).drop_last() =~= alive@.take(i as int));
        assert(alive@.take(i + 1).last() == alive@[i as int]);
        if x < m {
            m = x;
        }
        i = i + 1;
    }
    assert(alive@.take(i as int) =~= alive@);
    m
}

/// The processes of `alive` whose count is `m`, the smallest, in order.
fn starving_of(counter: &ProcessScores, alive: &Vec<u32>, m: u32) -> (r: Vec<u32>)
    requires
        counter.wf(),
        m as nat == min_count(counter.view_map(), alive@),
    ensures
        r@ == starving(counter.view_map(), alive@),
{
    let ghost pred = |p: u32| score_of(counter.view_map(), p) == min_count(counter.view_map(), alive@);
    let mut r: Vec<u32> = Vec::new();
    let mut i: usize = 0;
    while i < alive.len()
        invariant
            0 <= i <= alive@.len(),
            counter.wf(),
            m as nat == min_count(counter.view_map(), alive@),
            pred == (|p: u32| score_of(counter.view_map(), p) == min_count(counter.view_map(), alive@)),
            r@ == alive@.take(i as int).filter(pred),
        decreases alive@.len() - i,
    {
        proof {
            reveal(Seq::filter);
            assert(alive@.take(i + 1).drop_last() =~= alive@.take(i as int));
            assert(alive@.take(i + 1).last() == alive@[i as int]);
        }
        if counter.get(alive[i]) == m {
            r.push(alive[i]);
        }
        i = i + 1;
    }
    assert(alive@.take(i as int) =~= alive@);
    r
}

/// The order of `fair_order`: the rounds of the fair walk, then the unexplored past
/// of the heads. Every identifier of it is a vertex of the DAG.
pub fn fair_order_no_n<T>(dag: &Dag<T>) -> (r: Vec<VertexId>)
    requires
        dag.wf(),
        dag.acyclic(),
        dag.vertex_seq().len() <= u32::MAX,
    ensures
        r@ == fair_order(*dag),
        dag.all_contained(r@),
{
    let root = dag.get_root().id;
    let mut explored: Vec<VertexId> = Vec::new();
    explored.push(root);
    let mut out: Vec<VertexId> = Vec::new();
    proof {
        assert forall|x: VertexId| explored@.to_set().contains(x) == set![root_id()].contains(x) by {
            if x == root_id() {
                assert(explored@[0] == x);
            }
        }
        assert(explored@.to_set() =~= set![root_id()]);
    }
    let first = sort_keys(&dag.get_edges_to_vertex(&root));
    let ghost walked = if first@.len() == 0 {
        (set![root_id()], Seq::<VertexId>::empty())
    } else {
        fair_walk(*dag, first@[0], set![root_id()], Map::empty(), Seq::empty())
    };
    if first.len() > 0 {
        let mut current = first[0];
        let mut counter = ProcessScores::new();
        let ghost mut rounds: nat = 0;
        proof {
            dag.lemma_children_contained(root_id());
            lemma_sort_ids(dag.children(root_id()));
            assert(first@.contains(first@[0]));
            assert(dag.children(root_id()).contains(first@[0]));
            assert(dag.contains_id(first@[0]));
        }
        loop
            invariant_except_break
                fair_walk(*dag, current, explored@.to_set(), counter.view_map(), out@) == walked,
                forall|p: u32| score_of(counter.view_map(), p) <= rounds,
                rounds <= dag.some_rank()(current),
            invariant
                dag.wf(),
                dag.acyclic(),
                dag.vertex_seq().len() <= u32::MAX,
                dag.contains_id(current),
                counter.wf(),
                dag.all_contained(out@),
            ensures
                explored@.to_set() == walked.0,
                out@ == walked.1,
                dag.all_contained(out@),
            decreases dag.vertex_seq().len() - dag.some_rank()(current),
        {
            let ghost ex0 = explored@;
            let ghost out0 = out@;
            let ghost c0 = counter.view_map();
            let parents = dag.get_edges_from_vertex(&current);
            let mut heads: Vec<VertexId> = Vec::new();
            push_unseen(&mut heads, &parents, &explored);
            proof {
                assert(heads@ =~= unexplored(dag.parents_of(current), ex0.to_set()));
                dag.lemma_parents_contained(current);
                assert forall|i: int| 0 <= i < heads@.len() implies dag.contains_id(#[trigger] heads@[i]) by {
                    let h = heads@[i];
                    assert(heads@.contains(h));
                    dag.parents_of(current).lemma_filter_contains_rev(|p: VertexId| !ex0.to_set().contains(p), h);
                }
                dag.lemma_past_walk_contained(heads@, ex0.to_set(), Seq::empty());
            }
            let past = dag.sorted_past(heads, &explored);
            proof {
                let pw = dag.past_walk(unexplored(dag.parents_of(current), ex0.to_set()), ex0.to_set(), Seq::empty());
                assert forall|i: int| 0 <= i < past@.len() implies dag.contains_id(#[trigger] past@[i]) by {
                    assert(past@[i] == pw[pw.len() - 1 - i]);
                }
            }
            append_ids(&mut explored, &past);
            append_ids(&mut out, &past);
            explored.push(current);
            out.push(current);
            proof {
                vstd::seq_lib::seq_to_set_distributes_over_add(ex0, past@);
                (ex0 + past@).lemma_push_to_set_commute(current);
                assert(explored@ =~= (ex0 + past@).push(current));
                assert(explored@.to_set() =~= ex0.to_set().union(past@.to_set()).insert(current));
                assert(out@ =~= out0 + past@.push(current));
                assert forall|i: int| 0 <= i < out@.len() implies dag.contains_id(#[trigger] out@[i]) by {
                    if i < out0.len() {
                        assert(out@[i] == out0[i]);
                    } else if i < out0.len() + past@.len() {
                        assert(out@[i] == past@[i - out0.len()]);
                    }
                }
                let rank = dag.some_rank();
                assert(dag.ranked_by(rank));
                let k = choose|k: int| 0 <= k < dag.vertex_seq().len() && #[trigger] dag.vertex_seq()[k].id == current;
                assert(rank(dag.vertex_seq()[k].id) < dag.vertex_seq().len());
                assert(score_of(c0, current.process_id) <= rounds);
            }
            let c = counter.get(current.process_id);
            counter.set(current.process_id, c + 1);
            let alive = dag.processes_in_future_no_n(&current);
            if alive.len() == 0 {
                break;
            }
            let m = min_score(&counter, &alive);
            let st = starving_of(&counter, &alive, m);
            let next = dag.first_from_processes(&current, &st);
            proof {
                assert(counter.view_map() == bump(c0, current.process_id));
                lemma_next_leader(*dag, current, counter.view_map());
                assert forall|p: u32| score_of(counter.view_map(), p) <= rounds + 1 by {
                    if p != current.process_id {
                        assert(score_of(c0, p) <= rounds);
                    }
                }
                rounds = rounds + 1;
            }
            current = next;
        }
    }
    let all_heads = sort_keys(&dag.get_heads());
    let mut hs: Vec<VertexId> = Vec::new();
    push_unseen(&mut hs, &all_heads, &explored);
    proof {
        assert(hs@ =~= unexplored(sort_ids(dag.heads()), walked.0));
        lemma_sort_ids(dag.heads());
        assert forall|i: int| 0 <= i < hs@.len() implies dag.contains_id(#[trigger] hs@[i]) by {
            let h = hs@[i];
            assert(hs@.contains(h));
            sort_ids(dag.heads()).lemma_filter_contains_rev(|p: VertexId| !walked.0.contains(p), h);
            assert(dag.heads().contains(h));
            let j = choose|j: int| 0 <= j < dag.heads().len() && dag.heads()[j] == h;
            dag.lemma_heads_contained(j);
        }
        dag.lemma_past_walk_contained(hs@, walked.0, Seq::empty());
    }
    let remaining = dag.sorted_past(hs, &explored);
    let ghost out1 = out@;
    append_ids(&mut out, &remaining);
    proof {
        let pw = dag.past_walk(hs@, walked.0, Seq::empty());
        assert forall|i: int| 0 <= i < out@.len() implies dag.contains_id(#[trigger] out@[i]) by {
            if i < out1.len() {
                assert(out@[i] == out1[i]);
            } else {
                let j = i - out1.len();
                assert(out@[i] == remaining@[j]);
                assert(remaining@[j] == pw[pw.len() - 1 - j]);
            }
        }
    }
    out
}

/// Each next identifier of `path` is a parent of the one before, and none is in
/// `avoid`.
pub open spec fn up_path<T>(dag: Dag<T>, path: Seq<VertexId>, avoid: Set<VertexId>) -> bool {
    &&& path.len() >= 1
    &&& forall|i: int| 0 <= i < path.len() - 1 ==> #[trigger] dag.has_edge(path[i], path[i + 1])
    &&& forall|i: int| 0 <= i < path.len() ==> !avoid.contains(#[trigger] path[i])
}

/// `y` is reached from an element of `stack` going up through parents, outside
/// `avoid`.
pub open spec fn up_reached<T>(dag: Dag<T>, stack: Seq<VertexId>, avoid: Set<VertexId>, y: VertexId) -> bool {
    exists|path: Seq<VertexId>| #[trigger] up_path(dag, path, avoid) && stack.contains(path[0]) && path.last() == y
}

/// A position of the last occurrence of `h` in `path`, when it occurs.
proof fn lemma_last_occurrence(path: Seq<VertexId>, h: VertexId) -> (k: int)
    requires
        path.contains(h),
    ensures
        0 <= k < path.len(),
        path[k] == h,
        forall|j: int| k < j < path.len() ==> path[j] != h,
    decreases path.len(),
{
    if path.last() == h {
        path.len() - 1
    } else {
        let j = choose|j: int| 0 <= j < path.len() && path[j] == h;
        assert(path.drop_last()[j] == h);
        let k = lemma_last_occurrence(path.drop_last(), h);
        assert forall|j2: int| k < j2 < path.len() implies path[j2] != h by {
            if j2 < path.len() - 1 {
                assert(path.drop_last()[j2] == path[j2]);
            }
        }
        k
    }
}

/// The depth-first walk of `past_walk` adds to `past` each vertex reached from the
/// stack going up through parents outside `seen`, each once, and nothing else.
pub proof fn lemma_past_walk_found<T>(dag: Dag<T>, stack: Seq<VertexId>, seen: Set<VertexId>, past: Seq<VertexId>)
    requires
        dag.wf(),
    ensures
        dag.past_walk(stack, seen, past).len() >= past.len(),
        dag.past_walk(stack, seen, past).subrange(0, past.len() as int) == past,
        dag.past_walk(stack, seen, past).subrange(past.len() as int, dag.past_walk(stack, seen, past).len() as int).no_duplicates(),
        forall|y: VertexId|
            dag.past_walk(stack, seen, past).subrange(past.len() as int, dag.past_walk(stack, seen, past).len() as int).contains(y)
                <==> up_reached(dag, stack, seen, y),
    decreases dag.id_set().difference(seen).len(), stack.len(),
{
    let w = dag.past_walk(stack, seen, past);
    if stack.len() == 0 {
        assert(w.subrange(past.len() as int, w.len() as int) =~= Seq::<VertexId>::empty());
        assert(w.subrange(0, past.len() as int) =~= past);
    } else {
        let head = stack.last();
        let rest = stack.drop_last();
        if seen.contains(head) {
            lemma_past_walk_found(dag, rest, seen, past);
            assert forall|y: VertexId| up_reached(dag, stack, seen, y) <==> up_reached(dag, rest, seen, y) by {
                if up_reached(dag, stack, seen, y) {
                    let path = choose|path: Seq<VertexId>| #[trigger] up_path(dag, path, seen) && stack.contains(path[0]) && path.last() == y;
                    assert(!seen.contains(path[0]));
                    let i = choose|i: int| 0 <= i < stack.len() && stack[i] == path[0];
                    assert(i != stack.len() - 1);
                    assert(rest[i] == path[0]);
                }
                if up_reached(dag, rest, seen, y) {
                    let path = choose|path: Seq<VertexId>| #[trigger] up_path(dag, path, seen) && rest.contains(path[0]) && path.last() == y;
                    let i = choose|i: int| 0 <= i < rest.len() && rest[i] == path[0];
                    assert(stack[i] == path[0]);
                }
            }
        } else {
            let seen2 = seen.insert(head);
            dag.lemma_walk_measure(seen, head);
            let ps = sort_ids(dag.parents_of(head));
            let pushed = ps.filter(|p: VertexId| !seen2.contains(p));
            let stack2 = rest + pushed;
            let past2 = past.push(head);
            lemma_past_walk_found(dag, stack2, seen2, past2);
            assert(w == dag.past_walk(stack2, seen2, past2));
            let n2 = w.subrange(past2.len() as int, w.len() as int);
            let n1 = w.subrange(past.len() as int, w.len() as int);
            assert(w[past.len() as int] == head) by {
                assert(w.subrange(0, past2.len() as int)[past.len() as int] == past2[past.len() as int]);
            }
            assert(n1 =~= seq![head] + n2);
            assert(w.subrange(0, past.len() as int) =~= past) by {
                assert(w.subrange(0, past2.len() as int) == past2);
                assert forall|i: int| 0 <= i < past.len() implies w[i] == past[i] by {
                    assert(w.subrange(0, past2.len() as int)[i] == past2[i]);
                }
            }
            lemma_sort_ids(dag.parents_of(head));
            assert(!n2.contains(head)) by {
                if n2.contains(head) {
                    assert(up_reached(dag, stack2, seen2, head));
                    let path = choose|path: Seq<VertexId>| #[trigger] up_path(dag, path, seen2) && stack2.contains(path[0]) && path.last() == head;
                    assert(!seen2.contains(path[path.len() - 1]));
                }
            }
            assert(n1.no_duplicates()) by {
                assert forall|i: int, j: int| 0 <= i < n1.len() && 0 <= j < n1.len() && i != j implies n1[i] != n1[j] by {
                    if i == 0 {
                        assert(n2[j - 1] == n1[j]);
                    } else if j == 0 {
                        assert(n2[i - 1] == n1[i]);
                    } else {
                        assert(n2[i - 1] == n1[i] && n2[j - 1] == n1[j]);
                    }
                }
            }
            assert forall|y: VertexId| n1.contains(y) <==> up_reached(dag, stack, seen, y) by {
                if n1.contains(y) {
                    if y == head {
                        let path = seq![head];
                        assert(up_path(dag, path, seen));
                        assert(stack[stack.len() - 1] == path[0]);
                    } else {
                        let i = choose|i: int| 0 <= i < n1.len() && n1[i] == y;
                        assert(n2[i - 1] == y);
                        assert(up_reached(dag, stack2, seen2, y));
                        let path = choose|path: Seq<VertexId>| #[trigger] up_path(dag, path, seen2) && stack2.contains(path[0]) && path.last() == y;
                        let t = choose|t: int| 0 <= t < stack2.len() && stack2[t] == path[0];
                        if t < rest.len() {
                            assert(stack[t] == path[0]);
                            assert forall|k: int| 0 <= k < path.len() implies !seen.contains(#[trigger] path[k]) by {
                                assert(!seen2.contains(path[k]));
                            }
                            assert(up_path(dag, path, seen));
                        } else {
                            let p = path[0];
                            assert(pushed[t - rest.len()] == p);
                            assert(pushed.contains(p));
                            ps.lemma_filter_contains_rev(|p: VertexId| !seen2.contains(p), p);
                            assert(dag.parents_of(head).contains(p));
                            let path2 = seq![head] + path;
                            assert forall|k: int| 0 <= k < path2.len() - 1 implies #[trigger] dag.has_edge(path2[k], path2[k + 1]) by {
                                if k > 0 {
                                    assert(path2[k] == path[k - 1] && path2[k + 1] == path[k]);
                                    assert(dag.has_edge(path[k - 1], path[(k - 1) + 1]));
                                }
                            }
                            assert forall|k: int| 0 <= k < path2.len() implies !seen.contains(#[trigger] path2[k]) by {
                                if k > 0 {
                                    assert(path2[k] == path[k - 1]);
                                    assert(!seen2.contains(path[k - 1]));
                                }
                            }
                            assert(up_path(dag, path2, seen));
                            assert(stack[stack.len() - 1] == path2[0]);
                            assert(path2.last() == y);
                        }
                    }
                }
                if up_reached(dag, stack, seen, y) {
                    if y == head {
                        assert(n1[0] == y);
                    } else {
                        let path = choose|path: Seq<VertexId>| #[trigger] up_path(dag, path, seen) && stack.contains(path[0]) && path.last() == y;
                        if path.contains(head) {
                            let k = lemma_last_occurrence(path, head);
                            assert(k < path.len() - 1);
                            let suffix = path.subrange(k + 1, path.len() as int);
                            let p = suffix[0];
                            assert(p == path[k + 1]);
                            assert(dag.has_edge(path[k], path[k + 1]));
                            assert(dag.parents_of(head).contains(p));
                            assert(ps.contains(p));
                            assert(!seen2.contains(p));
                            let t = choose|t: int| 0 <= t < ps.len() && ps[t] == p;
                            ps.lemma_filter_contains(|p: VertexId| !seen2.contains(p), t);
                            let u = choose|u: int| 0 <= u < pushed.len() && pushed[u] == p;
                            assert(stack2[rest.len() + u] == p);
                            assert forall|q: int| 0 <= q < suffix.len() - 1 implies #[trigger] dag.has_edge(suffix[q], suffix[q + 1]) by {
                                assert(suffix[q] == path[k + 1 + q] && suffix[q + 1] == path[k + 1 + q + 1]);
                                assert(dag.has_edge(path[k + 1 + q], path[(k + 1 + q) + 1]));
                            }
                            assert forall|q: int| 0 <= q < suffix.len() implies !seen2.contains(#[trigger] suffix[q]) by {
                                assert(suffix[q] == path[k + 1 + q]);
                                assert(!seen.contains(path[k + 1 + q]));
                            }
                            assert(up_path(dag, suffix, seen2));
                            assert(suffix.last() == y);
                            assert(up_reached(dag, stack2, seen2, y));
                        } else {
                            assert forall|q: int| 0 <= q < path.len() implies !seen2.contains(#[trigger] path[q]) by {
                                assert(path[q] != head);
                            }
                            assert(up_path(dag, path, seen2));
                            let i = choose|i: int| 0 <= i < stack.len() && stack[i] == path[0];
                            assert(i != stack.len() - 1);
                            assert(stack2[i] == path[0]);
                            assert(up_reached(dag, stack2, seen2, y));
                        }
                        assert(n2.contains(y));
                        let j = choose|j: int| 0 <= j < n2.len() && n2[j] == y;
                        assert(n1[j + 1] == y);
                    }
                }
            }
        }
    }
}

/// Every parent of an identifier of `set` is in `set`.
pub open spec fn parent_closed<T>(dag: Dag<T>, set: Set<VertexId>) -> bool {
    forall|x: VertexId, p: VertexId|
        #![trigger set.contains(x), dag.has_edge(x, p)]
        set.contains(x) && dag.has_edge(x, p) ==> set.contains(p)
}

/// What is reached from what `start` reaches is reached from `start`.
pub proof fn lemma_reaches_trans<T>(dag: Dag<T>, a: VertexId, b: VertexId, c: VertexId)
    requires
        dag.reaches(a, b),
        dag.reaches(b, c),
    ensures
        dag.reaches(a, c),
{
    let p1 = choose|path: Seq<VertexId>| #[trigger] dag.is_child_path(path) && path.len() >= 2 && path[0] == a && path.last() == b;
    let p2 = choose|path: Seq<VertexId>| #[trigger] dag.is_child_path(path) && path.len() >= 2 && path[0] == b && path.last() == c;
    let p = p1 + p2.drop_first();
    assert forall|i: int| 0 <= i < p.len() - 1 implies #[trigger] dag.has_edge(p[i + 1], p[i]) by {
        if i < p1.len() - 1 {
            assert(p[i] == p1[i] && p[i + 1] == p1[i + 1]);
        } else if i == p1.len() - 1 {
            assert(p[i] == p2[0] && p[i + 1] == p2[1]);
            assert(dag.has_edge(p2[0int + 1], p2[0int]));
        } else {
            let j = i - p1.len() + 1;
            assert(p[i] == p2[j] && p[i + 1] == p2[j + 1]);
        }
    }
    assert(dag.is_child_path(p));
    assert(p.last() == c);
}

/// Going up from a parent of `c` through parents, every vertex met reaches `c`.
pub proof fn lemma_up_path_reaches<T>(dag: Dag<T>, path: Seq<VertexId>, avoid: Set<VertexId>, c: VertexId)
    requires
        up_path(dag, path, avoid),
        dag.has_edge(c, path[0]),
    ensures
        dag.reaches(path.last(), c),
{
    let full = seq![c] + path;
    let len = full.len();
    let rev = full.reverse();
    assert forall|i: int| 0 <= i < rev.len() - 1 implies #[trigger] dag.has_edge(rev[i + 1], rev[i]) by {
        let j = len - 2 - i;
        assert(rev[i] == full[j + 1] && rev[i + 1] == full[j]);
        if j == 0 {
            assert(full[0] == c && full[1] == path[0]);
        } else {
            assert(full[j] == path[j - 1] && full[j + 1] == path[j]);
            assert(dag.has_edge(path[j - 1], path[(j - 1) + 1]));
        }
    }
    assert(dag.is_child_path(rev));
    assert(rev[0] == path.last());
    assert(rev.last() == c);
}

/// Outside a parent-closed set holding the root, every vertex is reached going up
/// from a head outside the set.
pub proof fn lemma_unexplored_head<T>(dag: Dag<T>, explored: Set<VertexId>, y: VertexId) -> (path: Seq<VertexId>)
    requires
        dag.wf(),
        dag.acyclic(),
        parent_closed(dag, explored),
        explored.contains(root_id()),
        dag.contains_id(y),
        !explored.contains(y),
    ensures
        up_path(dag, path, explored),
        dag.heads().contains(path[0]),
        path.last() == y,
    decreases dag.vertex_seq().len() - dag.some_rank()(y),
{
    let rank = dag.some_rank();
    assert(dag.ranked_by(rank));
    if !dag.has_child(y) {
        let k = choose|k: int| 0 <= k < dag.vertex_seq().len() && #[trigger] dag.vertex_seq()[k].id == y;
        assert(dag.ids()[k] == y);
        dag.ids().lemma_filter_contains(|x: VertexId| !dag.has_child(x) && x != root_id(), k);
        let path = seq![y];
        assert(up_path(dag, path, explored));
        path
    } else {
        let k = choose|k: int| 0 <= k < dag.vertex_seq().len() && dag.has_edge(#[trigger] dag.vertex_seq()[k].id, y);
        let c = dag.vertex_seq()[k].id;
        assert(!explored.contains(c));
        assert(dag.contains_id(c));
        assert(rank(y) < rank(c));
        assert(rank(dag.vertex_seq()[k].id) < dag.vertex_seq().len());
        let p = lemma_unexplored_head(dag, explored, c);
        let path = p.push(y);
        assert forall|i: int| 0 <= i < path.len() - 1 implies #[trigger] dag.has_edge(path[i], path[i + 1]) by {
            if i < p.len() - 1 {
                assert(path[i] == p[i] && path[i + 1] == p[i + 1]);
            } else {
                assert(path[i] == c && path[i + 1] == y);
            }
        }
        assert forall|i: int| 0 <= i < path.len() implies !explored.contains(#[trigger] path[i]) by {
            if i < p.len() {
                assert(path[i] == p[i]);
            }
        }
        assert(path[0] == p[0]);
        path
    }
}

/// The rounds of the fair walk keep: the explored set holds the root and is
/// parent-closed, and the order lists each explored vertex other than the root once,
/// and only vertices of the DAG.
pub proof fn lemma_fair_walk_sound<T>(
    dag: Dag<T>,
    current: VertexId,
    explored: Set<VertexId>,
    counter: Map<u32, nat>,
    out: Seq<VertexId>,
)
    requires
        dag.wf(),
        dag.acyclic(),
        dag.parents_of(root_id()).len() == 0,
        dag.contains_id(current),
        current != root_id(),
        explored.contains(root_id()),
        parent_closed(dag, explored),
        forall|y: VertexId| #[trigger] explored.contains(y) ==> y == root_id() || dag.reaches(y, current),
        out.no_duplicates(),
        forall|y: VertexId| #[trigger] out.contains(y) <==> (explored.contains(y) && y != root_id()),
        dag.all_contained(out),
    ensures
        fair_walk(dag, current, explored, counter, out).0.contains(root_id()),
        parent_closed(dag, fair_walk(dag, current, explored, counter, out).0),
        fair_walk(dag, current, explored, counter, out).1.no_duplicates(),
        forall|y: VertexId| #[trigger] fair_walk(dag, current, explored, counter, out).1.contains(y)
            <==> (fair_walk(dag, current, explored, counter, out).0.contains(y) && y != root_id()),
        dag.all_contained(fair_walk(dag, current, explored, counter, out).1),
    decreases dag.vertex_seq().len() - dag.some_rank()(current),
{
    let rank = dag.some_rank();
    assert(dag.ranked_by(rank));
    let stack = unexplored(dag.parents_of(current), explored);
    let w = dag.past_walk(stack, explored, Seq::empty());
    lemma_past_walk_found(dag, stack, explored, Seq::empty());
    assert(w.subrange(0, w.len() as int) =~= w);
    let past = round_past(dag, current, explored);
    assert(past == w.reverse());
    let explored2 = explored.union(past.to_set()).insert(current);
    let out2 = out + past.push(current);
    let counter2 = bump(counter, current.process_id);
    // what the walk records is outside `explored` and reaches `current`
    assert forall|y: VertexId| #[trigger] past.contains(y) <==> w.contains(y) by {
        if past.contains(y) {
            let i = choose|i: int| 0 <= i < past.len() && past[i] == y;
            assert(w[w.len() - 1 - i] == y);
        }
        if w.contains(y) {
            let i = choose|i: int| 0 <= i < w.len() && w[i] == y;
            assert(past[w.len() - 1 - i] == y);
        }
    }
    assert forall|y: VertexId| #[trigger] past.contains(y) implies !explored.contains(y) && dag.reaches(y, current) by {
        assert(up_reached(dag, stack, explored, y));
        let path = choose|path: Seq<VertexId>| #[trigger] up_path(dag, path, explored) && stack.contains(path[0]) && path.last() == y;
        assert(!explored.contains(path[path.len() - 1]));
        dag.parents_of(current).lemma_filter_contains_rev(|p: VertexId| !explored.contains(p), path[0]);
        lemma_up_path_reaches(dag, path, explored, current);
    }
    assert(!dag.reaches(current, current)) by {
        if dag.reaches(current, current) {
            dag.lemma_reaches_rank(rank, current, current);
        }
    }
    assert(!explored.contains(current));
    assert(!past.contains(current));
    // the order stays free of repetitions
    assert(past.no_duplicates()) by {
        assert forall|i: int, j: int| 0 <= i < past.len() && 0 <= j < past.len() && i != j implies past[i] != past[j] by {
            assert(past[i] == w[w.len() - 1 - i] && past[j] == w[w.len() - 1 - j]);
        }
    }
    assert(out2.no_duplicates()) by {
        let tail = past.push(current);
        assert forall|i: int, j: int| 0 <= i < tail.len() && 0 <= j < tail.len() && i != j implies tail[i] != tail[j] by {
            if i < past.len() && j < past.len() {
                assert(tail[i] == past[i] && tail[j] == past[j]);
            } else if i < past.len() {
                assert(tail[i] == past[i]);
                assert(past.contains(past[i]));
            } else if j < past.len() {
                assert(tail[j] == past[j]);
                assert(past.contains(past[j]));
            }
        }
        assert forall|i: int, j: int| 0 <= i < out.len() && 0 <= j < tail.len() implies out[i] != tail[j] by {
            assert(out.contains(out[i]));
            if j < past.len() {
                assert(tail[j] == past[j]);
                assert(past.contains(past[j]));
            }
        }
        vstd::seq_lib::lemma_no_dup_in_concat(out, tail);
    }
    assert forall|y: VertexId| #[trigger] out2.contains(y) <==> (explored2.contains(y) && y != root_id()) by {
        if out2.contains(y) {
            let i = choose|i: int| 0 <= i < out2.len() && out2[i] == y;
            if i < out.len() {
                assert(out[i] == y);
                assert(out.contains(y));
            } else if i < out.len() + past.len() {
                assert(past[i - out.len()] == y);
                assert(past.contains(y));
            }
        }
        if explored2.contains(y) && y != root_id() {
            if explored.contains(y) {
                assert(out.contains(y));
                let i = choose|i: int| 0 <= i < out.len() && out[i] == y;
                assert(out2[i] == y);
            } else if y == current {
                assert(out2[out2.len() - 1] == y);
            } else {
                assert(past.to_set().contains(y));
                let i = choose|i: int| 0 <= i < past.len() && past[i] == y;
                assert(out2[out.len() + i] == y);
            }
        }
    }
    // what it lists are vertices of the DAG
    dag.lemma_parents_contained(current);
    assert(dag.all_contained(stack)) by {
        assert forall|i: int| 0 <= i < stack.len() implies dag.contains_id(#[trigger] stack[i]) by {
            assert(stack.contains(stack[i]));
            dag.parents_of(current).lemma_filter_contains_rev(|p: VertexId| !explored.contains(p), stack[i]);
        }
    }
    dag.lemma_past_walk_contained(stack, explored, Seq::empty());
    assert(dag.all_contained(out2)) by {
        assert forall|i: int| 0 <= i < out2.len() implies dag.contains_id(#[trigger] out2[i]) by {
            if i < out.len() {
                assert(out2[i] == out[i]);
            } else if i < out.len() + past.len() {
                let j = i - out.len();
                assert(out2[i] == past[j]);
                assert(past[j] == w[w.len() - 1 - j]);
            }
        }
    }
    // the explored set stays closed under parents
    assert(parent_closed(dag, explored2)) by {
        assert forall|x: VertexId, p: VertexId|
            #![trigger explored2.contains(x), dag.has_edge(x, p)]
            explored2.contains(x) && dag.has_edge(x, p) implies explored2.contains(p) by {
            if !explored.contains(p) {
                if explored.contains(x) {
                } else if x == current {
                    let t = choose|t: int| 0 <= t < dag.parents_of(current).len() && dag.parents_of(current)[t] == p;
                    dag.parents_of(current).lemma_filter_contains(|q: VertexId| !explored.contains(q), t);
                    let path = seq![p];
                    assert(up_path(dag, path, explored));
                    assert(up_reached(dag, stack, explored, p));
                    assert(w.contains(p));
                    assert(past.contains(p));
                } else {
                    assert(past.to_set().contains(x));
                    assert(w.contains(x));
                    assert(up_reached(dag, stack, explored, x));
                    let path = choose|path: Seq<VertexId>| #[trigger] up_path(dag, path, explored) && stack.contains(path[0]) && path.last() == x;
                    let path2 = path.push(p);
                    assert forall|i: int| 0 <= i < path2.len() - 1 implies #[trigger] dag.has_edge(path2[i], path2[i + 1]) by {
                        if i < path.len() - 1 {
                            assert(path2[i] == path[i] && path2[i + 1] == path[i + 1]);
                        }
                    }
                    assert forall|i: int| 0 <= i < path2.len() implies !explored.contains(#[trigger] path2[i]) by {
                        if i < path.len() {
                            assert(path2[i] == path[i]);
                        }
                    }
                    assert(up_path(dag, path2, explored));
                    assert(path2[0] == path[0]);
                    assert(up_reached(dag, stack, explored, p));
                    assert(past.contains(p));
                }
            }
        }
    }
    if alive_after(dag, current).len() == 0 {
        assert(fair_walk(dag, current, explored, counter, out) == (explored2, out2));
    } else {
        lemma_next_leader(dag, current, counter2);
        let next = next_leader(dag, current, counter2);
        assert(fair_walk(dag, current, explored, counter, out) == fair_walk(dag, next, explored2, counter2, out2));
        assert(next != root_id()) by {
            let path = choose|path: Seq<VertexId>| #[trigger] dag.is_child_path(path) && path.len() >= 2 && path[0] == current && path.last() == next;
            let j = path.len() - 2;
            assert(dag.has_edge(path[j + 1], path[j]));
        }
        assert forall|y: VertexId| #[trigger] explored2.contains(y) implies y == root_id() || dag.reaches(y, next) by {
            if y == current {
            } else if explored.contains(y) {
                if y != root_id() {
                    lemma_reaches_trans(dag, y, current, next);
                }
            } else {
                assert(past.to_set().contains(y));
                lemma_reaches_trans(dag, y, current, next);
            }
        }
        lemma_fair_walk_sound(dag, next, explored2, counter2, out2);
    }
}

/// The fair walk applies each vertex of the DAG other than the root exactly once,
/// when the DAG is acyclic and the root has no recorded parents.
pub proof fn lemma_fair_order_complete<T>(dag: Dag<T>)
    requires
        dag.wf(),
        dag.acyclic(),
        dag.parents_of(root_id()).len() == 0,
    ensures
        fair_order(dag).no_duplicates(),
        forall|x: VertexId| #[trigger] fair_order(dag).contains(x) <==> (dag.contains_id(x) && x != root_id()),
{
    let first = sort_ids(dag.children(root_id()));
    lemma_sort_ids(dag.children(root_id()));
    lemma_sort_ids(dag.heads());
    let sh = sort_ids(dag.heads());
    let e0 = set![root_id()];
    assert(parent_closed(dag, e0)) by {
        assert forall|x: VertexId, p: VertexId|
            #![trigger e0.contains(x), dag.has_edge(x, p)]
            e0.contains(x) && dag.has_edge(x, p) implies e0.contains(p) by {
            assert(x == root_id());
        }
    }
    assert(Seq::<VertexId>::empty().no_duplicates());
    let walked = if first.len() == 0 {
        (e0, Seq::<VertexId>::empty())
    } else {
        fair_walk(dag, first[0], e0, Map::empty(), Seq::empty())
    };
    if first.len() > 0 {
        dag.lemma_children_contained(root_id());
        let c = first[0];
        assert(first.contains(c));
        assert(dag.children(root_id()).contains(c));
        let t0 = choose|t0: int| 0 <= t0 < dag.children(root_id()).len() && dag.children(root_id())[t0] == c;
        dag.ids().lemma_filter_pred(|w: VertexId| dag.has_edge(w, root_id()), t0);
        assert(dag.has_edge(c, root_id()));
        assert(c != root_id());
        lemma_fair_walk_sound(dag, c, e0, Map::empty(), Seq::empty());
    }
    let explored = walked.0;
    let out = walked.1;
    assert(explored.contains(root_id()));
    assert(parent_closed(dag, explored));
    let hs = unexplored(sh, explored);
    let w = dag.past_walk(hs, explored, Seq::empty());
    lemma_past_walk_found(dag, hs, explored, Seq::empty());
    assert(w.subrange(0, w.len() as int) =~= w);
    let rem = w.reverse();
    assert(fair_order(dag) == out + rem);
    assert forall|y: VertexId| #[trigger] rem.contains(y) <==> w.contains(y) by {
        if rem.contains(y) {
            let i = choose|i: int| 0 <= i < rem.len() && rem[i] == y;
            assert(w[w.len() - 1 - i] == y);
        }
        if w.contains(y) {
            let i = choose|i: int| 0 <= i < w.len() && w[i] == y;
            assert(rem[w.len() - 1 - i] == y);
        }
    }
    assert forall|y: VertexId| #[trigger] rem.contains(y) implies !explored.contains(y) by {
        assert(up_reached(dag, hs, explored, y));
        let path = choose|path: Seq<VertexId>| #[trigger] up_path(dag, path, explored) && hs.contains(path[0]) && path.last() == y;
        assert(!explored.contains(path[path.len() - 1]));
    }
    assert(rem.no_duplicates()) by {
        assert forall|i: int, j: int| 0 <= i < rem.len() && 0 <= j < rem.len() && i != j implies rem[i] != rem[j] by {
            assert(rem[i] == w[w.len() - 1 - i] && rem[j] == w[w.len() - 1 - j]);
        }
    }
    assert forall|i: int, j: int| 0 <= i < out.len() && 0 <= j < rem.len() implies out[i] != rem[j] by {
        assert(out.contains(out[i]));
        assert(rem.contains(rem[j]));
    }
    vstd::seq_lib::lemma_no_dup_in_concat(out, rem);
    assert(dag.all_contained(hs)) by {
        assert forall|i: int| 0 <= i < hs.len() implies dag.contains_id(#[trigger] hs[i]) by {
            assert(hs.contains(hs[i]));
            sh.lemma_filter_contains_rev(|p: VertexId| !explored.contains(p), hs[i]);
            assert(dag.heads().contains(hs[i]));
            let j = choose|j: int| 0 <= j < dag.heads().len() && dag.heads()[j] == hs[i];
            dag.lemma_heads_contained(j);
        }
    }
    dag.lemma_past_walk_contained(hs, explored, Seq::empty());
    assert forall|x: VertexId| #[trigger] fair_order(dag).contains(x) <==> (dag.contains_id(x) && x != root_id()) by {
        let all = out + rem;
        if all.contains(x) {
            let i = choose|i: int| 0 <= i < all.len() && all[i] == x;
            if i < out.len() {
                assert(out[i] == x);
                assert(out.contains(x));
            } else {
                let j = i - out.len();
                assert(rem[j] == x);
                assert(rem[j] == w[w.len() - 1 - j]);
                assert(rem.contains(x));
            }
        }
        if dag.contains_id(x) && x != root_id() {
            if explored.contains(x) {
                assert(out.contains(x));
                let i = choose|i: int| 0 <= i < out.len() && out[i] == x;
                assert(all[i] == x);
            } else {
                let path = lemma_unexplored_head(dag, explored, x);
                let h = path[0];
                assert(sh.contains(h));
                let t = choose|t: int| 0 <= t < sh.len() && sh[t] == h;
                sh.lemma_filter_contains(|p: VertexId| !explored.contains(p), t);
                assert(up_reached(dag, hs, explored, x));
                assert(w.contains(x));
                assert(rem.contains(x));
                let j = choose|j: int| 0 <= j < rem.len() && rem[j] == x;
                assert(all[out.len() + j] == x);
            }
        }
    }
}

} // verus!
