use vstd::prelude::*;
use crate::dag::{Dag, VertexId, sort_ids, lemma_sort_ids};

verus! {

/// Every child of a vertex of `seen` is in `seen` or waits in `queue`.
pub open spec fn children_covered<T>(dag: Dag<T>, seen: Set<VertexId>, queue: Seq<VertexId>) -> bool {
    forall|y: VertexId, c: VertexId| seen.contains(y) && #[trigger] dag.has_edge(c, y) ==> seen.contains(c) || queue.contains(c)
}

/// The walk through children ends with the seen vertices and the vertices it records
/// closed under children, and keeps what it had recorded.
proof fn lemma_future_walk_closed<T>(dag: Dag<T>, queue: Seq<VertexId>, seen: Set<VertexId>, out: Seq<VertexId>)
    requires
        dag.wf(),
        children_covered(dag, seen, queue),
        forall|x: VertexId| out.contains(x) ==> seen.contains(x),
    ensures
        forall|y: VertexId, c: VertexId|
            (seen.contains(y) || dag.future_walk(queue, seen, out).contains(y)) && #[trigger] dag.has_edge(c, y)
                ==> seen.contains(c) || dag.future_walk(queue, seen, out).contains(c),
        forall|x: VertexId| out.contains(x) ==> #[trigger] dag.future_walk(queue, seen, out).contains(x),
    decreases dag.id_set().difference(seen).len(), queue.len(),
{
    if queue.len() == 0 {
        assert(dag.future_walk(queue, seen, out) == out);
    } else {
        let head = queue[0];
        let rest = queue.drop_first();
        if seen.contains(head) {
            assert forall|y: VertexId, c: VertexId| seen.contains(y) && #[trigger] dag.has_edge(c, y) implies seen.contains(c) || rest.contains(c) by {
                if !seen.contains(c) {
                    assert(queue.contains(c));
                    let i = choose|i: int| 0 <= i < queue.len() && queue[i] == c;
                    assert(i != 0);
                    assert(rest[i - 1] == c);
                }
            }
            lemma_future_walk_closed(dag, rest, seen, out);
            assert(dag.future_walk(queue, seen, out) == dag.future_walk(rest, seen, out));
        } else {
            let seen2 = seen.insert(head);
            dag.lemma_walk_measure(seen, head);
            lemma_sort_ids(dag.children(head));
            let unseen2 = |c: VertexId| !seen2.contains(c);
            let pushed = sort_ids(dag.children(head)).filter(unseen2);
            sort_ids(dag.children(head)).lemma_filter_len(unseen2);
            let next = rest + pushed;
            let out2 = out.push(head);
            assert forall|y: VertexId, c: VertexId| seen2.contains(y) && #[trigger] dag.has_edge(c, y) implies seen2.contains(c) || next.contains(c) by {
                if !seen2.contains(c) {
                    if y == head {
                        dag.lemma_child_listed(c, head);
                        let t = choose|t: int| 0 <= t < sort_ids(dag.children(head)).len() && sort_ids(dag.children(head))[t] == c;
                        sort_ids(dag.children(head)).lemma_filter_contains(unseen2, t);
                        let u = choose|u: int| 0 <= u < pushed.len() && pushed[u] == c;
                        assert(next[rest.len() + u] == c);
                    } else {
                        assert(queue.contains(c));
                        let i = choose|i: int| 0 <= i < queue.len() && queue[i] == c;
                        assert(i != 0);
                        assert(next[i - 1] == c);
                    }
                }
            }
            assert forall|x: VertexId| out2.contains(x) implies seen2.contains(x) by {
                if x != head {
                    let i = choose|i: int| 0 <= i < out2.len() && out2[i] == x;
                    assert(out[i] == x);
                }
            }
            lemma_future_walk_closed(dag, next, seen2, out2);
            let r = dag.future_walk(queue, seen, out);
            assert(r == dag.future_walk(next, seen2, out2));
            assert(out2[out.len() as int] == head);
            assert(r.contains(head));
            assert forall|x: VertexId| out.contains(x) implies #[trigger] r.contains(x) by {
                let i = choose|i: int| 0 <= i < out.len() && out[i] == x;
                assert(out2[i] == x);
            }
        }
    }
}

/// What the walk through children records, past what it had recorded, is reached from
/// `start` and is not `start`, when `start` is seen and its queue holds only vertices
/// reached from `start`.
proof fn lemma_future_walk_reached<T>(dag: Dag<T>, start: VertexId, queue: Seq<VertexId>, seen: Set<VertexId>, out: Seq<VertexId>)
    requires
        dag.wf(),
        seen.contains(start),
        forall|i: int| 0 <= i < queue.len() ==> dag.reaches(start, #[trigger] queue[i]),
        forall|i: int| 0 <= i < out.len() ==> dag.reaches(start, #[trigger] out[i]) && out[i] != start,
    ensures
        forall|i: int| 0 <= i < dag.future_walk(queue, seen, out).len()
            ==> dag.reaches(start, #[trigger] dag.future_walk(queue, seen, out)[i]) && dag.future_walk(queue, seen, out)[i] != start,
    decreases dag.id_set().difference(seen).len(), queue.len(),
{
    if queue.len() > 0 {
        let head = queue[0];
        let rest = queue.drop_first();
        assert forall|i: int| 0 <= i < rest.len() implies dag.reaches(start, #[trigger] rest[i]) by {
            assert(rest[i] == queue[i + 1]);
        }
        if seen.contains(head) {
            lemma_future_walk_reached(dag, start, rest, seen, out);
            assert(dag.future_walk(queue, seen, out) == dag.future_walk(rest, seen, out));
        } else {
            let seen2 = seen.insert(head);
            dag.lemma_walk_measure(seen, head);
            lemma_sort_ids(dag.children(head));
            let unseen2 = |c: VertexId| !seen2.contains(c);
            let pushed = sort_ids(dag.children(head)).filter(unseen2);
            sort_ids(dag.children(head)).lemma_filter_len(unseen2);
            let next = rest + pushed;
            let out2 = out.push(head);
            assert(dag.reaches(start, queue[0]));
            assert forall|i: int| 0 <= i < next.len() implies dag.reaches(start, #[trigger] next[i]) by {
                if i < rest.len() {
                    assert(next[i] == rest[i]);
                } else {
                    let c = next[i];
                    assert(pushed[i - rest.len()] == c);
                    assert(pushed.contains(c));
                    sort_ids(dag.children(head)).lemma_filter_contains_rev(unseen2, c);
                    assert(dag.children(head).contains(c));
                    dag.ids().lemma_filter_contains_rev(|w: VertexId| dag.has_edge(w, head), c);
                    let t = choose|t: int| 0 <= t < dag.children(head).len() && dag.children(head)[t] == c;
                    dag.ids().lemma_filter_pred(|w: VertexId| dag.has_edge(w, head), t);
                    dag.lemma_reaches_child(start, head, c);
                }
            }
            assert forall|i: int| 0 <= i < out2.len() implies dag.reaches(start, #[trigger] out2[i]) && out2[i] != start by {
                if i < out.len() {
                    assert(out2[i] == out[i]);
                }
            }
            lemma_future_walk_reached(dag, start, next, seen2, out2);
            assert(dag.future_walk(queue, seen, out) == dag.future_walk(next, seen2, out2));
        }
    }
}

/// The walk through children records each vertex once.
proof fn lemma_future_walk_once<T>(dag: Dag<T>, queue: Seq<VertexId>, seen: Set<VertexId>, out: Seq<VertexId>)
    requires
        dag.wf(),
        out.no_duplicates(),
        forall|x: VertexId| out.contains(x) ==> seen.contains(x),
    ensures
        dag.future_walk(queue, seen, out).no_duplicates(),
    decreases dag.id_set().difference(seen).len(), queue.len(),
{
    if queue.len() > 0 {
        let head = queue[0];
        let rest = queue.drop_first();
        if seen.contains(head) {
            lemma_future_walk_once(dag, rest, seen, out);
            assert(dag.future_walk(queue, seen, out) == dag.future_walk(rest, seen, out));
        } else {
            let seen2 = seen.insert(head);
            dag.lemma_walk_measure(seen, head);
            lemma_sort_ids(dag.children(head));
            let unseen2 = |c: VertexId| !seen2.contains(c);
            sort_ids(dag.children(head)).lemma_filter_len(unseen2);
            let next = rest + sort_ids(dag.children(head)).filter(unseen2);
            let out2 = out.push(head);
            assert(!out.contains(head));
            assert(out2.no_duplicates()) by {
                assert forall|i: int, j: int| 0 <= i < j < out2.len() implies out2[i] != out2[j] by {
                    if j == out.len() {
                        assert(out.contains(out[i]));
                    } else {
                        assert(out[i] != out[j]);
                    }
                }
            }
            assert forall|x: VertexId| out2.contains(x) implies seen2.contains(x) by {
                if x != head {
                    let i = choose|i: int| 0 <= i < out2.len() && out2[i] == x;
                    assert(out[i] == x);
                }
            }
            lemma_future_walk_once(dag, next, seen2, out2);
            assert(dag.future_walk(queue, seen, out) == dag.future_walk(next, seen2, out2));
        }
    }
}

/// Along a path of children from a vertex of a set closed under children, every vertex
/// is in the set.
proof fn lemma_path_in_closed<T>(dag: Dag<T>, s: Set<VertexId>, path: Seq<VertexId>, i: int)
    requires
        dag.is_child_path(path),
        s.contains(path[0]),
        forall|y: VertexId, c: VertexId| s.contains(y) && #[trigger] dag.has_edge(c, y) ==> s.contains(c),
        0 <= i < path.len(),
    ensures
        s.contains(path[i]),
    decreases i,
{
    if i > 0 {
        lemma_path_in_closed(dag, s, path, i - 1);
        let j = i - 1;
        assert(dag.has_edge(path[j + 1], path[j]));
    }
}

/// The future of `v` (what `Dag::future` returns) holds exactly the vertices reached
/// from `v` through one or more child edges, other than `v` itself, each once.
pub proof fn lemma_future_complete<T>(dag: Dag<T>, v: VertexId)
    requires
        dag.wf(),
    ensures
        forall|x: VertexId| #[trigger] dag.future_walk(sort_ids(dag.children(v)), set![v], Seq::empty()).contains(x)
            <==> dag.reaches(v, x) && x != v,
        dag.future_walk(sort_ids(dag.children(v)), set![v], Seq::empty()).no_duplicates(),
{
    lemma_future_walk_once(dag, sort_ids(dag.children(v)), set![v], Seq::empty());
    let queue = sort_ids(dag.children(v));
    let seen = set![v];
    let r = dag.future_walk(queue, seen, Seq::empty());
    lemma_sort_ids(dag.children(v));
    assert forall|y: VertexId, c: VertexId| seen.contains(y) && #[trigger] dag.has_edge(c, y) implies seen.contains(c) || queue.contains(c) by {
        dag.lemma_child_listed(c, y);
    }
    lemma_future_walk_closed(dag, queue, seen, Seq::empty());
    assert forall|i: int| 0 <= i < queue.len() implies dag.reaches(v, #[trigger] queue[i]) by {
        let c = queue[i];
        assert(queue.contains(c));
        assert(dag.children(v).contains(c));
        let t = choose|t: int| 0 <= t < dag.children(v).len() && dag.children(v)[t] == c;
        dag.ids().lemma_filter_pred(|w: VertexId| dag.has_edge(w, v), t);
        dag.lemma_reaches_child(v, v, c);
    }
    lemma_future_walk_reached(dag, v, queue, seen, Seq::empty());
    let s = seen.union(r.to_set());
    assert forall|y: VertexId, c: VertexId| s.contains(y) && #[trigger] dag.has_edge(c, y) implies s.contains(c) by {
        assert(seen.contains(y) || r.contains(y));
    }
    assert forall|x: VertexId| #[trigger] r.contains(x) <==> dag.reaches(v, x) && x != v by {
        if r.contains(x) {
            let i = choose|i: int| 0 <= i < r.len() && r[i] == x;
        }
        if dag.reaches(v, x) && x != v {
            let path = choose|path: Seq<VertexId>|
                #[trigger] dag.is_child_path(path) && path.len() >= 2 && path[0] == v && path.last() == x;
            lemma_path_in_closed(dag, s, path, path.len() - 1);
        }
    }
}

/// The walk through children records, after what it had recorded, the same as it
/// records from nothing.
proof fn lemma_future_walk_prefix<T>(dag: Dag<T>, queue: Seq<VertexId>, seen: Set<VertexId>, out: Seq<VertexId>)
    requires
        dag.wf(),
    ensures
        dag.future_walk(queue, seen, out) == out + dag.future_walk(queue, seen, Seq::empty()),
    decreases dag.id_set().difference(seen).len(), queue.len(),
{
    if queue.len() == 0 {
        assert(out + Seq::<VertexId>::empty() =~= out);
    } else {
        let head = queue[0];
        let rest = queue.drop_first();
        if seen.contains(head) {
            lemma_future_walk_prefix(dag, rest, seen, out);
            lemma_future_walk_prefix(dag, rest, seen, Seq::empty());
        } else {
            let seen2 = seen.insert(head);
            dag.lemma_walk_measure(seen, head);
            lemma_sort_ids(dag.children(head));
            let unseen2 = |c: VertexId| !seen2.contains(c);
            sort_ids(dag.children(head)).lemma_filter_len(unseen2);
            let next = rest + sort_ids(dag.children(head)).filter(unseen2);
            lemma_future_walk_prefix(dag, next, seen2, out.push(head));
            lemma_future_walk_prefix(dag, next, seen2, seq![head]);
            assert(Seq::<VertexId>::empty().push(head) =~= seq![head]);
            let f = dag.future_walk(next, seen2, Seq::empty());
            assert(out.push(head) + f =~= out + (seq![head] + f));
        }
    }
}

/// With no limit, the walk through children records the processes it started with,
/// and then the processes of the vertices the same walk records as the future, each
/// process once.
proof fn lemma_processes_walk_future<T>(dag: Dag<T>, queue: Seq<VertexId>, seen: Set<VertexId>, procs: Seq<u32>)
    requires
        dag.wf(),
        procs.no_duplicates(),
    ensures
        dag.processes_walk(queue, seen, procs, None).no_duplicates(),
        forall|p: u32| #[trigger] dag.processes_walk(queue, seen, procs, None).contains(p) <==> procs.contains(p)
            || exists|x: VertexId| #[trigger] dag.future_walk(queue, seen, Seq::empty()).contains(x) && x.process_id == p,
    decreases dag.id_set().difference(seen).len(), queue.len(),
{
    if queue.len() > 0 {
        let head = queue[0];
        let rest = queue.drop_first();
        if seen.contains(head) {
            lemma_processes_walk_future(dag, rest, seen, procs);
            assert(dag.processes_walk(queue, seen, procs, None) == dag.processes_walk(rest, seen, procs, None));
            assert(dag.future_walk(queue, seen, Seq::empty()) == dag.future_walk(rest, seen, Seq::empty()));
        } else {
            let seen2 = seen.insert(head);
            dag.lemma_walk_measure(seen, head);
            lemma_sort_ids(dag.children(head));
            let unseen2 = |c: VertexId| !seen2.contains(c);
            sort_ids(dag.children(head)).lemma_filter_len(unseen2);
            let next = rest + sort_ids(dag.children(head)).filter(unseen2);
            let procs2 = if procs.contains(head.process_id) { procs } else { procs.push(head.process_id) };
            assert(procs2.no_duplicates()) by {
                if !procs.contains(head.process_id) {
                    assert forall|i: int, j: int| 0 <= i < j < procs2.len() implies procs2[i] != procs2[j] by {
                        if j == procs.len() {
                            assert(procs.contains(procs[i]));
                        } else {
                            assert(procs[i] != procs[j]);
                        }
                    }
                }
            }
            lemma_processes_walk_future(dag, next, seen2, procs2);
            assert(dag.processes_walk(queue, seen, procs, None) == dag.processes_walk(next, seen2, procs2, None));
            lemma_future_walk_prefix(dag, next, seen2, seq![head]);
            assert(Seq::<VertexId>::empty().push(head) =~= seq![head]);
            let f = dag.future_walk(next, seen2, Seq::empty());
            let all = dag.future_walk(queue, seen, Seq::empty());
            assert(all == seq![head] + f);
            assert forall|p: u32| #[trigger] dag.processes_walk(queue, seen, procs, None).contains(p) <==> procs.contains(p)
                || exists|x: VertexId| #[trigger] all.contains(x) && x.process_id == p by {
                if procs2.contains(p) {
                    if !procs.contains(p) {
                        assert(procs2[procs.len() as int] == p || procs2 == procs);
                        assert(all[0] == head);
                        assert(all.contains(head));
                    }
                } else {
                    assert(procs2.contains(p) <==> procs.contains(p) || head.process_id == p) by {
                        if procs.contains(p) {
                            let i = choose|i: int| 0 <= i < procs.len() && procs[i] == p;
                            assert(procs2[i] == p);
                        }
                        if head.process_id == p && !procs.contains(p) {
                            assert(procs2[procs.len() as int] == p);
                        }
                    }
                }
                if exists|x: VertexId| #[trigger] all.contains(x) && x.process_id == p {
                    let x = choose|x: VertexId| #[trigger] all.contains(x) && x.process_id == p;
                    let i = choose|i: int| 0 <= i < all.len() && all[i] == x;
                    if i > 0 {
                        assert(f[i - 1] == x);
                        assert(f.contains(x));
                    }
                }
                if exists|x: VertexId| #[trigger] f.contains(x) && x.process_id == p {
                    let x = choose|x: VertexId| #[trigger] f.contains(x) && x.process_id == p;
                    let i = choose|i: int| 0 <= i < f.len() && f[i] == x;
                    assert(all[i + 1] == x);
                    assert(all.contains(x));
                }
                if procs.contains(p) {
                    let i = choose|i: int| 0 <= i < procs.len() && procs[i] == p;
                    assert(procs2[i] == p);
                }
                if head.process_id == p && !procs.contains(p) {
                    assert(procs2[procs.len() as int] == p);
                }
            }
        }
    }
}

/// The processes in the future of `v` (what `Dag::processes_in_future_no_n` returns)
/// are exactly the processes of the vertices reached from `v` through one or more child
/// edges, other than `v` itself, each process once.
pub proof fn lemma_processes_in_future_complete<T>(dag: Dag<T>, v: VertexId)
    requires
        dag.wf(),
    ensures
        forall|p: u32| #[trigger] dag.processes_walk(sort_ids(dag.children(v)), set![v], Seq::empty(), None).contains(p)
            <==> exists|x: VertexId| dag.reaches(v, x) && x != v && x.process_id == p,
        dag.processes_walk(sort_ids(dag.children(v)), set![v], Seq::empty(), None).no_duplicates(),
{
    lemma_processes_walk_future(dag, sort_ids(dag.children(v)), set![v], Seq::empty());
    lemma_future_complete(dag, v);
    let f = dag.future_walk(sort_ids(dag.children(v)), set![v], Seq::empty());
    assert forall|p: u32| #[trigger] dag.processes_walk(sort_ids(dag.children(v)), set![v], Seq::empty(), None).contains(p)
        <==> exists|x: VertexId| dag.reaches(v, x) && x != v && x.process_id == p by {
        if exists|x: VertexId| dag.reaches(v, x) && x != v && x.process_id == p {
            let x = choose|x: VertexId| dag.reaches(v, x) && x != v && x.process_id == p;
            assert(f.contains(x));
        }
    }
}

} // verus!
