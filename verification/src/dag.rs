use vstd::prelude::*;
use crate::text::{decimal, decimal_text};
use crate::sorting::{TotalKey, sort_keys, key_leq, DistancePosition, lemma_sort_keys_contains};

verus! {

/// Identifies a vertex: a counter local to the issuing process, and that process.
#[derive(Debug, Clone, Copy, PartialEq, Eq, Structural, Hash, PartialOrd, Ord)]
pub struct VertexId {
    pub local_id: usize,
    pub process_id: u32,
}

/// The identifier of the root vertex of every DAG.
pub open spec fn root_id() -> VertexId {
    VertexId { local_id: 0, process_id: 0 }
}

/// The order of identifiers: by local counter, then by process (the derived `Ord`).
pub open spec fn id_lt(a: VertexId, b: VertexId) -> bool {
    a.local_id < b.local_id || (a.local_id == b.local_id && a.process_id < b.process_id)
}

pub open spec fn id_le(a: VertexId, b: VertexId) -> bool {
    id_lt(a, b) || a == b
}

/// How an identifier is written: its process, then its local counter, both in
/// decimal with nothing between them.
pub open spec fn id_text(id: VertexId) -> Seq<char> {
    decimal(id.process_id as nat) + decimal(id.local_id as nat)
}

impl VertexId {
    pub fn new(local_id: usize, process_id: u32) -> (r: VertexId)
        ensures
            r.local_id == local_id,
            r.process_id == process_id,
    {
        VertexId { local_id: local_id, process_id: process_id }
    }

    /// The identifier as text (`id_text`).
    pub fn to_string(&self) -> (r: String)
        ensures
            r@ == id_text(*self),
    {
        let mut s = decimal_text(self.process_id as u64);
        let t = decimal_text(self.local_id as u64);
        s.append(t.as_str());
        s
    }
}

/// A vertex of the DAG: its identifier, its label and its distance from the root.
#[derive(Debug, Clone, Copy)]
pub struct Vertex<T> {
    pub id: VertexId,
    pub label: T,
    pub distance: u32,
}

/// How a vertex is written: its identifier and its distance.
pub open spec fn vertex_text<T>(v: Vertex<T>) -> Seq<char> {
    "Vertex: (id: "@ + id_text(v.id) + ", distance: "@ + decimal(v.distance as nat) + ")"@
}

impl<T> Vertex<T> {
    pub fn new(id: VertexId, l: T) -> (r: Vertex<T>)
        ensures
            r.id == id,
            r.label == l,
            r.distance == 0,
    {
        Vertex { id, label: l, distance: 0 }
    }

    /// The vertex as text (`vertex_text`).
    pub fn to_string(&self) -> (r: String)
        ensures
            r@ == vertex_text(*self),
    {
        let mut s = String::from_str("Vertex: (id: ");
        let id = self.id.to_string();
        s.append(id.as_str());
        s.append(", distance: ");
        let d = decimal_text(self.distance as u64);
        s.append(d.as_str());
        s.append(")");
        s
    }
}

impl TotalKey for VertexId {
    open spec fn key_le(a: VertexId, b: VertexId) -> bool {
        id_le(a, b)
    }

    proof fn lemma_key_total() {
    }

    fn le(&self, other: &VertexId) -> (r: bool) {
        self.local_id < other.local_id || (self.local_id == other.local_id && self.process_id
            <= other.process_id)
    }
}

/// `s` in increasing identifier order.
pub open spec fn sort_ids(s: Seq<VertexId>) -> Seq<VertexId> {
    s.sort_by(key_leq::<VertexId>())
}

pub proof fn lemma_sort_ids(s: Seq<VertexId>)
    ensures
        sort_ids(s).to_multiset() == s.to_multiset(),
        sort_ids(s).len() == s.len(),
        forall|x: VertexId| sort_ids(s).contains(x) <==> s.contains(x),
{
    broadcast use vstd::seq_lib::group_to_multiset_ensures;
    VertexId::lemma_key_total();
    s.lemma_sort_by_ensures(key_leq::<VertexId>());
    vstd::seq_lib::to_multiset_len(s);
    vstd::seq_lib::to_multiset_len(sort_ids(s));
    assert forall|x: VertexId| sort_ids(s).contains(x) <==> s.contains(x) by {
        assert(sort_ids(s).to_multiset().count(x) == s.to_multiset().count(x));
    }
}

/// `v` in reverse order.
pub fn reversed(v: &Vec<VertexId>) -> (r: Vec<VertexId>)
    ensures
        r@ == v@.reverse(),
{
    let mut r: Vec<VertexId> = Vec::new();
    let mut i: usize = v.len();
    while i > 0
        invariant
            0 <= i <= v@.len(),
            r@ == v@.subrange(i as int, v@.len() as int).reverse(),
        decreases i,
    {
        i = i - 1;
        r.push(v[i]);
        assert(r@ =~= v@.subrange(i as int, v@.len() as int).reverse());
    }
    assert(v@.subrange(0, v@.len() as int) =~= v@);
    r
}

/// Pushes onto `stack`, in order, the elements of `xs` that are not in `seen`.
pub fn push_unseen(stack: &mut Vec<VertexId>, xs: &Vec<VertexId>, seen: &Vec<VertexId>)
    ensures
        final(stack)@ == old(stack)@ + xs@.filter(|p: VertexId| !seen@.to_set().contains(p)),
{
    let ghost pred = |p: VertexId| !seen@.to_set().contains(p);
    let mut i: usize = 0;
    while i < xs.len()
        invariant
            0 <= i <= xs@.len(),
            pred == (|p: VertexId| !seen@.to_set().contains(p)),
            stack@ == old(stack)@ + xs@.take(i as int).filter(pred),
        decreases xs@.len() - i,
    {
        proof {
            reveal(Seq::filter);
            assert(xs@.take(i + 1).drop_last() =~= xs@.take(i as int));
            assert(xs@.take(i + 1).last() == xs@[i as int]);
        }
        if !id_in(seen, &xs[i]) {
            stack.push(xs[i]);
            proof {
                assert(!seen@.to_set().contains(xs@[i as int]));
            }
        } else {
            assert(seen@.to_set().contains(xs@[i as int]));
        }
        i = i + 1;
        assert(stack@ =~= old(stack)@ + xs@.take(i as int).filter(pred));
    }
    assert(xs@.take(xs@.len() as int) =~= xs@);
}

/// `acc` followed by the elements of `xs` that are not already present, in order,
/// each added once.
pub open spec fn append_missing(acc: Seq<VertexId>, xs: Seq<VertexId>) -> Seq<VertexId>
    decreases xs.len(),
{
    if xs.len() == 0 {
        acc
    } else {
        let r = append_missing(acc, xs.drop_last());
        if r.contains(xs.last()) {
            r
        } else {
            r.push(xs.last())
        }
    }
}

pub proof fn lemma_append_missing_from(acc: Seq<VertexId>, xs: Seq<VertexId>, x: VertexId)
    requires
        append_missing(acc, xs).contains(x),
    ensures
        acc.contains(x) || xs.contains(x),
    decreases xs.len(),
{
    if xs.len() > 0 {
        let r = append_missing(acc, xs.drop_last());
        if r.contains(x) {
            lemma_append_missing_from(acc, xs.drop_last(), x);
            if xs.drop_last().contains(x) {
                let i = choose|i: int| 0 <= i < xs.drop_last().len() && xs.drop_last()[i] == x;
                assert(xs[i] == x);
            }
        } else {
            assert(x == xs.last());
            assert(xs[xs.len() - 1] == x);
        }
    }
}

/// The largest rank in `s` (0 for none).
pub open spec fn max_rank(rank: spec_fn(VertexId) -> nat, s: Seq<VertexId>) -> nat
    decreases s.len(),
{
    if s.len() == 0 {
        0
    } else {
        let m = max_rank(rank, s.drop_last());
        if rank(s.last()) > m {
            rank(s.last())
        } else {
            m
        }
    }
}

pub proof fn lemma_max_rank(rank: spec_fn(VertexId) -> nat, s: Seq<VertexId>, b: nat)
    ensures
        forall|i: int| 0 <= i < s.len() ==> rank(#[trigger] s[i]) <= max_rank(rank, s),
        (forall|i: int| 0 <= i < s.len() ==> rank(#[trigger] s[i]) < b) && b > 0 ==> max_rank(rank, s) < b,
    decreases s.len(),
{
    if s.len() > 0 {
        lemma_max_rank(rank, s.drop_last(), b);
        assert forall|i: int| 0 <= i < s.len() implies rank(#[trigger] s[i]) <= max_rank(rank, s) by {
            if i < s.len() - 1 {
                assert(s[i] == s.drop_last()[i]);
            }
        }
        if (forall|i: int| 0 <= i < s.len() ==> rank(#[trigger] s[i]) < b) && b > 0 {
            assert forall|i: int| 0 <= i < s.drop_last().len() implies rank(#[trigger] s.drop_last()[i]) < b by {
                assert(s.drop_last()[i] == s[i]);
            }
            assert(rank(s[s.len() - 1]) < b);
        }
    }
}

pub proof fn lemma_append_missing_no_dup(acc: Seq<VertexId>, xs: Seq<VertexId>)
    requires
        acc.no_duplicates(),
    ensures
        append_missing(acc, xs).no_duplicates(),
    decreases xs.len(),
{
    if xs.len() > 0 {
        lemma_append_missing_no_dup(acc, xs.drop_last());
        let r = append_missing(acc, xs.drop_last());
        if !r.contains(xs.last()) {
            assert forall|i: int, j: int| 0 <= i < j < r.push(xs.last()).len() implies r.push(xs.last())[i] != r.push(xs.last())[j] by {
                if j == r.len() {
                    assert(r[i] != xs.last());
                }
            }
        }
    }
}

/// Whether `x` occurs in `v`.
pub fn id_in(v: &Vec<VertexId>, x: &VertexId) -> (r: bool)
    ensures
        r == v@.contains(*x),
{
    let mut i: usize = 0;
    while i < v.len()
        invariant
            0 <= i <= v@.len(),
            forall|j: int| 0 <= j < i ==> v@[j] != *x,
        decreases v@.len() - i,
    {
        if v[i] == *x {
            assert(v@[i as int] == *x);
            return true;
        }
        i = i + 1;
    }
    false
}

/// On a path that starts in `seen` and ends out of it, some step leaves `seen`.
pub proof fn lemma_first_unseen(path: Seq<VertexId>, seen: Set<VertexId>) -> (i: int)
    requires
        path.len() >= 1,
        seen.contains(path[0]),
        !seen.contains(path.last()),
    ensures
        1 <= i < path.len(),
        seen.contains(path[i - 1]),
        !seen.contains(path[i]),
    decreases path.len(),
{
    if seen.contains(path[path.len() - 2]) {
        (path.len() - 1) as int
    } else {
        let q = path.drop_last();
        let i = lemma_first_unseen(q, seen);
        assert(q[i - 1] == path[i - 1] && q[i] == path[i]);
        i
    }
}

/// Whether `len` is below `limit`, when there is one.
fn under_limit(len: usize, limit: Option<u32>) -> (r: bool)
    ensures
        r == match limit {
            Some(n) => len < n,
            None => true,
        },
{
    match limit {
        Some(n) => len < n as usize,
        None => true,
    }
}

/// Whether `x` occurs in `v`.
pub fn u32_in(v: &Vec<u32>, x: u32) -> (r: bool)
    ensures
        r == v@.contains(x),
{
    let mut i: usize = 0;
    while i < v.len()
        invariant
            0 <= i <= v@.len(),
            forall|j: int| 0 <= j < i ==> v@[j] != x,
        decreases v@.len() - i,
    {
        if v[i] == x {
            assert(v@[i as int] == x);
            return true;
        }
        i = i + 1;
    }
    false
}

/// A copy of a list of identifiers.
pub fn copy_ids(v: &Vec<VertexId>) -> (r: Vec<VertexId>)
    ensures
        r@ == v@,
{
    let mut r: Vec<VertexId> = Vec::new();
    let mut i: usize = 0;
    while i < v.len()
        invariant
            0 <= i <= v@.len(),
            r@ == v@.take(i as int),
        decreases v@.len() - i,
    {
        r.push(v[i]);
        i = i + 1;
        assert(r@ =~= v@.take(i as int));
    }
    assert(v@.take(v@.len() as int) =~= v@);
    r
}

/// Appends to `cur` the elements of `xs` it does not hold yet.
fn push_missing(cur: &mut Vec<VertexId>, xs: &Vec<VertexId>)
    ensures
        final(cur)@ == append_missing(old(cur)@, xs@),
{
    let mut i: usize = 0;
    while i < xs.len()
        invariant
            0 <= i <= xs@.len(),
            cur@ == append_missing(old(cur)@, xs@.take(i as int)),
        decreases xs@.len() - i,
    {
        assert(xs@.take(i + 1).drop_last() =~= xs@.take(i as int));
        assert(xs@.take(i + 1).last() == xs@[i as int]);
        if !id_in(cur, &xs[i]) {
            cur.push(xs[i]);
        }
        i = i + 1;
    }
    assert(xs@.take(xs@.len() as int) =~= xs@);
}

/// A DAG of labelled vertices. Each vertex lists its parents (its causal past);
/// the root has the identifier `root_id()` and stands first.
#[derive(Debug, Clone)]
pub struct Dag<T> {
    vertices: Vec<Vertex<T>>,
    edges: Vec<(VertexId, Vec<VertexId>)>,
    pub length: u32,
}

impl<T> Dag<T> {
    /// The vertices in the order in which they were added.
    pub closed spec fn vertex_seq(&self) -> Seq<Vertex<T>> {
        self.vertices@
    }

    /// The largest distance recorded so far (at least 1).
    pub closed spec fn length_of(&self) -> u32 {
        self.length
    }

    /// The root is at distance 0, every other vertex at a distance above 0, and none
    /// past the DAG's length.
    pub open spec fn distances_fit(&self) -> bool {
        &&& self.vertex_seq().len() >= 1
        &&& self.vertex_seq()[0].distance == 0
        &&& forall|i: int| 0 < i < self.vertex_seq().len() ==> #[trigger] self.vertex_seq()[i].distance > 0
        &&& forall|i: int| 0 <= i < self.vertex_seq().len() ==> #[trigger] self.vertex_seq()[i].distance <= self.length_of()
    }

    /// For each vertex identifier that has an entry, the list of its parents.
    pub closed spec fn edge_map(&self) -> Map<VertexId, Seq<VertexId>> {
        Map::new(
            |k: VertexId| exists|i: int| 0 <= i < self.edges@.len() && self.edges@[i].0 == k,
            |k: VertexId|
                self.edges@[choose|i: int| 0 <= i < self.edges@.len() && self.edges@[i].0 == k].1@,
        )
    }

    pub closed spec fn wf(&self) -> bool {
        &&& self.vertices@.len() >= 1
        &&& self.vertices@[0].id == root_id()
        &&& forall|i: int, j: int|
            0 <= i < j < self.edges@.len() ==> self.edges@[i].0 != self.edges@[j].0
        &&& forall|i: int| 0 <= i < self.edges@.len() ==> self.contains_id(#[trigger] self.edges@[i].0)
        &&& forall|i: int, j: int|
            0 <= i < self.edges@.len() && 0 <= j < self.edges@[i].1@.len()
                ==> self.contains_id(#[trigger] self.edges@[i].1@[j])
    }

    pub open spec fn ids(&self) -> Seq<VertexId> {
        self.vertex_seq().map_values(|v: Vertex<T>| v.id)
    }

    pub open spec fn contains_id(&self, id: VertexId) -> bool {
        exists|i: int| 0 <= i < self.vertex_seq().len() && #[trigger] self.vertex_seq()[i].id == id
    }

    /// `i` is the position of the first vertex with identifier `id`.
    pub open spec fn is_first_index(&self, i: int, id: VertexId) -> bool {
        &&& 0 <= i < self.vertex_seq().len()
        &&& self.vertex_seq()[i].id == id
        &&& forall|j: int| 0 <= j < i ==> #[trigger] self.vertex_seq()[j].id != id
    }

    pub open spec fn first_index(&self, id: VertexId) -> int {
        choose|i: int| self.is_first_index(i, id)
    }

    /// The first vertex added with identifier `id`.
    pub open spec fn vertex_of(&self, id: VertexId) -> Vertex<T> {
        self.vertex_seq()[self.first_index(id)]
    }

    /// The parents recorded for `id` (empty when none are).
    pub open spec fn parents_of(&self, id: VertexId) -> Seq<VertexId> {
        if self.edge_map().contains_key(id) {
            self.edge_map()[id]
        } else {
            Seq::empty()
        }
    }

    pub open spec fn has_edge(&self, from: VertexId, to: VertexId) -> bool {
        self.parents_of(from).contains(to)
    }

    /// The largest distance among the first vertices of the listed parents (0 for none).
    pub open spec fn max_parent_distance(&self, ps: Seq<VertexId>) -> nat
        decreases ps.len(),
    {
        if ps.len() == 0 {
            0
        } else {
            let m = self.max_parent_distance(ps.drop_last());
            let d = self.vertex_of(ps.last()).distance;
            if d > m {
                d as nat
            } else {
                m
            }
        }
    }

    /// The distance a vertex `v` added under `parents` gets: its own when it has one,
    /// else one more than the largest distance of its parents.
    pub open spec fn new_distance(&self, parents: Seq<VertexId>, v: Vertex<T>) -> int {
        if v.distance == 0 {
            (self.max_parent_distance(parents) + 1) as int
        } else {
            v.distance as int
        }
    }

    /// The parent list of `id` once `parents` have been added for it.
    pub open spec fn merged_parents(&self, id: VertexId, parents: Seq<VertexId>) -> Seq<VertexId> {
        if parents.len() == 0 {
            if self.edge_map().contains_key(id) && self.edge_map()[id].len() > 0 {
                self.edge_map()[id]
            } else {
                seq![root_id()]
            }
        } else if self.edge_map().contains_key(id) {
            append_missing(self.edge_map()[id], parents)
        } else {
            parents
        }
    }

    /// Identifiers, in vertex order, of the vertices whose parents include `id`
    /// (a vertex added several times under one identifier counts each time).
    pub open spec fn children(&self, id: VertexId) -> Seq<VertexId> {
        self.ids().filter(|w: VertexId| self.has_edge(w, id))
    }

    /// Some vertex lists `id` among its parents.
    pub open spec fn has_child(&self, id: VertexId) -> bool {
        exists|i: int| 0 <= i < self.vertex_seq().len() && self.has_edge(#[trigger] self.vertex_seq()[i].id, id)
    }

    /// The heads: the identifiers, in vertex order, of the vertices other than the root
    /// that no vertex lists as a parent.
    pub open spec fn heads(&self) -> Seq<VertexId> {
        self.ids().filter(|x: VertexId| !self.has_child(x) && x != root_id())
    }

    pub open spec fn id_set(&self) -> Set<VertexId> {
        self.ids().to_set()
    }

    /// The depth-first walk through parents: pop the top of `stack`; if unseen,
    /// mark it seen, record it, and push its parents in increasing order, skipping
    /// those already seen. The result is everything recorded, in recording order.
    pub open spec fn past_walk(&self, stack: Seq<VertexId>, seen: Set<VertexId>, past: Seq<VertexId>) -> Seq<VertexId>
        decreases self.id_set().difference(seen).len(), stack.len(),
        when self.wf()
    {
        if stack.len() == 0 {
            past
        } else {
            let head = stack.last();
            let rest = stack.drop_last();
            if seen.contains(head) {
                self.past_walk(rest, seen, past)
            } else {
                let seen2 = seen.insert(head);
                proof {
                    self.lemma_walk_measure(seen, head);
                }
                self.past_walk(
                    rest + sort_ids(self.parents_of(head)).filter(|p: VertexId| !seen2.contains(p)),
                    seen2,
                    past.push(head),
                )
            }
        }
    }

    /// Marking an unseen vertex makes the walk measure drop; marking an identifier
    /// outside the DAG leaves it and finds no parents.
    pub proof fn lemma_walk_measure(&self, seen: Set<VertexId>, head: VertexId)
        requires
            self.wf(),
            !seen.contains(head),
        ensures
            self.id_set().contains(head) ==> self.id_set().difference(seen.insert(head)).len()
                < self.id_set().difference(seen).len(),
            !self.id_set().contains(head) ==> self.id_set().difference(seen.insert(head))
                == self.id_set().difference(seen),
            !self.id_set().contains(head) ==> self.parents_of(head).len() == 0
                && sort_ids(self.parents_of(head)).len() == 0,
            !self.id_set().contains(head) ==> self.children(head).len() == 0,
    {
        let u = self.id_set();
        vstd::seq_lib::seq_to_set_is_finite(self.ids());
        if u.contains(head) {
            assert(u.difference(seen.insert(head)) =~= u.difference(seen).remove(head));
            assert(u.difference(seen).contains(head));
            assert(u.difference(seen).finite());
        } else {
            assert(u.difference(seen.insert(head)) =~= u.difference(seen));
            if self.contains_id(head) {
                let k = choose|k: int| 0 <= k < self.vertex_seq().len() && #[trigger] self.vertex_seq()[k].id == head;
                assert(self.ids()[k] == head);
            }
            if self.edge_map().contains_key(head) {
                let i = choose|i: int| 0 <= i < self.edges@.len() && self.edges@[i].0 == head;
                assert(self.contains_id(self.edges@[i].0));
            }
            lemma_sort_ids(self.parents_of(head));
            self.lemma_no_children(head);
        }
    }

    proof fn lemma_no_children(&self, x: VertexId)
        requires
            self.wf(),
            !self.contains_id(x),
        ensures
            self.children(x).len() == 0,
    {
        let pred = |w: VertexId| self.has_edge(w, x);
        assert forall|i: int| 0 <= i < self.ids().len() implies !pred(#[trigger] self.ids()[i]) by {
            let w = self.ids()[i];
            if self.edge_map().contains_key(w) {
                let k = choose|k: int| 0 <= k < self.edges@.len() && self.edges@[k].0 == w;
                self.lemma_edge_entry(k);
                if self.edges@[k].1@.contains(x) {
                    let j = choose|j: int| 0 <= j < self.edges@[k].1@.len() && self.edges@[k].1@[j] == x;
                    assert(self.contains_id(self.edges@[k].1@[j]));
                }
            }
        }
        self.lemma_filter_none(self.ids(), pred);
    }

    proof fn lemma_filter_none(&self, s: Seq<VertexId>, pred: spec_fn(VertexId) -> bool)
        requires
            forall|i: int| 0 <= i < s.len() ==> !pred(#[trigger] s[i]),
        ensures
            s.filter(pred).len() == 0,
        decreases s.len(),
    {
        reveal(Seq::filter);
        if s.len() > 0 {
            assert(!pred(s[s.len() - 1]));
            self.lemma_filter_none(s.drop_last(), pred);
        }
    }

    /// The breadth-first walk through children: take the front of `queue`; if unseen,
    /// mark it seen, record it, and queue its children in increasing identifier order,
    /// skipping those already seen. The result is everything recorded, in order.
    pub open spec fn future_walk(&self, queue: Seq<VertexId>, seen: Set<VertexId>, out: Seq<VertexId>) -> Seq<VertexId>
        decreases self.id_set().difference(seen).len(), queue.len(),
        when self.wf()
    {
        if queue.len() == 0 {
            out
        } else {
            let head = queue[0];
            let rest = queue.drop_first();
            if seen.contains(head) {
                self.future_walk(rest, seen, out)
            } else {
                let seen2 = seen.insert(head);
                proof {
                    self.lemma_walk_measure(seen, head);
                    lemma_sort_ids(self.children(head));
                    sort_ids(self.children(head)).lemma_filter_len(|c: VertexId| !seen2.contains(c));
                }
                self.future_walk(
                    rest + sort_ids(self.children(head)).filter(|c: VertexId| !seen2.contains(c)),
                    seen2,
                    out.push(head),
                )
            }
        }
    }

    /// The same walk as `future_walk`, recording the process of each vertex met (each
    /// process once, in order), and stopping once `limit` processes are recorded, when
    /// there is a limit.
    pub open spec fn processes_walk(&self, queue: Seq<VertexId>, seen: Set<VertexId>, procs: Seq<u32>, limit: Option<nat>) -> Seq<u32>
        decreases self.id_set().difference(seen).len(), queue.len(),
        when self.wf()
    {
        if queue.len() == 0 || (limit is Some && procs.len() >= limit->0) {
            procs
        } else {
            let head = queue[0];
            let rest = queue.drop_first();
            if seen.contains(head) {
                self.processes_walk(rest, seen, procs, limit)
            } else {
                let seen2 = seen.insert(head);
                proof {
                    self.lemma_walk_measure(seen, head);
                    lemma_sort_ids(self.children(head));
                    sort_ids(self.children(head)).lemma_filter_len(|c: VertexId| !seen2.contains(c));
                }
                self.processes_walk(
                    rest + sort_ids(self.children(head)).filter(|c: VertexId| !seen2.contains(c)),
                    seen2,
                    if procs.contains(head.process_id) { procs } else { procs.push(head.process_id) },
                    limit,
                )
            }
        }
    }

    /// The breadth-first walk of `first_from_processes`: take the front of `queue` and
    /// mark it seen; stop with it when its process is among `procs`, else queue its
    /// children in increasing identifier order, skipping those already seen. The root's
    /// identifier when the queue runs out.
    pub open spec fn first_walk(&self, queue: Seq<VertexId>, seen: Set<VertexId>, procs: Seq<u32>) -> VertexId
        decreases self.id_set().difference(seen).len(), queue.filter(|x: VertexId| seen.contains(x)).len(),
        when self.wf() && self.all_contained(queue)
    {
        if queue.len() == 0 {
            root_id()
        } else {
            let head = queue[0];
            let seen2 = seen.insert(head);
            if procs.contains(head.process_id) {
                head
            } else {
                proof {
                    self.lemma_first_walk_measure(queue, seen);
                }
                self.first_walk(
                    queue.drop_first() + sort_ids(self.children(head)).filter(|c: VertexId| !seen2.contains(c)),
                    seen2,
                    procs,
                )
            }
        }
    }

    pub proof fn lemma_children_contained(&self, x: VertexId)
        ensures
            self.all_contained(self.children(x)),
            self.all_contained(sort_ids(self.children(x))),
    {
        let pred = |w: VertexId| self.has_edge(w, x);
        assert forall|i: int| 0 <= i < self.children(x).len() implies self.contains_id(#[trigger] self.children(x)[i]) by {
            let c = self.children(x)[i];
            assert(self.children(x).contains(c));
            self.ids().lemma_filter_contains_rev(pred, c);
            let k = choose|k: int| 0 <= k < self.ids().len() && self.ids()[k] == c;
            assert(self.vertex_seq()[k].id == c);
        }
        lemma_sort_ids(self.children(x));
        assert forall|i: int| 0 <= i < sort_ids(self.children(x)).len() implies self.contains_id(#[trigger] sort_ids(self.children(x))[i]) by {
            let c = sort_ids(self.children(x))[i];
            assert(sort_ids(self.children(x)).contains(c));
            assert(self.children(x).contains(c));
            let k = choose|k: int| 0 <= k < self.children(x).len() && self.children(x)[k] == c;
            assert(self.contains_id(self.children(x)[k]));
        }
    }

    pub proof fn lemma_first_walk_measure(&self, queue: Seq<VertexId>, seen: Set<VertexId>)
        requires
            self.wf(),
            self.all_contained(queue),
            queue.len() > 0,
        ensures
            ({
                let head = queue[0];
                let seen2 = seen.insert(head);
                let next = queue.drop_first() + sort_ids(self.children(head)).filter(|c: VertexId| !seen2.contains(c));
                &&& self.all_contained(next)
                &&& seen.contains(head) ==> self.id_set().difference(seen2).len() == self.id_set().difference(seen).len()
                    && next.filter(|x: VertexId| seen2.contains(x)).len() < queue.filter(|x: VertexId| seen.contains(x)).len()
                &&& !seen.contains(head) ==> self.id_set().difference(seen2).len() < self.id_set().difference(seen).len()
            }),
    {
        reveal(Seq::filter);
        let head = queue[0];
        let seen2 = seen.insert(head);
        let unseen2 = |c: VertexId| !seen2.contains(c);
        let inseen = |x: VertexId| seen.contains(x);
        let inseen2 = |x: VertexId| seen2.contains(x);
        let pushed = sort_ids(self.children(head)).filter(unseen2);
        let next = queue.drop_first() + pushed;
        self.lemma_children_contained(head);
        assert forall|i: int| 0 <= i < next.len() implies self.contains_id(#[trigger] next[i]) by {
            if i < queue.drop_first().len() {
                assert(next[i] == queue[i + 1]);
            } else {
                let c = next[i];
                assert(pushed[i - queue.drop_first().len()] == c);
                assert(pushed.contains(c));
                sort_ids(self.children(head)).lemma_filter_contains_rev(unseen2, c);
                let k = choose|k: int| 0 <= k < sort_ids(self.children(head)).len() && sort_ids(self.children(head))[k] == c;
                assert(self.contains_id(sort_ids(self.children(head))[k]));
            }
        }
        if seen.contains(head) {
            assert(seen2 =~= seen);
            assert(self.id_set().difference(seen2) =~= self.id_set().difference(seen));
            assert(queue =~= seq![head] + queue.drop_first());
            Seq::filter_distributes_over_add(seq![head], queue.drop_first(), inseen);
            Seq::filter_distributes_over_add(queue.drop_first(), pushed, inseen2);
            assert(seq![head].drop_last() =~= Seq::<VertexId>::empty());
            assert(seq![head].filter(inseen) =~= seq![head]);
            assert forall|i: int| 0 <= i < pushed.len() implies !inseen2(#[trigger] pushed[i]) by {
                sort_ids(self.children(head)).lemma_filter_pred(unseen2, i);
            }
            self.lemma_filter_none(pushed, inseen2);
            assert(inseen2 == inseen);
        } else {
            assert(self.contains_id(queue[0]));
            let k = choose|k: int| 0 <= k < self.vertex_seq().len() && #[trigger] self.vertex_seq()[k].id == head;
            assert(self.ids()[k] == head);
            self.lemma_walk_measure(seen, head);
        }
    }

    /// A vertex added under a fresh identifier, with the heads as its parents, becomes
    /// the only head.
    pub proof fn lemma_single_head_after(&self, next: &Dag<T>, id: VertexId, d: u32, label: T)
        requires
            self.wf(),
            next.wf(),
            !self.contains_id(id),
            next.vertex_seq() == self.vertex_seq().push(Vertex { id: id, label: label, distance: d }),
            next.edge_map() == self.edge_map().insert(id, self.merged_parents(id, self.heads())),
        ensures
            next.heads() == seq![id],
    {
        let n = self.vertex_seq().len();
        let pred = |x: VertexId| !next.has_child(x) && x != root_id();
        let hpred = |x: VertexId| !self.has_child(x) && x != root_id();
        assert(self.vertex_seq()[0].id == root_id());
        assert(!self.edge_map().contains_key(id)) by {
            if self.edge_map().contains_key(id) {
                let i = choose|i: int| 0 <= i < self.edges@.len() && self.edges@[i].0 == id;
                assert(self.contains_id(self.edges@[i].0));
            }
        }
        assert forall|w: VertexId| self.contains_id(w) implies next.parents_of(w) == self.parents_of(w) by {
            assert(w != id);
        }
        assert forall|i: int| 0 <= i < self.ids().len() implies !pred(#[trigger] self.ids()[i]) by {
            let x = self.ids()[i];
            assert(self.vertex_seq()[i].id == x);
            if x != root_id() {
                if self.has_child(x) {
                    let k = choose|k: int| 0 <= k < self.vertex_seq().len() && self.has_edge(#[trigger] self.vertex_seq()[k].id, x);
                    let w = self.vertex_seq()[k].id;
                    assert(self.contains_id(w));
                    assert(next.vertex_seq()[k].id == w);
                    assert(next.has_edge(next.vertex_seq()[k].id, x));
                } else {
                    self.ids().lemma_filter_contains(hpred, i);
                    assert(self.heads().contains(x));
                    assert(self.merged_parents(id, self.heads()) == self.heads());
                    assert(next.parents_of(id) == self.heads());
                    assert(next.vertex_seq()[n as int].id == id);
                    assert(next.has_edge(next.vertex_seq()[n as int].id, x));
                }
            }
        }
        self.lemma_filter_none(self.ids(), pred);
        assert(!next.has_child(id)) by {
            if next.has_child(id) {
                let k = choose|k: int| 0 <= k < next.vertex_seq().len() && next.has_edge(#[trigger] next.vertex_seq()[k].id, id);
                let w = next.vertex_seq()[k].id;
                if w == id {
                    let ps = self.merged_parents(id, self.heads());
                    assert(next.parents_of(id) == ps);
                    let j = choose|j: int| 0 <= j < ps.len() && ps[j] == id;
                    if self.heads().len() > 0 {
                        self.lemma_heads_contained(j);
                    }
                } else {
                    assert(k < n);
                    assert(self.vertex_seq()[k].id == w);
                    assert(self.contains_id(w));
                    self.lemma_parents_contained(w);
                    let j = choose|j: int| 0 <= j < self.parents_of(w).len() && self.parents_of(w)[j] == id;
                    assert(self.contains_id(self.parents_of(w)[j]));
                }
            }
        }
        assert(id != root_id()) by {
            assert(self.contains_id(self.vertex_seq()[0].id));
        }
        assert(next.ids() =~= self.ids().push(id));
        reveal(Seq::filter);
        assert(self.ids().push(id).drop_last() =~= self.ids());
        assert(next.heads() =~= self.ids().filter(pred).push(id));
    }

    /// The distance order lists every position of `all_vertices` exactly once, by
    /// nondecreasing distance.
    pub proof fn lemma_distance_order(&self)
        ensures
            self.distance_order().len() == self.all_vertices().len(),
            self.distance_order().no_duplicates(),
            forall|i: int| 0 <= i < self.distance_order().len()
                ==> 0 <= #[trigger] self.distance_order()[i] < self.all_vertices().len(),
            forall|i: int, j: int|
                0 <= i <= j < self.distance_order().len() ==> #[trigger] self.all_vertices()[self.distance_order()[i]].distance
                    <= #[trigger] self.all_vertices()[self.distance_order()[j]].distance,
    {
        let keys = self.distance_keys();
        let leq = key_leq::<DistancePosition>();
        let sorted = keys.sort_by(leq);
        DistancePosition::lemma_key_total();
        keys.lemma_sort_by_ensures(leq);
        vstd::seq_lib::to_multiset_len(keys);
        vstd::seq_lib::to_multiset_len(sorted);
        assert(self.vertex_seq().len() <= usize::MAX) by {
            assert(self.vertices.len() == self.vertex_seq().len());
        }
        assert forall|i: int| #![trigger sorted[i]] 0 <= i < sorted.len() implies exists|t: int|
            0 <= t < keys.len() && #[trigger] keys[t] == sorted[i] && sorted[i].position == t by {
            assert(sorted.contains(sorted[i]));
            lemma_sort_keys_contains(keys, sorted[i]);
            let t = choose|t: int| 0 <= t < keys.len() && keys[t] == sorted[i];
            assert(keys[t].position == t);
        }
        assert(keys.no_duplicates()) by {
            assert forall|i: int, j: int| 0 <= i < keys.len() && 0 <= j < keys.len() && i != j implies keys[i] != keys[j] by {
                assert(keys[i].position == i && keys[j].position == j);
            }
        }
        keys.lemma_multiset_has_no_duplicates();
        sorted.lemma_multiset_has_no_duplicates_conv();
        let order = self.distance_order();
        assert forall|i: int, j: int| 0 <= i < order.len() && 0 <= j < order.len() && i != j implies order[i] != order[j] by {
            let t = choose|t: int| 0 <= t < keys.len() && #[trigger] keys[t] == sorted[i] && sorted[i].position == t;
            let u = choose|u: int| 0 <= u < keys.len() && #[trigger] keys[u] == sorted[j] && sorted[j].position == u;
            assert(sorted[i] != sorted[j]);
        }
        assert forall|i: int| 0 <= i < order.len() implies 0 <= #[trigger] order[i] < self.all_vertices().len()
            && sorted[i].distance == self.all_vertices()[order[i]].distance by {
            let t = choose|t: int| 0 <= t < keys.len() && #[trigger] keys[t] == sorted[i] && sorted[i].position == t;
        }
        assert forall|i: int, j: int| 0 <= i <= j < order.len() implies #[trigger] self.all_vertices()[order[i]].distance
            <= #[trigger] self.all_vertices()[order[j]].distance by {
            if i < j {
                assert(leq(sorted[i], sorted[j]));
            }
            assert(sorted[i].distance == self.all_vertices()[order[i]].distance);
            assert(sorted[j].distance == self.all_vertices()[order[j]].distance);
        }
    }

    /// The vertices fit in memory: there are at most `usize::MAX` of them.
    pub proof fn lemma_len_fits(&self)
        ensures
            self.vertex_seq().len() <= usize::MAX,
    {
        assert(self.vertices.len() == self.vertex_seq().len());
    }

    /// The first vertex is the root.
    pub proof fn lemma_root_first(&self)
        requires
            self.wf(),
        ensures
            self.vertex_seq().len() >= 1,
            self.vertex_seq()[0].id == root_id(),
    {
    }

    /// The parents recorded for an identifier are vertices of the DAG.
    pub proof fn lemma_parents_contained(&self, x: VertexId)
        requires
            self.wf(),
        ensures
            self.all_contained(self.parents_of(x)),
    {
        if self.edge_map().contains_key(x) {
            let e = choose|e: int| 0 <= e < self.edges@.len() && self.edges@[e].0 == x;
            self.lemma_edge_entry(e);
            assert forall|j: int| 0 <= j < self.parents_of(x).len() implies self.contains_id(#[trigger] self.parents_of(x)[j]) by {
                assert(self.contains_id(self.edges@[e].1@[j]));
            }
        }
    }

    pub proof fn lemma_heads_contained(&self, i: int)
        requires
            0 <= i < self.heads().len(),
        ensures
            self.contains_id(self.heads()[i]),
    {
        let pred = |x: VertexId| !self.has_child(x) && x != root_id();
        let h = self.heads()[i];
        assert(self.heads().contains(h));
        self.ids().lemma_filter_contains_rev(pred, h);
        let k = choose|k: int| 0 <= k < self.ids().len() && self.ids()[k] == h;
        assert(self.vertex_seq()[k].id == h);
    }

    /// For each identifier, in vertex order, the first vertex with that identifier.
    pub open spec fn all_vertices(&self) -> Seq<Vertex<T>> {
        self.ids().map_values(|id: VertexId| self.vertex_of(id))
    }

    /// The vertices of `all_vertices` at distance `d`, in vertex order.
    pub open spec fn level(&self, d: int) -> Seq<Vertex<T>> {
        self.all_vertices().filter(|v: Vertex<T>| v.distance == d)
    }

    /// The positions of `all_vertices` ordered by distance, equal distances keeping
    /// their order.
    pub open spec fn distance_order(&self) -> Seq<int> {
        self.distance_keys().sort_by(key_leq::<DistancePosition>()).map_values(|k: DistancePosition| k.position as int)
    }

    pub open spec fn distance_keys(&self) -> Seq<DistancePosition> {
        Seq::new(
            self.ids().len(),
            |i: int| DistancePosition { distance: self.all_vertices()[i].distance, position: i as usize },
        )
    }

    /// `rank` strictly grows from each vertex to its children, and stays below the
    /// number of vertices.
    pub open spec fn ranked_by(&self, rank: spec_fn(VertexId) -> nat) -> bool {
        &&& forall|k: VertexId, p: VertexId| #[trigger] self.has_edge(k, p) ==> rank(p) < rank(k)
        &&& forall|i: int| 0 <= i < self.vertex_seq().len() ==> rank(#[trigger] self.vertex_seq()[i].id) < self.vertex_seq().len()
    }

    /// The parent relation has no cycle: some rank orders it.
    pub open spec fn acyclic(&self) -> bool {
        exists|rank: spec_fn(VertexId) -> nat| self.ranked_by(rank)
    }

    /// Adding a vertex under an identifier not yet in the DAG keeps it acyclic.
    pub proof fn lemma_add_fresh_acyclic(&self, next: &Dag<T>, id: VertexId, merged: Seq<VertexId>)
        requires
            self.wf(),
            next.wf(),
            self.acyclic(),
            !self.contains_id(id),
            self.all_contained(merged),
            next.vertex_seq().len() == self.vertex_seq().len() + 1,
            forall|i: int| 0 <= i < self.vertex_seq().len() ==> next.vertex_seq()[i] == #[trigger] self.vertex_seq()[i],
            next.vertex_seq()[self.vertex_seq().len() as int].id == id,
            next.edge_map() == self.edge_map().insert(id, merged),
        ensures
            next.acyclic(),
    {
        let rank = choose|rank: spec_fn(VertexId) -> nat| self.ranked_by(rank);
        let n = self.vertex_seq().len();
        lemma_max_rank(rank, merged, n);
        assert forall|i: int| 0 <= i < merged.len() implies rank(#[trigger] merged[i]) < n by {
            let x = merged[i];
            assert(self.contains_id(x));
            let k = choose|k: int| 0 <= k < self.vertex_seq().len() && #[trigger] self.vertex_seq()[k].id == x;
            assert(rank(self.vertex_seq()[k].id) < n);
        }
        let m = max_rank(rank, merged);
        let rank2 = |x: VertexId| if x == id { m + 1 } else { rank(x) };
        assert forall|k: VertexId, p: VertexId| #[trigger] next.has_edge(k, p) implies rank2(p) < rank2(k) by {
            if k == id {
                let j = choose|j: int| 0 <= j < merged.len() && merged[j] == p;
                assert(self.contains_id(merged[j]));
            } else {
                assert(next.parents_of(k) == self.parents_of(k));
                assert(self.has_edge(k, p));
                let e = choose|e: int| 0 <= e < self.edges@.len() && self.edges@[e].0 == k;
                self.lemma_edge_entry(e);
                let j = choose|j: int| 0 <= j < self.edges@[e].1@.len() && self.edges@[e].1@[j] == p;
                assert(self.contains_id(self.edges@[e].1@[j]));
            }
        }
        assert forall|i: int| 0 <= i < next.vertex_seq().len() implies rank2(#[trigger] next.vertex_seq()[i].id) < next.vertex_seq().len() by {
            if i < n {
                assert(next.vertex_seq()[i] == self.vertex_seq()[i]);
                assert(self.vertex_seq()[i].id != id);
                assert(rank(self.vertex_seq()[i].id) < n);
            }
        }
        assert(next.ranked_by(rank2));
    }

    /// The next level of the level-by-level walk: the children of the vertices of
    /// `level`, taken from its last vertex to its first, each kept once, in the order
    /// met.
    pub open spec fn gather(&self, level: Seq<VertexId>) -> Seq<VertexId>
        decreases level.len(),
    {
        if level.len() == 0 {
            Seq::empty()
        } else {
            append_missing(self.gather(level.drop_first()), self.children(level[0]))
        }
    }

    /// Level `k` of the walk from the root: the root, then each level gathered from the
    /// one before.
    pub open spec fn level_ids(&self, k: nat) -> Seq<VertexId>
        decreases k,
    {
        if k == 0 {
            seq![root_id()]
        } else {
            self.gather(self.level_ids((k - 1) as nat))
        }
    }

    /// `x` is a child of some vertex of `level`.
    pub open spec fn child_of_some(&self, x: VertexId, level: Seq<VertexId>) -> bool {
        exists|j: int| 0 <= j < level.len() && #[trigger] self.has_edge(x, level[j])
    }

    /// Every element of a gathered level is a vertex identifier and a child of some
    /// vertex of the level it was gathered from; none occurs twice.
    pub proof fn lemma_gather(&self, level: Seq<VertexId>)
        ensures
            forall|i: int| 0 <= i < self.gather(level).len() ==> self.child_of_some(#[trigger] self.gather(level)[i], level),
            self.all_contained(self.gather(level)),
            self.gather(level).no_duplicates(),
        decreases level.len(),
    {
        if level.len() > 0 {
            let prev = self.gather(level.drop_first());
            let cs = self.children(level[0]);
            self.lemma_gather(level.drop_first());
            self.lemma_children_contained(level[0]);
            lemma_append_missing_no_dup(prev, cs);
            assert forall|i: int| 0 <= i < self.gather(level).len() implies self.child_of_some(#[trigger] self.gather(level)[i], level) && self.contains_id(self.gather(level)[i]) by {
                let x = self.gather(level)[i];
                assert(self.gather(level).contains(x));
                lemma_append_missing_from(prev, cs, x);
                if prev.contains(x) {
                    let t = choose|t: int| 0 <= t < prev.len() && prev[t] == x;
                    assert(prev[t] == prev[t]);
                    assert(self.child_of_some(prev[t], level.drop_first()));
                    let j = choose|j: int| 0 <= j < level.drop_first().len() && #[trigger] self.has_edge(prev[t], level.drop_first()[j]);
                    assert(level.drop_first()[j] == level[j + 1]);
                    assert(self.has_edge(self.gather(level)[i], level[j + 1]));
                    assert(self.contains_id(prev[t]));
                } else {
                    let t = choose|t: int| 0 <= t < cs.len() && cs[t] == x;
                    assert(self.contains_id(cs[t]));
                    self.ids().lemma_filter_pred(|w: VertexId| self.has_edge(w, level[0]), t);
                    assert(self.has_edge(self.gather(level)[i], level[0]));
                }
            }
        } else {
            assert(self.gather(level).len() == 0);
        }
    }

    /// Under a rank, the vertices of level `k` have rank at least `k`, and past the
    /// root's level they are vertices of the DAG: no level past the number of vertices
    /// holds anything.
    pub proof fn lemma_level_rank(&self, rank: spec_fn(VertexId) -> nat, k: nat)
        requires
            self.wf(),
            self.ranked_by(rank),
        ensures
            forall|i: int| 0 <= i < self.level_ids(k).len() ==> rank(#[trigger] self.level_ids(k)[i]) >= k,
            k > 0 ==> self.all_contained(self.level_ids(k)),
            k >= self.vertex_seq().len() ==> self.level_ids(k).len() == 0,
        decreases k,
    {
        if k > 0 {
            let prev = self.level_ids((k - 1) as nat);
            self.lemma_level_rank(rank, (k - 1) as nat);
            self.lemma_gather(prev);
            assert forall|i: int| 0 <= i < self.level_ids(k).len() implies rank(#[trigger] self.level_ids(k)[i]) >= k by {
                let x = self.level_ids(k)[i];
                assert(self.child_of_some(self.gather(prev)[i], prev));
                let j = choose|j: int| 0 <= j < prev.len() && #[trigger] self.has_edge(x, prev[j]);
                assert(rank(prev[j]) >= k - 1);
            }
            if k >= self.vertex_seq().len() && self.level_ids(k).len() > 0 {
                let x = self.level_ids(k)[0];
                assert(rank(x) >= k);
                assert(self.contains_id(x));
                let t = choose|t: int| 0 <= t < self.vertex_seq().len() && #[trigger] self.vertex_seq()[t].id == x;
                assert(rank(self.vertex_seq()[t].id) < self.vertex_seq().len());
            }
        }
    }

    /// Once a level is empty, so are all the later ones.
    pub proof fn lemma_level_empty_after(&self, k: nat, j: nat)
        requires
            self.level_ids(k).len() == 0,
            k <= j,
        ensures
            self.level_ids(j).len() == 0,
        decreases j - k,
    {
        if k < j {
            self.lemma_level_empty_after(k, (j - 1) as nat);
            assert(self.gather(self.level_ids((j - 1) as nat)) == Seq::<VertexId>::empty());
        }
    }

    /// The largest distance of the vertices of `vs` (0 for none).
    pub open spec fn max_distance(vs: Seq<Vertex<T>>) -> nat
        decreases vs.len(),
    {
        if vs.len() == 0 {
            0
        } else {
            let m = Self::max_distance(vs.drop_last());
            if vs.last().distance > m {
                vs.last().distance as nat
            } else {
                m
            }
        }
    }

    /// The length is reached: it is 1 or the distance of some vertex.
    pub open spec fn length_reached(&self) -> bool {
        &&& self.length_of() >= 1
        &&& (self.length_of() == 1 || exists|i: int|
            0 <= i < self.vertex_seq().len() && #[trigger] self.vertex_seq()[i].distance == self.length_of())
    }

    /// Each vertex lies further from the root than each of its parents (each identifier
    /// standing for the first vertex added with it).
    pub open spec fn distances_grow(&self) -> bool {
        forall|x: VertexId, p: VertexId| #[trigger] self.has_edge(x, p) ==> self.vertex_of(p).distance < self.vertex_of(x).distance
    }

    proof fn lemma_max_distance(vs: Seq<Vertex<T>>)
        ensures
            forall|i: int| 0 <= i < vs.len() ==> #[trigger] vs[i].distance <= Self::max_distance(vs),
            Self::max_distance(vs) == 0 || exists|i: int| 0 <= i < vs.len() && #[trigger] vs[i].distance == Self::max_distance(vs),
        decreases vs.len(),
    {
        if vs.len() > 0 {
            let q = vs.drop_last();
            Self::lemma_max_distance(q);
            assert forall|i: int| 0 <= i < vs.len() implies #[trigger] vs[i].distance <= Self::max_distance(vs) by {
                if i < q.len() {
                    assert(vs[i] == q[i]);
                }
            }
            if Self::max_distance(vs) != 0 && Self::max_distance(vs) == Self::max_distance(q) {
                let i = choose|i: int| 0 <= i < q.len() && #[trigger] q[i].distance == Self::max_distance(q);
                assert(vs[i] == q[i]);
            }
        }
    }

    /// The length of the DAG is the largest distance of its vertices, and 1 when none is
    /// larger.
    pub proof fn lemma_length_is_largest_distance(&self)
        requires
            self.distances_fit(),
            self.length_reached(),
        ensures
            self.length_of() == (if Self::max_distance(self.vertex_seq()) > 1 { Self::max_distance(self.vertex_seq()) } else { 1 }),
    {
        Self::lemma_max_distance(self.vertex_seq());
        if self.length_of() != 1 {
            let i = choose|i: int| 0 <= i < self.vertex_seq().len() && #[trigger] self.vertex_seq()[i].distance == self.length_of();
            assert(self.vertex_seq()[i].distance <= Self::max_distance(self.vertex_seq()));
        }
        if Self::max_distance(self.vertex_seq()) > 0 {
            let i = choose|i: int| 0 <= i < self.vertex_seq().len() && #[trigger] self.vertex_seq()[i].distance == Self::max_distance(self.vertex_seq());
            assert(self.vertex_seq()[i].distance <= self.length_of());
        }
    }

    /// The first vertex of a parent listed in `ps` is at most `max_parent_distance(ps)`
    /// away from the root.
    proof fn lemma_max_parent_distance(&self, ps: Seq<VertexId>, j: int)
        requires
            0 <= j < ps.len(),
        ensures
            self.vertex_of(ps[j]).distance <= self.max_parent_distance(ps),
        decreases ps.len(),
    {
        if j < ps.len() - 1 {
            self.lemma_max_parent_distance(ps.drop_last(), j);
            assert(ps.drop_last()[j] == ps[j]);
        }
    }

    /// Pushing a vertex keeps the first vertex of every identifier already there.
    proof fn lemma_push_keeps_first(&self, next: &Dag<T>, x: VertexId)
        requires
            self.contains_id(x),
            next.vertex_seq().len() == self.vertex_seq().len() + 1,
            forall|i: int| 0 <= i < self.vertex_seq().len() ==> next.vertex_seq()[i] == #[trigger] self.vertex_seq()[i],
        ensures
            next.vertex_of(x) == self.vertex_of(x),
            next.contains_id(x),
    {
        let k = choose|k: int| 0 <= k < self.vertex_seq().len() && #[trigger] self.vertex_seq()[k].id == x;
        self.lemma_first_exists(k, x);
        let f = self.first_index(x);
        assert forall|j: int| 0 <= j < f implies #[trigger] next.vertex_seq()[j].id != x by {
            assert(next.vertex_seq()[j] == self.vertex_seq()[j]);
        }
        assert(next.vertex_seq()[f] == self.vertex_seq()[f]);
        assert(next.is_first_index(f, x));
        next.lemma_first_index(f, x);
    }

    /// Adding a vertex under a fresh identifier, further from the root than each of its
    /// parents, keeps each vertex further from the root than each of its parents.
    proof fn lemma_add_fresh_grows(&self, next: &Dag<T>, id: VertexId, merged: Seq<VertexId>, d: u32)
        requires
            self.wf(),
            self.distances_grow(),
            !self.contains_id(id),
            self.all_contained(merged),
            forall|j: int| 0 <= j < merged.len() ==> self.vertex_of(#[trigger] merged[j]).distance < d,
            next.vertex_seq().len() == self.vertex_seq().len() + 1,
            forall|i: int| 0 <= i < self.vertex_seq().len() ==> next.vertex_seq()[i] == #[trigger] self.vertex_seq()[i],
            next.vertex_seq()[self.vertex_seq().len() as int].id == id,
            next.vertex_seq()[self.vertex_seq().len() as int].distance == d,
            next.edge_map() == self.edge_map().insert(id, merged),
        ensures
            next.distances_grow(),
    {
        let n = self.vertex_seq().len() as int;
        assert(next.is_first_index(n, id)) by {
            assert forall|j: int| 0 <= j < n implies #[trigger] next.vertex_seq()[j].id != id by {
                assert(next.vertex_seq()[j] == self.vertex_seq()[j]);
            }
        }
        next.lemma_first_index(n, id);
        assert forall|x: VertexId, p: VertexId| #[trigger] next.has_edge(x, p)
            implies next.vertex_of(p).distance < next.vertex_of(x).distance by {
            if x == id {
                assert(next.parents_of(id) == merged);
                let j = choose|j: int| 0 <= j < merged.len() && merged[j] == p;
                assert(self.contains_id(merged[j]));
                self.lemma_push_keeps_first(next, p);
            } else {
                assert(next.parents_of(x) == self.parents_of(x));
                assert(self.has_edge(x, p));
                let e = choose|e: int| 0 <= e < self.edges@.len() && self.edges@[e].0 == x;
                self.lemma_edge_entry(e);
                assert(self.contains_id(self.edges@[e].0));
                self.lemma_parents_contained(x);
                let j = choose|j: int| 0 <= j < self.parents_of(x).len() && self.parents_of(x)[j] == p;
                assert(self.contains_id(self.parents_of(x)[j]));
                self.lemma_push_keeps_first(next, p);
                self.lemma_push_keeps_first(next, x);
            }
        }
    }

    /// Over a run of additions from `runs[0]`, each step leaving the vertices as they
    /// were or adding the vertices of `added[i]` at the end (one for each `add_vertex`
    /// that succeeds), the vertices at the end are those at the start followed by all
    /// those added, in order: the root stays first and no vertex is lost or moved.
    pub proof fn lemma_additions_append(runs: Seq<Dag<T>>, added: Seq<Seq<Vertex<T>>>)
        requires
            runs.len() >= 1,
            added.len() == runs.len() - 1,
            forall|i: int| 0 <= i < added.len()
                ==> #[trigger] runs[i + 1].vertex_seq() == runs[i].vertex_seq() + added[i],
        ensures
            runs.last().vertex_seq() == runs[0].vertex_seq() + crate::crdt::reconciliation_functions::concat_parts(added),
            runs.last().vertex_seq().len() >= runs[0].vertex_seq().len(),
            forall|i: int| 0 <= i < runs[0].vertex_seq().len() ==> #[trigger] runs.last().vertex_seq()[i] == runs[0].vertex_seq()[i],
        decreases runs.len(),
    {
        if runs.len() > 1 {
            let r2 = runs.drop_last();
            let a2 = added.drop_last();
            assert forall|i: int| 0 <= i < a2.len() implies #[trigger] r2[i + 1].vertex_seq() == r2[i].vertex_seq() + a2[i] by {
                assert(runs[i + 1].vertex_seq() == runs[i].vertex_seq() + added[i]);
            }
            Self::lemma_additions_append(r2, a2);
            let k = added.len() - 1;
            assert(runs[k + 1].vertex_seq() == runs[k].vertex_seq() + added[k]);
            assert(runs.last().vertex_seq() =~= runs[0].vertex_seq() + crate::crdt::reconciliation_functions::concat_parts(added));
        } else {
            assert(added.len() == 0);
            assert(runs[0].vertex_seq() + crate::crdt::reconciliation_functions::concat_parts(added) =~= runs[0].vertex_seq());
        }
    }

    /// The level-by-level walk from the root comes to an empty level: no cycle is
    /// reached from the root.
    pub open spec fn levels_end(&self) -> bool {
        exists|k: nat| #[trigger] self.level_ids(k).len() == 0
    }

    /// In an acyclic DAG the level-by-level walk comes to an empty level.
    pub proof fn lemma_acyclic_levels_end(&self)
        requires
            self.wf(),
            self.acyclic(),
        ensures
            self.levels_end(),
    {
        let rank = choose|rank: spec_fn(VertexId) -> nat| self.ranked_by(rank);
        self.lemma_level_rank(rank, self.vertex_seq().len());
    }

    /// Every level holds identifiers of vertices of the DAG.
    pub proof fn lemma_level_contained(&self, k: nat)
        requires
            self.wf(),
        ensures
            self.all_contained(self.level_ids(k)),
    {
        if k == 0 {
            assert(self.vertex_seq()[0].id == root_id());
            assert(self.contains_id(self.level_ids(0)[0]));
        } else {
            self.lemma_gather(self.level_ids((k - 1) as nat));
        }
    }

    /// Each next identifier of `path` is a child of the one before.
    pub open spec fn is_child_path(&self, path: Seq<VertexId>) -> bool {
        &&& path.len() >= 1
        &&& forall|i: int| 0 <= i < path.len() - 1 ==> #[trigger] self.has_edge(path[i + 1], path[i])
    }

    /// `x` is reached from `start` by one or more steps from a vertex to a child.
    pub open spec fn reaches(&self, start: VertexId, x: VertexId) -> bool {
        exists|path: Seq<VertexId>|
            #[trigger] self.is_child_path(path) && path.len() >= 2 && path[0] == start && path.last() == x
    }

    /// Some vertex reached from `start` belongs to process `p`.
    pub open spec fn reaches_process(&self, start: VertexId, p: u32) -> bool {
        exists|x: VertexId| #[trigger] self.reaches(start, x) && x.process_id == p
    }

    pub proof fn lemma_reaches_child(&self, start: VertexId, h: VertexId, c: VertexId)
        requires
            h == start || self.reaches(start, h),
            self.has_edge(c, h),
        ensures
            self.reaches(start, c),
    {
        if h == start {
            let path = seq![start, c];
            assert(self.has_edge(path[1], path[0]));
            assert(self.is_child_path(path));
        } else {
            let path = choose|path: Seq<VertexId>|
                #[trigger] self.is_child_path(path) && path.len() >= 2 && path[0] == start && path.last() == h;
            let p2 = path.push(c);
            assert forall|i: int| 0 <= i < p2.len() - 1 implies #[trigger] self.has_edge(p2[i + 1], p2[i]) by {
                if i < path.len() - 1 {
                    assert(p2[i + 1] == path[i + 1] && p2[i] == path[i]);
                }
            }
            assert(self.is_child_path(p2));
        }
    }

    proof fn lemma_path_rank(&self, rank: spec_fn(VertexId) -> nat, path: Seq<VertexId>)
        requires
            self.ranked_by(rank),
            self.is_child_path(path),
            path.len() >= 2,
        ensures
            rank(path.last()) > rank(path[0]),
        decreases path.len(),
    {
        let j = path.len() - 2;
        assert(self.has_edge(path[j + 1], path[j]));
        if path.len() > 2 {
            let q = path.drop_last();
            assert forall|i: int| 0 <= i < q.len() - 1 implies #[trigger] self.has_edge(q[i + 1], q[i]) by {
                assert(self.has_edge(path[i + 1], path[i]));
            }
            self.lemma_path_rank(rank, q);
        }
    }

    /// Under a rank, what `start` reaches has a higher rank.
    pub proof fn lemma_reaches_rank(&self, rank: spec_fn(VertexId) -> nat, start: VertexId, x: VertexId)
        requires
            self.ranked_by(rank),
            self.reaches(start, x),
        ensures
            rank(x) > rank(start),
    {
        let path = choose|path: Seq<VertexId>|
            #[trigger] self.is_child_path(path) && path.len() >= 2 && path[0] == start && path.last() == x;
        self.lemma_path_rank(rank, path);
    }

    /// A child of `s` is among `children(s)`, and is a vertex of the DAG.
    pub proof fn lemma_child_listed(&self, c: VertexId, s: VertexId)
        requires
            self.wf(),
            self.has_edge(c, s),
        ensures
            self.children(s).contains(c),
            sort_ids(self.children(s)).contains(c),
            self.contains_id(c),
    {
        let e = choose|e: int| 0 <= e < self.edges@.len() && self.edges@[e].0 == c;
        assert(self.edge_map().contains_key(c));
        assert(self.contains_id(self.edges@[e].0));
        let k = choose|k: int| 0 <= k < self.vertex_seq().len() && #[trigger] self.vertex_seq()[k].id == c;
        assert(self.ids()[k] == c);
        self.ids().lemma_filter_contains(|w: VertexId| self.has_edge(w, s), k);
        lemma_sort_ids(self.children(s));
    }

    /// Every process the walk of `processes_walk` records, past those it starts
    /// with, is that of a vertex reached from `start`, when its queue holds only such
    /// vertices.
    pub proof fn lemma_processes_reached(
        &self,
        start: VertexId,
        queue: Seq<VertexId>,
        seen: Set<VertexId>,
        procs: Seq<u32>,
        limit: Option<nat>,
    )
        requires
            self.wf(),
            forall|i: int| 0 <= i < queue.len() ==> self.reaches(start, #[trigger] queue[i]),
            forall|i: int| 0 <= i < procs.len() ==> self.reaches_process(start, #[trigger] procs[i]),
        ensures
            forall|i: int| 0 <= i < self.processes_walk(queue, seen, procs, limit).len()
                ==> self.reaches_process(start, #[trigger] self.processes_walk(queue, seen, procs, limit)[i]),
        decreases self.id_set().difference(seen).len(), queue.len(),
    {
        if queue.len() == 0 || (limit is Some && procs.len() >= limit->0) {
        } else {
            let head = queue[0];
            let rest = queue.drop_first();
            assert forall|i: int| 0 <= i < rest.len() implies self.reaches(start, #[trigger] rest[i]) by {
                assert(rest[i] == queue[i + 1]);
            }
            if seen.contains(head) {
                self.lemma_processes_reached(start, rest, seen, procs, limit);
                assert(self.processes_walk(queue, seen, procs, limit) == self.processes_walk(rest, seen, procs, limit));
            } else {
                let seen2 = seen.insert(head);
                self.lemma_walk_measure(seen, head);
                lemma_sort_ids(self.children(head));
                let pushed = sort_ids(self.children(head)).filter(|c: VertexId| !seen2.contains(c));
                sort_ids(self.children(head)).lemma_filter_len(|c: VertexId| !seen2.contains(c));
                let next = rest + pushed;
                assert(self.reaches(start, queue[0]));
                assert forall|i: int| 0 <= i < next.len() implies self.reaches(start, #[trigger] next[i]) by {
                    if i < rest.len() {
                        assert(next[i] == rest[i]);
                    } else {
                        let c = next[i];
                        assert(pushed[i - rest.len()] == c);
                        assert(pushed.contains(c));
                        sort_ids(self.children(head)).lemma_filter_contains_rev(|c: VertexId| !seen2.contains(c), c);
                        assert(self.children(head).contains(c));
                        self.ids().lemma_filter_contains_rev(|w: VertexId| self.has_edge(w, head), c);
                        let t = choose|t: int| 0 <= t < self.children(head).len() && self.children(head)[t] == c;
                        self.ids().lemma_filter_pred(|w: VertexId| self.has_edge(w, head), t);
                        self.lemma_reaches_child(start, head, c);
                    }
                }
                let procs2 = if procs.contains(head.process_id) { procs } else { procs.push(head.process_id) };
                assert forall|i: int| 0 <= i < procs2.len() implies self.reaches_process(start, #[trigger] procs2[i]) by {
                    if i < procs.len() {
                        assert(procs2[i] == procs[i]);
                    } else {
                        assert(procs2[i] == head.process_id);
                        assert(self.reaches(start, head) && head.process_id == procs2[i]);
                    }
                }
                self.lemma_processes_reached(start, next, seen2, procs2, limit);
                assert(self.processes_walk(queue, seen, procs, limit) == self.processes_walk(next, seen2, procs2, limit));
            }
        }
    }

    /// The breadth-first walk of `first_from_processes` finds a vertex reached from
    /// `start` (so does not run out) while some vertex of one of the processes it looks
    /// for lies past its seen vertices.
    pub proof fn lemma_first_walk_finds(
        &self,
        start: VertexId,
        queue: Seq<VertexId>,
        seen: Set<VertexId>,
        procs: Seq<u32>,
        path: Seq<VertexId>,
    )
        requires
            self.wf(),
            self.all_contained(queue),
            forall|i: int| 0 <= i < queue.len() ==> self.reaches(start, #[trigger] queue[i]),
            forall|x: VertexId, c: VertexId|
                #![trigger seen.contains(x), self.has_edge(c, x)]
                seen.contains(x) && self.has_edge(c, x) ==> seen.contains(c) || queue.contains(c),
            self.is_child_path(path),
            seen.contains(path[0]),
            !seen.contains(path.last()),
            procs.contains(path.last().process_id),
        ensures
            self.reaches(start, self.first_walk(queue, seen, procs)),
        decreases self.id_set().difference(seen).len(), queue.filter(|x: VertexId| seen.contains(x)).len(),
    {
        let i = lemma_first_unseen(path, seen);
        let i1 = i - 1;
        assert(self.has_edge(path[i1 + 1], path[i1]));
        assert(queue.contains(path[i]));
        let head = queue[0];
        let seen2 = seen.insert(head);
        assert(self.reaches(start, queue[0]));
        if procs.contains(head.process_id) {
        } else {
            self.lemma_first_walk_measure(queue, seen);
            let rest = queue.drop_first();
            let pushed = sort_ids(self.children(head)).filter(|c: VertexId| !seen2.contains(c));
            let next = rest + pushed;
            assert forall|k: int| 0 <= k < next.len() implies self.reaches(start, #[trigger] next[k]) by {
                if k < rest.len() {
                    assert(next[k] == queue[k + 1]);
                } else {
                    let c = next[k];
                    assert(pushed[k - rest.len()] == c);
                    assert(pushed.contains(c));
                    sort_ids(self.children(head)).lemma_filter_contains_rev(|c: VertexId| !seen2.contains(c), c);
                    lemma_sort_ids(self.children(head));
                    assert(self.children(head).contains(c));
                    let t = choose|t: int| 0 <= t < self.children(head).len() && self.children(head)[t] == c;
                    self.ids().lemma_filter_pred(|w: VertexId| self.has_edge(w, head), t);
                    self.lemma_reaches_child(start, head, c);
                }
            }
            assert forall|x: VertexId, c: VertexId|
                #![trigger seen2.contains(x), self.has_edge(c, x)]
                seen2.contains(x) && self.has_edge(c, x) implies seen2.contains(c) || next.contains(c) by {
                if !seen2.contains(c) {
                    if x == head {
                        self.lemma_child_listed(c, head);
                        let t = choose|t: int| 0 <= t < sort_ids(self.children(head)).len() && sort_ids(self.children(head))[t] == c;
                        sort_ids(self.children(head)).lemma_filter_contains(|c: VertexId| !seen2.contains(c), t);
                        let u = choose|u: int| 0 <= u < pushed.len() && pushed[u] == c;
                        assert(next[rest.len() + u] == c);
                    } else {
                        assert(seen.contains(x));
                        assert(queue.contains(c));
                        let u = choose|u: int| 0 <= u < queue.len() && queue[u] == c;
                        assert(u != 0);
                        assert(next[u - 1] == c);
                    }
                }
            }
            self.lemma_first_walk_finds(start, next, seen2, procs, path);
        }
    }

    /// A rank of the DAG, when it is acyclic.
    pub open spec fn some_rank(&self) -> spec_fn(VertexId) -> nat {
        choose|rank: spec_fn(VertexId) -> nat| self.ranked_by(rank)
    }

    /// The depth-first walk records only vertices of the DAG when it starts from them.
    pub proof fn lemma_past_walk_contained(&self, stack: Seq<VertexId>, seen: Set<VertexId>, past: Seq<VertexId>)
        requires
            self.wf(),
            self.all_contained(stack),
            self.all_contained(past),
        ensures
            self.all_contained(self.past_walk(stack, seen, past)),
        decreases self.id_set().difference(seen).len(), stack.len(),
    {
        if stack.len() > 0 {
            let head = stack.last();
            let rest = stack.drop_last();
            assert(self.contains_id(stack[stack.len() - 1]));
            assert forall|i: int| 0 <= i < rest.len() implies self.contains_id(#[trigger] rest[i]) by {
                assert(rest[i] == stack[i]);
            }
            if seen.contains(head) {
                self.lemma_past_walk_contained(rest, seen, past);
            } else {
                let seen2 = seen.insert(head);
                self.lemma_walk_measure(seen, head);
                let ps = sort_ids(self.parents_of(head));
                let pushed = ps.filter(|p: VertexId| !seen2.contains(p));
                let next = rest + pushed;
                lemma_sort_ids(self.parents_of(head));
                assert forall|i: int| 0 <= i < next.len() implies self.contains_id(#[trigger] next[i]) by {
                    if i < rest.len() {
                        assert(next[i] == rest[i]);
                    } else {
                        let c = next[i];
                        assert(pushed[i - rest.len()] == c);
                        assert(pushed.contains(c));
                        ps.lemma_filter_contains_rev(|p: VertexId| !seen2.contains(p), c);
                        assert(self.parents_of(head).contains(c));
                        let e = choose|e: int| 0 <= e < self.edges@.len() && self.edges@[e].0 == head;
                        self.lemma_edge_entry(e);
                        let j = choose|j: int| 0 <= j < self.edges@[e].1@.len() && self.edges@[e].1@[j] == c;
                        assert(self.contains_id(self.edges@[e].1@[j]));
                    }
                }
                assert forall|i: int| 0 <= i < past.push(head).len() implies self.contains_id(#[trigger] past.push(head)[i]) by {
                    if i < past.len() {
                        assert(past.push(head)[i] == past[i]);
                    }
                }
                self.lemma_past_walk_contained(next, seen2, past.push(head));
            }
        }
    }

    pub open spec fn all_contained(&self, ps: Seq<VertexId>) -> bool {
        forall|i: int| 0 <= i < ps.len() ==> self.contains_id(#[trigger] ps[i])
    }

    pub proof fn lemma_first_index(&self, i: int, id: VertexId)
        requires
            self.is_first_index(i, id),
        ensures
            self.first_index(id) == i,
            self.vertex_of(id) == self.vertex_seq()[i],
    {
        let k = self.first_index(id);
        assert(self.is_first_index(k, id));
        if k < i {
            assert(self.vertex_seq()[k].id != id);
        } else if i < k {
            assert(self.vertex_seq()[i].id != id);
        }
    }

    proof fn lemma_wf_same(&self, other: &Dag<T>)
        requires
            self.wf(),
            self.vertices@ == other.vertices@,
            self.edges@ == other.edges@,
        ensures
            other.wf(),
            other.edge_map() == self.edge_map(),
    {
        assert forall|x: VertexId| self.contains_id(x) == other.contains_id(x) by {
            if self.contains_id(x) {
                let k = choose|k: int| 0 <= k < self.vertex_seq().len() && #[trigger] self.vertex_seq()[k].id == x;
                assert(other.vertex_seq()[k].id == x);
            }
            if other.contains_id(x) {
                let k = choose|k: int| 0 <= k < other.vertex_seq().len() && #[trigger] other.vertex_seq()[k].id == x;
                assert(self.vertex_seq()[k].id == x);
            }
        }
        assert(other.edge_map() =~= self.edge_map());
    }

    proof fn lemma_same_vertices(&self, other: &Dag<T>)
        requires
            self.vertices@ == other.vertices@,
        ensures
            forall|x: VertexId| #[trigger] self.contains_id(x) == other.contains_id(x),
    {
        assert forall|x: VertexId| #[trigger] self.contains_id(x) == other.contains_id(x) by {
            if self.contains_id(x) {
                let k = choose|k: int| 0 <= k < self.vertex_seq().len() && #[trigger] self.vertex_seq()[k].id == x;
                assert(other.vertex_seq()[k].id == x);
            }
            if other.contains_id(x) {
                let k = choose|k: int| 0 <= k < other.vertex_seq().len() && #[trigger] other.vertex_seq()[k].id == x;
                assert(self.vertex_seq()[k].id == x);
            }
        }
    }

    proof fn lemma_edge_entry(&self, i: int)
        requires
            self.wf(),
            0 <= i < self.edges@.len(),
        ensures
            self.edge_map().contains_key(self.edges@[i].0),
            self.edge_map()[self.edges@[i].0] == self.edges@[i].1@,
            self.parents_of(self.edges@[i].0) == self.edges@[i].1@,
    {
        let k = self.edges@[i].0;
        assert(self.edge_map().contains_key(k));
        let j = choose|j: int| 0 <= j < self.edges@.len() && self.edges@[j].0 == k;
        if j < i {
        } else if i < j {
        }
    }

    pub proof fn lemma_first_exists(&self, k: int, id: VertexId)
        requires
            0 <= k < self.vertex_seq().len(),
            self.vertex_seq()[k].id == id,
        ensures
            self.is_first_index(self.first_index(id), id),
        decreases k,
    {
        if exists|j: int| 0 <= j < k && #[trigger] self.vertex_seq()[j].id == id {
            let j = choose|j: int| 0 <= j < k && #[trigger] self.vertex_seq()[j].id == id;
            self.lemma_first_exists(j, id);
        } else {
            assert(self.is_first_index(k, id));
        }
    }

    /// Every recorded parent comes, in vertex order, before the vertex that records it
    /// (the first vertex of each identifier standing for it).
    pub open spec fn parents_precede_spec(&self) -> bool {
        forall|k: VertexId, p: VertexId| #[trigger] self.has_edge(k, p) ==> self.first_index(p) < self.first_index(k)
    }

    /// When every recorded parent comes before the vertex that records it, the DAG has
    /// no cycle.
    pub proof fn lemma_parents_precede_acyclic(&self)
        requires
            self.wf(),
            self.parents_precede_spec(),
        ensures
            self.acyclic(),
    {
        let rank = |x: VertexId| if self.contains_id(x) { self.first_index(x) as nat } else { 0nat };
        assert forall|k: VertexId, p: VertexId| #[trigger] self.has_edge(k, p) implies rank(p) < rank(k) by {
            self.lemma_parents_contained(k);
            let j = choose|j: int| 0 <= j < self.parents_of(k).len() && self.parents_of(k)[j] == p;
            assert(self.contains_id(self.parents_of(k)[j]));
            self.lemma_child_listed(k, p);
            let a = choose|a: int| 0 <= a < self.vertex_seq().len() && #[trigger] self.vertex_seq()[a].id == p;
            self.lemma_first_exists(a, p);
        }
        assert forall|i: int| 0 <= i < self.vertex_seq().len() implies rank(#[trigger] self.vertex_seq()[i].id) < self.vertex_seq().len() by {
            let x = self.vertex_seq()[i].id;
            self.lemma_first_exists(i, x);
        }
        assert(self.ranked_by(rank));
    }

    /// The position of the first vertex with identifier `id`, if any.
    fn position_of(&self, id: &VertexId) -> (r: Option<usize>)
        ensures
            r matches Some(k) ==> self.is_first_index(k as int, *id) && self.first_index(*id) == k,
            r is None ==> !self.contains_id(*id),
    {
        let mut i: usize = 0;
        while i < self.vertices.len()
            invariant
                0 <= i <= self.vertices@.len(),
                forall|j: int| 0 <= j < i ==> #[trigger] self.vertex_seq()[j].id != *id,
            decreases self.vertices@.len() - i,
        {
            if self.vertices[i].id == *id {
                proof {
                    self.lemma_first_index(i as int, *id);
                }
                return Some(i);
            }
            i = i + 1;
        }
        None
    }

    /// Whether every recorded parent comes, in vertex order, before the vertex that
    /// records it; when it does, the DAG has no cycle.
    pub fn parents_precede(&self) -> (r: bool)
        requires
            self.wf(),
        ensures
            r == self.parents_precede_spec(),
            r ==> self.acyclic(),
    {
        let mut e: usize = 0;
        while e < self.edges.len()
            invariant
                0 <= e <= self.edges@.len(),
                self.wf(),
                forall|i: int, j: int| #![trigger self.edges@[i].1@[j]]
                    0 <= i < e && 0 <= j < self.edges@[i].1@.len()
                    ==> self.first_index(self.edges@[i].1@[j]) < self.first_index(self.edges@[i].0),
            decreases self.edges@.len() - e,
        {
            proof {
                assert(self.contains_id(self.edges@[e as int].0));
            }
            let pk = self.position_of(&self.edges[e].0);
            let kpos = match pk {
                Some(k) => k,
                None => 0,
            };
            let mut j: usize = 0;
            while j < self.edges[e].1.len()
                invariant
                    0 <= j <= self.edges@[e as int].1@.len(),
                    e < self.edges@.len(),
                    self.wf(),
                    kpos == self.first_index(self.edges@[e as int].0),
                    forall|q: int| #![trigger self.edges@[e as int].1@[q]]
                        0 <= q < j ==> self.first_index(self.edges@[e as int].1@[q]) < kpos,
                decreases self.edges@[e as int].1@.len() - j,
            {
                proof {
                    assert(self.contains_id(self.edges@[e as int].1@[j as int]));
                }
                match self.position_of(&self.edges[e].1[j]) {
                    Some(pp) => {
                        if pp >= kpos {
                            proof {
                                self.lemma_edge_entry(e as int);
                                let k = self.edges@[e as int].0;
                                let p = self.edges@[e as int].1@[j as int];
                                assert(self.parents_of(k)[j as int] == p);
                                assert(self.has_edge(k, p));
                            }
                            return false;
                        }
                    },
                    None => {
                        return false;
                    },
                }
                j = j + 1;
            }
            e = e + 1;
        }
        proof {
            assert forall|k: VertexId, p: VertexId| #[trigger] self.has_edge(k, p) implies self.first_index(p) < self.first_index(k) by {
                let i = choose|i: int| 0 <= i < self.edges@.len() && self.edges@[i].0 == k;
                self.lemma_edge_entry(i);
                let j = choose|j: int| 0 <= j < self.edges@[i].1@.len() && self.edges@[i].1@[j] == p;
                assert(self.first_index(self.edges@[i].1@[j]) < self.first_index(self.edges@[i].0));
            }
            self.lemma_parents_precede_acyclic();
        }
        true
    }

    fn find_entry(&self, id: &VertexId) -> (r: Option<usize>)
        requires
            self.wf(),
        ensures
            match r {
                Some(k) => k < self.edges@.len() && self.edges@[k as int].0 == *id,
                None => !self.edge_map().contains_key(*id),
            },
    {
        let mut i: usize = 0;
        while i < self.edges.len()
            invariant
                0 <= i <= self.edges@.len(),
                forall|j: int| 0 <= j < i ==> self.edges@[j].0 != *id,
            decreases self.edges@.len() - i,
        {
            if self.edges[i].0 == *id {
                return Some(i);
            }
            i = i + 1;
        }
        None
    }

    pub fn new(init: T) -> (r: Dag<T>)
        ensures
            r.wf(),
            r.vertex_seq() == seq![Vertex { id: root_id(), label: init, distance: 0 }],
            r.edge_map() == Map::<VertexId, Seq<VertexId>>::empty(),
            r.length_of() == 1,
            r.acyclic(),
            r.distances_fit(),
            r.length_reached(),
            r.distances_grow(),
            r.ids().no_duplicates(),
    {
        let root = Vertex::new(VertexId::new(0, 0), init);
        let mut vertices = Vec::new();
        vertices.push(root);
        let r = Dag { vertices, edges: Vec::new(), length: 1 };
        assert(r.edge_map() =~= Map::<VertexId, Seq<VertexId>>::empty());
        assert(r.vertex_seq()[0].id == root_id());
        proof {
            let rank = |x: VertexId| 0nat;
            assert(r.ranked_by(rank));
            assert(r.ids() =~= seq![root_id()]);
        }
        r
    }

    /// Adds `v` under `parents`. Refused (returns `false`, nothing changes) unless
    /// every parent is already in the DAG. A vertex without a distance gets one more
    /// than the largest of its parents; the parents are merged into any list already
    /// recorded for `v.id`, and a vertex without parents hangs from the root.
    /// Whether every identifier of `ids` is that of a vertex of the DAG.
    pub fn contains_all(&self, ids: &Vec<VertexId>) -> (r: bool)
        ensures
            r == self.all_contained(ids@),
    {
        let mut i: usize = 0;
        while i < ids.len()
            invariant
                0 <= i <= ids@.len(),
                forall|j: int| 0 <= j < i ==> self.contains_id(#[trigger] ids@[j]),
            decreases ids@.len() - i,
        {
            if !self.contains_vertex(&ids[i]) {
                return false;
            }
            i = i + 1;
        }
        true
    }

    /// The largest distance among the first vertices of the listed parents (0 for
    /// none), when they are all vertices of the DAG.
    pub fn parent_distance(&self, parents: &Vec<VertexId>) -> (r: u32)
        requires
            self.wf(),
            self.all_contained(parents@),
        ensures
            r == self.max_parent_distance(parents@),
    {
        let mut m: u32 = 0;
        let mut j: usize = 0;
        while j < parents.len()
            invariant
                0 <= j <= parents@.len(),
                m == self.max_parent_distance(parents@.take(j as int)),
                self.wf(),
                self.all_contained(parents@),
            decreases parents@.len() - j,
        {
            assert(parents@.take(j + 1).drop_last() =~= parents@.take(j as int));
            assert(self.contains_id(parents@[j as int]));
            let d = self.get_vertex(&parents[j]).unwrap().distance;
            if d > m {
                m = d;
            }
            j = j + 1;
        }
        assert(parents@.take(parents@.len() as int) =~= parents@);
        m
    }

    pub fn add_vertex(&mut self, parents: Vec<VertexId>, v: Vertex<T>) -> (r: bool)
        requires
            old(self).wf(),
            v.distance == 0 && old(self).all_contained(parents@)
                ==> old(self).max_parent_distance(parents@) < u32::MAX,
        ensures
            final(self).wf(),
            r == old(self).all_contained(parents@),
            !r ==> *final(self) == *old(self),
            r ==> final(self).vertex_seq() == old(self).vertex_seq().push(
                Vertex {
                    id: v.id,
                    label: v.label,
                    distance: old(self).new_distance(parents@, v) as u32,
                },
            ),
            r ==> final(self).edge_map() == old(self).edge_map().insert(
                v.id,
                old(self).merged_parents(v.id, parents@),
            ),
            r && old(self).acyclic() && !old(self).contains_id(v.id) ==> final(self).acyclic(),
            old(self).distances_fit() ==> final(self).distances_fit(),
            old(self).length_reached() ==> final(self).length_reached(),
            r && old(self).distances_grow() && old(self).distances_fit() && !old(self).contains_id(v.id) && v.distance == 0
                ==> final(self).distances_grow(),
            r && old(self).ids().no_duplicates() && !old(self).contains_id(v.id) ==> final(self).ids().no_duplicates(),
            r ==> final(self).length_of() == (if old(self).length_of() < old(self).new_distance(
                parents@,
                v,
            ) {
                old(self).new_distance(parents@, v) as u32
            } else {
                old(self).length_of()
            }),
    {
        let mut i: usize = 0;
        while i < parents.len()
            invariant
                0 <= i <= parents@.len(),
                forall|j: int| 0 <= j < i ==> self.contains_id(#[trigger] parents@[j]),
                *self == *old(self),
                self.wf(),
            decreases parents@.len() - i,
        {
            if !self.contains_vertex(&parents[i]) {
                return false;
            }
            i = i + 1;
        }
        let ghost old_self = *self;
        assert(self.wf());
        let mut v = v;
        if v.distance == 0 {
            let m = self.parent_distance(&parents);
            v.distance = m + 1;
        }
        assert(v.distance == old_self.new_distance(parents@, v));
        assert(self.wf());
        if self.length < v.distance {
            self.length = v.distance;
        }
        proof {
            old_self.lemma_wf_same(self);
        }
        let id = v.id;
        let entry = self.find_entry(&id);
        let ghost new_vertex = v;
        self.vertices.push(v);
        proof {
            assert forall|x: VertexId| old_self.contains_id(x) implies self.contains_id(x) by {
                let k = choose|k: int| 0 <= k < old_self.vertex_seq().len() && #[trigger] old_self.vertex_seq()[k].id == x;
                assert(self.vertex_seq()[k].id == x);
            }
            assert(self.vertex_seq()[self.vertex_seq().len() - 1].id == id);
        }
        let mut merged: Vec<VertexId>;
        if parents.len() == 0 {
            match entry {
                Some(k) => {
                    merged = copy_ids(&self.edges[k].1);
                    if merged.len() == 0 {
                        merged.push(VertexId::new(0, 0));
                    }
                },
                None => {
                    merged = Vec::new();
                    merged.push(VertexId::new(0, 0));
                },
            }
        } else {
            match entry {
                Some(k) => {
                    merged = copy_ids(&self.edges[k].1);
                    push_missing(&mut merged, &parents);
                },
                None => {
                    merged = copy_ids(&parents);
                },
            }
        }
        proof {
            match entry {
                Some(k) => { old_self.lemma_edge_entry(k as int); },
                None => {},
            }
            assert(merged@ == old_self.merged_parents(id, parents@));
            assert forall|j: int| 0 <= j < merged@.len() implies self.contains_id(#[trigger] merged@[j]) by {
                let x = merged@[j];
                assert(merged@.contains(x));
                assert(self.vertex_seq()[0].id == root_id());
                match entry {
                    Some(k) => {
                        if parents@.len() > 0 {
                            lemma_append_missing_from(old_self.edges@[k as int].1@, parents@, x);
                            if parents@.contains(x) {
                                let t = choose|t: int| 0 <= t < parents@.len() && parents@[t] == x;
                                assert(old_self.contains_id(parents@[t]));
                            } else {
                                let t = choose|t: int| 0 <= t < old_self.edges@[k as int].1@.len() && old_self.edges@[k as int].1@[t] == x;
                                assert(old_self.contains_id(old_self.edges@[k as int].1@[t]));
                            }
                        } else if old_self.edges@[k as int].1@.len() > 0 {
                            assert(old_self.contains_id(old_self.edges@[k as int].1@[j]));
                        }
                    },
                    None => {
                        if parents@.len() > 0 {
                            assert(old_self.contains_id(parents@[j]));
                        }
                    },
                }
            }
        }
        let ghost merged_view = merged@;
        let ghost mid = *self;
        match entry {
            Some(k) => {
                self.edges.set(k, (id, merged));
            },
            None => {
                self.edges.push((id, merged));
            },
        }
        proof {
            mid.lemma_same_vertices(self);
            assert(mid.contains_id(id));
            assert forall|i: int| 0 <= i < self.edges@.len() implies self.contains_id(#[trigger] self.edges@[i].0) by {
                if i < old_self.edges@.len() && (entry is None || i != entry->0) {
                    assert(old_self.contains_id(old_self.edges@[i].0));
                } else {
                    assert(self.edges@[i].0 == id);
                    assert(self.vertex_seq()[self.vertex_seq().len() - 1].id == id);
                }
            }
            assert forall|i: int, j: int|
                0 <= i < self.edges@.len() && 0 <= j < self.edges@[i].1@.len()
                    implies self.contains_id(#[trigger] self.edges@[i].1@[j]) by {
                if i < old_self.edges@.len() && (entry is None || i != entry->0) {
                    assert(old_self.contains_id(old_self.edges@[i].1@[j]));
                } else {
                    assert(self.edges@[i].1@ == merged_view);
                    assert(mid.contains_id(merged_view[j]));
                }
            }
            assert(self.wf());
            let target = old_self.edge_map().insert(id, merged_view);
            assert forall|x: VertexId| #[trigger] self.edge_map().contains_key(x) <==> target.contains_key(x) by {
                if self.edge_map().contains_key(x) {
                    let i = choose|i: int| 0 <= i < self.edges@.len() && self.edges@[i].0 == x;
                    if x != id {
                        assert(old_self.edges@[i].0 == x);
                    }
                }
                if old_self.edge_map().contains_key(x) {
                    let i = choose|i: int| 0 <= i < old_self.edges@.len() && old_self.edges@[i].0 == x;
                    assert(self.edges@[i].0 == x);
                }
                if x == id {
                    match entry {
                        Some(k) => { assert(self.edges@[k as int].0 == x); },
                        None => { assert(self.edges@[old_self.edges@.len() as int].0 == x); },
                    }
                }
            }
            assert forall|x: VertexId| #[trigger] self.edge_map().contains_key(x)
                implies self.edge_map()[x] == target[x] by {
                let i = choose|i: int| 0 <= i < self.edges@.len() && self.edges@[i].0 == x;
                self.lemma_edge_entry(i);
                if x != id {
                    old_self.lemma_edge_entry(i);
                }
            }
            assert(self.edge_map() =~= target);
            if old_self.acyclic() && !old_self.contains_id(id) {
                assert(old_self.all_contained(merged_view)) by {
                    assert forall|j: int| 0 <= j < merged_view.len() implies old_self.contains_id(#[trigger] merged_view[j]) by {
                        if parents@.len() > 0 {
                            assert(!old_self.edge_map().contains_key(id)) by {
                                if old_self.edge_map().contains_key(id) {
                                    let e = choose|e: int| 0 <= e < old_self.edges@.len() && old_self.edges@[e].0 == id;
                                    assert(old_self.contains_id(old_self.edges@[e].0));
                                }
                            }
                            assert(merged_view == parents@);
                        } else {
                            assert(old_self.vertex_seq()[0].id == root_id());
                        }
                    }
                }
                old_self.lemma_add_fresh_acyclic(self, id, merged_view);
            }
            if old_self.length_reached() {
                if self.length_of() != 1 && self.length_of() != old_self.length_of() {
                    assert(self.vertex_seq()[old_self.vertex_seq().len() as int].distance == self.length_of());
                } else if self.length_of() != 1 {
                    let i = choose|i: int| 0 <= i < old_self.vertex_seq().len() && #[trigger] old_self.vertex_seq()[i].distance == old_self.length_of();
                    assert(self.vertex_seq()[i] == old_self.vertex_seq()[i]);
                }
            }
            if old_self.ids().no_duplicates() && !old_self.contains_id(id) {
                assert(self.ids() =~= old_self.ids().push(id));
                assert forall|i: int, j: int| 0 <= i < j < self.ids().len() implies self.ids()[i] != self.ids()[j] by {
                    if j == old_self.ids().len() {
                        assert(old_self.vertex_seq()[i].id == old_self.ids()[i]);
                    } else {
                        assert(old_self.ids()[i] != old_self.ids()[j]);
                    }
                }
            }
            if old_self.distances_grow() && old_self.distances_fit() && !old_self.contains_id(id) && new_vertex.distance == old_self.max_parent_distance(parents@) + 1 {
                assert(old_self.all_contained(merged_view)) by {
                    assert forall|j: int| 0 <= j < merged_view.len() implies old_self.contains_id(#[trigger] merged_view[j]) by {
                        if parents@.len() > 0 {
                            assert(!old_self.edge_map().contains_key(id)) by {
                                if old_self.edge_map().contains_key(id) {
                                    let e = choose|e: int| 0 <= e < old_self.edges@.len() && old_self.edges@[e].0 == id;
                                    assert(old_self.contains_id(old_self.edges@[e].0));
                                }
                            }
                            assert(merged_view == parents@);
                        } else {
                            assert(old_self.vertex_seq()[0].id == root_id());
                        }
                    }
                }
                assert forall|j: int| 0 <= j < merged_view.len() implies old_self.vertex_of(#[trigger] merged_view[j]).distance < new_vertex.distance by {
                    if parents@.len() > 0 {
                        assert(!old_self.edge_map().contains_key(id)) by {
                            if old_self.edge_map().contains_key(id) {
                                let e = choose|e: int| 0 <= e < old_self.edges@.len() && old_self.edges@[e].0 == id;
                                assert(old_self.contains_id(old_self.edges@[e].0));
                            }
                        }
                        assert(merged_view == parents@);
                        old_self.lemma_max_parent_distance(parents@, j);
                    } else {
                        assert(!old_self.edge_map().contains_key(id)) by {
                            if old_self.edge_map().contains_key(id) {
                                let e = choose|e: int| 0 <= e < old_self.edges@.len() && old_self.edges@[e].0 == id;
                                assert(old_self.contains_id(old_self.edges@[e].0));
                            }
                        }
                        assert(merged_view == seq![root_id()]);
                        assert(old_self.is_first_index(0, root_id()));
                        old_self.lemma_first_index(0, root_id());
                    }
                }
                old_self.lemma_add_fresh_grows(self, id, merged_view, new_vertex.distance);
            }
        }
        true
    }

    /// The identifiers of all vertices, in the order in which they were added.
    pub fn get_all_ids(&self) -> (r: Vec<VertexId>)
        ensures
            r@ == self.ids(),
    {
        let mut r: Vec<VertexId> = Vec::new();
        let mut i: usize = 0;
        while i < self.vertices.len()
            invariant
                0 <= i <= self.vertices@.len(),
                r@ == self.ids().take(i as int),
            decreases self.vertices@.len() - i,
        {
            r.push(self.vertices[i].id);
            i = i + 1;
            assert(r@ =~= self.ids().take(i as int));
        }
        assert(self.ids().take(i as int) =~= self.ids());
        r
    }

    /// The parents recorded for `id`, empty when there are none.
    pub fn get_edges_from_vertex(&self, id: &VertexId) -> (r: Vec<VertexId>)
        requires
            self.wf(),
        ensures
            r@ == self.parents_of(*id),
    {
        match self.find_entry(id) {
            Some(k) => {
                proof {
                    self.lemma_edge_entry(k as int);
                }
                copy_ids(&self.edges[k].1)
            },
            None => Vec::new(),
        }
    }

    /// Whether `id` is among the parents recorded for `from`.
    fn edge_exists(&self, from: &VertexId, id: &VertexId) -> (r: bool)
        requires
            self.wf(),
        ensures
            r == self.has_edge(*from, *id),
    {
        match self.find_entry(from) {
            Some(k) => {
                proof {
                    self.lemma_edge_entry(k as int);
                }
                id_in(&self.edges[k].1, id)
            },
            None => false,
        }
    }

    /// The identifiers of the vertices whose parents include `id` (its children),
    /// in vertex order.
    pub fn get_edges_to_vertex(&self, id: &VertexId) -> (r: Vec<VertexId>)
        requires
            self.wf(),
        ensures
            r@ == self.children(*id),
    {
        let ghost pred = |w: VertexId| self.has_edge(w, *id);
        let mut r: Vec<VertexId> = Vec::new();
        let mut i: usize = 0;
        while i < self.vertices.len()
            invariant
                0 <= i <= self.vertices@.len(),
                self.wf(),
                r@ == self.ids().take(i as int).filter(pred),
                pred == (|w: VertexId| self.has_edge(w, *id)),
            decreases self.vertices@.len() - i,
        {
            assert(self.ids().take(i + 1).drop_last() =~= self.ids().take(i as int));
            assert(self.ids().take(i + 1).last() == self.vertex_seq()[i as int].id);
            proof {
                reveal(Seq::filter);
            }
            if self.edge_exists(&self.vertices[i].id, id) {
                r.push(self.vertices[i].id);
            }
            i = i + 1;
        }
        assert(self.ids().take(i as int) =~= self.ids());
        r
    }

    /// Whether some vertex lists `id` among its parents.
    fn has_child_exec(&self, id: &VertexId) -> (r: bool)
        requires
            self.wf(),
        ensures
            r == self.has_child(*id),
    {
        let mut i: usize = 0;
        while i < self.vertices.len()
            invariant
                0 <= i <= self.vertices@.len(),
                self.wf(),
                forall|j: int| 0 <= j < i ==> !self.has_edge(#[trigger] self.vertex_seq()[j].id, *id),
            decreases self.vertices@.len() - i,
        {
            if self.edge_exists(&self.vertices[i].id, id) {
                return true;
            }
            i = i + 1;
        }
        false
    }

    /// The heads of the DAG: the vertices other than the root of which no vertex is a
    /// child, in vertex order.
    pub fn get_heads(&self) -> (r: Vec<VertexId>)
        requires
            self.wf(),
        ensures
            r@ == self.heads(),
    {
        let ghost pred = |x: VertexId| !self.has_child(x) && x != root_id();
        let root = self.get_root().id;
        let mut r: Vec<VertexId> = Vec::new();
        let mut i: usize = 0;
        while i < self.vertices.len()
            invariant
                0 <= i <= self.vertices@.len(),
                self.wf(),
                root == root_id(),
                r@ == self.ids().take(i as int).filter(pred),
                pred == (|x: VertexId| !self.has_child(x) && x != root_id()),
            decreases self.vertices@.len() - i,
        {
            assert(self.ids().take(i + 1).drop_last() =~= self.ids().take(i as int));
            assert(self.ids().take(i + 1).last() == self.vertex_seq()[i as int].id);
            proof {
                reveal(Seq::filter);
            }
            let x = self.vertices[i].id;
            if !self.has_child_exec(&x) && x != root {
                r.push(x);
            }
            i = i + 1;
        }
        assert(self.ids().take(i as int) =~= self.ids());
        r
    }

    /// The vertices reached from `start` by following parents and not passing
    /// through `explored`, in the reverse of the order in which a depth-first walk
    /// (taking parents in increasing identifier order) first meets them.
    pub fn sorted_past(&self, start: Vec<VertexId>, explored: &Vec<VertexId>) -> (r: Vec<VertexId>)
        requires
            self.wf(),
        ensures
            r@ == self.past_walk(start@, explored@.to_set(), Seq::empty()).reverse(),
    {
        let ghost goal = self.past_walk(start@, explored@.to_set(), Seq::empty());
        let mut toexplore = copy_ids(&start);
        let mut seen = copy_ids(explored);
        let mut past: Vec<VertexId> = Vec::new();
        while toexplore.len() > 0
            invariant
                self.wf(),
                self.past_walk(toexplore@, seen@.to_set(), past@) == goal,
            decreases self.id_set().difference(seen@.to_set()).len(), toexplore@.len(),
        {
            let ghost before = toexplore@;
            let head = toexplore.pop().unwrap();
            proof {
                assert(head == before.last());
                assert(toexplore@ == before.drop_last());
            }
            if !id_in(&seen, &head) {
                let ghost seen_before = seen@;
                proof {
                    assert(!seen@.to_set().contains(head));
                    self.lemma_walk_measure(seen@.to_set(), head);
                }
                seen.push(head);
                past.push(head);
                proof {
                    assert(seen@ =~= seen_before + seq![head]);
                    Seq::lemma_to_set_insert_commutes(seen_before, head);
                }
                let parents = self.get_edges_from_vertex(&head);
                let sorted = sort_keys(&parents);
                push_unseen(&mut toexplore, &sorted, &seen);
            } else {
                assert(seen@.to_set().contains(head));
            }
        }
        reversed(&past)
    }

    /// The vertices reachable from `v` through children, in the order of a
    /// breadth-first walk taking children in increasing identifier order; `v` itself
    /// is left out.
    pub fn future(&self, v: &VertexId) -> (r: Vec<VertexId>)
        requires
            self.wf(),
        ensures
            r@ == self.future_walk(sort_ids(self.children(*v)), set![*v], Seq::empty()),
            forall|x: VertexId| #[trigger] r@.contains(x) <==> self.reaches(*v, x) && x != *v,
            r@.no_duplicates(),
    {
        proof {
            crate::reachability::lemma_future_complete(*self, *v);
        }
        let ghost goal = self.future_walk(sort_ids(self.children(*v)), set![*v], Seq::empty());
        let children = self.get_edges_to_vertex(v);
        let mut toexplore = sort_keys(&children);
        let mut seen: Vec<VertexId> = Vec::new();
        seen.push(*v);
        let mut future: Vec<VertexId> = Vec::new();
        proof {
            assert forall|x: VertexId| seen@.to_set().contains(x) == set![*v].contains(x) by {
                if x == *v {
                    assert(seen@[0] == x);
                }
            }
            assert(seen@.to_set() =~= set![*v]);
        }
        while toexplore.len() > 0
            invariant
                self.wf(),
                self.future_walk(toexplore@, seen@.to_set(), future@) == goal,
            decreases self.id_set().difference(seen@.to_set()).len(), toexplore@.len(),
        {
            let ghost before = toexplore@;
            let head = toexplore.remove(0);
            proof {
                assert(toexplore@ =~= before.drop_first());
            }
            if !id_in(&seen, &head) {
                let ghost seen_before = seen@;
                proof {
                    assert(!seen@.to_set().contains(head));
                    self.lemma_walk_measure(seen@.to_set(), head);
                }
                seen.push(head);
                future.push(head);
                proof {
                    assert(seen@ =~= seen_before + seq![head]);
                    Seq::lemma_to_set_insert_commutes(seen_before, head);
                }
                let children = self.get_edges_to_vertex(&head);
                let sorted = sort_keys(&children);
                proof {
                    lemma_sort_ids(children@);
                    sorted@.lemma_filter_len(|p: VertexId| !seen@.to_set().contains(p));
                }
                push_unseen(&mut toexplore, &sorted, &seen);
            } else {
                assert(seen@.to_set().contains(head));
            }
        }
        future
    }

    /// The processes of the vertices reachable from `v` through children, each once, in
    /// the order of the same walk as `future`, stopping once `n` are found.
    pub fn processes_in_future(&self, v: &VertexId, n: u32) -> (r: Vec<u32>)
        requires
            self.wf(),
        ensures
            r@ == self.processes_walk(sort_ids(self.children(*v)), set![*v], Seq::empty(), Some(n as nat)),
    {
        self.processes_upto(v, Some(n))
    }

    /// The processes of all the vertices reachable from `v` through children, each
    /// once, in the order of the same walk as `future`.
    pub fn processes_in_future_no_n(&self, v: &VertexId) -> (r: Vec<u32>)
        requires
            self.wf(),
        ensures
            r@ == self.processes_walk(sort_ids(self.children(*v)), set![*v], Seq::empty(), None),
            forall|p: u32| #[trigger] r@.contains(p) <==> exists|x: VertexId| self.reaches(*v, x) && x != *v && x.process_id == p,
            r@.no_duplicates(),
    {
        proof {
            crate::reachability::lemma_processes_in_future_complete(*self, *v);
        }
        self.processes_upto(v, None)
    }

    fn processes_upto(&self, v: &VertexId, limit: Option<u32>) -> (r: Vec<u32>)
        requires
            self.wf(),
        ensures
            r@ == self.processes_walk(
                sort_ids(self.children(*v)),
                set![*v],
                Seq::empty(),
                match limit {
                    Some(n) => Some(n as nat),
                    None => None,
                },
            ),
    {
        let ghost lim = match limit {
            Some(n) => Some(n as nat),
            None => None,
        };
        let ghost goal = self.processes_walk(sort_ids(self.children(*v)), set![*v], Seq::empty(), lim);
        let children = self.get_edges_to_vertex(v);
        let mut toexplore = sort_keys(&children);
        let mut seen: Vec<VertexId> = Vec::new();
        seen.push(*v);
        let mut processes: Vec<u32> = Vec::new();
        proof {
            assert forall|x: VertexId| seen@.to_set().contains(x) == set![*v].contains(x) by {
                if x == *v {
                    assert(seen@[0] == x);
                }
            }
            assert(seen@.to_set() =~= set![*v]);
        }
        while toexplore.len() > 0 && under_limit(processes.len(), limit)
            invariant
                self.wf(),
                lim == (match limit {
                    Some(n) => Some(n as nat),
                    None => None,
                }),
                self.processes_walk(toexplore@, seen@.to_set(), processes@, lim) == goal,
            decreases self.id_set().difference(seen@.to_set()).len(), toexplore@.len(),
        {
            let ghost before = toexplore@;
            let head = toexplore.remove(0);
            proof {
                assert(toexplore@ =~= before.drop_first());
            }
            if !id_in(&seen, &head) {
                let ghost seen_before = seen@;
                proof {
                    assert(!seen@.to_set().contains(head));
                    self.lemma_walk_measure(seen@.to_set(), head);
                }
                seen.push(head);
                if !u32_in(&processes, head.process_id) {
                    processes.push(head.process_id);
                }
                proof {
                    assert(seen@ =~= seen_before + seq![head]);
                    Seq::lemma_to_set_insert_commutes(seen_before, head);
                }
                let children = self.get_edges_to_vertex(&head);
                let sorted = sort_keys(&children);
                proof {
                    lemma_sort_ids(children@);
                    sorted@.lemma_filter_len(|p: VertexId| !seen@.to_set().contains(p));
                }
                push_unseen(&mut toexplore, &sorted, &seen);
            } else {
                assert(seen@.to_set().contains(head));
            }
        }
        processes
    }

    /// The first vertex met by a breadth-first walk from `start` through children
    /// (children in increasing identifier order) whose process is among `processes`;
    /// the root's identifier when there is none.
    pub fn first_from_processes(&self, start: &VertexId, processes: &Vec<u32>) -> (r: VertexId)
        requires
            self.wf(),
        ensures
            r == self.first_walk(sort_ids(self.children(*start)), set![*start], processes@),
    {
        let ghost goal = self.first_walk(sort_ids(self.children(*start)), set![*start], processes@);
        let children = self.get_edges_to_vertex(start);
        let mut toexplore = sort_keys(&children);
        let mut seen: Vec<VertexId> = Vec::new();
        seen.push(*start);
        proof {
            assert forall|x: VertexId| seen@.to_set().contains(x) == set![*start].contains(x) by {
                if x == *start {
                    assert(seen@[0] == x);
                }
            }
            assert(seen@.to_set() =~= set![*start]);
            self.lemma_children_contained(*start);
        }
        while toexplore.len() > 0
            invariant
                self.wf(),
                self.all_contained(toexplore@),
                self.first_walk(toexplore@, seen@.to_set(), processes@) == goal,
                goal == self.first_walk(sort_ids(self.children(*start)), set![*start], processes@),
            decreases self.id_set().difference(seen@.to_set()).len(),
                toexplore@.filter(|x: VertexId| seen@.to_set().contains(x)).len(),
        {
            let ghost before = toexplore@;
            let ghost seen_before = seen@;
            proof {
                self.lemma_first_walk_measure(before, seen_before.to_set());
            }
            let head = toexplore.remove(0);
            proof {
                assert(toexplore@ =~= before.drop_first());
            }
            seen.push(head);
            proof {
                assert(seen@ =~= seen_before + seq![head]);
                Seq::lemma_to_set_insert_commutes(seen_before, head);
            }
            if u32_in(processes, head.process_id) {
                proof {
                    assert(head == before[0]);
                    assert(self.first_walk(before, seen_before.to_set(), processes@) == head);
                }
                return head;
            }
            let children = self.get_edges_to_vertex(&head);
            let sorted = sort_keys(&children);
            push_unseen(&mut toexplore, &sorted, &seen);
        }
        self.get_root().id
    }

    /// The largest distance recorded so far.
    pub fn length(&self) -> (r: u32)
        ensures
            r == self.length_of(),
    {
        self.length
    }

    /// The next level of the level-by-level walk (see `gather`).
    pub fn next_level(&self, level: &Vec<VertexId>) -> (r: Vec<VertexId>)
        requires
            self.wf(),
        ensures
            r@ == self.gather(level@),
    {
        let mut children: Vec<VertexId> = Vec::new();
        let mut i: usize = level.len();
        assert(level@.subrange(i as int, level@.len() as int) =~= Seq::<VertexId>::empty());
        while i > 0
            invariant
                0 <= i <= level@.len(),
                self.wf(),
                children@ == self.gather(level@.subrange(i as int, level@.len() as int)),
            decreases i,
        {
            i = i - 1;
            let cs = self.get_edges_to_vertex(&level[i]);
            push_missing(&mut children, &cs);
            assert(level@.subrange(i as int, level@.len() as int).drop_first() =~= level@.subrange(i + 1, level@.len() as int));
        }
        assert(level@.subrange(0, level@.len() as int) =~= level@);
        children
    }

    pub fn get_root(&self) -> (r: &Vertex<T>)
        requires
            self.wf(),
        ensures
            *r == self.vertex_seq()[0],
            r.id == root_id(),
            self.contains_id(root_id()),
    {
        assert(self.vertex_seq()[0].id == root_id());
        &self.vertices[0]
    }

    pub fn contains_vertex(&self, id: &VertexId) -> (r: bool)
        ensures
            r == self.contains_id(*id),
    {
        let mut i: usize = 0;
        while i < self.vertices.len()
            invariant
                0 <= i <= self.vertices@.len(),
                forall|j: int| 0 <= j < i ==> self.vertex_seq()[j].id != *id,
            decreases self.vertices@.len() - i,
        {
            if self.vertices[i].id == *id {
                assert(self.vertex_seq()[i as int].id == *id);
                return true;
            }
            i = i + 1;
        }
        false
    }

    pub fn get_vertex(&self, id: &VertexId) -> (r: Option<&Vertex<T>>)
        ensures
            r is Some == self.contains_id(*id),
            r matches Some(v) ==> *v == self.vertex_of(*id),
    {
        let mut i: usize = 0;
        while i < self.vertices.len()
            invariant
                0 <= i <= self.vertices@.len(),
                forall|j: int| 0 <= j < i ==> #[trigger] self.vertex_seq()[j].id != *id,
            decreases self.vertices@.len() - i,
        {
            if self.vertices[i].id == *id {
                proof {
                    self.lemma_first_index(i as int, *id);
                }
                return Some(&self.vertices[i]);
            }
            i = i + 1;
        }
        None
    }
}

} // verus!
