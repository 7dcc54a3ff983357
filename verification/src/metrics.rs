use vstd::prelude::*;
use crate::CommandsParameter;
use crate::crdt::Operation;

verus! {

/// What is tracked of an operation: the operation, when its place in the state last
/// changed (first, when it was issued), how many times it changed, and the operations
/// before it in the state where it was last seen.
#[derive(Debug)]
pub struct MetricEntry {
    pub op: Operation<CommandsParameter>,
    pub moved: u128,
    pub reorderings: u32,
    pub context: Vec<Operation<CommandsParameter>>,
}

/// The model of an entry.
pub struct EntryModel {
    pub op: Operation<CommandsParameter>,
    pub moved: u128,
    pub reorderings: nat,
    pub context: Seq<Operation<CommandsParameter>>,
}

pub open spec fn entry_model(e: MetricEntry) -> EntryModel {
    EntryModel { op: e.op, moved: e.moved, reorderings: e.reorderings as nat, context: e.context@ }
}

/// The position of the first entry of `op`, if any.
pub open spec fn entry_of(entries: Seq<EntryModel>, op: Operation<CommandsParameter>) -> Option<int>
    decreases entries.len(),
{
    if entries.len() == 0 {
        None
    } else {
        match entry_of(entries.drop_last(), op) {
            Some(k) => Some(k),
            None => if entries.last().op == op {
                Some(entries.len() - 1)
            } else {
                None
            },
        }
    }
}

/// The entries once `op` is seen after `context` at time `now`: a new entry (moved at
/// the time the operation was issued, never reordered) when it has none, else its
/// entry counts one more reordering at `now` when the context differs.
pub open spec fn see(
    entries: Seq<EntryModel>,
    op: Operation<CommandsParameter>,
    context: Seq<Operation<CommandsParameter>>,
    now: u128,
) -> Seq<EntryModel> {
    match entry_of(entries, op) {
        None => entries.push(EntryModel { op: op, moved: op.params.time_of(), reorderings: 0, context: context }),
        Some(k) => if entries[k].context == context {
            entries
        } else {
            entries.update(
                k,
                EntryModel { op: entries[k].op, moved: now, reorderings: entries[k].reorderings + 1, context: context },
            )
        },
    }
}

/// The entries once the first `i` operations of `state` are seen, each after the ones
/// before it.
pub open spec fn see_state(entries: Seq<EntryModel>, state: Seq<Operation<CommandsParameter>>, now: u128, i: nat) -> Seq<
    EntryModel,
>
    decreases i,
{
    if i == 0 || i > state.len() {
        entries
    } else {
        let prev = see_state(entries, state, now, (i - 1) as nat);
        see(prev, state[i - 1], state.take(i - 1), now)
    }
}

/// The computation times by state length, the last one recorded for a length kept.
pub open spec fn set_time(times: Seq<(usize, u128)>, len: usize, duration: u128) -> Seq<(usize, u128)> {
    match times_entry(times, len) {
        Some(k) => times.update(k, (len, duration)),
        None => times.push((len, duration)),
    }
}

/// The position of the entry of `len` among the computation times, if any.
pub open spec fn times_entry(times: Seq<(usize, u128)>, len: usize) -> Option<int>
    decreases times.len(),
{
    if times.len() == 0 {
        None
    } else {
        match times_entry(times.drop_last(), len) {
            Some(k) => Some(k),
            None => if times.last().0 == len {
                Some(times.len() - 1)
            } else {
                None
            },
        }
    }
}

proof fn lemma_entry_of(entries: Seq<EntryModel>, op: Operation<CommandsParameter>)
    ensures
        entry_of(entries, op) matches Some(k) ==> 0 <= k < entries.len() && entries[k].op == op,
        entry_of(entries, op) is None ==> forall|j: int| 0 <= j < entries.len() ==> entries[j].op != op,
    decreases entries.len(),
{
    if entries.len() > 0 {
        lemma_entry_of(entries.drop_last(), op);
        assert forall|j: int| 0 <= j < entries.len() - 1 implies entries[j] == entries.drop_last()[j] by {
        }
    }
}

proof fn lemma_times_entry(times: Seq<(usize, u128)>, len: usize)
    ensures
        times_entry(times, len) matches Some(k) ==> 0 <= k < times.len() && times[k].0 == len,
        times_entry(times, len) is None ==> forall|j: int| 0 <= j < times.len() ==> times[j].0 != len,
    decreases times.len(),
{
    if times.len() > 0 {
        lemma_times_entry(times.drop_last(), len);
        assert forall|j: int| 0 <= j < times.len() - 1 implies times[j] == times.drop_last()[j] by {
        }
    }
}

/// Every count of reorderings of `entries` is within `u32::MAX`.
pub open spec fn counts_fit(entries: Seq<EntryModel>) -> bool {
    forall|k: int| 0 <= k < entries.len() ==> #[trigger] entries[k].reorderings <= u32::MAX
}

/// Seeing an operation keeps the entries already there, each with as many
/// reorderings or one more.
proof fn lemma_see_grows(entries: Seq<EntryModel>, op: Operation<CommandsParameter>, context: Seq<Operation<CommandsParameter>>, now: u128)
    ensures
        see(entries, op, context, now).len() >= entries.len(),
        forall|k: int| 0 <= k < entries.len() ==> entries[k].reorderings <= #[trigger] see(entries, op, context, now)[k].reorderings
            <= entries[k].reorderings + 1,
        forall|k: int| entries.len() <= k < see(entries, op, context, now).len() ==> #[trigger] see(entries, op, context, now)[k].reorderings == 0,
{
    lemma_entry_of(entries, op);
}

/// Seeing more of a state never lowers a count of reorderings.
proof fn lemma_see_state_grows(entries: Seq<EntryModel>, state: Seq<Operation<CommandsParameter>>, now: u128, i: nat, j: nat)
    requires
        i <= j <= state.len(),
    ensures
        see_state(entries, state, now, i).len() <= see_state(entries, state, now, j).len(),
        forall|k: int| 0 <= k < see_state(entries, state, now, i).len() ==> see_state(entries, state, now, i)[k].reorderings
            <= #[trigger] see_state(entries, state, now, j)[k].reorderings,
    decreases j - i,
{
    if i < j {
        lemma_see_state_grows(entries, state, now, i, (j - 1) as nat);
        let prev = see_state(entries, state, now, (j - 1) as nat);
        lemma_see_grows(prev, state[j - 1], state.take(j - 1), now);
    }
}

/// After seeing `i` operations, an entry counts at most `i` reorderings more than it
/// had (a new one at most `i`).
proof fn lemma_see_state_bound(entries: Seq<EntryModel>, state: Seq<Operation<CommandsParameter>>, now: u128, i: nat)
    requires
        i <= state.len(),
    ensures
        see_state(entries, state, now, i).len() >= entries.len(),
        forall|k: int| 0 <= k < see_state(entries, state, now, i).len() ==> #[trigger] see_state(entries, state, now, i)[k].reorderings
            <= (if k < entries.len() { entries[k].reorderings } else { 0 }) + i,
    decreases i,
{
    if i > 0 {
        lemma_see_state_bound(entries, state, now, (i - 1) as nat);
        let prev = see_state(entries, state, now, (i - 1) as nat);
        lemma_see_grows(prev, state[i - 1], state.take(i - 1), now);
    }
}

/// Some entry is for `op` with context `context`.
pub open spec fn has_entry(entries: Seq<EntryModel>, op: Operation<CommandsParameter>, context: Seq<Operation<CommandsParameter>>) -> bool {
    exists|k: int| 0 <= k < entries.len() && entries[k].op == op && entries[k].context == context
}

/// No two entries are for the same operation.
pub open spec fn one_entry_each(entries: Seq<EntryModel>) -> bool {
    forall|j: int, k: int| 0 <= j < k < entries.len() ==> entries[j].op != entries[k].op
}

/// Once the first `i` operations of a state are seen, the operations of the state being
/// distinct, each of them has an entry whose context is the operations before it in the
/// state, and there is still one entry per operation.
pub proof fn lemma_see_state_contexts(entries: Seq<EntryModel>, state: Seq<Operation<CommandsParameter>>, now: u128, i: nat)
    requires
        one_entry_each(entries),
        state.no_duplicates(),
        i <= state.len(),
    ensures
        one_entry_each(see_state(entries, state, now, i)),
        forall|j: int| 0 <= j < i ==> #[trigger] has_entry(see_state(entries, state, now, i), state[j], state.take(j)),
    decreases i,
{
    if i > 0 {
        lemma_see_state_contexts(entries, state, now, (i - 1) as nat);
        let prev = see_state(entries, state, now, (i - 1) as nat);
        let op = state[i - 1];
        let ctx = state.take(i - 1);
        let next = see(prev, op, ctx, now);
        assert(next == see_state(entries, state, now, i));
        lemma_entry_of(prev, op);
        match entry_of(prev, op) {
            None => {
                assert(next == prev.push(EntryModel { op: op, moved: op.params.time_of(), reorderings: 0, context: ctx }));
                assert forall|j: int| 0 <= j < i implies #[trigger] has_entry(next, state[j], state.take(j)) by {
                    if j < i - 1 {
                        assert(has_entry(prev, state[j], state.take(j)));
                        let k = choose|k: int| 0 <= k < prev.len() && prev[k].op == state[j] && prev[k].context == state.take(j);
                        assert(next[k] == prev[k]);
                    } else {
                        assert(next[prev.len() as int].op == state[j]);
                    }
                }
            },
            Some(k0) => {
                assert forall|j: int| 0 <= j < i implies #[trigger] has_entry(next, state[j], state.take(j)) by {
                    if j < i - 1 {
                        assert(has_entry(prev, state[j], state.take(j)));
                        let k = choose|k: int| 0 <= k < prev.len() && prev[k].op == state[j] && prev[k].context == state.take(j);
                        assert(state[j] != state[i - 1]);
                        assert(k != k0);
                        assert(next[k] == prev[k]);
                    } else {
                        assert(next[k0].op == state[j]);
                    }
                }
            },
        }
    }
}

/// Recording a state whose operations are distinct leaves each of them with an entry
/// whose context is the operations before it in the state, one entry per operation, and
/// recording the same state again changes no entry.
pub proof fn lemma_record_same_state_twice(
    entries: Seq<EntryModel>,
    state: Seq<Operation<CommandsParameter>>,
    first: u128,
    second: u128,
)
    requires
        one_entry_each(entries),
        state.no_duplicates(),
    ensures
        one_entry_each(see_state(entries, state, first, state.len())),
        forall|j: int| 0 <= j < state.len() ==> #[trigger] has_entry(see_state(entries, state, first, state.len()), state[j], state.take(j)),
        see_state(see_state(entries, state, first, state.len()), state, second, state.len())
            == see_state(entries, state, first, state.len()),
{
    lemma_see_state_contexts(entries, state, first, state.len());
    let e1 = see_state(entries, state, first, state.len());
    lemma_see_state_unchanged(e1, state, second, state.len());
}

/// Seeing again operations of a state that all have their entry with the right context
/// changes nothing.
proof fn lemma_see_state_unchanged(e1: Seq<EntryModel>, state: Seq<Operation<CommandsParameter>>, now: u128, i: nat)
    requires
        one_entry_each(e1),
        i <= state.len(),
        forall|j: int| 0 <= j < state.len() ==> #[trigger] has_entry(e1, state[j], state.take(j)),
    ensures
        see_state(e1, state, now, i) == e1,
    decreases i,
{
    if i > 0 {
        lemma_see_state_unchanged(e1, state, now, (i - 1) as nat);
        let op = state[i - 1];
        let j = i - 1;
        assert(has_entry(e1, state[j], state.take(j)));
        let k = choose|k: int| 0 <= k < e1.len() && e1[k].op == state[j] && e1[k].context == state.take(j);
        lemma_entry_of(e1, op);
        match entry_of(e1, op) {
            None => {
                assert(e1[k].op == op);
            },
            Some(k0) => {
                if k0 != k {
                    if k0 < k {
                        assert(e1[k0].op != e1[k].op);
                    } else {
                        assert(e1[k].op != e1[k0].op);
                    }
                }
            },
        }
    }
}

/// `a` is the entry a first sight of `state[j]` makes: moved at the time the operation
/// was issued, never reordered, with the operations before it in the state as context.
pub open spec fn fresh_entry(a: EntryModel, state: Seq<Operation<CommandsParameter>>, j: int) -> bool {
    &&& 0 <= j < state.len()
    &&& a.op == state[j]
    &&& a.moved == state[j].params.time_of()
    &&& a.reorderings == 0
    &&& a.context == state.take(j)
}

/// `a` is the entry a first sight of one of the first `i` operations of `state` makes.
pub open spec fn fresh_among(a: EntryModel, state: Seq<Operation<CommandsParameter>>, i: int) -> bool {
    exists|j: int| j < i && #[trigger] fresh_entry(a, state, j)
}

/// What seeing the first `i` operations of a state does to each entry, the operations
/// of the state being distinct and the entries one per operation.
proof fn lemma_see_state_entries(entries: Seq<EntryModel>, state: Seq<Operation<CommandsParameter>>, now: u128, i: nat)
    requires
        one_entry_each(entries),
        state.no_duplicates(),
        i <= state.len(),
    ensures
        see_state(entries, state, now, i).len() >= entries.len(),
        forall|k: int| 0 <= k < entries.len() ==> #[trigger] see_state(entries, state, now, i)[k].op == entries[k].op,
        forall|k: int| 0 <= k < entries.len() && (forall|j: int| 0 <= j < i ==> state[j] != entries[k].op)
            ==> #[trigger] see_state(entries, state, now, i)[k] == entries[k],
        forall|k: int, j: int| 0 <= k < entries.len() && 0 <= j < i && #[trigger] state[j] == #[trigger] entries[k].op ==> {
            let a = see_state(entries, state, now, i)[k];
            &&& a.context == state.take(j)
            &&& entries[k].context == state.take(j) ==> a == entries[k]
            &&& entries[k].context != state.take(j) ==> a.reorderings == entries[k].reorderings + 1 && a.moved == now
        },
        forall|k: int| entries.len() <= k < see_state(entries, state, now, i).len() ==> #[trigger] fresh_among(see_state(entries, state, now, i)[k], state, i as int),
    decreases i,
{
    if i > 0 {
        lemma_see_state_entries(entries, state, now, (i - 1) as nat);
        lemma_see_state_contexts(entries, state, now, (i - 1) as nat);
        let prev = see_state(entries, state, now, (i - 1) as nat);
        let op = state[i - 1];
        let ctx = state.take(i - 1);
        let next = see_state(entries, state, now, i);
        assert(next == see(prev, op, ctx, now));
        lemma_entry_of(prev, op);
        assert forall|j: int| 0 <= j < i - 1 implies state[j] != op by {
            assert(state[j] != state[i - 1]);
        }
        match entry_of(prev, op) {
            None => {
                assert(next == prev.push(EntryModel { op: op, moved: op.params.time_of(), reorderings: 0, context: ctx }));
                assert forall|k: int| entries.len() <= k < see_state(entries, state, now, i).len() implies #[trigger] fresh_among(see_state(entries, state, now, i)[k], state, i as int) by {
                    if k < prev.len() {
                        assert(next[k] == prev[k]);
                        assert(fresh_among(prev[k], state, i - 1));
                        let j = choose|j: int| j < i - 1 && #[trigger] fresh_entry(prev[k], state, j);
                        assert(fresh_entry(next[k], state, j));
                    } else {
                        let j = i - 1;
                        assert(next[k].op == state[j]);
                        assert(fresh_entry(next[k], state, j));
                    }
                }
                assert forall|k: int| 0 <= k < entries.len() implies #[trigger] next[k].op == entries[k].op by {
                    assert(next[k] == prev[k]);
                }
                assert forall|k: int| 0 <= k < entries.len() && (forall|j: int| 0 <= j < i ==> state[j] != entries[k].op)
                    implies #[trigger] next[k] == entries[k] by {
                    assert(next[k] == prev[k]);
                    assert forall|j: int| 0 <= j < i - 1 implies state[j] != entries[k].op by {
                        assert(state[j] != entries[k].op);
                    }
                }
                assert forall|k: int, j: int| 0 <= k < entries.len() && 0 <= j < i && #[trigger] state[j] == #[trigger] entries[k].op implies {
                    let a = next[k];
                    &&& a.context == state.take(j)
                    &&& entries[k].context == state.take(j) ==> a == entries[k]
                    &&& entries[k].context != state.take(j) ==> a.reorderings == entries[k].reorderings + 1 && a.moved == now
                } by {
                    assert(next[k] == prev[k]);
                    if j == i - 1 {
                        assert(prev[k].op == op);
                    }
                }
            },
            Some(k0) => {
                if k0 >= entries.len() {
                    assert(fresh_among(prev[k0], state, i - 1));
                    let j = choose|j: int| j < i - 1 && #[trigger] fresh_entry(prev[k0], state, j);
                    assert(state[j] != state[i - 1]);
                }
                assert(k0 < entries.len());
                assert(prev[k0].op == entries[k0].op);
                assert(prev[k0] == entries[k0]) by {
                    assert forall|j: int| 0 <= j < i - 1 implies state[j] != entries[k0].op by {
                        assert(state[j] != state[i - 1]);
                    }
                }
                assert forall|k: int| entries.len() <= k < see_state(entries, state, now, i).len() implies #[trigger] fresh_among(see_state(entries, state, now, i)[k], state, i as int) by {
                    assert(next[k] == prev[k]);
                    assert(fresh_among(prev[k], state, i - 1));
                        let j = choose|j: int| j < i - 1 && #[trigger] fresh_entry(prev[k], state, j);
                    assert(fresh_entry(next[k], state, j));
                }
                assert forall|k: int| 0 <= k < entries.len() implies #[trigger] next[k].op == entries[k].op by {
                    if k != k0 {
                        assert(next[k] == prev[k]);
                    }
                }
                assert forall|k: int| 0 <= k < entries.len() && (forall|j: int| 0 <= j < i ==> state[j] != entries[k].op)
                    implies #[trigger] next[k] == entries[k] by {
                    assert(state[i - 1] != entries[k].op);
                    assert(k != k0);
                    assert(next[k] == prev[k]);
                }
                assert forall|k: int, j: int| 0 <= k < entries.len() && 0 <= j < i && #[trigger] state[j] == #[trigger] entries[k].op implies {
                    let a = next[k];
                    &&& a.context == state.take(j)
                    &&& entries[k].context == state.take(j) ==> a == entries[k]
                    &&& entries[k].context != state.take(j) ==> a.reorderings == entries[k].reorderings + 1 && a.moved == now
                } by {
                    if k != k0 {
                        assert(next[k] == prev[k]);
                        if j == i - 1 {
                            if k < k0 {
                                assert(entries[k].op != entries[k0].op);
                            } else {
                                assert(entries[k0].op != entries[k].op);
                            }
                        }
                    } else {
                        assert(j == i - 1) by {
                            if j != i - 1 {
                                assert(state[j] != state[i - 1]);
                            }
                        }
                    }
                }
            },
        }
    }
}

/// Recording a state whose operations are distinct, on entries one per operation: an
/// entry of an operation not in the state stays as it was; the entry of an operation of
/// the state takes the operations before it as its context, and stays as it was when
/// that context is the one it had, else counts one more reordering, moved at the time of
/// the record; an operation of the state with no entry gets one, moved at the time it
/// was issued, never reordered, with the operations before it as its context.
pub proof fn lemma_record_entries(entries: Seq<EntryModel>, state: Seq<Operation<CommandsParameter>>, now: u128)
    requires
        one_entry_each(entries),
        state.no_duplicates(),
    ensures
        see_state(entries, state, now, state.len()).len() >= entries.len(),
        forall|k: int| 0 <= k < entries.len() && !state.contains(entries[k].op)
            ==> #[trigger] see_state(entries, state, now, state.len())[k] == entries[k],
        forall|k: int, j: int| 0 <= k < entries.len() && 0 <= j < state.len() && #[trigger] state[j] == #[trigger] entries[k].op ==> {
            let a = see_state(entries, state, now, state.len())[k];
            &&& a.op == entries[k].op
            &&& a.context == state.take(j)
            &&& entries[k].context == state.take(j) ==> a == entries[k]
            &&& entries[k].context != state.take(j) ==> a.reorderings == entries[k].reorderings + 1 && a.moved == now
        },
        forall|k: int| entries.len() <= k < see_state(entries, state, now, state.len()).len() ==> #[trigger] fresh_among(see_state(entries, state, now, state.len())[k], state, state.len() as int),
{
    lemma_see_state_entries(entries, state, now, state.len());
    let a = see_state(entries, state, now, state.len());
    assert forall|k: int| 0 <= k < entries.len() && !state.contains(entries[k].op) implies #[trigger] a[k] == entries[k] by {
        assert forall|j: int| 0 <= j < state.len() implies state[j] != entries[k].op by {
            if state[j] == entries[k].op {
                assert(state.contains(entries[k].op));
            }
        }
    }
}

/// A copy of an operation of the commands.
pub fn copy_operation(op: &Operation<CommandsParameter>) -> (r: Operation<CommandsParameter>)
    ensures
        r == *op,
{
    Operation { id: op.id, params: op.params }
}

fn same_operation(a: &Operation<CommandsParameter>, b: &Operation<CommandsParameter>) -> (r: bool)
    ensures
        r == (*a == *b),
{
    a.id == b.id && a.params == b.params
}

fn same_context(a: &Vec<Operation<CommandsParameter>>, b: &Vec<Operation<CommandsParameter>>) -> (r: bool)
    ensures
        r == (a@ == b@),
{
    if a.len() != b.len() {
        return false;
    }
    let mut i: usize = 0;
    while i < a.len()
        invariant
            0 <= i <= a@.len(),
            a@.len() == b@.len(),
            forall|j: int| 0 <= j < i ==> a@[j] == b@[j],
        decreases a@.len() - i,
    {
        if !same_operation(&a[i], &b[i]) {
            return false;
        }
        i = i + 1;
    }
    assert(a@ =~= b@);
    true
}

fn prefix(state: &Vec<Operation<CommandsParameter>>, i: usize) -> (r: Vec<Operation<CommandsParameter>>)
    requires
        i <= state@.len(),
    ensures
        r@ == state@.take(i as int),
{
    let mut r: Vec<Operation<CommandsParameter>> = Vec::new();
    let mut j: usize = 0;
    while j < i
        invariant
            0 <= j <= i <= state@.len(),
            r@ == state@.take(j as int),
        decreases i - j,
    {
        r.push(copy_operation(&state[j]));
        j = j + 1;
        assert(r@ =~= state@.take(j as int));
    }
    r
}

/// How the operations of the commands settle in the states read: for each operation
/// met, when its place last changed and how many times it changed; and, for each
/// state length, how long the last read of that length took.
pub struct StabilityMetrics {
    entries: Vec<MetricEntry>,
    times: Vec<(usize, u128)>,
}

impl StabilityMetrics {
    pub closed spec fn entries_of(&self) -> Seq<EntryModel> {
        self.entries@.map_values(|e: MetricEntry| entry_model(e))
    }

    pub closed spec fn times_of(&self) -> Seq<(usize, u128)> {
        self.times@
    }

    /// `n` more reorderings of any entry keep every count below `u32::MAX`.
    pub open spec fn has_room(&self, n: nat) -> bool {
        &&& n < u32::MAX
        &&& forall|k: int| 0 <= k < self.entries_of().len() ==> #[trigger] self.entries_of()[k].reorderings + n < u32::MAX
    }

    /// Recording `state` at `now` keeps every count of reorderings within `u32::MAX`.
    pub open spec fn record_fits(&self, state: Seq<Operation<CommandsParameter>>, now: u128) -> bool {
        counts_fit(see_state(self.entries_of(), state, now, state.len()))
    }

    /// Room for as many reorderings as a state has operations lets it be recorded.
    pub proof fn lemma_room_fits(&self, state: Seq<Operation<CommandsParameter>>, now: u128)
        requires
            self.has_room(state.len()),
        ensures
            self.record_fits(state, now),
    {
        lemma_see_state_bound(self.entries_of(), state, now, state.len());
    }

    pub fn new() -> (r: StabilityMetrics)
        ensures
            r.entries_of() == Seq::<EntryModel>::empty(),
            one_entry_each(r.entries_of()),
            r.times_of() == Seq::<(usize, u128)>::empty(),
    {
        let r = StabilityMetrics { entries: Vec::new(), times: Vec::new() };
        assert(r.entries_of() =~= Seq::<EntryModel>::empty());
        r
    }

    /// Whether there is room for `len` more reorderings of any entry below
    /// `u32::MAX`; when there is, any state of length `len` can be recorded.
    pub fn can_record(&self, len: usize) -> (r: bool)
        ensures
            r == self.has_room(len as nat),
            r ==> forall|state: Seq<Operation<CommandsParameter>>, now: u128|
                state.len() == len ==> #[trigger] self.record_fits(state, now),
    {
        let r = self.room_for(len);
        proof {
            if r {
                assert forall|state: Seq<Operation<CommandsParameter>>, now: u128|
                    state.len() == len implies #[trigger] self.record_fits(state, now) by {
                    self.lemma_room_fits(state, now);
                }
            }
        }
        r
    }

    fn room_for(&self, len: usize) -> (r: bool)
        ensures
            r == self.has_room(len as nat),
    {
        if len >= 4294967295usize {
            return false;
        }
        let n = len as u32;
        let mut k: usize = 0;
        while k < self.entries.len()
            invariant
                0 <= k <= self.entries@.len(),
                n == len,
                len < u32::MAX,
                forall|j: int| 0 <= j < k ==> #[trigger] self.entries_of()[j].reorderings + len < u32::MAX,
            decreases self.entries@.len() - k,
        {
            if self.entries[k].reorderings >= u32::MAX - n {
                assert(self.entries_of()[k as int].reorderings + len >= u32::MAX);
                return false;
            }
            k = k + 1;
        }
        true
    }

    fn find(&self, op: &Operation<CommandsParameter>) -> (r: Option<usize>)
        ensures
            r matches Some(k) ==> k as int == entry_of(self.entries_of(), *op)->0 && k < self.entries@.len(),
            r is Some <==> entry_of(self.entries_of(), *op) is Some,
    {
        let ghost es = self.entries_of();
        let mut k: usize = 0;
        while k < self.entries.len()
            invariant
                0 <= k <= self.entries@.len(),
                es == self.entries_of(),
                entry_of(es.take(k as int), *op) is None,
            decreases self.entries@.len() - k,
        {
            assert(es.take(k + 1).drop_last() =~= es.take(k as int));
            if same_operation(&self.entries[k].op, op) {
                assert(entry_of(es.take(k + 1), *op) == Some(k as int));
                proof {
                    lemma_entry_prefix(es, *op, k as int);
                }
                return Some(k);
            }
            k = k + 1;
        }
        assert(es.take(k as int) =~= es);
        None
    }

    fn see_one(&mut self, op: &Operation<CommandsParameter>, context: Vec<Operation<CommandsParameter>>, now: u128)
        requires
            counts_fit(see(old(self).entries_of(), *op, context@, now)),
        ensures
            final(self).entries_of() == see(old(self).entries_of(), *op, context@, now),
            final(self).times_of() == old(self).times_of(),
    {
        let ghost es = self.entries_of();
        match self.find(op) {
            None => {
                let e = MetricEntry { op: copy_operation(op), moved: op.params.time, reorderings: 0, context: context };
                self.entries.push(e);
                assert(self.entries_of() =~= see(es, *op, context@, now));
            },
            Some(k) => {
                if !same_context(&self.entries[k].context, &context) {
                    let count = self.entries[k].reorderings;
                    assert(see(es, *op, context@, now)[k as int].reorderings <= u32::MAX);
                    let e = MetricEntry {
                        op: copy_operation(&self.entries[k].op),
                        moved: now,
                        reorderings: count + 1,
                        context: context,
                    };
                    self.entries.set(k, e);
                    assert(self.entries_of() =~= see(es, *op, context@, now));
                }
            },
        }
    }

    /// Records a state read at time `now` that took `duration`: the time is kept for
    /// the state's length, and each operation of the state is seen after the ones
    /// before it (see `see`).
    pub fn record(&mut self, state: &Vec<Operation<CommandsParameter>>, now: u128, duration: u128)
        requires
            old(self).record_fits(state@, now),
        ensures
            final(self).entries_of() == see_state(old(self).entries_of(), state@, now, state@.len()),
            final(self).times_of() == set_time(old(self).times_of(), state@.len() as usize, duration),
            one_entry_each(old(self).entries_of()) && state@.no_duplicates() ==> one_entry_each(final(self).entries_of())
                && forall|j: int| 0 <= j < state@.len() ==> #[trigger] has_entry(final(self).entries_of(), state@[j], state@.take(j)),
    {
        self.set_computation_time(state.len(), duration);
        let ghost es0 = self.entries_of();
        let mut i: usize = 0;
        while i < state.len()
            invariant
                0 <= i <= state@.len(),
                self.entries_of() == see_state(es0, state@, now, i as nat),
                self.times_of() == set_time(old(self).times_of(), state@.len() as usize, duration),
                es0 == old(self).entries_of(),
                counts_fit(see_state(es0, state@, now, state@.len())),
            decreases state@.len() - i,
        {
            let context = prefix(state, i);
            proof {
                lemma_see_state_grows(es0, state@, now, (i + 1) as nat, state@.len());
                let next = see_state(es0, state@, now, (i + 1) as nat);
                let last = see_state(es0, state@, now, state@.len());
                assert forall|k: int| 0 <= k < next.len() implies #[trigger] next[k].reorderings <= u32::MAX by {
                    assert(next[k].reorderings <= last[k].reorderings);
                }
            }
            self.see_one(&state[i], context, now);
            i = i + 1;
        }
        proof {
            if one_entry_each(es0) && state@.no_duplicates() {
                lemma_see_state_contexts(es0, state@, now, state@.len());
            }
        }
    }

    fn find_time(&self, len: usize) -> (r: Option<usize>)
        ensures
            r matches Some(k) ==> k < self.times@.len() && times_entry(self.times_of(), len) == Some(k as int),
            r is None ==> times_entry(self.times_of(), len) is None,
    {
        let ghost ts = self.times@;
        let mut k: usize = 0;
        while k < self.times.len()
            invariant
                0 <= k <= self.times@.len(),
                ts == self.times@,
                times_entry(ts.take(k as int), len) is None,
            decreases self.times@.len() - k,
        {
            assert(ts.take(k + 1).drop_last() =~= ts.take(k as int));
            if self.times[k].0 == len {
                assert(times_entry(ts.take(k + 1), len) == Some(k as int));
                proof {
                    lemma_times_prefix(ts, len, k as int);
                }
                return Some(k);
            }
            k = k + 1;
        }
        assert(ts.take(k as int) =~= ts);
        None
    }

    fn set_computation_time(&mut self, len: usize, duration: u128)
        ensures
            final(self).times_of() == set_time(old(self).times_of(), len, duration),
            final(self).entries_of() == old(self).entries_of(),
    {
        match self.find_time(len) {
            Some(j) => {
                self.times.set(j, (len, duration));
            },
            None => {
                self.times.push((len, duration));
            },
        }
    }

    /// The number of operations met.
    pub fn len(&self) -> (r: usize)
        ensures
            r == self.entries_of().len(),
    {
        self.entries.len()
    }

    /// The entry of the `k`-th operation met.
    pub fn entry(&self, k: usize) -> (r: &MetricEntry)
        requires
            k < self.entries_of().len(),
        ensures
            entry_model(*r) == self.entries_of()[k as int],
    {
        &self.entries[k]
    }

    /// How long the last read of a state of length `len` took, if one was recorded.
    pub fn computation_time(&self, len: usize) -> (r: Option<u128>)
        ensures
            r == (match times_entry(self.times_of(), len) {
                Some(k) => Some(self.times_of()[k].1),
                None => None,
            }),
    {
        match self.find_time(len) {
            Some(k) => Some(self.times[k].1),
            None => None,
        }
    }

    /// The state lengths with a computation time, and those times, in the order first
    /// recorded.
    pub fn computation_times(&self) -> (r: Vec<(usize, u128)>)
        ensures
            r@ == self.times_of(),
    {
        let mut r: Vec<(usize, u128)> = Vec::new();
        let mut k: usize = 0;
        while k < self.times.len()
            invariant
                0 <= k <= self.times@.len(),
                r@ == self.times@.take(k as int),
            decreases self.times@.len() - k,
        {
            r.push(self.times[k]);
            k = k + 1;
            assert(r@ =~= self.times@.take(k as int));
        }
        assert(self.times@.take(k as int) =~= self.times@);
        r
    }
}

/// The first entry found in a prefix is the first entry of the whole sequence.
proof fn lemma_entry_prefix(es: Seq<EntryModel>, op: Operation<CommandsParameter>, k: int)
    requires
        0 <= k < es.len(),
        entry_of(es.take(k + 1), op) == Some(k),
    ensures
        entry_of(es, op) == Some(k),
    decreases es.len(),
{
    if es.len() > k + 1 {
        assert(es.drop_last().take(k + 1) =~= es.take(k + 1));
        lemma_entry_prefix(es.drop_last(), op, k);
    } else {
        assert(es.take(k + 1) =~= es);
    }
}

proof fn lemma_times_prefix(ts: Seq<(usize, u128)>, len: usize, k: int)
    requires
        0 <= k < ts.len(),
        times_entry(ts.take(k + 1), len) == Some(k),
    ensures
        times_entry(ts, len) == Some(k),
    decreases ts.len(),
{
    if ts.len() > k + 1 {
        assert(ts.drop_last().take(k + 1) =~= ts.take(k + 1));
        lemma_times_prefix(ts.drop_last(), len, k);
    } else {
        assert(ts.take(k + 1) =~= ts);
    }
}

} // verus!
