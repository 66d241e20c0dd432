//! Keyed list reconciliation: given the rows rendered for the previous
//! ordered sequence of keyed entries and the next desired sequence, compute
//! the edit script (insert / remove / move / update) that turns the one into
//! the other while reusing the rendered handle of every key that survives.

use vstd::prelude::*;

verus! {

/// A rendered row kept from an earlier reconciliation pass: the key it is
/// addressed by, the opaque handle of its rendered output (and of the scope
/// that owns its row-local state), and the value currently bound to it.
#[derive(Clone, Copy, Debug, PartialEq, Eq, Structural)]
pub struct Row {
    pub key: u64,
    pub handle: u64,
    pub value: i64,
}

/// One entry of the desired sequence: a key and the value to bind to it.
#[derive(Clone, Copy, Debug, PartialEq, Eq, Structural)]
pub struct KeyedValue {
    pub key: u64,
    pub value: i64,
}

/// One step of an edit script. Positions refer to the order of the desired
/// sequence (`to`, `pos`) or of the previous one (`from`).
#[derive(Clone, Copy, Debug, PartialEq, Eq, Structural)]
pub enum EditOp {
    /// A fresh row for `key` enters at position `pos`; its handle and scope
    /// are newly created.
    Insert { key: u64, value: i64, pos: usize },
    /// The row for `key` leaves; its scope is to be disposed.
    Remove { key: u64 },
    /// The row for `key` is kept, reusing its handle, and moves from
    /// position `from` to position `to`.
    Move { key: u64, from: usize, to: usize },
    /// The row for `key` is kept and its bound value becomes `value`.
    Update { key: u64, value: i64 },
}

/// The ordered list of edits of one reconciliation pass.
#[derive(Clone, Debug, PartialEq, Eq)]
pub struct EditScript {
    pub ops: Vec<EditOp>,
}

/// Why a reconciliation pass was refused.
#[derive(Clone, Copy, Debug, PartialEq, Eq, Structural)]
pub enum ReconcileError {
    /// The same key appears twice in the desired sequence.
    DuplicateKey { key: u64 },
}

/// No two rows share a key.
pub open spec fn rows_keys_unique(rows: Seq<Row>) -> bool {
    forall|i: int, j: int| 0 <= i < j < rows.len() ==> rows[i].key != rows[j].key
}

/// No two entries share a key.
pub open spec fn entries_keys_unique(next: Seq<KeyedValue>) -> bool {
    forall|i: int, j: int| 0 <= i < j < next.len() ==> next[i].key != next[j].key
}

/// Some row carries `key`.
pub open spec fn rows_have_key(rows: Seq<Row>, key: u64) -> bool {
    exists|i: int| 0 <= i < rows.len() && rows[i].key == key
}

/// Some entry carries `key`.
pub open spec fn entries_have_key(next: Seq<KeyedValue>, key: u64) -> bool {
    exists|i: int| 0 <= i < next.len() && next[i].key == key
}

/// The position of the row carrying `key`; meaningful when the rows hold the
/// key and their keys are unique.
pub open spec fn row_index_of(rows: Seq<Row>, key: u64) -> int {
    choose|i: int| 0 <= i < rows.len() && rows[i].key == key
}

/// The edits that position `i` of the desired sequence contributes: an
/// insert for an unknown key, else a move when the position changed and an
/// update when the bound value changed.
pub open spec fn entry_ops(prev: Seq<Row>, next: Seq<KeyedValue>, i: int) -> Seq<EditOp> {
    let k = next[i].key;
    if rows_have_key(prev, k) {
        let j = row_index_of(prev, k);
        let moves: Seq<EditOp> = if j != i {
            seq![EditOp::Move { key: k, from: j as usize, to: i as usize }]
        } else {
            Seq::<EditOp>::empty()
        };
        let updates: Seq<EditOp> = if prev[j].value != next[i].value {
            seq![EditOp::Update { key: k, value: next[i].value }]
        } else {
            Seq::<EditOp>::empty()
        };
        moves + updates
    } else {
        seq![EditOp::Insert { key: k, value: next[i].value, pos: i as usize }]
    }
}

/// The edits contributed by the first `n` positions of the desired sequence.
pub open spec fn walk_ops(prev: Seq<Row>, next: Seq<KeyedValue>, n: int) -> Seq<EditOp>
    decreases n,
{
    if n <= 0 {
        Seq::<EditOp>::empty()
    } else {
        walk_ops(prev, next, n - 1) + entry_ops(prev, next, n - 1)
    }
}

/// The removals contributed by the first `n` previous rows: one for each row
/// whose key the desired sequence no longer holds.
pub open spec fn removal_ops(prev: Seq<Row>, next: Seq<KeyedValue>, n: int) -> Seq<EditOp>
    decreases n,
{
    if n <= 0 {
        Seq::<EditOp>::empty()
    } else {
        removal_ops(prev, next, n - 1) + (if entries_have_key(next, prev[n - 1].key) {
            Seq::<EditOp>::empty()
        } else {
            seq![EditOp::Remove { key: prev[n - 1].key }]
        })
    }
}

/// The whole edit script of one pass: the walk over the desired sequence,
/// then the removals for the rows left behind.
pub open spec fn spec_reconcile(prev: Seq<Row>, next: Seq<KeyedValue>) -> Seq<EditOp> {
    walk_ops(prev, next, next.len() as int) + removal_ops(prev, next, prev.len() as int)
}

/// How many of the first `i` desired entries are inserts (keys unknown to
/// the previous rows); fixes which fresh handle an inserted row receives.
pub open spec fn inserts_before(prev: Seq<Row>, next: Seq<KeyedValue>, i: int) -> int
    decreases i,
{
    if i <= 0 {
        0
    } else {
        inserts_before(prev, next, i - 1) + (if rows_have_key(prev, next[i - 1].key) {
            0int
        } else {
            1int
        })
    }
}

/// At most one insert per entry.
pub proof fn lemma_inserts_before_bound(prev: Seq<Row>, next: Seq<KeyedValue>, i: int)
    requires
        0 <= i,
    ensures
        0 <= inserts_before(prev, next, i) <= i,
    decreases i,
{
    if i > 0 {
        lemma_inserts_before_bound(prev, next, i - 1);
    }
}

/// Find the position of `key` among the rows.
fn find_row(rows: &Vec<Row>, key: u64) -> (r: Option<usize>)
    ensures
        match r {
            Some(i) => i < rows@.len() && rows@[i as int].key == key,
            None => !rows_have_key(rows@, key),
        },
{
    let mut i: usize = 0;
    while i < rows.len()
        invariant
            i <= rows@.len(),
            forall|j: int| 0 <= j < i ==> rows@[j].key != key,
        decreases rows@.len() - i,
    {
        if rows[i].key == key {
            return Some(i);
        }
        i = i + 1;
    }
    None
}

/// Whether the desired entries hold `key`.
fn entries_contain(next: &Vec<KeyedValue>, key: u64) -> (r: bool)
    ensures
        r <==> entries_have_key(next@, key),
{
    let mut i: usize = 0;
    while i < next.len()
        invariant
            i <= next@.len(),
            forall|j: int| 0 <= j < i ==> next@[j].key != key,
        decreases next@.len() - i,
    {
        if next[i].key == key {
            return true;
        }
        i = i + 1;
    }
    false
}

/// With unique keys, the found position is the spec-level one.
proof fn lemma_found_index(rows: Seq<Row>, key: u64, i: int)
    requires
        rows_keys_unique(rows),
        0 <= i < rows.len(),
        rows[i].key == key,
    ensures
        rows_have_key(rows, key),
        row_index_of(rows, key) == i,
{
    assert(rows_have_key(rows, key));
    let j = row_index_of(rows, key);
    assert(0 <= j < rows.len() && rows[j].key == key);
    if j < i {
        assert(rows[j].key != rows[i].key);
    } else if i < j {
        assert(rows[i].key != rows[j].key);
    }
}

/// Compute the edit script that turns the previously rendered rows into the
/// desired sequence. Refused exactly when the desired sequence repeats a
/// key; otherwise the script is exactly `spec_reconcile`.
pub fn reconcile_keyed(prev: &Vec<Row>, next: &Vec<KeyedValue>) -> (r: Result<
    EditScript,
    ReconcileError,
>)
    requires
        rows_keys_unique(prev@),
    ensures
        r is Ok <==> entries_keys_unique(next@),
        r matches Ok(script) ==> script.ops@ == spec_reconcile(prev@, next@),
        r matches Err(ReconcileError::DuplicateKey { key }) ==> exists|i: int, j: int|
            0 <= i < j < next@.len() && next@[i].key == key && next@[j].key == key,
{
    // Refuse a repeated key in the desired sequence.
    let mut i: usize = 0;
    while i < next.len()
        invariant
            i <= next@.len(),
            forall|p: int, q: int| 0 <= p < q < i ==> next@[p].key != next@[q].key,
        decreases next@.len() - i,
    {
        let mut j: usize = 0;
        while j < i
            invariant
                j <= i < next@.len(),
                forall|q: int| 0 <= q < j ==> next@[q].key != next@[i as int].key,
            decreases i - j,
        {
            if next[j].key == next[i].key {
                return Err(ReconcileError::DuplicateKey { key: next[i].key });
            }
            j = j + 1;
        }
        i = i + 1;
    }

    let mut ops: Vec<EditOp> = Vec::new();

    // Walk the desired sequence left to right.
    let mut i: usize = 0;
    while i < next.len()
        invariant
            i <= next@.len(),
            rows_keys_unique(prev@),
            ops@ == walk_ops(prev@, next@, i as int),
        decreases next@.len() - i,
    {
        let ghost before = ops@;
        let k = next[i].key;
        match find_row(prev, k) {
            Some(j) => {
                proof {
                    lemma_found_index(prev@, k, j as int);
                }
                if j != i {
                    ops.push(EditOp::Move { key: k, from: j, to: i });
                }
                if prev[j].value != next[i].value {
                    ops.push(EditOp::Update { key: k, value: next[i].value });
                }
                proof {
                    assert(ops@ =~= before + entry_ops(prev@, next@, i as int));
                }
            },
            None => {
                ops.push(EditOp::Insert { key: k, value: next[i].value, pos: i });
                proof {
                    assert(ops@ =~= before + entry_ops(prev@, next@, i as int));
                }
            },
        }
        i = i + 1;
    }

    // Remove every previous row whose key the desired sequence dropped.
    let ghost walked = ops@;
    let mut p: usize = 0;
    while p < prev.len()
        invariant
            p <= prev@.len(),
            walked == walk_ops(prev@, next@, next@.len() as int),
            ops@ == walked + removal_ops(prev@, next@, p as int),
        decreases prev@.len() - p,
    {
        let ghost before = ops@;
        if !entries_contain(next, prev[p].key) {
            ops.push(EditOp::Remove { key: prev[p].key });
        }
        proof {
            assert(removal_ops(prev@, next@, p + 1) == removal_ops(prev@, next@, p as int)
                + (if entries_have_key(next@, prev@[p as int].key) {
                Seq::<EditOp>::empty()
            } else {
                seq![EditOp::Remove { key: prev@[p as int].key }]
            }));
            assert(ops@ =~= walked + removal_ops(prev@, next@, p + 1));
        }
        p = p + 1;
    }

    Ok(EditScript { ops })
}

/// Rebuild the row list for the desired sequence: a surviving key keeps the
/// handle (and with it the row-local reactive state) it already had, an
/// inserted key receives the fresh handle `fresh_base` plus its insert rank.
pub fn apply_edits(prev: &Vec<Row>, next: &Vec<KeyedValue>, fresh_base: u64) -> (out: Vec<Row>)
    requires
        rows_keys_unique(prev@),
        entries_keys_unique(next@),
        fresh_base + next@.len() <= u64::MAX,
    ensures
        out@.len() == next@.len(),
        forall|i: int| 0 <= i < next@.len() ==> out@[i].key == next@[i].key,
        forall|i: int| 0 <= i < next@.len() ==> out@[i].value == next@[i].value,
        forall|i: int|
            0 <= i < next@.len() && rows_have_key(prev@, next@[i].key) ==> out@[i].handle
                == prev@[row_index_of(prev@, next@[i].key)].handle,
        forall|i: int|
            0 <= i < next@.len() && !rows_have_key(prev@, next@[i].key) ==> out@[i].handle
                == fresh_base + inserts_before(prev@, next@, i),
        rows_keys_unique(out@),
{
    let mut out: Vec<Row> = Vec::new();
    let mut fresh: u64 = 0;
    let mut i: usize = 0;
    while i < next.len()
        invariant
            i <= next@.len(),
            out@.len() == i,
            rows_keys_unique(prev@),
            entries_keys_unique(next@),
            fresh_base + next@.len() <= u64::MAX,
            fresh == inserts_before(prev@, next@, i as int),
            0 <= fresh <= i,
            forall|q: int| 0 <= q < i ==> out@[q].key == next@[q].key,
            forall|q: int| 0 <= q < i ==> out@[q].value == next@[q].value,
            forall|q: int|
                0 <= q < i && rows_have_key(prev@, next@[q].key) ==> out@[q].handle
                    == prev@[row_index_of(prev@, next@[q].key)].handle,
            forall|q: int|
                0 <= q < i && !rows_have_key(prev@, next@[q].key) ==> out@[q].handle
                    == fresh_base + inserts_before(prev@, next@, q),
        decreases next@.len() - i,
    {
        let k = next[i].key;
        match find_row(prev, k) {
            Some(j) => {
                proof {
                    lemma_found_index(prev@, k, j as int);
                }
                out.push(Row { key: k, handle: prev[j].handle, value: next[i].value });
            },
            None => {
                out.push(Row { key: k, handle: fresh_base + fresh, value: next[i].value });
                fresh = fresh + 1;
            },
        }
        proof {
            lemma_inserts_before_bound(prev@, next@, i + 1);
        }
        i = i + 1;
    }
    proof {
        assert forall|a: int, b: int| 0 <= a < b < out@.len() implies out@[a].key
            != out@[b].key by {
            assert(next@[a].key != next@[b].key);
        }
    }
    out
}

/// How many desired entries would be inserted against the previous rows;
/// the host creates this many fresh handles and scopes.
pub fn insert_count(prev: &Vec<Row>, next: &Vec<KeyedValue>) -> (n: usize)
    ensures
        n == inserts_before(prev@, next@, next@.len() as int),
        n <= next@.len(),
{
    let mut n: usize = 0;
    let mut i: usize = 0;
    while i < next.len()
        invariant
            i <= next@.len(),
            n == inserts_before(prev@, next@, i as int),
            0 <= n <= i,
        decreases next@.len() - i,
    {
        match find_row(prev, next[i].key) {
            Some(_) => (),
            None => {
                proof {
                    lemma_inserts_before_bound(prev@, next@, i as int);
                }
                n = n + 1;
            },
        }
        i = i + 1;
    }
    n
}

/// Reconciling a sequence against rows that already render it (same keys in
/// the same order with the same values) produces an empty edit script.
pub proof fn lemma_reconcile_idempotent(prev: Seq<Row>, next: Seq<KeyedValue>)
    requires
        rows_keys_unique(prev),
        prev.len() == next.len(),
        forall|i: int| 0 <= i < next.len() ==> prev[i].key == next[i].key,
        forall|i: int| 0 <= i < next.len() ==> prev[i].value == next[i].value,
    ensures
        spec_reconcile(prev, next).len() == 0,
{
    lemma_walk_empty_when_unchanged(prev, next, next.len() as int);
    lemma_removals_empty_when_kept(prev, next, prev.len() as int);
}

proof fn lemma_walk_empty_when_unchanged(prev: Seq<Row>, next: Seq<KeyedValue>, n: int)
    requires
        rows_keys_unique(prev),
        prev.len() == next.len(),
        forall|i: int| 0 <= i < next.len() ==> prev[i].key == next[i].key,
        forall|i: int| 0 <= i < next.len() ==> prev[i].value == next[i].value,
        n <= next.len(),
    ensures
        walk_ops(prev, next, n).len() == 0,
    decreases n,
{
    if n > 0 {
        lemma_walk_empty_when_unchanged(prev, next, n - 1);
        lemma_found_index(prev, next[n - 1].key, n - 1);
        assert(entry_ops(prev, next, n - 1).len() == 0);
    }
}

proof fn lemma_removals_empty_when_kept(prev: Seq<Row>, next: Seq<KeyedValue>, n: int)
    requires
        prev.len() == next.len(),
        forall|i: int| 0 <= i < next.len() ==> prev[i].key == next[i].key,
        n <= prev.len(),
    ensures
        removal_ops(prev, next, n).len() == 0,
    decreases n,
{
    if n > 0 {
        lemma_removals_empty_when_kept(prev, next, n - 1);
        assert(entries_have_key(next, prev[n - 1].key)) by {
            assert(next[n - 1].key == prev[n - 1].key);
        }
    }
}

/// Reordering alone is carried by moves: when every desired key is already
/// rendered with the desired value and no rendered key is dropped, the edit
/// script holds nothing but `Move` steps.
pub proof fn lemma_reorder_is_moves_only(prev: Seq<Row>, next: Seq<KeyedValue>)
    requires
        rows_keys_unique(prev),
        forall|i: int|
            0 <= i < next.len() ==> rows_have_key(prev, #[trigger] next[i].key) && prev[row_index_of(
                prev,
                next[i].key,
            )].value == next[i].value,
        forall|i: int| 0 <= i < prev.len() ==> entries_have_key(next, #[trigger] prev[i].key),
    ensures
        forall|j: int|
            0 <= j < spec_reconcile(prev, next).len() ==> spec_reconcile(prev, next)[j] is Move,
{
    lemma_walk_moves_only(prev, next, next.len() as int);
    lemma_removals_none(prev, next, prev.len() as int);
    assert(spec_reconcile(prev, next) =~= walk_ops(prev, next, next.len() as int));
}

proof fn lemma_walk_moves_only(prev: Seq<Row>, next: Seq<KeyedValue>, n: int)
    requires
        rows_keys_unique(prev),
        forall|i: int|
            0 <= i < next.len() ==> rows_have_key(prev, #[trigger] next[i].key) && prev[row_index_of(
                prev,
                next[i].key,
            )].value == next[i].value,
        n <= next.len(),
    ensures
        forall|j: int| 0 <= j < walk_ops(prev, next, n).len() ==> walk_ops(prev, next, n)[j] is Move,
    decreases n,
{
    if n > 0 {
        lemma_walk_moves_only(prev, next, n - 1);
        let e = entry_ops(prev, next, n - 1);
        assert(forall|j: int| 0 <= j < e.len() ==> #[trigger] e[j] is Move);
    }
}

proof fn lemma_removals_none(prev: Seq<Row>, next: Seq<KeyedValue>, n: int)
    requires
        forall|i: int| 0 <= i < prev.len() ==> entries_have_key(next, #[trigger] prev[i].key),
        n <= prev.len(),
    ensures
        removal_ops(prev, next, n).len() == 0,
    decreases n,
{
    if n > 0 {
        lemma_removals_none(prev, next, n - 1);
    }
}

} // verus!
