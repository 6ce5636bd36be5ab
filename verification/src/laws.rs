//! Queue integrity, stated over the mathematical model of the pending list.
//!
//! Every reorder and removal the store offers is an instance of one of the
//! transforms below; the lemmas here say that any sequence of them neither
//! duplicates nor loses entries: ids stay unique, the surviving entries are
//! exactly the expected ones, and the order is the one the operations
//! imply, since each step is given by a function of the previous queue.

use vstd::prelude::*;
use crate::entry::{EntryView, has_id, unique_ids};
use crate::store::{is_first_id, move_after_seq};

verus! {

/// One structural queue operation, by entry ids.
pub ghost enum QueueOp {
    Submit { entry: EntryView },
    Remove { id: int },
    Swap { id1: int, id2: int },
    MoveAfter { id: int, after: int },
    MoveToFront { id: int },
}

/// The position the queue walk finds `id` at, or -1.
pub open spec fn find_first(q: Seq<EntryView>, id: int) -> int
    decreases q.len(),
{
    if q.len() == 0 {
        -1
    } else if q[0].id == id {
        0
    } else {
        let r = find_first(q.drop_first(), id);
        if r < 0 {
            -1
        } else {
            r + 1
        }
    }
}

pub proof fn lemma_find_first(q: Seq<EntryView>, id: int)
    ensures
        has_id(q, id) ==> is_first_id(q, id, find_first(q, id)),
        !has_id(q, id) ==> find_first(q, id) == -1,
    decreases q.len(),
{
    if q.len() > 0 && q[0].id != id {
        lemma_find_first(q.drop_first(), id);
        assert(forall|i: int| 0 <= i < q.drop_first().len()
            ==> #[trigger] q.drop_first()[i] == q[i + 1]);
        if has_id(q, id) {
            let w = choose|i: int| 0 <= i < q.len() && q[i].id == id;
            assert(q.drop_first()[w - 1].id == id);
            assert(has_id(q.drop_first(), id));
            let r = find_first(q.drop_first(), id);
            assert(is_first_id(q.drop_first(), id, r));
            assert(find_first(q, id) == r + 1);
            assert(q[r + 1].id == id);
            assert forall|j: int| 0 <= j < r + 1 implies q[j].id != id by {
                if j >= 1 {
                    assert(q.drop_first()[j - 1].id != id);
                }
            }
        } else {
            if has_id(q.drop_first(), id) {
                let w = choose|i: int| 0 <= i < q.drop_first().len() && q.drop_first()[i].id == id;
                assert(q[w + 1].id == id);
            }
        }
    }
}

/// The store's contracts name positions by the first-match predicate; the
/// model's walk agrees with it, so each contract instantiates the transform
/// below.
pub proof fn lemma_first_id_is_find_first(q: Seq<EntryView>, id: int, i: int)
    requires
        is_first_id(q, id, i),
    ensures
        find_first(q, id) == i,
{
    assert(has_id(q, id));
    lemma_find_first(q, id);
    let f = find_first(q, id);
    if f < i {
        assert(q[f].id != id);
    } else if f > i {
        assert(q[i].id != id);
    }
}

/// What one operation makes of the queue. Ids that are missing, ids that
/// target themselves, and submissions under a taken id leave it untouched,
/// as the store's contracts say.
pub open spec fn apply_op(q: Seq<EntryView>, op: QueueOp) -> Seq<EntryView> {
    match op {
        QueueOp::Submit { entry } => if has_id(q, entry.id) {
            q
        } else {
            q.push(entry)
        },
        QueueOp::Remove { id } => if has_id(q, id) {
            q.remove(find_first(q, id))
        } else {
            q
        },
        QueueOp::Swap { id1, id2 } => if id1 != id2 && has_id(q, id1) && has_id(q, id2) {
            let i = find_first(q, id1);
            let j = find_first(q, id2);
            q.update(i, q[j]).update(j, q[i])
        } else {
            q
        },
        QueueOp::MoveAfter { id, after } => if id != after && has_id(q, id) && has_id(q, after) {
            move_after_seq(q, find_first(q, id), find_first(q, after))
        } else {
            q
        },
        QueueOp::MoveToFront { id } => if has_id(q, id) {
            let i = find_first(q, id);
            q.remove(i).insert(0, q[i])
        } else {
            q
        },
    }
}

/// A whole history of operations, applied oldest first.
pub open spec fn apply_ops(q: Seq<EntryView>, ops: Seq<QueueOp>) -> Seq<EntryView>
    decreases ops.len(),
{
    if ops.len() == 0 {
        q
    } else {
        apply_ops(apply_op(q, ops[0]), ops.drop_first())
    }
}

/// What an operation adds or drops: a submission adds its entry, a removal
/// drops the entry carrying the id, and every reorder keeps the entries
/// exactly. Uniqueness of ids survives each step.
pub proof fn lemma_apply_op_content(q: Seq<EntryView>, op: QueueOp)
    requires
        unique_ids(q),
    ensures
        unique_ids(apply_op(q, op)),
        match op {
            QueueOp::Submit { entry } => !has_id(q, entry.id) ==> forall|e: EntryView|
                apply_op(q, op).contains(e) <==> (q.contains(e) || e == entry),
            QueueOp::Remove { id } => forall|e: EntryView|
                apply_op(q, op).contains(e) <==> (q.contains(e) && e.id != id),
            _ => forall|e: EntryView| apply_op(q, op).contains(e) <==> q.contains(e),
        },
{
    match op {
        QueueOp::Submit { entry } => {
            if !has_id(q, entry.id) {
                let r = q.push(entry);
                assert forall|e: EntryView| r.contains(e) implies (q.contains(e) || e == entry) by {
                    let k = choose|k: int| 0 <= k < r.len() && r[k] == e;
                    if k < q.len() {
                        assert(q[k] == e);
                    }
                }
                assert forall|e: EntryView| q.contains(e) implies r.contains(e) by {
                    let k = choose|k: int| 0 <= k < q.len() && q[k] == e;
                    assert(r[k] == e);
                }
                assert(r[q.len() as int] == entry);
                assert(r.contains(entry));
            }
        },
        QueueOp::Remove { id } => {
            if has_id(q, id) {
                lemma_find_first(q, id);
                let i = find_first(q, id);
                let r = q.remove(i);
                q.remove_ensures(i);
                assert forall|e: EntryView| r.contains(e) implies (q.contains(e) && e.id != id) by {
                    let k = choose|k: int| 0 <= k < r.len() && r[k] == e;
                    let k2 = if k < i { k } else { k + 1 };
                    assert(q[k2] == e);
                    assert(k2 != i);
                    assert(q[i].id == id);
                }
                assert forall|e: EntryView| q.contains(e) && e.id != id implies r.contains(e) by {
                    let k = choose|k: int| 0 <= k < q.len() && q[k] == e;
                    assert(k != i);
                    if k < i {
                        assert(r[k] == e);
                    } else {
                        assert(r[k - 1] == e);
                    }
                }
                assert forall|a: int, b: int| 0 <= a < b < r.len() implies r[a].id != r[b].id by {
                    let a2 = if a < i { a } else { a + 1 };
                    let b2 = if b < i { b } else { b + 1 };
                    assert(r[a] == q[a2] && r[b] == q[b2]);
                }
            } else {
                assert forall|e: EntryView| q.contains(e) implies e.id != id by {
                    let k = choose|k: int| 0 <= k < q.len() && q[k] == e;
                }
            }
        },
        QueueOp::Swap { id1, id2 } => {
            if id1 != id2 && has_id(q, id1) && has_id(q, id2) {
                lemma_find_first(q, id1);
                lemma_find_first(q, id2);
                let i = find_first(q, id1);
                let j = find_first(q, id2);
                assert(i != j);
                let r = q.update(i, q[j]).update(j, q[i]);
                assert(r.len() == q.len());
                assert forall|k: int| 0 <= k < q.len() implies r[k] == q[swap_index(k, i, j)] by {}
                assert forall|e: EntryView| r.contains(e) implies q.contains(e) by {
                    let k = choose|k: int| 0 <= k < r.len() && r[k] == e;
                    assert(q[swap_index(k, i, j)] == e);
                }
                assert forall|e: EntryView| q.contains(e) implies r.contains(e) by {
                    let k = choose|k: int| 0 <= k < q.len() && q[k] == e;
                    assert(r[swap_index(k, i, j)] == e);
                }
                assert forall|a: int, b: int| 0 <= a < b < r.len() implies r[a].id != r[b].id by {
                    assert(r[a] == q[swap_index(a, i, j)]);
                    assert(r[b] == q[swap_index(b, i, j)]);
                }
            }
        },
        QueueOp::MoveAfter { id, after } => {
            if id != after && has_id(q, id) && has_id(q, after) {
                lemma_find_first(q, id);
                lemma_find_first(q, after);
                let i = find_first(q, id);
                let j = find_first(q, after);
                assert(i != j);
                let p = if i < j {
                    j
                } else {
                    j + 1
                };
                lemma_remove_insert_content(q, i, p);
                assert(apply_op(q, op) == q.remove(i).insert(p, q[i]));
            }
        },
        QueueOp::MoveToFront { id } => {
            if has_id(q, id) {
                lemma_find_first(q, id);
                let i = find_first(q, id);
                lemma_remove_insert_content(q, i, 0);
            }
        },
    }
}

/// Where an index lands when two positions are exchanged.
pub open spec fn swap_index(k: int, i: int, j: int) -> int {
    if k == i {
        j
    } else if k == j {
        i
    } else {
        k
    }
}

/// Taking an entry out and putting it back anywhere keeps the queue's
/// content and the uniqueness of its ids.
pub proof fn lemma_remove_insert_content(q: Seq<EntryView>, i: int, p: int)
    requires
        unique_ids(q),
        0 <= i < q.len(),
        0 <= p <= q.len() - 1,
    ensures
        unique_ids(q.remove(i).insert(p, q[i])),
        forall|e: EntryView| q.remove(i).insert(p, q[i]).contains(e) <==> q.contains(e),
        q.remove(i).insert(p, q[i]).len() == q.len(),
{
    let mid = q.remove(i);
    q.remove_ensures(i);
    let r = mid.insert(p, q[i]);
    assert forall|k: int| 0 <= k < r.len() implies r[k] == q[rii_index(k, i, p)]
        && 0 <= rii_index(k, i, p) < q.len() by {
        if k == p {
            assert(r[k] == q[i]);
        } else if k < p {
            assert(r[k] == mid[k]);
        } else {
            assert(r[k] == mid[k - 1]);
        }
    }
    assert forall|e: EntryView| r.contains(e) implies q.contains(e) by {
        let k = choose|k: int| 0 <= k < r.len() && r[k] == e;
        assert(q[rii_index(k, i, p)] == e);
    }
    assert forall|e: EntryView| q.contains(e) implies r.contains(e) by {
        let k = choose|k: int| 0 <= k < q.len() && q[k] == e;
        if k == i {
            assert(r[p] == e);
        } else {
            let m = if k < i {
                k
            } else {
                k - 1
            };
            assert(mid[m] == e);
            if m < p {
                assert(r[m] == e);
            } else {
                assert(r[m + 1] == e);
            }
        }
    }
    assert forall|a: int, b: int| 0 <= a < b < r.len() implies r[a].id != r[b].id by {
        let a2 = rii_index(a, i, p);
        let b2 = rii_index(b, i, p);
        assert(r[a] == q[a2] && r[b] == q[b2]);
        assert(a2 != b2);
    }
}

/// Where an index of `remove(i).insert(p, ..)` came from in the original.
pub open spec fn rii_index(k: int, i: int, p: int) -> int {
    if k == p {
        i
    } else {
        let m = if k < p {
            k
        } else {
            k - 1
        };
        if m < i {
            m
        } else {
            m + 1
        }
    }
}

/// No sequence of operations ever duplicates an id: the queue that results
/// from any history of submissions, removals and reorders on a queue with
/// unique ids has unique ids again, each step being the exact transform
/// [`apply_op`] gives.
pub proof fn lemma_apply_ops_unique(q: Seq<EntryView>, ops: Seq<QueueOp>)
    requires
        unique_ids(q),
    ensures
        unique_ids(apply_ops(q, ops)),
    decreases ops.len(),
{
    if ops.len() > 0 {
        lemma_apply_op_content(q, ops[0]);
        lemma_apply_ops_unique(apply_op(q, ops[0]), ops.drop_first());
    }
}

} // verus!
