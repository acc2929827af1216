//! The shared-journal workload: writers take turns in a fixed rotation, each
//! writing one line per step after a preparation delay.

use vstd::prelude::*;
use vstd::string::*;
use crate::decimal::{decimal, push_decimal};

verus! {

/// The number of writers; they are numbered from 1.
pub const WRITERS: usize = 3;

/// The number of steps each writer performs; they are numbered from 1.
pub const STEPS: u64 = 3;

/// The base preparation delay of a writer, in milliseconds.
pub open spec fn prep_base(worker_id: usize) -> nat {
    if worker_id == 1 {
        35
    } else if worker_id == 2 {
        10
    } else {
        22
    }
}

/// The preparation delay before `step` of `worker_id`: its base delay times the step.
pub fn prep_delay_ms(worker_id: usize, step: u64) -> (r: u64)
    requires
        prep_base(worker_id) * step <= u64::MAX,
    ensures
        r == prep_base(worker_id) * step,
{
    let base: u64 = if worker_id == 1 {
        35
    } else if worker_id == 2 {
        10
    } else {
        22
    };
    base * step
}

/// The writer whose turn comes after `worker_id`'s: the next one, and after the
/// last writer the first again.
pub open spec fn next_turn_of(worker_id: usize) -> usize {
    if worker_id == WRITERS {
        1
    } else {
        (worker_id + 1) as usize
    }
}

/// Passes the turn on after `worker_id` has written.
pub fn next_turn(worker_id: usize) -> (r: usize)
    requires
        worker_id < usize::MAX,
    ensures
        r == next_turn_of(worker_id),
{
    if worker_id == WRITERS {
        1
    } else {
        worker_id + 1
    }
}

/// The journal line a writer adds at a step.
pub open spec fn journal_text(worker_id: nat, step: nat, prep_ms: nat) -> Seq<char> {
    "writer-"@ + decimal(worker_id) + " wrote step-"@ + decimal(step) + " (prep "@ + decimal(prep_ms) + "ms)"@
}

/// Formats the journal line of `worker_id` at `step` after `prep_ms` milliseconds of preparation.
pub fn journal_line(worker_id: u64, step: u64, prep_ms: u64) -> (r: String)
    ensures
        r@ == journal_text(worker_id as nat, step as nat, prep_ms as nat),
{
    let mut line = String::from_str("writer-");
    push_decimal(&mut line, worker_id);
    line.append(" wrote step-");
    push_decimal(&mut line, step);
    line.append(" (prep ");
    push_decimal(&mut line, prep_ms);
    line.append("ms)");
    assert(line@ =~= journal_text(worker_id as nat, step as nat, prep_ms as nat));
    line
}

/// The turn after the writers `ws` have written one after another, starting
/// from writer 1.
pub open spec fn turn_after(ws: Seq<usize>) -> usize
    decreases ws.len(),
{
    if ws.len() == 0 {
        1
    } else {
        next_turn_of(ws.last())
    }
}

/// Every writer of `ws` held the turn when it wrote.
pub open spec fn took_turns(ws: Seq<usize>) -> bool {
    forall|k: int| 0 <= k < ws.len() ==> #[trigger] ws[k] == turn_after(ws.take(k))
}

/// How many of `ws` were written by `w`.
pub open spec fn writes_by(ws: Seq<usize>, w: usize) -> nat
    decreases ws.len(),
{
    if ws.len() == 0 {
        0
    } else {
        writes_by(ws.drop_last(), w) + if ws.last() == w {
            1nat
        } else {
            0nat
        }
    }
}

/// Writers that wait for their turn write in strict rotation: the `k`-th write
/// (from 0) is by writer `k % 3 + 1`, as its step number `k / 3 + 1`, so the
/// journal comes out in the same order on every run.
pub proof fn lemma_turns_rotate(ws: Seq<usize>)
    requires
        took_turns(ws),
    ensures
        forall|k: int| 0 <= k < ws.len() ==> #[trigger] ws[k] == k % 3 + 1,
        forall|k: int| 0 <= k < ws.len() ==> writes_by(ws.take(k), #[trigger] ws[k]) == k / 3,
{
    lemma_writers_rotate(ws);
    lemma_writes_by_rotation(ws);
}

proof fn lemma_next_in_rotation(n: int)
    requires
        n >= 1,
    ensures
        next_turn_of(((n - 1) % 3 + 1) as usize) == n % 3 + 1,
{
    assert((n - 1) % 3 == 0 ==> n % 3 == 1);
    assert((n - 1) % 3 == 1 ==> n % 3 == 2);
    assert((n - 1) % 3 == 2 ==> n % 3 == 0);
}

proof fn lemma_writers_rotate(ws: Seq<usize>)
    requires
        took_turns(ws),
    ensures
        forall|k: int| 0 <= k < ws.len() ==> #[trigger] ws[k] == k % 3 + 1,
    decreases ws.len(),
{
    if ws.len() > 0 {
        let n = ws.len() - 1;
        let prev = ws.drop_last();
        assert forall|k: int| 0 <= k < prev.len() implies #[trigger] prev[k] == turn_after(prev.take(k)) by {
            assert(prev.take(k) =~= ws.take(k));
            assert(ws[k] == turn_after(ws.take(k)));
        }
        lemma_writers_rotate(prev);
        assert(ws[n] == turn_after(ws.take(n)));
        assert(ws.take(n) =~= prev);
        if n > 0 {
            assert(prev.last() == prev[n - 1]);
            lemma_next_in_rotation(n);
        }
        assert forall|k: int| 0 <= k < ws.len() implies #[trigger] ws[k] == k % 3 + 1 by {
            if k < n {
                assert(ws[k] == prev[k]);
            }
        }
    }
}

proof fn lemma_writes_by_rotation(ws: Seq<usize>)
    requires
        forall|k: int| 0 <= k < ws.len() ==> #[trigger] ws[k] == k % 3 + 1,
    ensures
        forall|k: int| 0 <= k < ws.len() ==> writes_by(ws.take(k), #[trigger] ws[k]) == k / 3,
{
    assert forall|k: int| 0 <= k < ws.len() implies writes_by(ws.take(k), #[trigger] ws[k]) == k / 3 by {
        lemma_rotation_count(ws.take(k), (k % 3 + 1) as usize);
    }
}

/// In a rotation prefix of length `n`, writer `w` (1..=3) has written
/// `(n + 3 - w) / 3` times.
proof fn lemma_rotation_count(ws: Seq<usize>, w: usize)
    requires
        1 <= w <= 3,
        forall|k: int| 0 <= k < ws.len() ==> #[trigger] ws[k] == k % 3 + 1,
    ensures
        writes_by(ws, w) == (ws.len() + 3 - w) / 3,
    decreases ws.len(),
{
    if ws.len() > 0 {
        let prev = ws.drop_last();
        assert forall|k: int| 0 <= k < prev.len() implies #[trigger] prev[k] == k % 3 + 1 by {
            assert(prev[k] == ws[k]);
        }
        lemma_rotation_count(prev, w);
        assert(ws.last() == ws[ws.len() - 1]);
    }
}

/// The journal after writes by `ws`, each at the step number it had reached.
pub open spec fn journal_of(ws: Seq<usize>) -> Seq<Seq<char>> {
    Seq::new(
        ws.len(),
        |k: int|
            {
                let step = writes_by(ws.take(k), ws[k]) + 1;
                journal_text(ws[k] as nat, step, prep_base(ws[k]) * step)
            },
    )
}

/// The journal of writers that took turns is fixed: line `k` is writer
/// `k % 3 + 1` at step `k / 3 + 1`.
pub proof fn lemma_journal_is_fixed(ws: Seq<usize>)
    requires
        took_turns(ws),
    ensures
        forall|k: int|
            0 <= k < ws.len() ==> #[trigger] journal_of(ws)[k] == journal_text(
                (k % 3 + 1) as nat,
                (k / 3 + 1) as nat,
                prep_base((k % 3 + 1) as usize) * (k / 3 + 1) as nat,
            ),
{
    lemma_turns_rotate(ws);
    assert forall|k: int| 0 <= k < ws.len() implies #[trigger] journal_of(ws)[k] == journal_text(
        (k % 3 + 1) as nat,
        (k / 3 + 1) as nat,
        prep_base((k % 3 + 1) as usize) * (k / 3 + 1) as nat,
    ) by {
        assert(ws[k] == k % 3 + 1);
        assert(writes_by(ws.take(k), ws[k]) == k / 3);
    }
}

} // verus!
