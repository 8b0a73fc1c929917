use vstd::prelude::*;

verus! {

/// The round-robin cursor after one selection: incremented by one, wrapping
/// at the machine limit (the cursor is never reset).
pub open spec fn wrap_inc(c: usize) -> usize {
    if c == usize::MAX {
        0
    } else {
        (c + 1) as usize
    }
}

/// The cursor after `k` consecutive selections starting from `start`.
pub open spec fn counter_after(start: usize, k: nat) -> usize
    decreases k,
{
    if k == 0 {
        start
    } else {
        wrap_inc(counter_after(start, (k - 1) as nat))
    }
}

/// Index into a pool of `n` targets handed out by the `j`-th selection
/// (counting from 0) after the cursor stood at `start`.
pub open spec fn selection_at(start: usize, j: nat, n: int) -> int
    recommends
        n > 0,
{
    counter_after(start, j + 1) as int % n
}

/// Round-robin selection of the next backend target.
///
/// `targets` is the application's pool; `target_id` is the application's
/// shared cursor, which every selection advances by one (wrapping). The
/// selected address is `targets[cursor % len]` for the advanced cursor, so
/// a fresh cursor (0) yields `targets[1 % len]` first. Callers hold the
/// cursor under mutual exclusion; the selection itself is pure.
pub fn round_robin(targets: &Vec<String>, target_id: &mut usize) -> (target: String)
    requires
        targets@.len() > 0,
    ensures
        *final(target_id) == wrap_inc(*old(target_id)),
        target@ == targets.deep_view()[*final(target_id) as int % targets@.len() as int],
{
    if *target_id == usize::MAX {
        *target_id = 0;
    } else {
        *target_id = *target_id + 1;
    }
    targets[*target_id % targets.len()].clone()
}

/// The selection step, counted from a cursor standing at `start`, that
/// reaches target index `t` in a pool of `n` targets: the witness that no
/// target is skipped within a window of `n` selections.
pub open spec fn covering_selection(start: usize, t: int, n: int) -> nat
    recommends
        n > 0,
        0 <= t < n,
{
    let s1 = (start + 1) as int % n;
    if t >= s1 {
        (t - s1) as nat
    } else {
        (t + n - s1) as nat
    }
}

/// The cursor counts the selections made: as long as it never wraps, `k`
/// consecutive selections leave it exactly `k` above where it started.
pub proof fn lemma_counter_counts_calls(start: usize, k: nat)
    requires
        start + k <= usize::MAX,
    ensures
        counter_after(start, k) == start + k,
    decreases k,
{
    if k > 0 {
        lemma_counter_counts_calls(start, (k - 1) as nat);
    }
}

/// The cyclic order of selections: with the cursor at `start` and no
/// wrap-around, the `j`-th following selection from a pool of `n` targets
/// picks index `(start + j + 1) % n`.
pub proof fn lemma_selection_formula(start: usize, j: nat, n: int)
    requires
        n > 0,
        start + j + 1 <= usize::MAX,
    ensures
        selection_at(start, j, n) == (start + j + 1) % n,
{
    lemma_counter_counts_calls(start, j + 1);
}

/// One full cyclic traversal from a fresh cursor: the first `n` selections
/// from a pool of `n` targets return the pool in order starting at
/// `targets[1 % n]`, and hit every index exactly once — no target skipped,
/// none repeated.
pub proof fn lemma_fresh_cursor_full_cycle(n: usize)
    requires
        0 < n,
    ensures
        forall|j: nat| j < n ==> #[trigger] selection_at(0, j, n as int) == (j + 1) as int % (
        n as int),
        forall|t: int|
            0 <= t < n ==> #[trigger] covering_selection(0, t, n as int) < n && selection_at(
                0,
                covering_selection(0, t, n as int),
                n as int,
            ) == t,
        forall|j1: nat, j2: nat|
            j1 < n && j2 < n && #[trigger] selection_at(0, j1, n as int) == #[trigger] selection_at(
                0,
                j2,
                n as int,
            ) ==> j1 == j2,
{
    lemma_window_full_cycle(0, n);
}

/// Any window of `n` consecutive selections from a pool of `n` targets —
/// wherever the cursor stood when the window opened, as long as it does
/// not wrap inside it — hits every target index exactly once. Concurrent
/// callers each land on one of these selections, since mutual exclusion
/// makes the increments a strict sequence, so over the window no target
/// is skipped and none is handed out twice.
pub proof fn lemma_window_full_cycle(start: usize, n: usize)
    requires
        0 < n,
        start + n <= usize::MAX,
    ensures
        forall|j: nat|
            j < n ==> #[trigger] selection_at(start, j, n as int) == (start + j + 1) % (n as int),
        forall|t: int|
            0 <= t < n ==> #[trigger] covering_selection(start, t, n as int) < n && selection_at(
                start,
                covering_selection(start, t, n as int),
                n as int,
            ) == t,
        forall|j1: nat, j2: nat|
            j1 < n && j2 < n && #[trigger] selection_at(start, j1, n as int)
                == #[trigger] selection_at(start, j2, n as int) ==> j1 == j2,
{
    let ni = n as int;
    assert forall|j: nat| j < n implies #[trigger] selection_at(start, j, ni) == (start + j + 1)
        % ni by {
        lemma_selection_formula(start, j, ni);
    }
    let s1 = (start + 1) % ni;
    vstd::arithmetic::div_mod::lemma_mod_bound(start + 1, ni);
    assert forall|j: nat| j < n implies #[trigger] selection_at(start, j, ni) == if s1 + j < ni {
        s1 + j
    } else {
        s1 + j - ni
    } by {
        lemma_selection_formula(start, j, ni);
        vstd::arithmetic::div_mod::lemma_add_mod_noop(start + 1, j as int, ni);
        vstd::arithmetic::div_mod::lemma_small_mod(j, n as nat);
        if s1 + j < ni {
            vstd::arithmetic::div_mod::lemma_small_mod((s1 + j) as nat, n as nat);
            vstd::arithmetic::div_mod::lemma_mod_twice(start + 1 + j, ni);
        } else {
            vstd::arithmetic::div_mod::lemma_mod_sub_multiples_vanish(s1 + j, ni);
            vstd::arithmetic::div_mod::lemma_small_mod((s1 + j - ni) as nat, n as nat);
            vstd::arithmetic::div_mod::lemma_mod_twice(start + 1 + j, ni);
        }
    }
    assert forall|t: int| 0 <= t < n implies #[trigger] covering_selection(start, t, ni) < n
        && selection_at(start, covering_selection(start, t, ni), ni) == t by {
        let j0 = covering_selection(start, t, ni);
        assert(j0 < n);
        assert(selection_at(start, j0, ni) == t);
    }
}

} // verus!
