use vstd::prelude::*;

verus! {

/// Position `k` of a ring of `n` slots, for `0 <= k < 2 * n`.
pub open spec fn wrap_index(k: int, n: int) -> int {
    if k < n {
        k
    } else {
        k - n
    }
}

/// The slot after `i` in a ring of `n` slots.
pub open spec fn next_slot(i: int, n: int) -> int {
    if i + 1 == n {
        0
    } else {
        i + 1
    }
}

/// The slot before `i` in a ring of `n` slots.
pub open spec fn prev_slot(i: int, n: int) -> int {
    if i == 0 {
        n - 1
    } else {
        i - 1
    }
}

/// `count` items of `store` read as a ring, starting at slot `first`.
pub open spec fn ring_window<T>(store: Seq<T>, first: int, count: int) -> Seq<T> {
    Seq::new(count as nat, |i: int| store[wrap_index(first + i, store.len() as int)])
}

/// Number of slots from `from` up to, not including, `to` in a ring of `n` slots.
pub open spec fn ring_distance(from: int, to: int, n: int) -> int {
    if from <= to {
        to - from
    } else {
        n - from + to
    }
}

/// `(i + 1) % n` is the slot after `i`.
pub proof fn lemma_succ_mod(i: int, n: int)
    requires
        0 <= i < n,
    ensures
        (i + 1) % n == next_slot(i, n),
{
    if i + 1 == n {
        vstd::arithmetic::div_mod::lemma_mod_self_0(n);
    } else {
        vstd::arithmetic::div_mod::lemma_small_mod((i + 1) as nat, n as nat);
    }
}

} // verus!
