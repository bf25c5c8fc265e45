//! Totals over the cells of a board, taken in no particular order: a sum of
//! counts and an exclusive-or of digests.

use vstd::prelude::*;
use vstd::set::fold::{is_fun_commutative, lemma_fold_empty, lemma_fold_insert};
use crate::nova_luna::geometry::Position;

verus! {

/// The sum of `f` over the cells of `cells`.
pub open spec fn sum_over(cells: Set<Position>, f: spec_fn(Position) -> nat) -> nat {
    cells.fold(0nat, |total: nat, p: Position| total + f(p))
}

/// The exclusive-or of `f` over the cells of `cells`.
pub open spec fn xor_over(cells: Set<Position>, f: spec_fn(Position) -> u64) -> u64 {
    cells.fold(0u64, |total: u64, p: Position| total ^ f(p))
}

pub proof fn lemma_sum_over_nothing(f: spec_fn(Position) -> nat)
    ensures
        sum_over(Set::empty(), f) == 0,
{
    lemma_fold_empty(0nat, |total: nat, p: Position| total + f(p));
}

pub proof fn lemma_sum_over_one_more(cells: Set<Position>, f: spec_fn(Position) -> nat, p: Position)
    requires
        cells.finite(),
        !cells.contains(p),
    ensures
        sum_over(cells.insert(p), f) == sum_over(cells, f) + f(p),
{
    let step = |total: nat, p: Position| total + f(p);
    assert(is_fun_commutative(step));
    lemma_fold_insert(cells, 0nat, step, p);
}

/// A sum does not shrink when no term does.
pub proof fn lemma_sum_over_grows_with_terms(
    cells: Set<Position>,
    f: spec_fn(Position) -> nat,
    g: spec_fn(Position) -> nat,
)
    requires
        cells.finite(),
        forall|p: Position| cells.contains(p) ==> f(p) <= g(p),
    ensures
        sum_over(cells, f) <= sum_over(cells, g),
    decreases cells.len(),
{
    if cells.len() == 0 {
        assert(cells =~= Set::empty());
        lemma_sum_over_nothing(f);
        lemma_sum_over_nothing(g);
    } else {
        let p = cells.choose();
        let rest = cells.remove(p);
        assert(cells =~= rest.insert(p));
        lemma_sum_over_grows_with_terms(rest, f, g);
        lemma_sum_over_one_more(rest, f, p);
        lemma_sum_over_one_more(rest, g, p);
    }
}

/// A sum over some of the cells is at most the sum over all of them.
pub proof fn lemma_sum_over_grows_with_cells(
    part: Set<Position>,
    whole: Set<Position>,
    f: spec_fn(Position) -> nat,
)
    requires
        whole.finite(),
        part.subset_of(whole),
    ensures
        sum_over(part, f) <= sum_over(whole, f),
    decreases whole.len(),
{
    vstd::set_lib::lemma_len_subset(part, whole);
    if whole.len() == 0 {
        assert(whole =~= Set::empty());
        assert(part =~= Set::empty());
    } else {
        let p = whole.choose();
        let rest = whole.remove(p);
        assert(whole =~= rest.insert(p));
        lemma_sum_over_one_more(rest, f, p);
        if part.contains(p) {
            let less = part.remove(p);
            assert(part =~= less.insert(p));
            lemma_sum_over_grows_with_cells(less, rest, f);
            vstd::set_lib::lemma_len_subset(less, rest);
            lemma_sum_over_one_more(less, f, p);
        } else {
            lemma_sum_over_grows_with_cells(part, rest, f);
        }
    }
}

/// A sum depends on the terms of its own cells only.
pub proof fn lemma_sum_over_same_terms(
    cells: Set<Position>,
    f: spec_fn(Position) -> nat,
    g: spec_fn(Position) -> nat,
)
    requires
        cells.finite(),
        forall|p: Position| cells.contains(p) ==> f(p) == g(p),
    ensures
        sum_over(cells, f) == sum_over(cells, g),
{
    lemma_sum_over_grows_with_terms(cells, f, g);
    lemma_sum_over_grows_with_terms(cells, g, f);
}

/// Summing along a list of distinct cells: the sum over one more cell of
/// the list is the sum so far and that cell's term, and it is at most the
/// sum over the whole list.
pub proof fn lemma_sum_over_next(cells: Seq<Position>, i: int, f: spec_fn(Position) -> nat)
    requires
        cells.no_duplicates(),
        0 <= i < cells.len(),
    ensures
        sum_over(cells.take(i + 1).to_set(), f) == sum_over(cells.take(i).to_set(), f) + f(
            cells[i],
        ),
        sum_over(cells.take(i + 1).to_set(), f) <= sum_over(cells.to_set(), f),
{
    let done = cells.take(i);
    let more = cells.take(i + 1);
    let p = cells[i];
    assert(more =~= done.push(p));
    done.lemma_push_to_set_commute(p);
    assert(!done.to_set().contains(p)) by {
        if done.contains(p) {
            let k = choose|k: int| 0 <= k < done.len() && done[k] == p;
            assert(cells[k] == cells[i]);
        }
    }
    vstd::seq_lib::seq_to_set_is_finite(done);
    lemma_sum_over_one_more(done.to_set(), f, p);
    assert(more.to_set().subset_of(cells.to_set())) by {
        assert forall|q: Position| more.to_set().contains(q) implies cells.to_set().contains(q) by {
            let k = choose|k: int| 0 <= k < more.len() && more[k] == q;
            assert(cells[k] == q);
        }
    }
    vstd::seq_lib::seq_to_set_is_finite(cells);
    lemma_sum_over_grows_with_cells(more.to_set(), cells.to_set(), f);
}

pub proof fn lemma_xor_swap(a: u64, b: u64, c: u64)
    ensures
        (a ^ b) ^ c == (a ^ c) ^ b,
{
    assert((a ^ b) ^ c == (a ^ c) ^ b) by (bit_vector);
}

pub proof fn lemma_xor_over_nothing(f: spec_fn(Position) -> u64)
    ensures
        xor_over(Set::empty(), f) == 0,
{
    lemma_fold_empty(0u64, |total: u64, p: Position| total ^ f(p));
}

pub proof fn lemma_xor_over_one_more(cells: Set<Position>, f: spec_fn(Position) -> u64, p: Position)
    requires
        cells.finite(),
        !cells.contains(p),
    ensures
        xor_over(cells.insert(p), f) == xor_over(cells, f) ^ f(p),
{
    let step = |total: u64, p: Position| total ^ f(p);
    assert(is_fun_commutative(step)) by {
        assert forall|a1: Position, a2: Position, b: u64| #[trigger]
            step(step(b, a2), a1) == step(step(b, a1), a2) by {
            lemma_xor_swap(b, f(a2), f(a1));
        }
    }
    lemma_fold_insert(cells, 0u64, step, p);
}

/// Folding along a list of distinct cells: the exclusive-or over one more
/// cell of the list is the exclusive-or so far and that cell's term.
pub proof fn lemma_xor_over_next(cells: Seq<Position>, i: int, f: spec_fn(Position) -> u64)
    requires
        cells.no_duplicates(),
        0 <= i < cells.len(),
    ensures
        xor_over(cells.take(i + 1).to_set(), f) == xor_over(cells.take(i).to_set(), f) ^ f(
            cells[i],
        ),
{
    let done = cells.take(i);
    let p = cells[i];
    assert(cells.take(i + 1) =~= done.push(p));
    done.lemma_push_to_set_commute(p);
    assert(!done.to_set().contains(p)) by {
        if done.contains(p) {
            let k = choose|k: int| 0 <= k < done.len() && done[k] == p;
            assert(cells[k] == cells[i]);
        }
    }
    vstd::seq_lib::seq_to_set_is_finite(done);
    lemma_xor_over_one_more(done.to_set(), f, p);
}

} // verus!
