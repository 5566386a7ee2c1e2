//! Why the search for a loop invariant ends: with widening, every round
//! that changes the candidate lowers a rank that is a natural number, so
//! that the search is over after no more rounds than the rank of its first
//! candidate, and the limit on the rounds is not reached where it is
//! greater than that rank.

use vstd::prelude::*;
use crate::abstract_domains::abstract_domain::AbstractDomain;
use crate::abstract_domains::interval::{DomainBounds, Interval};
use crate::abstract_domains::widening_laws::{interval_rank, lemma_widening_progress};
use crate::interpreter::{guarded, run, step, Setup};
use crate::invariants::Records;
use crate::parser::ast::Statement;
use crate::soundness::shapes::{lemma_body_shape, lemma_step_shape};
use crate::state::{
    distinct_keys, equal, joined, keys_of, lemma_index_of, lemma_same_keys, widened, zipped,
    Entries, Pointwise,
};

verus! {

/// The rank of a state: the sum of the ranks of its intervals.
pub open spec fn state_rank(ts: Seq<i64>, x: Entries<Interval>, bounds: DomainBounds) -> nat
    decreases x.len(),
{
    if x.len() == 0 {
        0
    } else {
        state_rank(ts, x.drop_last(), bounds) + interval_rank(ts, x.last().1, bounds)
    }
}

/// States of which each interval equals the interval at the same place of
/// the other, or has a lower rank, are equal place by place, or the first
/// has the lower rank.
proof fn lemma_ranks_add_up(
    ts: Seq<i64>,
    w: Entries<Interval>,
    x: Entries<Interval>,
    bounds: DomainBounds,
)
    requires
        w.len() == x.len(),
        forall|i: int|
            0 <= i < x.len() ==> (#[trigger] w[i]).1.spec_eq(x[i].1, bounds) || interval_rank(
                ts,
                w[i].1,
                bounds,
            ) < interval_rank(ts, x[i].1, bounds),
    ensures
        state_rank(ts, w, bounds) <= state_rank(ts, x, bounds),
        (forall|i: int| 0 <= i < x.len() ==> (#[trigger] w[i]).1.spec_eq(x[i].1, bounds))
            || state_rank(ts, w, bounds) < state_rank(ts, x, bounds),
    decreases x.len(),
{
    if x.len() > 0 {
        let (wr, xr) = (w.drop_last(), x.drop_last());
        assert forall|i: int| 0 <= i < xr.len() implies (#[trigger] wr[i]).1.spec_eq(
            xr[i].1,
            bounds,
        ) || interval_rank(ts, wr[i].1, bounds) < interval_rank(ts, xr[i].1, bounds) by {
            assert(wr[i] == w[i] && xr[i] == x[i]);
        }
        lemma_ranks_add_up(ts, wr, xr, bounds);
        let n = x.len() - 1;
        assert(w.last() == w[n] && x.last() == x[n]);
        if forall|i: int| 0 <= i < xr.len() ==> (#[trigger] wr[i]).1.spec_eq(xr[i].1, bounds) {
            if w[n].1.spec_eq(x[n].1, bounds) {
                assert forall|i: int| 0 <= i < x.len() implies (#[trigger] w[i]).1.spec_eq(
                    x[i].1,
                    bounds,
                ) by {
                    if i < n {
                        assert(wr[i] == w[i] && xr[i] == x[i]);
                    }
                }
            }
        }
    }
}

/// A widening of a state equals the state or has a lower rank.
pub proof fn lemma_widened_rank(
    ts: Seq<i64>,
    x: Entries<Interval>,
    c: Entries<Interval>,
    bounds: DomainBounds,
)
    requires
        x.len() > 0,
        distinct_keys(x),
        keys_of(x) == keys_of(c),
    ensures
        equal(x, widened(x, c, ts.to_set(), bounds), bounds) || state_rank(
            ts,
            widened(x, c, ts.to_set(), bounds),
            bounds,
        ) < state_rank(ts, x, bounds),
{
    lemma_same_keys(x, c);
    let w = zipped(Pointwise::Widening, x, c, ts.to_set(), bounds);
    assert(w == widened(x, c, ts.to_set(), bounds));
    assert(keys_of(w) =~= keys_of(x));
    lemma_same_keys(w, x);
    assert forall|i: int| 0 <= i < x.len() implies (#[trigger] w[i]).1.spec_eq(x[i].1, bounds)
        || interval_rank(ts, w[i].1, bounds) < interval_rank(ts, x[i].1, bounds) by {
        assert(keys_of(x)[i] == keys_of(c)[i]);
        assert(c[i].0 == x[i].0);
        lemma_index_of(c, i);
        lemma_widening_progress(x[i].1, c[i].1, ts, bounds);
    }
    lemma_ranks_add_up(ts, w, x, bounds);
    if forall|i: int| 0 <= i < x.len() ==> (#[trigger] w[i]).1.spec_eq(x[i].1, bounds) {
        assert forall|i: int| 0 <= i < x.len() implies crate::state::has_key(
            w,
            (#[trigger] x[i]).0,
        ) && x[i].1.spec_eq(crate::state::value_of(w, x[i].0), bounds) by {
            assert(w[i].0 == x[i].0);
            lemma_index_of(w, i);
            assert(w[i].1.spec_eq(x[i].1, bounds));
        }
    }
}

/// Whether the search for an invariant of the loop `stmt` from the
/// candidate `x` ends within `fuel` rounds with a candidate that a round
/// leaves as it is.
pub open spec fn search_ends(
    stmt: Statement,
    input: Entries<Interval>,
    x: Entries<Interval>,
    records: Records<Interval>,
    setup: Setup<Interval>,
    fuel: nat,
) -> bool
    decreases fuel,
{
    if fuel == 0 || !(stmt is While) {
        false
    } else {
        let (after_body, records1) = run(
            *stmt->body,
            guarded(*stmt->While_guard, x, setup.bounds, setup.limit),
            records,
            setup,
        );
        let next = step(input, x, after_body, setup);
        equal(x, next, setup.bounds) || search_ends(
            stmt,
            input,
            next,
            records1,
            setup,
            (fuel - 1) as nat,
        )
    }
}

/// With widening, the search for an invariant ends within more rounds than
/// the rank of its first candidate, whatever the body of the loop does.
pub proof fn lemma_search_ends(
    stmt: Statement,
    input: Entries<Interval>,
    x: Entries<Interval>,
    records: Records<Interval>,
    setup: Setup<Interval>,
    ts: Seq<i64>,
    fuel: nat,
)
    requires
        stmt is While,
        Interval::spec_needs_widening(setup.bounds),
        ts.to_set() == setup.thresholds,
        distinct_keys(input),
        input.len() > 0,
        x.len() > 0,
        keys_of(x) == keys_of(input),
        fuel > state_rank(ts, x, setup.bounds),
    ensures
        search_ends(stmt, input, x, records, setup, fuel),
    decreases fuel,
{
    let (after_body, records1) = run(
        *stmt->body,
        guarded(*stmt->While_guard, x, setup.bounds, setup.limit),
        records,
        setup,
    );
    lemma_body_shape(stmt, x, records, setup);
    lemma_step_shape(input, x, after_body, setup);
    let target = joined(input, after_body, setup.bounds);
    let next = step(input, x, after_body, setup);
    lemma_same_keys(x, input);
    lemma_widened_rank(ts, x, target, setup.bounds);
    if !equal(x, next, setup.bounds) {
        lemma_search_ends(stmt, input, next, records1, setup, ts, (fuel - 1) as nat);
    }
}

} // verus!
