//! The result of an analysis: the invariants found, ordered by the position
//! of the loop they belong to.

use vstd::prelude::*;
use crate::abstract_domains::abstract_domain::AbstractDomain;
use crate::parser::ast::Position;
use crate::state::{Entries, State};

verus! {

/// The state computed for a loop head.
pub type Invariant<D> = State<D>;

/// Positions with their states, in the order of the positions.
pub type Records<D> = Seq<(Position, Entries<D>)>;

/// Whether the positions strictly ascend.
pub open spec fn ascending<D>(s: Records<D>) -> bool {
    forall|i: int, j: int| 0 <= i < j < s.len() ==> (#[trigger] s[i]).0.before((#[trigger] s[j]).0)
}

/// The number of records that come before `pos`, in ascending records.
pub open spec fn rank<D>(s: Records<D>, pos: Position) -> int
    decreases s.len(),
{
    if s.len() == 0 {
        0
    } else if s.last().0.before(pos) {
        s.len() as int
    } else {
        rank(s.drop_last(), pos)
    }
}

/// The records after `state` was recorded for `pos`: in place of the record
/// of that position if there is one, else in the place that keeps the
/// positions ascending.
pub open spec fn placed<D>(s: Records<D>, pos: Position, state: Entries<D>) -> Records<D> {
    let k = rank(s, pos);
    if k < s.len() && s[k].0 == pos {
        s.update(k, (pos, state))
    } else {
        s.insert(k, (pos, state))
    }
}

/// In ascending records the rank of `pos` is the index of the first record
/// that does not come before it.
pub proof fn lemma_rank<D>(s: Records<D>, pos: Position, i: int)
    requires
        ascending(s),
        0 <= i <= s.len(),
        forall|j: int| 0 <= j < i ==> (#[trigger] s[j]).0.before(pos),
        i < s.len() ==> !s[i].0.before(pos),
    ensures
        rank(s, pos) == i,
    decreases s.len(),
{
    if s.len() > 0 {
        if s.last().0.before(pos) {
            if i < s.len() {
                assert(s[i].0.before(s[s.len() - 1].0) || i == s.len() - 1);
            }
        } else {
            let rest = s.drop_last();
            assert(ascending(rest)) by {
                assert forall|a: int, b: int| 0 <= a < b < rest.len() implies (#[trigger] rest[a]).0.before(
                    (#[trigger] rest[b]).0,
                ) by {
                    assert(rest[a] == s[a] && rest[b] == s[b]);
                }
            }
            assert(i < s.len());
            assert forall|j: int| 0 <= j < i implies (#[trigger] rest[j]).0.before(pos) by {
                assert(rest[j] == s[j]);
            }
            if i < rest.len() {
                assert(rest[i] == s[i]);
            }
            lemma_rank(rest, pos, i);
        }
    }
}

/// Recording keeps the positions ascending.
pub proof fn lemma_placed_ascending<D>(s: Records<D>, pos: Position, state: Entries<D>, i: int)
    requires
        ascending(s),
        0 <= i <= s.len(),
        forall|j: int| 0 <= j < i ==> (#[trigger] s[j]).0.before(pos),
        i < s.len() ==> !s[i].0.before(pos),
    ensures
        ascending(placed(s, pos, state)),
{
    lemma_rank(s, pos, i);
    let r = placed(s, pos, state);
    if i < s.len() && s[i].0 == pos {
        assert forall|a: int, b: int| 0 <= a < b < r.len() implies (#[trigger] r[a]).0.before(
            (#[trigger] r[b]).0,
        ) by {
            assert(r[a].0 == s[a].0 && r[b].0 == s[b].0);
        }
    } else {
        assert forall|a: int, b: int| 0 <= a < b < r.len() implies (#[trigger] r[a]).0.before(
            (#[trigger] r[b]).0,
        ) by {
            let sa = if a < i { a } else { a - 1 };
            let sb = if b < i { b } else { b - 1 };
            if a != i {
                assert(r[a] == s[sa]);
            }
            if b != i {
                assert(r[b] == s[sb]);
            }
            if i < s.len() {
                // Positions are totally ordered: what is neither before nor
                // equal to `pos` comes after it.
                assert(pos.before(s[i].0));
                if b != i && sb > i {
                    assert(s[i].0.before(s[sb].0));
                }
            }
        }
    }
}

/// What was recorded for a position is on record for it.
pub proof fn lemma_placed_is_recorded<D>(s: Records<D>, pos: Position, state: Entries<D>)
    ensures
        0 <= rank(s, pos) < placed(s, pos, state).len(),
        placed(s, pos, state)[rank(s, pos)] == (pos, state),
{
    lemma_rank_bounds(s, pos);
}

/// The rank lies within the records or at their end.
pub proof fn lemma_rank_bounds<D>(s: Records<D>, pos: Position)
    ensures
        0 <= rank(s, pos) <= s.len(),
    decreases s.len(),
{
    if s.len() > 0 && !s.last().0.before(pos) {
        lemma_rank_bounds(s.drop_last(), pos);
    }
}

/// The views of a vector of records.
pub open spec fn records_view<D: AbstractDomain>(v: Seq<(Position, State<D>)>) -> Records<D> {
    Seq::new(v.len(), |i: int| (v[i].0, v[i].1@))
}

/// The searches for loop invariants, in the order in which they ended: for
/// each the position of the loop and its candidates, from the state that
/// the loop was entered with to the invariant found.
pub type Searches<D> = Seq<(Position, Seq<Entries<D>>)>;

/// The views of a vector of states.
pub open spec fn states_view<D: AbstractDomain>(v: Seq<State<D>>) -> Seq<Entries<D>> {
    Seq::new(v.len(), |i: int| v[i]@)
}

/// The views of a vector of searches.
pub open spec fn searches_view<D: AbstractDomain>(v: Seq<(Position, Vec<State<D>>)>) -> Searches<D> {
    Seq::new(v.len(), |i: int| (v[i].0, states_view(v[i].1@)))
}

/// A copy of the states.
pub fn clone_states<D: AbstractDomain>(v: &Vec<State<D>>) -> (r: Vec<State<D>>)
    ensures
        states_view(r@) == states_view(v@),
{
    let mut r: Vec<State<D>> = Vec::new();
    let mut i: usize = 0;
    while i < v.len()
        invariant
            i <= v.len(),
            states_view(r@) == states_view(v@).take(i as int),
        decreases v.len() - i,
    {
        let ghost before = states_view(r@);
        r.push(v[i].clone());
        assert(states_view(r@) == before.push(states_view(v@)[i as int]));
        assert(states_view(v@).take(i + 1) == states_view(v@).take(i as int).push(
            states_view(v@)[i as int],
        ));
        i += 1;
    }
    assert(states_view(v@).take(i as int) == states_view(v@));
    r
}

/// The invariants of a program: for the position of each loop the state at
/// its head, and under the greatest position the state at the end. With
/// them, for diagnosis, the candidates of every search for an invariant.
#[derive(Debug)]
pub struct ProgramInvariants<D: AbstractDomain> {
    records: Vec<(Position, State<D>)>,
    searches: Vec<(Position, Vec<State<D>>)>,
}

impl<D: AbstractDomain> View for ProgramInvariants<D> {
    type V = Records<D>;

    closed spec fn view(&self) -> Records<D> {
        records_view(self.records@)
    }
}

impl<D: AbstractDomain> Clone for ProgramInvariants<D> {
    fn clone(&self) -> (r: ProgramInvariants<D>)
        ensures
            r@ == self@,
            r.searches() == self.searches(),
    {
        proof {
            use_type_invariant(self);
        }
        let mut records: Vec<(Position, State<D>)> = Vec::new();
        let mut i: usize = 0;
        while i < self.records.len()
            invariant
                i <= self.records.len(),
                records_view(records@) == self@.take(i as int),
                self@ == records_view(self.records@),
            decreases self.records.len() - i,
        {
            let ghost before = records_view(records@);
            records.push((self.records[i].0, self.records[i].1.clone()));
            assert(records_view(records@) == before.push(self@[i as int]));
            assert(self@.take(i + 1) == self@.take(i as int).push(self@[i as int]));
            i += 1;
        }
        assert(self@.take(i as int) == self@);
        let mut searches: Vec<(Position, Vec<State<D>>)> = Vec::new();
        let mut j: usize = 0;
        while j < self.searches.len()
            invariant
                j <= self.searches.len(),
                searches_view(searches@) == self.searches().take(j as int),
                self.searches() == searches_view(self.searches@),
            decreases self.searches.len() - j,
        {
            let ghost before = searches_view(searches@);
            searches.push((self.searches[j].0, clone_states(&self.searches[j].1)));
            assert(searches_view(searches@) == before.push(self.searches()[j as int]));
            assert(self.searches().take(j + 1) == self.searches().take(j as int).push(
                self.searches()[j as int],
            ));
            j += 1;
        }
        assert(self.searches().take(j as int) == self.searches());
        ProgramInvariants { records, searches }
    }
}

impl<D: AbstractDomain> ProgramInvariants<D> {
    #[verifier::type_invariant]
    spec fn well_formed(&self) -> bool {
        ascending(self@)
    }

    /// The searches noted so far.
    pub closed spec fn searches(&self) -> Searches<D> {
        searches_view(self.searches@)
    }

    /// No invariants and no searches.
    pub fn new() -> (r: ProgramInvariants<D>)
        ensures
            r@.len() == 0,
            r.searches().len() == 0,
    {
        ProgramInvariants { records: Vec::new(), searches: Vec::new() }
    }

    /// The number of searches noted.
    pub fn searches_len(&self) -> (r: usize)
        ensures
            r == self.searches().len(),
    {
        self.searches.len()
    }

    /// The position of the loop of the search `i`.
    pub fn search_position(&self, i: usize) -> (r: Position)
        requires
            i < self.searches().len(),
        ensures
            r == self.searches()[i as int].0,
    {
        self.searches[i].0
    }

    /// The candidates of the search `i`, in their order.
    pub fn search_iterates(&self, i: usize) -> (r: &Vec<State<D>>)
        requires
            i < self.searches().len(),
        ensures
            states_view(r@) == self.searches()[i as int].1,
    {
        &self.searches[i].1
    }

    /// Notes a search that ended: the loop at `pos` and its candidates.
    pub fn note_search(&mut self, pos: Position, iterates: Vec<State<D>>)
        ensures
            final(self).searches() == old(self).searches().push((pos, states_view(iterates@))),
            final(self)@ == old(self)@,
    {
        proof {
            use_type_invariant(&*self);
        }
        let ghost before = self.searches();
        let mut taken = ProgramInvariants { records: Vec::new(), searches: Vec::new() };
        core::mem::swap(self, &mut taken);
        let records = taken.records;
        let mut searches = taken.searches;
        searches.push((pos, iterates));
        assert(searches_view(searches@) == before.push((pos, states_view(iterates@))));
        *self = ProgramInvariants { records, searches };
    }

    /// The number of records.
    pub fn len(&self) -> (r: usize)
        ensures
            r == self@.len(),
            ascending(self@),
    {
        proof {
            use_type_invariant(self);
        }
        self.records.len()
    }

    /// The position of the record `i`.
    pub fn position(&self, i: usize) -> (r: Position)
        requires
            i < self@.len(),
        ensures
            r == self@[i as int].0,
    {
        self.records[i].0
    }

    /// The state of the record `i`.
    pub fn state_at(&self, i: usize) -> (r: &State<D>)
        requires
            i < self@.len(),
        ensures
            r@ == self@[i as int].1,
    {
        &self.records[i].1
    }

    /// Records `state` for `pos`, in place of an earlier record for it.
    pub fn insert(&mut self, pos: Position, state: State<D>)
        ensures
            final(self)@ == placed(old(self)@, pos, state@),
            final(self).searches() == old(self).searches(),
    {
        proof {
            use_type_invariant(&*self);
        }
        let ghost before = self@;
        let mut taken = ProgramInvariants { records: Vec::new(), searches: Vec::new() };
        core::mem::swap(self, &mut taken);
        let mut records = taken.records;
        let searches = taken.searches;
        let mut i: usize = 0;
        while i < records.len() && records[i].0.precedes(&pos)
            invariant
                i <= records.len(),
                records_view(records@) == before,
                forall|j: int| 0 <= j < i ==> (#[trigger] before[j]).0.before(pos),
            decreases records.len() - i,
        {
            i += 1;
        }
        proof {
            lemma_rank(before, pos, i as int);
            lemma_placed_ascending(before, pos, state@, i as int);
        }
        if i < records.len() && records[i].0 == pos {
            records.set(i, (pos, state));
            assert(records_view(records@) == before.update(i as int, (pos, state@)));
        } else {
            records.insert(i, (pos, state));
            assert(records_view(records@) == before.insert(i as int, (pos, state@)));
        }
        *self = ProgramInvariants { records, searches };
    }
}

} // verus!
