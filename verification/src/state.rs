//! Abstract states: finite maps from variable names to abstract values, with
//! a bottom state that stands for "unreachable".

use vstd::prelude::*;
use vstd::string::StringExecFns;
use crate::abstract_domains::abstract_domain::AbstractDomain;

verus! {

/// The content of a state: the variables in the order in which they were
/// declared, each with its value. No name occurs twice.
pub type Entries<D> = Seq<(Seq<char>, D)>;

/// Whether some entry has the name `key`.
pub open spec fn has_key<D>(e: Entries<D>, key: Seq<char>) -> bool {
    exists|i: int| 0 <= i < e.len() && (#[trigger] e[i]).0 == key
}

/// The index of the entry named `key`.
pub open spec fn index_of<D>(e: Entries<D>, key: Seq<char>) -> int {
    choose|i: int| 0 <= i < e.len() && (#[trigger] e[i]).0 == key
}

/// The value of the entry named `key`.
pub open spec fn value_of<D>(e: Entries<D>, key: Seq<char>) -> D
    recommends
        has_key(e, key),
{
    e[index_of(e, key)].1
}

/// Whether no name occurs twice.
pub open spec fn distinct_keys<D>(e: Entries<D>) -> bool {
    forall|i: int, j: int|
        0 <= i < e.len() && 0 <= j < e.len() && (#[trigger] e[i]).0 == (#[trigger] e[j]).0 ==> i
            == j
}

/// Whether every name of `a` is a name of `b`.
pub open spec fn keys_within<D>(a: Entries<D>, b: Entries<D>) -> bool {
    forall|i: int| 0 <= i < a.len() ==> has_key(b, (#[trigger] a[i]).0)
}

/// The names, in order.
pub open spec fn keys_of<D>(e: Entries<D>) -> Seq<Seq<char>> {
    Seq::new(e.len(), |i: int| e[i].0)
}

/// The entries after `key` was bound to `value`: a new last entry if the name
/// is new, else the old entry with the new value.
pub open spec fn bound<D>(e: Entries<D>, key: Seq<char>, value: D) -> Entries<D> {
    if has_key(e, key) {
        e.update(index_of(e, key), (key, value))
    } else {
        e.push((key, value))
    }
}

/// The entries that binding the pairs one after the other gives.
pub open spec fn from_pairs<D>(pairs: Entries<D>) -> Entries<D>
    decreases pairs.len(),
{
    if pairs.len() == 0 {
        Seq::empty()
    } else {
        bound(from_pairs(pairs.drop_last()), pairs.last().0, pairs.last().1)
    }
}

/// The four ways in which two states are combined variable by variable.
#[derive(Clone, Copy, Debug, PartialEq, Eq, Structural)]
pub enum Pointwise {
    Lub,
    Glb,
    Widening,
    Narrowing,
}

/// The combination of two values.
pub open spec fn combined<D: AbstractDomain>(
    kind: Pointwise,
    a: D,
    b: D,
    thresholds: Set<i64>,
    bounds: D::Bounds,
) -> D {
    match kind {
        Pointwise::Lub => a.spec_lub(b, bounds),
        Pointwise::Glb => a.spec_glb(b, bounds),
        Pointwise::Widening => a.spec_widening(b, thresholds, bounds),
        Pointwise::Narrowing => a.spec_narrowing(b, bounds),
    }
}

/// The entries of `a`, each combined with the value that `b` has under the
/// same name; an entry whose name `b` lacks is kept.
pub open spec fn zipped<D: AbstractDomain>(
    kind: Pointwise,
    a: Entries<D>,
    b: Entries<D>,
    thresholds: Set<i64>,
    bounds: D::Bounds,
) -> Entries<D> {
    Seq::new(
        a.len(),
        |i: int|
            (
                a[i].0,
                if has_key(b, a[i].0) {
                    combined(kind, a[i].1, value_of(b, a[i].0), thresholds, bounds)
                } else {
                    a[i].1
                },
            ),
    )
}

/// The entries of `b` whose names `a` lacks, in their order.
pub open spec fn extras<D>(a: Entries<D>, b: Entries<D>) -> Entries<D>
    decreases b.len(),
{
    if b.len() == 0 {
        Seq::empty()
    } else if has_key(a, b.last().0) {
        extras(a, b.drop_last())
    } else {
        extras(a, b.drop_last()).push(b.last())
    }
}

/// The join of two states: the other state where one is bottom, else the
/// join variable by variable, followed by the variables that only `b` has.
pub open spec fn joined<D: AbstractDomain>(a: Entries<D>, b: Entries<D>, bounds: D::Bounds) -> Entries<D> {
    if a.len() == 0 {
        b
    } else if b.len() == 0 {
        a
    } else {
        zipped(Pointwise::Lub, a, b, Set::empty(), bounds) + extras(a, b)
    }
}

/// The meet of two states: bottom where one is bottom, else the meet
/// variable by variable, followed by the variables that only `b` has.
pub open spec fn met<D: AbstractDomain>(a: Entries<D>, b: Entries<D>, bounds: D::Bounds) -> Entries<D> {
    if a.len() == 0 || b.len() == 0 {
        Seq::empty()
    } else {
        zipped(Pointwise::Glb, a, b, Set::empty(), bounds) + extras(a, b)
    }
}

/// The widening of `a` by `b`, variable by variable; the other state where
/// one is bottom.
pub open spec fn widened<D: AbstractDomain>(
    a: Entries<D>,
    b: Entries<D>,
    thresholds: Set<i64>,
    bounds: D::Bounds,
) -> Entries<D> {
    if a.len() == 0 {
        b
    } else if b.len() == 0 {
        a
    } else {
        zipped(Pointwise::Widening, a, b, thresholds, bounds)
    }
}

/// The narrowing of `a` by `b`, variable by variable; bottom where `a` is
/// bottom, and `a` itself where `b` is.
pub open spec fn narrowed<D: AbstractDomain>(a: Entries<D>, b: Entries<D>, bounds: D::Bounds) -> Entries<D> {
    if a.len() == 0 {
        Seq::empty()
    } else if b.len() == 0 {
        a
    } else {
        zipped(Pointwise::Narrowing, a, b, Set::empty(), bounds)
    }
}

/// The entries after an assignment of `value` to `key`: bottom if the value
/// is bottom, unchanged if the name is not declared.
pub open spec fn updated<D: AbstractDomain>(
    e: Entries<D>,
    key: Seq<char>,
    value: D,
    bounds: D::Bounds,
) -> Entries<D> {
    if value.spec_eq(D::spec_bottom(), bounds) {
        Seq::empty()
    } else if has_key(e, key) {
        e.update(index_of(e, key), (key, value))
    } else {
        e
    }
}

/// Whether two states have the same variables with equal values.
pub open spec fn equal<D: AbstractDomain>(a: Entries<D>, b: Entries<D>, bounds: D::Bounds) -> bool {
    &&& a.len() == b.len()
    &&& forall|i: int|
        0 <= i < a.len() ==> has_key(b, (#[trigger] a[i]).0) && a[i].1.spec_eq(
            value_of(b, a[i].0),
            bounds,
        )
}

/// With distinct names, the entry at an index is the one its name finds.
pub proof fn lemma_index_of<D>(e: Entries<D>, i: int)
    requires
        distinct_keys(e),
        0 <= i < e.len(),
    ensures
        has_key(e, e[i].0),
        index_of(e, e[i].0) == i,
        value_of(e, e[i].0) == e[i].1,
{
}

/// The names of an extra entry are names of `b` that `a` lacks, and no name
/// occurs twice among them.
pub proof fn lemma_extras<D>(a: Entries<D>, b: Entries<D>)
    requires
        distinct_keys(b),
    ensures
        distinct_keys(extras(a, b)),
        forall|i: int|
            0 <= i < extras(a, b).len() ==> !has_key(a, (#[trigger] extras(a, b)[i]).0) && has_key(
                b,
                extras(a, b)[i].0,
            ),
        forall|j: int|
            0 <= j < b.len() && !has_key(a, (#[trigger] b[j]).0) ==> has_key(extras(a, b), b[j].0),
    decreases b.len(),
{
    if b.len() > 0 {
        let rest = b.drop_last();
        lemma_extras(a, rest);
        let ex = extras(a, b);
        let exr = extras(a, rest);
        assert forall|i: int| 0 <= i < ex.len() implies !has_key(a, (#[trigger] ex[i]).0) && has_key(
            b,
            ex[i].0,
        ) by {
            if i < exr.len() {
                assert(ex[i] == exr[i]);
                let k = choose|k: int| 0 <= k < rest.len() && (#[trigger] rest[k]).0 == exr[i].0;
                assert(b[k] == rest[k]);
            } else {
                assert(ex[i] == b.last());
                assert(b[b.len() - 1] == b.last());
            }
        }
        assert forall|i: int, j: int|
            0 <= i < ex.len() && 0 <= j < ex.len() && (#[trigger] ex[i]).0 == (#[trigger] ex[j]).0
            implies i == j by {
            if i < exr.len() && j < exr.len() {
                assert(ex[i] == exr[i] && ex[j] == exr[j]);
            } else if i < exr.len() || j < exr.len() {
                let low = if i < exr.len() { i } else { j };
                assert(ex[low] == exr[low]);
                let k = choose|k: int| 0 <= k < rest.len() && (#[trigger] rest[k]).0 == exr[low].0;
                assert(b[k] == rest[k]);
                assert(b[b.len() - 1] == b.last());
            }
        }
        assert forall|j: int| 0 <= j < b.len() && !has_key(a, (#[trigger] b[j]).0) implies has_key(
            ex,
            b[j].0,
        ) by {
            if j < rest.len() {
                assert(rest[j] == b[j]);
                let k = choose|k: int| 0 <= k < exr.len() && (#[trigger] exr[k]).0 == b[j].0;
                assert(ex[k] == exr[k]);
            } else {
                assert(ex[ex.len() - 1] == b.last());
            }
        }
    }
}

/// Binding keeps the names distinct.
pub proof fn lemma_bound_distinct<D>(e: Entries<D>, key: Seq<char>, value: D)
    requires
        distinct_keys(e),
    ensures
        distinct_keys(bound(e, key, value)),
{
    let r = bound(e, key, value);
    if has_key(e, key) {
        let k = index_of(e, key);
        assert forall|i: int, j: int|
            0 <= i < r.len() && 0 <= j < r.len() && (#[trigger] r[i]).0 == (#[trigger] r[j]).0
            implies i == j by {
            assert(r[i].0 == e[i].0 && r[j].0 == e[j].0);
        }
    } else {
        assert forall|i: int, j: int|
            0 <= i < r.len() && 0 <= j < r.len() && (#[trigger] r[i]).0 == (#[trigger] r[j]).0
            implies i == j by {
            if i < e.len() {
                assert(r[i] == e[i]);
            }
            if j < e.len() {
                assert(r[j] == e[j]);
            }
        }
    }
}

/// What the thresholds are does not matter but to a widening.
pub proof fn lemma_zipped_without_thresholds<D: AbstractDomain>(
    kind: Pointwise,
    a: Entries<D>,
    b: Entries<D>,
    t1: Set<i64>,
    t2: Set<i64>,
    bounds: D::Bounds,
)
    requires
        kind != Pointwise::Widening,
    ensures
        zipped(kind, a, b, t1, bounds) == zipped(kind, a, b, t2, bounds),
{
    assert(zipped(kind, a, b, t1, bounds) =~= zipped(kind, a, b, t2, bounds));
}

/// A state combined with another, followed by what only the other has, has
/// no name twice.
pub proof fn lemma_merged_distinct<D: AbstractDomain>(
    kind: Pointwise,
    a: Entries<D>,
    b: Entries<D>,
    thresholds: Set<i64>,
    bounds: D::Bounds,
)
    requires
        distinct_keys(a),
        distinct_keys(b),
    ensures
        distinct_keys(zipped(kind, a, b, thresholds, bounds)),
        distinct_keys(zipped(kind, a, b, thresholds, bounds) + extras(a, b)),
{
    let z = zipped(kind, a, b, thresholds, bounds);
    let ex = extras(a, b);
    let r = z + ex;
    lemma_extras(a, b);
    assert forall|i: int, j: int|
        0 <= i < z.len() && 0 <= j < z.len() && (#[trigger] z[i]).0 == (#[trigger] z[j]).0
        implies i == j by {
        assert(z[i].0 == a[i].0 && z[j].0 == a[j].0);
    }
    assert forall|i: int, j: int|
        0 <= i < r.len() && 0 <= j < r.len() && (#[trigger] r[i]).0 == (#[trigger] r[j]).0
        implies i == j by {
        if i < z.len() && j < z.len() {
            assert(r[i] == z[i] && r[j] == z[j]);
        } else if i >= z.len() && j >= z.len() {
            assert(r[i] == ex[i - z.len()] && r[j] == ex[j - z.len()]);
        } else {
            let (low, high) = if i < z.len() { (i, j) } else { (j, i) };
            assert(r[low] == z[low] && z[low].0 == a[low].0);
            assert(r[high] == ex[high - z.len()]);
            assert(has_key(a, a[low].0));
        }
    }
}

/// Whether `a` is bottom or has the variables of `b`, in the same order.
pub open spec fn same_shape<D>(a: Entries<D>, b: Entries<D>) -> bool {
    a.len() == 0 || keys_of(a) == keys_of(b)
}

/// States with the same names declare the same variables.
pub proof fn lemma_same_keys<D>(a: Entries<D>, b: Entries<D>)
    requires
        keys_of(a) == keys_of(b),
    ensures
        keys_within(a, b),
        keys_within(b, a),
        a.len() == b.len(),
        forall|v: Seq<char>| has_key(a, v) <==> has_key(b, v),
        distinct_keys(a) <==> distinct_keys(b),
{
    assert(a.len() == keys_of(a).len() && b.len() == keys_of(b).len());
    assert forall|i: int| 0 <= i < a.len() implies (#[trigger] a[i]).0 == b[i].0 by {
        assert(keys_of(a)[i] == keys_of(b)[i]);
    }
    assert forall|i: int| 0 <= i < a.len() implies has_key(b, (#[trigger] a[i]).0) by {
        assert(b[i].0 == a[i].0);
    }
    assert forall|i: int| 0 <= i < b.len() implies has_key(a, (#[trigger] b[i]).0) by {
        assert(a[i].0 == b[i].0);
    }
    assert forall|v: Seq<char>| has_key(a, v) <==> has_key(b, v) by {
        if has_key(a, v) {
            let i = choose|i: int| 0 <= i < a.len() && (#[trigger] a[i]).0 == v;
            assert(b[i].0 == v);
        }
        if has_key(b, v) {
            let i = choose|i: int| 0 <= i < b.len() && (#[trigger] b[i]).0 == v;
            assert(a[i].0 == v);
        }
    }
    if distinct_keys(a) {
        assert forall|i: int, j: int|
            0 <= i < b.len() && 0 <= j < b.len() && (#[trigger] b[i]).0 == (#[trigger] b[j]).0
            implies i == j by {
            assert(a[i].0 == b[i].0 && a[j].0 == b[j].0);
        }
    }
    if distinct_keys(b) {
        assert forall|i: int, j: int|
            0 <= i < a.len() && 0 <= j < a.len() && (#[trigger] a[i]).0 == (#[trigger] a[j]).0
            implies i == j by {
            assert(a[i].0 == b[i].0 && a[j].0 == b[j].0);
        }
    }
}

/// Nothing is extra in a state all of whose names the other one has.
pub proof fn lemma_no_extras<D>(a: Entries<D>, b: Entries<D>)
    requires
        keys_within(b, a),
    ensures
        extras(a, b) == Seq::<(Seq<char>, D)>::empty(),
    decreases b.len(),
{
    if b.len() > 0 {
        let rest = b.drop_last();
        assert forall|i: int| 0 <= i < rest.len() implies has_key(a, (#[trigger] rest[i]).0) by {
            assert(rest[i] == b[i]);
        }
        lemma_no_extras(a, rest);
        assert(b.last() == b[b.len() - 1]);
    }
}

/// An assignment leaves the names as they are, or makes the state bottom.
pub proof fn lemma_updated_shape<D: AbstractDomain>(
    e: Entries<D>,
    key: Seq<char>,
    value: D,
    bounds: D::Bounds,
)
    ensures
        same_shape(updated(e, key, value, bounds), e),
{
    let r = updated(e, key, value, bounds);
    if r.len() > 0 {
        assert(keys_of(r) =~= keys_of(e));
    }
}

/// Combining two states that are bottom or have the names of `env` gives a
/// state that is bottom or has the names of `env`.
pub proof fn lemma_pointwise_shape<D: AbstractDomain>(
    a: Entries<D>,
    b: Entries<D>,
    env: Entries<D>,
    thresholds: Set<i64>,
    bounds: D::Bounds,
)
    requires
        same_shape(a, env),
        same_shape(b, env),
    ensures
        same_shape(joined(a, b, bounds), env),
        same_shape(met(a, b, bounds), env),
        same_shape(widened(a, b, thresholds, bounds), env),
        same_shape(narrowed(a, b, bounds), env),
        a.len() == 0 || b.len() == 0 || keys_within(a, b),
        a.len() > 0 ==> joined(a, b, bounds).len() > 0,
{
    if a.len() > 0 && b.len() > 0 {
        lemma_same_keys(a, b);
        lemma_no_extras(a, b);
        let z = zipped(Pointwise::Lub, a, b, Set::empty(), bounds);
        assert(z + Seq::<(Seq<char>, D)>::empty() == z);
        assert(keys_of(z) =~= keys_of(a));
        let z2 = zipped(Pointwise::Glb, a, b, Set::empty(), bounds);
        assert(z2 + Seq::<(Seq<char>, D)>::empty() == z2);
        assert(keys_of(z2) =~= keys_of(a));
        assert(keys_of(zipped(Pointwise::Widening, a, b, thresholds, bounds)) =~= keys_of(a));
        assert(keys_of(zipped(Pointwise::Narrowing, a, b, Set::empty(), bounds)) =~= keys_of(a));
    }
}

/// The state with the names of `e` and `value` for every variable.
pub open spec fn filled<D>(e: Entries<D>, value: D) -> Entries<D> {
    Seq::new(e.len(), |i: int| (e[i].0, value))
}

/// The text of the entries: `name := value ` for each, in order.
pub open spec fn entries_text<D: AbstractDomain>(e: Entries<D>, bounds: D::Bounds) -> Seq<char>
    decreases e.len(),
{
    if e.len() == 0 {
        Seq::empty()
    } else {
        entries_text(e.drop_last(), bounds) + e.last().0 + seq![' ', ':', '=', ' ']
            + e.last().1.spec_text(bounds) + seq![' ']
    }
}

/// The text of a state: `{ name := value name := value }`.
pub open spec fn state_text<D: AbstractDomain>(e: Entries<D>, bounds: D::Bounds) -> Seq<char> {
    seq!['{', ' '] + entries_text(e, bounds) + seq!['}']
}

/// The value of the last pair named `key`.
pub open spec fn last_value<D>(pairs: Entries<D>, key: Seq<char>) -> D
    recommends
        has_key(pairs, key),
    decreases pairs.len(),
{
    if pairs.len() == 0 {
        arbitrary()
    } else if pairs.last().0 == key {
        pairs.last().1
    } else {
        last_value(pairs.drop_last(), key)
    }
}

/// Binding the pairs one after the other gives a state with the names of
/// the pairs, each once, and for each name the value of the last pair that
/// has it.
pub proof fn lemma_from_pairs<D>(pairs: Entries<D>)
    ensures
        distinct_keys(from_pairs(pairs)),
        forall|k: Seq<char>| has_key(from_pairs(pairs), k) <==> has_key(pairs, k),
        forall|k: Seq<char>|
            has_key(pairs, k) ==> value_of(from_pairs(pairs), k) == #[trigger] last_value(pairs, k),
    decreases pairs.len(),
{
    let r = from_pairs(pairs);
    if pairs.len() == 0 {
    } else {
        let rest = pairs.drop_last();
        let last = pairs.last();
        let e = from_pairs(rest);
        lemma_from_pairs(rest);
        lemma_bound_distinct(e, last.0, last.1);
        assert(pairs[pairs.len() - 1] == last);
        let n = pairs.len() - 1;
        assert(rest.len() == n);
        let there = has_key(e, last.0);
        let at_last = if there {
            index_of(e, last.0)
        } else {
            e.len() as int
        };
        assert(0 <= at_last < r.len() && r[at_last] == last);
        assert forall|i: int| 0 <= i < r.len() && i != at_last implies 0 <= i < e.len()
            && #[trigger] r[i] == e[i] by {}
        assert forall|i: int| 0 <= i < e.len() implies 0 <= i < r.len() && (#[trigger] r[i]).0
            == e[i].0 by {}
        assert forall|k: Seq<char>| has_key(r, k) <==> has_key(pairs, k) by {
            if has_key(r, k) {
                let i = choose|i: int| 0 <= i < r.len() && (#[trigger] r[i]).0 == k;
                if k != last.0 {
                    assert(i != at_last);
                    assert(e[i].0 == k);
                    assert(has_key(e, k));
                    assert(has_key(rest, k));
                    let j = choose|j: int| 0 <= j < rest.len() && (#[trigger] rest[j]).0 == k;
                    assert(pairs[j] == rest[j]);
                } else {
                    assert(pairs[n].0 == k);
                }
            }
            if has_key(pairs, k) {
                let j = choose|j: int| 0 <= j < pairs.len() && (#[trigger] pairs[j]).0 == k;
                if k == last.0 {
                    assert(r[at_last].0 == k);
                } else {
                    assert(j != n);
                    assert(rest[j] == pairs[j]);
                    assert(has_key(rest, k));
                    assert(has_key(e, k));
                    let i = choose|i: int| 0 <= i < e.len() && (#[trigger] e[i]).0 == k;
                    assert(r[i].0 == k);
                }
            }
        }
        assert forall|k: Seq<char>| has_key(pairs, k) implies value_of(r, k) == #[trigger] last_value(
            pairs,
            k,
        ) by {
            if k == last.0 {
                lemma_index_of(r, at_last);
            } else {
                let j = choose|j: int| 0 <= j < pairs.len() && (#[trigger] pairs[j]).0 == k;
                assert(j != n);
                assert(rest[j] == pairs[j]);
                assert(has_key(rest, k));
                assert(has_key(e, k));
                assert(value_of(e, k) == last_value(rest, k));
                let at = index_of(e, k);
                assert(e[at].0 == k);
                assert(at != at_last);
                assert(r[at] == e[at]);
                lemma_index_of(r, at);
            }
        }
    }
}

/// The names of a vector of pairs, each with its value.
pub open spec fn pairs_view<D>(v: Seq<(String, D)>) -> Entries<D> {
    Seq::new(v.len(), |i: int| (v[i].0@, v[i].1))
}

/// A state: the values of the declared variables, or bottom, which is the
/// state without variables.
#[derive(Debug)]
pub struct State<D: AbstractDomain> {
    vars: Vec<(String, D)>,
}

impl<D: AbstractDomain> View for State<D> {
    type V = Entries<D>;

    closed spec fn view(&self) -> Entries<D> {
        pairs_view(self.vars@)
    }
}

impl<D: AbstractDomain> Default for State<D> {
    /// The bottom state.
    fn default() -> (r: State<D>)
        ensures
            r@.len() == 0,
    {
        State { vars: Vec::new() }
    }
}

impl<D: AbstractDomain> Clone for State<D> {
    fn clone(&self) -> (r: State<D>)
        ensures
            r@ == self@,
    {
        proof {
            use_type_invariant(self);
        }
        let mut vars: Vec<(String, D)> = Vec::new();
        let mut i: usize = 0;
        while i < self.vars.len()
            invariant
                i <= self.vars.len(),
                pairs_view(vars@) == pairs_view(self.vars@).take(i as int),
            decreases self.vars.len() - i,
        {
            let ghost before = pairs_view(vars@);
            vars.push((self.vars[i].0.clone(), self.vars[i].1));
            assert(pairs_view(vars@) == before.push((self.vars@[i as int].0@, self.vars@[i as int].1)));
            assert(pairs_view(self.vars@).take(i + 1) == pairs_view(self.vars@).take(i as int).push(
                pairs_view(self.vars@)[i as int],
            ));
            i += 1;
        }
        assert(pairs_view(self.vars@).take(i as int) == pairs_view(self.vars@));
        State { vars }
    }
}

impl<D: AbstractDomain> State<D> {
    #[verifier::type_invariant]
    spec fn well_formed(&self) -> bool {
        distinct_keys(self@)
    }

    /// The position of the variable `var`, if it is declared.
    fn find(&self, var: &String) -> (r: Option<usize>)
        ensures
            distinct_keys(self@),
            match r {
                Some(i) => i < self@.len() && i < self.vars@.len() && self@[i as int].0 == var@
                    && has_key(self@, var@) && index_of(self@, var@) == i,
                None => !has_key(self@, var@),
            },
    {
        proof {
            use_type_invariant(self);
        }
        let mut i: usize = 0;
        while i < self.vars.len()
            invariant
                i <= self.vars.len(),
                distinct_keys(self@),
                forall|j: int| 0 <= j < i ==> (#[trigger] self@[j]).0 != var@,
            decreases self.vars.len() - i,
        {
            if self.vars[i].0 == *var {
                proof {
                    lemma_index_of(self@, i as int);
                }
                return Some(i);
            }
            i += 1;
        }
        None
    }

    /// Binds `key` to `value`, as a new last variable if the name is new.
    fn bind(&mut self, key: String, value: D)
        ensures
            final(self)@ == bound(old(self)@, key@, value),
    {
        proof {
            use_type_invariant(&*self);
            lemma_bound_distinct(self@, key@, value);
        }
        let ghost before = self@;
        let found = self.find(&key);
        let mut vars = self.take_vars();
        match found {
            Some(i) => {
                vars.set(i, (key, value));
                assert(pairs_view(vars@) == before.update(i as int, (key@, value)));
            },
            None => {
                vars.push((key, value));
                assert(pairs_view(vars@) == before.push((key@, value)));
            },
        }
        *self = State { vars };
    }

    /// Moves the variables out and leaves the state bottom.
    fn take_vars(&mut self) -> (vars: Vec<(String, D)>)
        ensures
            pairs_view(vars@) == old(self)@,
            final(self)@.len() == 0,
    {
        let mut taken = State { vars: Vec::new() };
        core::mem::swap(self, &mut taken);
        taken.vars
    }

    /// The state that binding the pairs one after the other gives: a later
    /// pair replaces the value of an earlier one with the same name.
    pub fn new(vars: Vec<(String, D)>) -> (r: State<D>)
        ensures
            r@ == from_pairs(pairs_view(vars@)),
            distinct_keys(r@),
    {
        proof {
            lemma_from_pairs(pairs_view(vars@));
        }
        let mut r = State { vars: Vec::new() };
        let mut i: usize = 0;
        while i < vars.len()
            invariant
                i <= vars.len(),
                r@ == from_pairs(pairs_view(vars@).take(i as int)),
            decreases vars.len() - i,
        {
            let ghost prefix = pairs_view(vars@).take(i + 1);
            assert(prefix.drop_last() == pairs_view(vars@).take(i as int));
            assert(prefix.last() == (vars@[i as int].0@, vars@[i as int].1));
            r.bind(vars[i].0.clone(), vars[i].1);
            i += 1;
        }
        assert(pairs_view(vars@).take(i as int) == pairs_view(vars@));
        r
    }

    /// The bottom state.
    pub fn bottom() -> (r: State<D>)
        ensures
            r@ == Seq::<(Seq<char>, D)>::empty(),
    {
        State { vars: Vec::new() }
    }

    /// The number of variables. No name occurs twice among them.
    pub fn len(&self) -> (r: usize)
        ensures
            r == self@.len(),
            distinct_keys(self@),
    {
        proof {
            use_type_invariant(self);
        }
        self.vars.len()
    }

    /// Whether the state is bottom.
    pub fn is_bottom(&self) -> (r: bool)
        ensures
            r == (self@.len() == 0),
    {
        self.vars.len() == 0
    }

    /// Assigns `value` to `var`. A bottom value makes the whole state bottom;
    /// a name that is not declared leaves the state as it is.
    pub fn update(&mut self, var: &str, value: D, bounds: &D::Bounds)
        ensures
            final(self)@ == updated(old(self)@, var@, value, *bounds),
    {
        proof {
            use_type_invariant(&*self);
        }
        let ghost before = self@;
        let bottom = D::bottom();
        if value.eq(&bottom, bounds) {
            *self = State { vars: Vec::new() };
            assert(self@ == Seq::<(Seq<char>, D)>::empty());
        } else {
            let key = var.to_owned();
            match self.find(&key) {
                Some(i) => {
                    let mut vars = self.take_vars();
                    vars.set(i, (key, value));
                    assert(pairs_view(vars@) == before.update(i as int, (key@, value)));
                    proof {
                        lemma_bound_distinct(before, key@, value);
                    }
                    *self = State { vars };
                },
                None => {},
            }
        }
    }

    /// The value of a declared variable.
    pub fn lookup(&self, var: &str) -> (r: &D)
        requires
            has_key(self@, var@),
        ensures
            *r == value_of(self@, var@),
    {
        let key = var.to_owned();
        match self.find(&key) {
            Some(i) => &self.vars[i].1,
            None => {
                proof {
                    assert(false);
                }
                &self.vars[0].1
            },
        }
    }

    /// The combination of two values.
    fn combine(kind: Pointwise, a: &D, b: &D, thresholds: &Vec<i64>, bounds: &D::Bounds) -> (r: D)
        ensures
            r == combined(kind, *a, *b, thresholds@.to_set(), *bounds),
    {
        match kind {
            Pointwise::Lub => a.lub(b, bounds),
            Pointwise::Glb => a.glb(b, bounds),
            Pointwise::Widening => a.widening_operator(b, thresholds, bounds),
            Pointwise::Narrowing => a.narrowing(b, bounds),
        }
    }

    /// The variables of `self`, each combined with the value that `other`
    /// has for it.
    fn zip(
        &self,
        other: &State<D>,
        kind: Pointwise,
        thresholds: &Vec<i64>,
        bounds: &D::Bounds,
    ) -> (r: Vec<(String, D)>)
        ensures
            pairs_view(r@) == zipped(kind, self@, other@, thresholds@.to_set(), *bounds),
            distinct_keys(self@),
            distinct_keys(other@),
    {
        proof {
            use_type_invariant(self);
            use_type_invariant(other);
        }
        let ghost goal = zipped(kind, self@, other@, thresholds@.to_set(), *bounds);
        let mut r: Vec<(String, D)> = Vec::new();
        let mut i: usize = 0;
        while i < self.vars.len()
            invariant
                i <= self.vars.len(),
                self.vars@.len() == self@.len(),
                goal == zipped(kind, self@, other@, thresholds@.to_set(), *bounds),
                pairs_view(r@) == goal.take(i as int),
            decreases self.vars.len() - i,
        {
            let key = self.vars[i].0.clone();
            let value = match other.find(&key) {
                Some(j) => State::combine(kind, &self.vars[i].1, &other.vars[j].1, thresholds, bounds),
                None => self.vars[i].1,
            };
            let ghost before = pairs_view(r@);
            r.push((key, value));
            assert(pairs_view(r@) == before.push((key@, value)));
            assert(goal.take(i + 1) == goal.take(i as int).push(goal[i as int]));
            i += 1;
        }
        assert(goal.take(i as int) == goal);
        r
    }

    /// Appends to `acc` the variables that `other` has and `self` lacks.
    fn push_extras(&self, other: &State<D>, acc: Vec<(String, D)>) -> (r: Vec<(String, D)>)
        ensures
            pairs_view(r@) == pairs_view(acc@) + extras(self@, other@),
    {
        let ghost base = pairs_view(acc@);
        let mut r = acc;
        let mut j: usize = 0;
        assert(extras(self@, other@.take(0)) == Seq::<(Seq<char>, D)>::empty());
        assert(base + Seq::<(Seq<char>, D)>::empty() == base);
        while j < other.vars.len()
            invariant
                j <= other.vars.len(),
                other.vars@.len() == other@.len(),
                pairs_view(r@) == base + extras(self@, other@.take(j as int)),
            decreases other.vars.len() - j,
        {
            let ghost prefix = other@.take(j + 1);
            assert(prefix.drop_last() == other@.take(j as int));
            assert(prefix.last() == other@[j as int]);
            let key = other.vars[j].0.clone();
            if self.find(&key).is_none() {
                let ghost before = pairs_view(r@);
                r.push((key, other.vars[j].1));
                assert(pairs_view(r@) == before.push(other@[j as int]));
                assert(base + extras(self@, prefix) == (base + extras(
                    self@,
                    other@.take(j as int),
                )).push(other@[j as int]));
            }
            j += 1;
        }
        assert(other@.take(j as int) == other@);
        r
    }

    /// The join, variable by variable. A bottom operand gives the other one.
    pub fn lub_var_wise(&self, other: &State<D>, bounds: &D::Bounds) -> (r: State<D>)
        ensures
            r@ == joined(self@, other@, *bounds),
    {
        if self.is_bottom() {
            return other.clone();
        } else if other.is_bottom() {
            return self.clone();
        }
        let none: Vec<i64> = Vec::new();
        let zipped_vars = self.zip(other, Pointwise::Lub, &none, bounds);
        let vars = self.push_extras(other, zipped_vars);
        proof {
            lemma_zipped_without_thresholds(
                Pointwise::Lub,
                self@,
                other@,
                none@.to_set(),
                Set::empty(),
                *bounds,
            );
            lemma_merged_distinct(Pointwise::Lub, self@, other@, Set::empty(), *bounds);
        }
        State { vars }
    }

    /// The meet, variable by variable. A bottom operand gives bottom.
    pub fn glb_var_wise(&self, other: &State<D>, bounds: &D::Bounds) -> (r: State<D>)
        requires
            self@.len() == 0 || other@.len() == 0 || keys_within(self@, other@),
        ensures
            r@ == met(self@, other@, *bounds),
    {
        if self.is_bottom() || other.is_bottom() {
            return State::bottom();
        }
        let none: Vec<i64> = Vec::new();
        let zipped_vars = self.zip(other, Pointwise::Glb, &none, bounds);
        let vars = self.push_extras(other, zipped_vars);
        proof {
            lemma_zipped_without_thresholds(
                Pointwise::Glb,
                self@,
                other@,
                none@.to_set(),
                Set::empty(),
                *bounds,
            );
            lemma_merged_distinct(Pointwise::Glb, self@, other@, Set::empty(), *bounds);
        }
        State { vars }
    }

    /// The widening by `rhs`, variable by variable. A bottom operand gives
    /// the other one.
    pub fn widening(&self, rhs: &State<D>, thresholds: &Vec<i64>, bounds: &D::Bounds) -> (r: State<
        D,
    >)
        requires
            self@.len() == 0 || rhs@.len() == 0 || keys_within(self@, rhs@),
        ensures
            r@ == widened(self@, rhs@, thresholds@.to_set(), *bounds),
    {
        if self.is_bottom() {
            return rhs.clone();
        } else if rhs.is_bottom() {
            return self.clone();
        }
        let vars = self.zip(rhs, Pointwise::Widening, thresholds, bounds);
        proof {
            lemma_merged_distinct(Pointwise::Widening, self@, rhs@, thresholds@.to_set(), *bounds);
        }
        State { vars }
    }

    /// The narrowing by `rhs`, variable by variable. A bottom state stays
    /// bottom, and a state narrowed by bottom stays as it is: narrowing adds
    /// nothing to what the state holds.
    pub fn narrowing(&self, rhs: &State<D>, bounds: &D::Bounds) -> (r: State<D>)
        requires
            self@.len() == 0 || rhs@.len() == 0 || keys_within(self@, rhs@),
        ensures
            r@ == narrowed(self@, rhs@, *bounds),
    {
        if self.is_bottom() {
            return State::bottom();
        } else if rhs.is_bottom() {
            return self.clone();
        }
        let none: Vec<i64> = Vec::new();
        let vars = self.zip(rhs, Pointwise::Narrowing, &none, bounds);
        proof {
            lemma_zipped_without_thresholds(
                Pointwise::Narrowing,
                self@,
                rhs@,
                none@.to_set(),
                Set::empty(),
                *bounds,
            );
            lemma_merged_distinct(Pointwise::Narrowing, self@, rhs@, Set::empty(), *bounds);
        }
        State { vars }
    }

    /// Whether the two states have the same variables with equal values.
    pub fn eq(&self, other: &State<D>, bounds: &D::Bounds) -> (r: bool)
        ensures
            r == equal(self@, other@, *bounds),
    {
        if self.vars.len() != other.vars.len() {
            return false;
        }
        let mut i: usize = 0;
        while i < self.vars.len()
            invariant
                i <= self.vars.len(),
                self.vars@.len() == self@.len(),
                self@.len() == other@.len(),
                forall|k: int|
                    0 <= k < i ==> has_key(other@, (#[trigger] self@[k]).0) && self@[k].1.spec_eq(
                        value_of(other@, self@[k].0),
                        *bounds,
                    ),
            decreases self.vars.len() - i,
        {
            match other.find(&self.vars[i].0) {
                Some(j) => {
                    if !self.vars[i].1.eq(&other.vars[j].1, bounds) {
                        assert(self@[i as int].0 == self.vars@[i as int].0@);
                        return false;
                    }
                },
                None => {
                    assert(self@[i as int].0 == self.vars@[i as int].0@);
                    return false;
                },
            }
            i += 1;
        }
        true
    }

    /// The names of the variables, in their order.
    pub fn vars(&self) -> (r: Vec<String>)
        ensures
            r@.len() == self@.len(),
            forall|i: int| 0 <= i < r@.len() ==> (#[trigger] r@[i])@ == self@[i].0,
    {
        let mut r: Vec<String> = Vec::new();
        let mut i: usize = 0;
        while i < self.vars.len()
            invariant
                i <= self.vars.len(),
                self.vars@.len() == self@.len(),
                r@.len() == i,
                forall|k: int| 0 <= k < i ==> (#[trigger] r@[k])@ == self@[k].0,
            decreases self.vars.len() - i,
        {
            r.push(self.vars[i].0.clone());
            i += 1;
        }
        r
    }

    /// The state with the same variables, each with the value `value`.
    pub fn fill(&self, value: D) -> (r: State<D>)
        ensures
            r@ == filled(self@, value),
    {
        proof {
            use_type_invariant(self);
        }
        let ghost goal = filled(self@, value);
        let mut vars: Vec<(String, D)> = Vec::new();
        let mut i: usize = 0;
        while i < self.vars.len()
            invariant
                i <= self.vars.len(),
                self.vars@.len() == self@.len(),
                goal == filled(self@, value),
                pairs_view(vars@) == goal.take(i as int),
            decreases self.vars.len() - i,
        {
            let ghost before = pairs_view(vars@);
            vars.push((self.vars[i].0.clone(), value));
            assert(pairs_view(vars@) == before.push(goal[i as int]));
            assert(goal.take(i + 1) == goal.take(i as int).push(goal[i as int]));
            i += 1;
        }
        assert(goal.take(i as int) == goal);
        proof {
            assert(keys_of(goal) =~= keys_of(self@));
            lemma_same_keys(goal, self@);
        }
        State { vars }
    }

    /// Writes the state at the end of `out`.
    pub fn push_text(&self, out: &mut String, bounds: &D::Bounds)
        ensures
            final(out)@ == old(out)@ + state_text(self@, *bounds),
    {
        proof {
            reveal_strlit("{ ");
            reveal_strlit(" := ");
            reveal_strlit(" ");
            reveal_strlit("}");
        }
        let ghost start = out@;
        out.append("{ ");
        let mut i: usize = 0;
        assert(self@.take(0) == Seq::<(Seq<char>, D)>::empty());
        assert(out@ =~= start + seq!['{', ' '] + entries_text(self@.take(0), *bounds));
        while i < self.vars.len()
            invariant
                i <= self.vars.len(),
                self.vars@.len() == self@.len(),
                out@ == start + seq!['{', ' '] + entries_text(self@.take(i as int), *bounds),
            decreases self.vars.len() - i,
        {
            proof {
                reveal_strlit(" := ");
                reveal_strlit(" ");
            }
            let ghost before = out@;
            let ghost prefix = self@.take(i + 1);
            assert(prefix.drop_last() == self@.take(i as int));
            assert(prefix.last() == self@[i as int]);
            assert(self@[i as int] == (self.vars@[i as int].0@, self.vars@[i as int].1));
            out.append(self.vars[i].0.as_str());
            let ghost after_name = out@;
            assert(after_name == before + self@[i as int].0);
            out.append(" := ");
            assert(" := "@ =~= seq![' ', ':', '=', ' ']);
            let ghost after_sign = out@;
            assert(after_sign == after_name + seq![' ', ':', '=', ' ']);
            let value = self.vars[i].1.to_text(bounds);
            out.append(value.as_str());
            let ghost after_value = out@;
            assert(after_value == after_sign + self@[i as int].1.spec_text(*bounds));
            out.append(" ");
            assert(" "@ =~= seq![' ']);
            assert(out@ == after_value + seq![' ']);
            assert(out@ =~= before + (self@[i as int].0 + seq![' ', ':', '=', ' ']
                + self@[i as int].1.spec_text(*bounds) + seq![' ']));
            assert(out@ =~= start + seq!['{', ' '] + entries_text(prefix, *bounds));
            i += 1;
        }
        assert(self@.take(i as int) == self@);
        out.append("}");
        assert(out@ =~= start + state_text(self@, *bounds));
    }

    /// The text of the state.
    pub fn to_text(&self, bounds: &D::Bounds) -> (r: String)
        ensures
            r@ == state_text(self@, *bounds),
    {
        let mut out = String::new();
        self.push_text(&mut out, bounds);
        assert(Seq::<char>::empty() + state_text(self@, *bounds) =~= state_text(self@, *bounds));
        out
    }

    /// Whether a variable of that name is declared.
    pub fn declares(&self, var: &str) -> (r: bool)
        ensures
            r == has_key(self@, var@),
    {
        let key = var.to_owned();
        self.find(&key).is_some()
    }
}

} // verus!
