//! Around the analysis: the initial assumptions written in the source text,
//! and the source text annotated with the invariants found.

use vstd::prelude::*;
use vstd::string::StringExecFns;
use crate::abstract_domains::abstract_domain::AbstractDomain;
use crate::invariants::{ProgramInvariants, Records};
use crate::parser::ast::Position;
use crate::parser::lexer::assume_word;
use crate::state::state_text;
use crate::text::{
    chars_of, contains, contains_text, find_pair, first_pair_index, line_ranges, lines, pieces,
    split_ranges, text_of, texts, trim_range, trimmed, views,
};

verus! {

/// What stands before the first `:=` of an assignment.
pub open spec fn name_part(p: Seq<char>) -> Seq<char> {
    p.take(first_pair_index(p, ':', '='))
}

/// What stands between the first `:=` of an assignment and the second, or
/// the end; nothing where there is no `:=`.
pub open spec fn value_part(p: Seq<char>) -> Seq<char> {
    let i = first_pair_index(p, ':', '=');
    if i >= p.len() {
        Seq::empty()
    } else {
        let rest = p.skip(i + 2);
        rest.take(first_pair_index(rest, ':', '='))
    }
}

/// The initial assumptions of a source text: where its first line holds the
/// word `assume` and no `#`, the assignments `name := value` that follow the
/// first six characters of the line, separated by `;`, each as the name and
/// the text of the value, without the white space around them.
pub open spec fn assumptions(source: Seq<char>) -> Seq<(Seq<char>, Seq<char>)> {
    let first = if lines(source).len() > 0 {
        lines(source)[0]
    } else {
        Seq::empty()
    };
    let line = trimmed(first);
    if !contains_text(first, assume_word()) || contains_text(first, seq!['#']) || line.len() < 6 {
        Seq::empty()
    } else {
        let parts = pieces(line.skip(6), ';');
        Seq::new(parts.len(), |i: int| (trimmed(name_part(parts[i])), trimmed(value_part(parts[i]))))
    }
}

/// The views of a vector of pairs of texts.
pub open spec fn pairs_text(v: Seq<(String, String)>) -> Seq<(Seq<char>, Seq<char>)> {
    Seq::new(v.len(), |i: int| (v[i].0@, v[i].1@))
}

/// The name and the value of the assignment that `v[p..q]` writes.
fn read_assignment(source: &str, v: &Vec<char>, p: usize, q: usize) -> (r: (String, String))
    requires
        v@ == source@,
        p <= q <= v.len(),
    ensures
        r.0@ == trimmed(name_part(v@.subrange(p as int, q as int))),
        r.1@ == trimmed(value_part(v@.subrange(p as int, q as int))),
{
    let ghost piece = v@.subrange(p as int, q as int);
    let sign = find_pair(v, p, q, ':', '=');
    assert(piece.take(sign - p) == v@.subrange(p as int, sign as int));
    let (n1, n2) = trim_range(v, p, sign);
    let name = text_of(source, v, n1, n2);
    let value = if sign >= q {
        assert(v@.subrange(q as int, q as int) == Seq::<char>::empty());
        let (e1, e2) = trim_range(v, q, q);
        text_of(source, v, e1, e2)
    } else {
        let ghost rest = piece.skip(sign - p + 2);
        assert(rest == v@.subrange(sign + 2, q as int));
        let stop = find_pair(v, sign + 2, q, ':', '=');
        assert(rest.take(stop - (sign + 2)) == v@.subrange(sign + 2, stop as int));
        let (v1, v2) = trim_range(v, sign + 2, stop);
        text_of(source, v, v1, v2)
    };
    (name, value)
}

/// The bounds of the first line of `v`, without the white space around it,
/// if it holds the word `assume`, no `#` and six characters or more.
fn assume_line(v: &Vec<char>) -> (r: Option<(usize, usize)>)
    ensures
        ({
            let first = if lines(v@).len() > 0 {
                lines(v@)[0]
            } else {
                Seq::empty()
            };
            let line = trimmed(first);
            match r {
                Some((a, b)) => a <= b <= v.len() && b - a >= 6 && v@.subrange(a as int, b as int)
                    == line && contains_text(first, assume_word()) && !contains_text(
                    first,
                    seq!['#'],
                ),
                None => !contains_text(first, assume_word()) || contains_text(first, seq!['#'])
                    || line.len() < 6,
            }
        }),
{
    let all_lines = line_ranges(v);
    let (from, to) = if all_lines.len() > 0 {
        assert(texts(v@, all_lines@)[0] == lines(v@)[0]);
        all_lines[0]
    } else {
        assert(v@.subrange(0, 0) == Seq::<char>::empty());
        (0, 0)
    };
    let mut word: Vec<char> = Vec::new();
    word.push('a');
    word.push('s');
    word.push('s');
    word.push('u');
    word.push('m');
    word.push('e');
    assert(word@ =~= assume_word());
    let mut hash: Vec<char> = Vec::new();
    hash.push('#');
    assert(hash@ =~= seq!['#']);
    let (a, b) = trim_range(v, from, to);
    if !contains(v, from, to, &word) || contains(v, from, to, &hash) || b - a < 6 {
        None
    } else {
        Some((a, b))
    }
}

/// Reads the initial assumptions from the first line of the source text.
pub fn extract_vars_init(source_code: &String) -> (r: Vec<(String, String)>)
    ensures
        pairs_text(r@) == assumptions(source_code@),
{
    let source = source_code.as_str();
    let v = chars_of(source);
    let mut r: Vec<(String, String)> = Vec::new();
    let (a, b) = match assume_line(&v) {
        Some(bounds) => bounds,
        None => {
            assert(pairs_text(r@) =~= assumptions(source_code@));
            return r;
        },
    };
    let ghost line = v@.subrange(a as int, b as int);
    assert(line.skip(6) == v@.subrange(a + 6, b as int));
    let parts = split_ranges(&v, a + 6, b, ';');
    let ghost spec_parts = pieces(line.skip(6), ';');
    let ghost goal = assumptions(source_code@);
    assert(goal.len() == parts@.len());
    assert forall|k: int| 0 <= k < goal.len() implies #[trigger] goal[k] == (
        trimmed(name_part(spec_parts[k])),
        trimmed(value_part(spec_parts[k])),
    ) by {}
    let mut i: usize = 0;
    assert(pairs_text(r@) =~= goal.take(0));
    while i < parts.len()
        invariant
            i <= parts.len(),
            v@ == source@,
            texts(v@, parts@) == spec_parts,
            crate::text::ranges_within(parts@, a + 6, b as int),
            b <= v.len(),
            goal.len() == parts@.len(),
            forall|k: int|
                0 <= k < goal.len() ==> #[trigger] goal[k] == (
                    trimmed(name_part(spec_parts[k])),
                    trimmed(value_part(spec_parts[k])),
                ),
            pairs_text(r@) == goal.take(i as int),
        decreases parts.len() - i,
    {
        let (p, q) = parts[i];
        assert(v@.subrange(p as int, q as int) == texts(v@, parts@)[i as int]);
        let pair = read_assignment(source, &v, p, q);
        let ghost before = pairs_text(r@);
        r.push(pair);
        assert(pairs_text(r@) =~= before.push(goal[i as int]));
        assert(goal.take(i + 1) == goal.take(i as int).push(goal[i as int]));
        i += 1;
    }
    assert(goal.take(i as int) == goal);
    r
}

/// `n` spaces.
pub open spec fn spaces(n: nat) -> Seq<char> {
    Seq::new(n, |i: int| ' ')
}

/// The line that reports the invariant of a loop: the column of the loop in
/// spaces, then `# LOOP INVARIANT: ` and the state.
pub open spec fn loop_line<D: AbstractDomain>(
    record: (Position, crate::state::Entries<D>),
    bounds: D::Bounds,
) -> Seq<char> {
    spaces(record.0.clm as nat) + "# LOOP INVARIANT: "@ + state_text(record.1, bounds)
}

/// The lines after the line of each record was put in before the line that
/// the record's position names, or at the end where the text has fewer
/// lines; the last record first, so that the lines of the records before it
/// keep their numbers.
pub open spec fn annotated<D: AbstractDomain>(
    text: Seq<Seq<char>>,
    records: Records<D>,
    bounds: D::Bounds,
) -> Seq<Seq<char>>
    decreases records.len(),
{
    if records.len() == 0 {
        text
    } else {
        let line = records.last().0.line as int;
        let at = if line <= text.len() {
            line
        } else {
            text.len() as int
        };
        annotated(text.insert(at, loop_line(records.last(), bounds)), records.drop_last(), bounds)
    }
}

/// The lines, with a line feed between one and the next.
pub open spec fn joined_lines(text: Seq<Seq<char>>) -> Seq<char>
    decreases text.len(),
{
    if text.len() == 0 {
        Seq::empty()
    } else if text.len() == 1 {
        text[0]
    } else {
        joined_lines(text.drop_last()) + seq!['\n'] + text.last()
    }
}

/// The source text with the invariants: the lines of the source, before
/// each loop a line with its invariant, and at the end a line `# ` with the
/// state at the end of the program, which is the last of the records, or
/// `# No invariant found` without records.
pub open spec fn decorated<D: AbstractDomain>(
    source: Seq<char>,
    records: Records<D>,
    bounds: D::Bounds,
) -> Seq<char> {
    if records.len() == 0 {
        joined_lines(lines(source).push("# No invariant found"@))
    } else {
        joined_lines(
            annotated(
                lines(source).push("# "@ + state_text(records.last().1, bounds)),
                records.drop_last(),
                bounds,
            ),
        )
    }
}

/// Writes the source text with the invariants of the analysis.
pub fn decorate_code_with_analysis<D: AbstractDomain>(
    source_code: String,
    invariants: ProgramInvariants<D>,
    bounds: &D::Bounds,
) -> (r: String)
    ensures
        r@ == decorated(source_code@, invariants@, *bounds),
{
    let source = source_code.as_str();
    let v = chars_of(source);
    let ranges = line_ranges(&v);
    let mut text: Vec<String> = Vec::new();
    let mut i: usize = 0;
    assert(views(text@) =~= lines(v@).take(0));
    while i < ranges.len()
        invariant
            i <= ranges.len(),
            v@ == source@,
            texts(v@, ranges@) == lines(v@),
            crate::text::ranges_within(ranges@, 0, v@.len() as int),
            views(text@) == lines(v@).take(i as int),
        decreases ranges.len() - i,
    {
        let (a, b) = ranges[i];
        let ghost before = views(text@);
        assert(texts(v@, ranges@)[i as int] == v@.subrange(a as int, b as int));
        text.push(text_of(source, &v, a, b));
        assert(views(text@) =~= before.push(lines(v@)[i as int]));
        assert(lines(v@).take(i + 1) == lines(v@).take(i as int).push(lines(v@)[i as int]));
        i += 1;
    }
    assert(lines(v@).take(i as int) == lines(v@));
    let n = invariants.len();
    let mut last = String::new();
    if n == 0 {
        last.append("# No invariant found");
        assert(last@ =~= "# No invariant found"@);
    } else {
        last.append("# ");
        invariants.state_at(n - 1).push_text(&mut last, bounds);
        assert(last@ =~= "# "@ + state_text(invariants@.last().1, *bounds));
    }
    let ghost before = views(text@);
    text.push(last);
    assert(views(text@) =~= before.push(last@));
    // The invariants of the loops, the last one first.
    let mut k: usize = if n == 0 {
        0
    } else {
        (n - 1) as usize
    };
    let ghost loops = if n == 0 {
        invariants@
    } else {
        invariants@.drop_last()
    };
    let ghost goal = annotated(views(text@), loops, *bounds);
    assert(loops.take(k as int) == loops);
    while k > 0
        invariant
            k <= loops.len(),
            loops.len() <= invariants@.len(),
            forall|j: int| 0 <= j < loops.len() ==> loops[j] == invariants@[j],
            goal == annotated(views(text@), loops.take(k as int), *bounds),
        decreases k,
    {
        k -= 1;
        let pos = invariants.position(k);
        let mut line = String::new();
        let mut c: usize = 0;
        assert(line@ =~= spaces(0));
        while c < pos.clm
            invariant
                c <= pos.clm,
                line@ == spaces(c as nat),
            decreases pos.clm - c,
        {
            proof {
                reveal_strlit(" ");
            }
            line.append(" ");
            c += 1;
            assert(line@ =~= spaces(c as nat));
        }
        line.append("# LOOP INVARIANT: ");
        invariants.state_at(k).push_text(&mut line, bounds);
        let at = if pos.line <= text.len() {
            pos.line
        } else {
            text.len()
        };
        let ghost before = views(text@);
        let ghost records = loops.take(k + 1);
        assert(records.drop_last() == loops.take(k as int));
        assert(records.last() == invariants@[k as int]);
        assert(line@ =~= loop_line(records.last(), *bounds));
        text.insert(at, line);
        assert(views(text@) =~= before.insert(at as int, line@));
    }
    assert(loops.take(0) == Seq::<(Position, crate::state::Entries<D>)>::empty());
    let mut out = String::new();
    let mut j: usize = 0;
    assert(views(text@).take(0) == Seq::<Seq<char>>::empty());
    while j < text.len()
        invariant
            j <= text.len(),
            out@ == joined_lines(views(text@).take(j as int)),
        decreases text.len() - j,
    {
        let ghost prefix = views(text@).take(j + 1);
        assert(prefix.drop_last() == views(text@).take(j as int));
        assert(prefix.last() == text@[j as int]@);
        if j > 0 {
            proof {
                reveal_strlit("\n");
            }
            out.append("\n");
            assert("\n"@ =~= seq!['\n']);
        }
        out.append(text[j].as_str());
        proof {
            if j == 0 {
                assert(prefix[0] == text@[0]@);
                assert(out@ =~= text@[0]@);
            } else {
                assert(out@ =~= joined_lines(prefix.drop_last()) + seq!['\n'] + prefix.last());
            }
        }
        j += 1;
    }
    assert(views(text@).take(j as int) == views(text@));
    out
}

} // verus!
