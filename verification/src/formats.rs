//! The two text formats that the solver reads: a city list, whose
//! coordinates follow a `NODE_COORD_SECTION` line as `id x y` lines, and a
//! list of known `(distance, time)` cost pairs, one `a b` line each.
//!
//! The fields are handed out as text; turning them into numbers is left to
//! the caller.
use vstd::prelude::*;

use crate::text::{
    char_rows,
    lemma_lines_concat,
    lemma_lines_of_one_line,
    lemma_lines_of_terminated_line,
    lemma_strip_cr_keeps_words,
    line_words,
    lines,
    lines_from,
    split_whitespace,
    strip_cr,
    text_lines,
};

verus! {

/// The character sequences of a vector of field pairs.
pub open spec fn field_pairs(v: Seq<(Vec<char>, Vec<char>)>) -> Seq<(Seq<char>, Seq<char>)> {
    v.map_values(|p: (Vec<char>, Vec<char>)| (p.0@, p.1@))
}

/// The line that opens the coordinate section of a city list.
pub open spec fn coord_section_marker() -> Seq<char> {
    "NODE_COORD_SECTION"@
}

/// Whether `line` begins with `prefix`.
pub open spec fn has_prefix(line: Seq<char>, prefix: Seq<char>) -> bool {
    prefix.len() <= line.len() && line.take(prefix.len() as int) == prefix
}

/// The coordinate fields of `lines`: once a line that begins with the
/// section marker has been seen (`reading`), each later line of exactly three
/// words gives its second and third word; marker lines themselves give
/// nothing.
pub open spec fn coords_from(reading: bool, lines: Seq<Seq<char>>) -> Seq<(Seq<char>, Seq<char>)>
    decreases lines.len(),
{
    if lines.len() == 0 {
        seq![]
    } else if has_prefix(lines[0], coord_section_marker()) {
        coords_from(true, lines.drop_first())
    } else if reading && line_words(lines[0]).len() == 3 {
        seq![(line_words(lines[0])[1], line_words(lines[0])[2])] + coords_from(
            true,
            lines.drop_first(),
        )
    } else {
        coords_from(reading, lines.drop_first())
    }
}

/// The coordinate fields of a city list.
pub open spec fn city_coord_fields(text: Seq<char>) -> Seq<(Seq<char>, Seq<char>)> {
    coords_from(false, text_lines(text))
}

/// The cost pair fields of `lines`: each line of exactly two words gives
/// them, in order.
pub open spec fn pairs_from(lines: Seq<Seq<char>>) -> Seq<(Seq<char>, Seq<char>)>
    decreases lines.len(),
{
    if lines.len() == 0 {
        seq![]
    } else if line_words(lines[0]).len() == 2 {
        seq![(line_words(lines[0])[0], line_words(lines[0])[1])] + pairs_from(lines.drop_first())
    } else {
        pairs_from(lines.drop_first())
    }
}

/// The cost pair fields of a list of cost pairs.
pub open spec fn cost_pair_fields_of(text: Seq<char>) -> Seq<(Seq<char>, Seq<char>)> {
    pairs_from(text_lines(text))
}


proof fn lemma_pairs_concat(l1: Seq<Seq<char>>, l2: Seq<Seq<char>>)
    ensures
        pairs_from(l1 + l2) == pairs_from(l1) + pairs_from(l2),
    decreases l1.len(),
{
    if l1.len() == 0 {
        assert(l1 + l2 =~= l2);
        assert(Seq::<(Seq<char>, Seq<char>)>::empty() + pairs_from(l2) =~= pairs_from(l2));
    } else {
        assert((l1 + l2)[0] == l1[0]);
        assert((l1 + l2).drop_first() =~= l1.drop_first() + l2);
        lemma_pairs_concat(l1.drop_first(), l2);
        let head: Seq<(Seq<char>, Seq<char>)> = if line_words(l1[0]).len() == 2 {
            seq![(line_words(l1[0])[0], line_words(l1[0])[1])]
        } else {
            seq![]
        };
        assert(head + (pairs_from(l1.drop_first()) + pairs_from(l2)) =~= (head + pairs_from(
            l1.drop_first(),
        )) + pairs_from(l2));
    }
}

proof fn lemma_pairs_one(x: Seq<char>)
    ensures
        pairs_from(seq![x]) == (if line_words(x).len() == 2 {
            seq![(line_words(x)[0], line_words(x)[1])]
        } else {
            Seq::<(Seq<char>, Seq<char>)>::empty()
        }),
{
    assert(seq![x].drop_first() =~= Seq::<Seq<char>>::empty());
    assert(pairs_from(Seq::<Seq<char>>::empty()) =~= Seq::<(Seq<char>, Seq<char>)>::empty());
    let head: Seq<(Seq<char>, Seq<char>)> = if line_words(x).len() == 2 {
        seq![(line_words(x)[0], line_words(x)[1])]
    } else {
        seq![]
    };
    assert(head + Seq::<(Seq<char>, Seq<char>)>::empty() =~= head);
}

proof fn lemma_pairs_final_newline(pending: Seq<char>, rest: Seq<char>)
    ensures
        pairs_from(lines_from(pending, rest.push('\n'))) == pairs_from(lines_from(pending, rest)),
    decreases rest.len(),
{
    let r2 = rest.push('\n');
    assert(r2[0] == (if rest.len() == 0 { '\n' } else { rest[0] }));
    if rest.len() == 0 {
        assert(r2.drop_first() =~= Seq::<char>::empty());
        assert(lines_from(Seq::empty(), Seq::<char>::empty()) =~= Seq::<Seq<char>>::empty());
        assert(lines_from(pending, r2) =~= seq![strip_cr(pending)]);
        lemma_pairs_one(strip_cr(pending));
        lemma_strip_cr_keeps_words(pending);
        if pending.len() > 0 {
            lemma_pairs_one(pending);
        } else {
            assert(strip_cr(pending) =~= Seq::<char>::empty());
            assert(line_words(Seq::<char>::empty()) =~= Seq::<Seq<char>>::empty());
        }
    } else {
        assert(r2.drop_first() =~= rest.drop_first().push('\n'));
        if rest[0] == '\n' {
            lemma_pairs_final_newline(Seq::empty(), rest.drop_first());
            lemma_pairs_concat(
                seq![strip_cr(pending)],
                lines_from(Seq::empty(), rest.drop_first().push('\n')),
            );
            lemma_pairs_concat(seq![strip_cr(pending)], lines_from(Seq::empty(), rest.drop_first()));
        } else {
            lemma_pairs_final_newline(pending.push(rest[0]), rest.drop_first());
        }
    }
}

/// A final line ending changes no cost pair: the last line of a list counts
/// whether or not a newline ends it.
pub proof fn lemma_cost_pairs_ignore_final_newline(text: Seq<char>)
    ensures
        cost_pair_fields_of(text.push('\n')) == cost_pair_fields_of(text),
{
    lemma_pairs_final_newline(Seq::empty(), text);
}

/// The cost pairs of two lists, the first ending its last line, are those
/// of the first followed by those of the second: every line counts, in
/// order.
pub proof fn lemma_cost_pairs_concat(a: Seq<char>, b: Seq<char>)
    requires
        a.len() > 0,
        a.last() == '\n',
    ensures
        cost_pair_fields_of(a + b) == cost_pair_fields_of(a) + cost_pair_fields_of(b),
{
    lemma_lines_concat(Seq::empty(), a, b);
    lemma_pairs_concat(text_lines(a), text_lines(b));
}

/// A single line gives its two words as a pair if it has exactly two words,
/// and nothing otherwise.
pub proof fn lemma_cost_pairs_of_one_line(line: Seq<char>)
    requires
        !line.contains('\n'),
    ensures
        cost_pair_fields_of(line) == (if line_words(line).len() == 2 {
            seq![(line_words(line)[0], line_words(line)[1])]
        } else {
            Seq::<(Seq<char>, Seq<char>)>::empty()
        }),
{
    lemma_lines_of_one_line(Seq::empty(), line);
    assert(Seq::<char>::empty() + line =~= line);
    if line.len() > 0 {
        lemma_pairs_one(line);
    } else {
        assert(line =~= Seq::<char>::empty());
        assert(line_words(line) =~= Seq::<Seq<char>>::empty());
    }
}

/// Some line of `lines` begins with the section marker.
pub open spec fn has_marker_line(lines: Seq<Seq<char>>) -> bool {
    exists|k: int| 0 <= k < lines.len() && has_prefix(#[trigger] lines[k], coord_section_marker())
}

/// The coordinate fields that one line gives, once the section has begun.
pub open spec fn line_coord_fields(line: Seq<char>) -> Seq<(Seq<char>, Seq<char>)> {
    if !has_prefix(line, coord_section_marker()) && line_words(line).len() == 3 {
        seq![(line_words(line)[1], line_words(line)[2])]
    } else {
        seq![]
    }
}

proof fn lemma_coords_cons(reading: bool, x: Seq<char>, rest: Seq<Seq<char>>)
    ensures
        coords_from(reading, seq![x] + rest) == (if reading {
            line_coord_fields(x)
        } else {
            Seq::<(Seq<char>, Seq<char>)>::empty()
        }) + coords_from(reading || has_prefix(x, coord_section_marker()), rest),
{
    let l = seq![x] + rest;
    assert(l[0] == x);
    assert(l.drop_first() =~= rest);
    let tail = coords_from(reading || has_prefix(x, coord_section_marker()), rest);
    assert(Seq::<(Seq<char>, Seq<char>)>::empty() + tail =~= tail);
}

proof fn lemma_coords_concat(reading: bool, l1: Seq<Seq<char>>, l2: Seq<Seq<char>>)
    ensures
        coords_from(reading, l1 + l2) == coords_from(reading, l1) + coords_from(
            reading || has_marker_line(l1),
            l2,
        ),
    decreases l1.len(),
{
    if l1.len() == 0 {
        assert(l1 + l2 =~= l2);
        assert(!has_marker_line(l1));
        assert(Seq::<(Seq<char>, Seq<char>)>::empty() + coords_from(reading, l2) =~= coords_from(
            reading,
            l2,
        ));
    } else {
        let x = l1[0];
        let r2 = reading || has_prefix(x, coord_section_marker());
        assert(l1 =~= seq![x] + l1.drop_first());
        assert(l1 + l2 =~= seq![x] + (l1.drop_first() + l2));
        lemma_coords_cons(reading, x, l1.drop_first() + l2);
        lemma_coords_cons(reading, x, l1.drop_first());
        lemma_coords_concat(r2, l1.drop_first(), l2);
        assert((r2 || has_marker_line(l1.drop_first())) == (reading || has_marker_line(l1))) by {
            if has_marker_line(l1.drop_first()) {
                let k = choose|k: int|
                    0 <= k < l1.drop_first().len() && has_prefix(
                        #[trigger] l1.drop_first()[k],
                        coord_section_marker(),
                    );
                assert(l1[k + 1] == l1.drop_first()[k]);
            }
            if has_marker_line(l1) {
                let k = choose|k: int|
                    0 <= k < l1.len() && has_prefix(#[trigger] l1[k], coord_section_marker());
                if k > 0 {
                    assert(l1.drop_first()[k - 1] == l1[k]);
                }
            }
            if has_prefix(x, coord_section_marker()) {
                assert(has_prefix(l1[0], coord_section_marker()));
            }
        }
        let head: Seq<(Seq<char>, Seq<char>)> = if reading {
            line_coord_fields(x)
        } else {
            seq![]
        };
        assert(head + (coords_from(r2, l1.drop_first()) + coords_from(
            r2 || has_marker_line(l1.drop_first()),
            l2,
        )) =~= (head + coords_from(r2, l1.drop_first())) + coords_from(
            r2 || has_marker_line(l1.drop_first()),
            l2,
        ));
    }
}

proof fn lemma_coords_before_marker(lines: Seq<Seq<char>>)
    requires
        !has_marker_line(lines),
    ensures
        coords_from(false, lines) == Seq::<(Seq<char>, Seq<char>)>::empty(),
    decreases lines.len(),
{
    if lines.len() > 0 {
        assert(!has_prefix(lines[0], coord_section_marker()));
        assert(!has_marker_line(lines.drop_first())) by {
            if has_marker_line(lines.drop_first()) {
                let k = choose|k: int|
                    0 <= k < lines.drop_first().len() && has_prefix(
                        #[trigger] lines.drop_first()[k],
                        coord_section_marker(),
                    );
                assert(lines[k + 1] == lines.drop_first()[k]);
            }
        }
        lemma_coords_before_marker(lines.drop_first());
    }
}

proof fn lemma_marker_strip_cr(line: Seq<char>)
    ensures
        has_prefix(strip_cr(line), coord_section_marker()) == has_prefix(line, coord_section_marker()),
{
    reveal_strlit("NODE_COORD_SECTION");
    let m = coord_section_marker();
    assert(m.len() == 18);
    assert(m[17] == 'N');
    if line.len() > 0 && line.last() == '\r' {
        let s = line.drop_last();
        if has_prefix(s, m) {
            assert(line.take(18) =~= s.take(18));
        }
        if has_prefix(line, m) {
            if line.len() == 18 {
                assert(line.take(18)[17] == line.last());
            } else {
                assert(line.take(18) =~= s.take(18));
            }
        }
    }
}

proof fn lemma_coords_one(reading: bool, x: Seq<char>, y: Seq<char>)
    requires
        has_prefix(x, coord_section_marker()) == has_prefix(y, coord_section_marker()),
        line_words(x) == line_words(y),
    ensures
        coords_from(reading, seq![x]) == coords_from(reading, seq![y]),
{
    lemma_coords_cons(reading, x, Seq::empty());
    lemma_coords_cons(reading, y, Seq::empty());
    assert(seq![x] + Seq::<Seq<char>>::empty() =~= seq![x]);
    assert(seq![y] + Seq::<Seq<char>>::empty() =~= seq![y]);
}

proof fn lemma_coords_final_newline(reading: bool, pending: Seq<char>, rest: Seq<char>)
    ensures
        coords_from(reading, lines_from(pending, rest.push('\n'))) == coords_from(
            reading,
            lines_from(pending, rest),
        ),
    decreases rest.len(),
{
    let r2 = rest.push('\n');
    assert(r2[0] == (if rest.len() == 0 { '\n' } else { rest[0] }));
    if rest.len() == 0 {
        assert(r2.drop_first() =~= Seq::<char>::empty());
        assert(lines_from(Seq::empty(), Seq::<char>::empty()) =~= Seq::<Seq<char>>::empty());
        assert(lines_from(pending, r2) =~= seq![strip_cr(pending)]);
        lemma_strip_cr_keeps_words(pending);
        lemma_marker_strip_cr(pending);
        if pending.len() > 0 {
            lemma_coords_one(reading, strip_cr(pending), pending);
        } else {
            assert(strip_cr(pending) =~= Seq::<char>::empty());
            assert(line_words(Seq::<char>::empty()) =~= Seq::<Seq<char>>::empty());
            reveal_strlit("NODE_COORD_SECTION");
            assert(!has_prefix(strip_cr(pending), coord_section_marker()));
            lemma_coords_cons(reading, strip_cr(pending), Seq::empty());
            assert(seq![strip_cr(pending)] + Seq::<Seq<char>>::empty() =~= seq![strip_cr(pending)]);
        }
    } else {
        assert(r2.drop_first() =~= rest.drop_first().push('\n'));
        if rest[0] == '\n' {
            let x = strip_cr(pending);
            let r3 = reading || has_prefix(x, coord_section_marker());
            lemma_coords_final_newline(r3, Seq::empty(), rest.drop_first());
            lemma_coords_cons(reading, x, lines_from(Seq::empty(), rest.drop_first().push('\n')));
            lemma_coords_cons(reading, x, lines_from(Seq::empty(), rest.drop_first()));
        } else {
            lemma_coords_final_newline(reading, pending.push(rest[0]), rest.drop_first());
        }
    }
}

/// A final line ending changes no coordinate: the last line of a city list
/// counts whether or not a newline ends it.
pub proof fn lemma_city_coords_ignore_final_newline(text: Seq<char>)
    ensures
        city_coord_fields(text.push('\n')) == city_coord_fields(text),
{
    lemma_coords_final_newline(false, Seq::empty(), text);
}

/// Lines before the coordinate section give nothing: if no line of `a`,
/// which ends its last line, begins with the marker, then `a` gives no
/// fields, and `a + b` gives those of `b`.
pub proof fn lemma_city_coords_skip_preamble(a: Seq<char>, b: Seq<char>)
    requires
        a.len() > 0,
        a.last() == '\n',
        !has_marker_line(text_lines(a)),
    ensures
        city_coord_fields(a) == Seq::<(Seq<char>, Seq<char>)>::empty(),
        city_coord_fields(a + b) == city_coord_fields(b),
{
    lemma_lines_concat(Seq::empty(), a, b);
    lemma_coords_concat(false, text_lines(a), text_lines(b));
    lemma_coords_before_marker(text_lines(a));
    assert(Seq::<(Seq<char>, Seq<char>)>::empty() + city_coord_fields(b) =~= city_coord_fields(b));
}

/// The marker line opens the section and gives nothing itself.
pub proof fn lemma_city_coords_of_marker_line(line: Seq<char>)
    requires
        !line.contains('\n'),
        has_prefix(line, coord_section_marker()),
    ensures
        city_coord_fields(line.push('\n')) == Seq::<(Seq<char>, Seq<char>)>::empty(),
{
    lemma_lines_of_terminated_line(Seq::empty(), line);
    assert(Seq::<char>::empty() + line =~= line);
    lemma_marker_strip_cr(line);
    lemma_coords_cons(false, strip_cr(line), Seq::empty());
    assert(seq![strip_cr(line)] + Seq::<Seq<char>>::empty() =~= seq![strip_cr(line)]);
}

/// Once the section has begun, each further line adds its fields: those of
/// `a + line + "\n"` are those of `a` followed by the second and third
/// word of `line` if it has exactly three words and is not a marker line.
pub proof fn lemma_city_coords_append_line(a: Seq<char>, line: Seq<char>)
    requires
        a.len() > 0,
        a.last() == '\n',
        has_marker_line(text_lines(a)),
        !line.contains('\n'),
    ensures
        city_coord_fields(a + line.push('\n')) == city_coord_fields(a) + line_coord_fields(line),
{
    lemma_lines_concat(Seq::empty(), a, line.push('\n'));
    lemma_coords_concat(false, text_lines(a), text_lines(line.push('\n')));
    lemma_lines_of_terminated_line(Seq::empty(), line);
    assert(Seq::<char>::empty() + line =~= line);
    lemma_marker_strip_cr(line);
    lemma_strip_cr_keeps_words(line);
    lemma_coords_cons(true, strip_cr(line), Seq::empty());
    assert(seq![strip_cr(line)] + Seq::<Seq<char>>::empty() =~= seq![strip_cr(line)]);
    assert(line_coord_fields(strip_cr(line)) == line_coord_fields(line));
    assert(line_coord_fields(line) + Seq::<(Seq<char>, Seq<char>)>::empty() =~= line_coord_fields(
        line,
    ));
}

/// Whether `line` begins with `prefix`, as `str::starts_with` tells.
pub fn starts_with(line: &Vec<char>, prefix: &str) -> (b: bool)
    ensures
        b == has_prefix(line@, prefix@),
{
    let n = prefix.unicode_len();
    if n > line.len() {
        return false;
    }
    let mut k: usize = 0;
    while k < n
        invariant
            n == prefix@.len(),
            n <= line@.len(),
            k <= n,
            forall|m: int| 0 <= m < k ==> line@[m] == prefix@[m],
        decreases n - k,
    {
        if line[k] != prefix.get_char(k) {
            assert(line@.take(n as int)[k as int] != prefix@[k as int]);
            return false;
        }
        k = k + 1;
    }
    assert(line@.take(n as int) =~= prefix@);
    true
}

proof fn lemma_field_pairs_push(v: Seq<(Vec<char>, Vec<char>)>, p: (Vec<char>, Vec<char>))
    ensures
        field_pairs(v.push(p)) == field_pairs(v).push((p.0@, p.1@)),
{
    assert(field_pairs(v.push(p)) =~= field_pairs(v).push((p.0@, p.1@)));
}

/// The `x` and `y` fields of each coordinate line of a city list, in order:
/// the lines after the first one that begins with `NODE_COORD_SECTION` that
/// hold exactly three words.
pub fn coord_fields(text: &str) -> (res: Vec<(Vec<char>, Vec<char>)>)
    ensures
        field_pairs(res@) == city_coord_fields(text@),
{
    let all = lines(text);
    let ghost ls = char_rows(all@);
    let mut res: Vec<(Vec<char>, Vec<char>)> = Vec::new();
    let mut reading = false;
    let mut i: usize = 0;
    proof {
        assert(ls.skip(0) =~= ls);
        assert(field_pairs(res@) + coords_from(false, ls) =~= coords_from(false, ls));
    }
    while i < all.len()
        invariant
            ls == char_rows(all@),
            ls == text_lines(text@),
            i <= all.len(),
            field_pairs(res@) + coords_from(reading, ls.skip(i as int)) == city_coord_fields(
                text@,
            ),
        decreases all.len() - i,
    {
        let line = &all[i];
        let ghost rest = ls.skip(i as int);
        proof {
            assert(rest[0] == line@);
            assert(rest.drop_first() =~= ls.skip(i + 1));
        }
        if starts_with(line, "NODE_COORD_SECTION") {
            reading = true;
        } else if reading {
            let mut words = split_whitespace(line);
            if words.len() == 3 {
                let ghost w = char_rows(words@);
                let y = words.pop().unwrap();
                let x = words.pop().unwrap();
                assert(x@ == w[1] && y@ == w[2]);
                let ghost old_res = res@;
                res.push((x, y));
                proof {
                    lemma_field_pairs_push(old_res, res@.last());
                    assert(field_pairs(res@) + coords_from(true, rest.drop_first()) =~= field_pairs(
                        old_res,
                    ) + coords_from(true, rest));
                }
            }
        }
        i = i + 1;
    }
    proof {
        assert(ls.skip(i as int) =~= Seq::<Seq<char>>::empty());
        assert(field_pairs(res@) + Seq::<(Seq<char>, Seq<char>)>::empty() =~= field_pairs(res@));
    }
    res
}

/// The two fields of each line of a list of cost pairs that holds exactly
/// two words, in order.
pub fn cost_pair_fields(text: &str) -> (res: Vec<(Vec<char>, Vec<char>)>)
    ensures
        field_pairs(res@) == cost_pair_fields_of(text@),
{
    let all = lines(text);
    let ghost ls = char_rows(all@);
    let mut res: Vec<(Vec<char>, Vec<char>)> = Vec::new();
    let mut i: usize = 0;
    proof {
        assert(ls.skip(0) =~= ls);
        assert(field_pairs(res@) + pairs_from(ls) =~= pairs_from(ls));
    }
    while i < all.len()
        invariant
            ls == char_rows(all@),
            ls == text_lines(text@),
            i <= all.len(),
            field_pairs(res@) + pairs_from(ls.skip(i as int)) == cost_pair_fields_of(text@),
        decreases all.len() - i,
    {
        let line = &all[i];
        let ghost rest = ls.skip(i as int);
        proof {
            assert(rest[0] == line@);
            assert(rest.drop_first() =~= ls.skip(i + 1));
        }
        let mut words = split_whitespace(line);
        if words.len() == 2 {
            let ghost w = char_rows(words@);
            let b = words.pop().unwrap();
            let a = words.pop().unwrap();
            assert(a@ == w[0] && b@ == w[1]);
            let ghost old_res = res@;
            res.push((a, b));
            proof {
                lemma_field_pairs_push(old_res, res@.last());
                assert(field_pairs(res@) + pairs_from(rest.drop_first()) =~= field_pairs(old_res)
                    + pairs_from(rest));
            }
        }
        i = i + 1;
    }
    proof {
        assert(ls.skip(i as int) =~= Seq::<Seq<char>>::empty());
        assert(field_pairs(res@) + Seq::<(Seq<char>, Seq<char>)>::empty() =~= field_pairs(res@));
    }
    res
}

} // verus!
