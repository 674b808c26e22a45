//! Splitting text into lines and whitespace-separated words, as `str::lines`
//! and `str::split_whitespace` do.
use vstd::prelude::*;

verus! {

/// Whether `c` has the Unicode `White_Space` property (the characters for
/// which `char::is_whitespace` holds).
pub open spec fn is_white_space(c: char) -> bool {
    ||| ('\u{9}' <= c && c <= '\u{d}')
    ||| c == ' '
    ||| c == '\u{85}'
    ||| c == '\u{a0}'
    ||| c == '\u{1680}'
    ||| ('\u{2000}' <= c && c <= '\u{200a}')
    ||| c == '\u{2028}'
    ||| c == '\u{2029}'
    ||| c == '\u{202f}'
    ||| c == '\u{205f}'
    ||| c == '\u{3000}'
}

/// Executable test for the `White_Space` property.
pub fn is_whitespace(c: char) -> (b: bool)
    ensures
        b == is_white_space(c),
{
    ('\u{9}' <= c && c <= '\u{d}') || c == ' ' || c == '\u{85}' || c == '\u{a0}' || c == '\u{1680}'
        || ('\u{2000}' <= c && c <= '\u{200a}') || c == '\u{2028}' || c == '\u{2029}' || c
        == '\u{202f}' || c == '\u{205f}' || c == '\u{3000}'
}

/// The character sequences held by a vector of character vectors.
pub open spec fn char_rows(rows: Seq<Vec<char>>) -> Seq<Seq<char>> {
    rows.map_values(|r: Vec<char>| r@)
}

/// A line without the carriage return that ended it, if any.
pub open spec fn strip_cr(line: Seq<char>) -> Seq<char> {
    if line.len() > 0 && line.last() == '\r' {
        line.drop_last()
    } else {
        line
    }
}

/// The lines of `rest`, where `pending` holds the characters already read of
/// the line under way.  A line ends at `'\n'`, and a `'\r'` just before that
/// `'\n'` is not part of it; a last line without `'\n'` counts only if it is
/// not empty.
pub open spec fn lines_from(pending: Seq<char>, rest: Seq<char>) -> Seq<Seq<char>>
    decreases rest.len(),
{
    if rest.len() == 0 {
        if pending.len() > 0 {
            seq![pending]
        } else {
            seq![]
        }
    } else if rest[0] == '\n' {
        seq![strip_cr(pending)] + lines_from(Seq::empty(), rest.drop_first())
    } else {
        lines_from(pending.push(rest[0]), rest.drop_first())
    }
}

/// The lines of a text, as `str::lines` gives them.
pub open spec fn text_lines(text: Seq<char>) -> Seq<Seq<char>> {
    lines_from(Seq::empty(), text)
}

/// The words of `rest`, where `pending` holds the characters already read of
/// the word under way: the maximal runs of characters without the
/// `White_Space` property.
pub open spec fn words_from(pending: Seq<char>, rest: Seq<char>) -> Seq<Seq<char>>
    decreases rest.len(),
{
    if rest.len() == 0 {
        if pending.len() > 0 {
            seq![pending]
        } else {
            seq![]
        }
    } else if is_white_space(rest[0]) {
        (if pending.len() > 0 {
            seq![pending]
        } else {
            seq![]
        }) + words_from(Seq::empty(), rest.drop_first())
    } else {
        words_from(pending.push(rest[0]), rest.drop_first())
    }
}

/// The words of a line, as `str::split_whitespace` gives them.
pub open spec fn line_words(line: Seq<char>) -> Seq<Seq<char>> {
    words_from(Seq::empty(), line)
}

proof fn lemma_char_rows_push(rows: Seq<Vec<char>>, r: Vec<char>)
    ensures
        char_rows(rows.push(r)) == char_rows(rows).push(r@),
{
    assert(char_rows(rows.push(r)) =~= char_rows(rows).push(r@));
}


/// Words are not changed by white space after them.
pub proof fn lemma_words_trailing_white_space(pending: Seq<char>, rest: Seq<char>, w: char)
    requires
        is_white_space(w),
    ensures
        words_from(pending, rest.push(w)) == words_from(pending, rest),
    decreases rest.len(),
{
    if rest.len() == 0 {
        assert(rest.push(w)[0] == w);
        assert(rest.push(w).drop_first() =~= Seq::<char>::empty());
        assert(words_from(Seq::empty(), Seq::empty()) =~= Seq::<Seq<char>>::empty());
        let head: Seq<Seq<char>> = if pending.len() > 0 {
            seq![pending]
        } else {
            seq![]
        };
        assert(head + Seq::<Seq<char>>::empty() =~= head);
    } else {
        assert(rest.push(w)[0] == rest[0]);
        assert(rest.push(w).drop_first() =~= rest.drop_first().push(w));
        if is_white_space(rest[0]) {
            lemma_words_trailing_white_space(Seq::empty(), rest.drop_first(), w);
        } else {
            lemma_words_trailing_white_space(pending.push(rest[0]), rest.drop_first(), w);
        }
    }
}

/// Dropping the carriage return that ends a line keeps its words.
pub proof fn lemma_strip_cr_keeps_words(line: Seq<char>)
    ensures
        line_words(strip_cr(line)) == line_words(line),
{
    if line.len() > 0 && line.last() == '\r' {
        assert(line =~= line.drop_last().push('\r'));
        lemma_words_trailing_white_space(Seq::empty(), line.drop_last(), '\r');
    }
}

/// The lines of a text without `'\n'`: the text itself, unless it is empty.
pub proof fn lemma_lines_of_one_line(pending: Seq<char>, rest: Seq<char>)
    requires
        !rest.contains('\n'),
    ensures
        lines_from(pending, rest) == (if (pending + rest).len() > 0 {
            seq![pending + rest]
        } else {
            Seq::<Seq<char>>::empty()
        }),
    decreases rest.len(),
{
    if rest.len() == 0 {
        assert(pending + rest =~= pending);
    } else {
        assert(rest[0] != '\n') by {
            if rest[0] == '\n' {
                assert(rest.contains(rest[0]));
            }
        }
        assert(!rest.drop_first().contains('\n')) by {
            if rest.drop_first().contains('\n') {
                let k = choose|k: int| 0 <= k < rest.drop_first().len() && rest.drop_first()[k] == '\n';
                assert(rest[k + 1] == '\n');
            }
        }
        lemma_lines_of_one_line(pending.push(rest[0]), rest.drop_first());
        assert(pending.push(rest[0]) + rest.drop_first() =~= pending + rest);
    }
}

/// The lines of one line ended by `'\n'`: that line, without a carriage
/// return before the `'\n'`.
pub proof fn lemma_lines_of_terminated_line(pending: Seq<char>, rest: Seq<char>)
    requires
        !rest.contains('\n'),
    ensures
        lines_from(pending, rest.push('\n')) == seq![strip_cr(pending + rest)],
    decreases rest.len(),
{
    let r2 = rest.push('\n');
    if rest.len() == 0 {
        assert(r2[0] == '\n');
        assert(r2.drop_first() =~= Seq::<char>::empty());
        assert(pending + rest =~= pending);
        assert(lines_from(Seq::empty(), Seq::<char>::empty()) =~= Seq::<Seq<char>>::empty());
        assert(seq![strip_cr(pending)] + Seq::<Seq<char>>::empty() =~= seq![strip_cr(pending)]);
    } else {
        assert(r2[0] == rest[0]);
        assert(rest[0] != '\n') by {
            if rest[0] == '\n' {
                assert(rest.contains(rest[0]));
            }
        }
        assert(!rest.drop_first().contains('\n')) by {
            if rest.drop_first().contains('\n') {
                let k = choose|k: int| 0 <= k < rest.drop_first().len() && rest.drop_first()[k] == '\n';
                assert(rest[k + 1] == '\n');
            }
        }
        assert(r2.drop_first() =~= rest.drop_first().push('\n'));
        lemma_lines_of_terminated_line(pending.push(rest[0]), rest.drop_first());
        assert(pending.push(rest[0]) + rest.drop_first() =~= pending + rest);
    }
}

/// The words of a text that has white space at position `k` are the words
/// before it followed by the words after it.
pub proof fn lemma_words_split_at_white_space(line: Seq<char>, k: int)
    requires
        0 <= k < line.len(),
        is_white_space(line[k]),
    ensures
        line_words(line) == line_words(line.take(k)) + line_words(line.skip(k + 1)),
{
    lemma_words_split(Seq::empty(), line.take(k), line[k], line.skip(k + 1));
    assert(line =~= line.take(k) + seq![line[k]] + line.skip(k + 1));
}

proof fn lemma_words_split(pending: Seq<char>, a: Seq<char>, w: char, b: Seq<char>)
    requires
        is_white_space(w),
    ensures
        words_from(pending, a + seq![w] + b) == words_from(pending, a) + line_words(b),
    decreases a.len(),
{
    let s = a + seq![w] + b;
    if a.len() == 0 {
        assert(s[0] == w);
        assert(s.drop_first() =~= b);
        lemma_words_trailing_white_space(pending, a, w);
        assert(words_from(pending, a.push(w)) == words_from(pending, a));
        let head: Seq<Seq<char>> = if pending.len() > 0 {
            seq![pending]
        } else {
            seq![]
        };
        assert(a.push(w).drop_first() =~= Seq::<char>::empty());
        assert(a.push(w)[0] == w);
        assert(words_from(Seq::<char>::empty(), Seq::<char>::empty()) =~= Seq::<Seq<char>>::empty());
        assert(head + Seq::<Seq<char>>::empty() =~= head);
    } else {
        assert(s[0] == a[0]);
        assert(s.drop_first() =~= a.drop_first() + seq![w] + b);
        if is_white_space(a[0]) {
            lemma_words_split(Seq::empty(), a.drop_first(), w, b);
            let head: Seq<Seq<char>> = if pending.len() > 0 {
                seq![pending]
            } else {
                seq![]
            };
            assert(head + (words_from(Seq::empty(), a.drop_first()) + line_words(b)) =~= (head
                + words_from(Seq::empty(), a.drop_first())) + line_words(b));
        } else {
            lemma_words_split(pending.push(a[0]), a.drop_first(), w, b);
        }
    }
}

/// A run of characters none of which is white space is one word, if it is
/// not empty.
pub proof fn lemma_words_of_one_word(word: Seq<char>)
    requires
        forall|k: int| 0 <= k < word.len() ==> !is_white_space(#[trigger] word[k]),
    ensures
        line_words(word) == (if word.len() > 0 {
            seq![word]
        } else {
            Seq::<Seq<char>>::empty()
        }),
{
    lemma_words_run(Seq::empty(), word);
    assert(Seq::<char>::empty() + word =~= word);
}

proof fn lemma_words_run(pending: Seq<char>, rest: Seq<char>)
    requires
        forall|k: int| 0 <= k < rest.len() ==> !is_white_space(#[trigger] rest[k]),
    ensures
        words_from(pending, rest) == (if (pending + rest).len() > 0 {
            seq![pending + rest]
        } else {
            Seq::<Seq<char>>::empty()
        }),
    decreases rest.len(),
{
    if rest.len() == 0 {
        assert(pending + rest =~= pending);
    } else {
        assert(!is_white_space(rest[0]));
        assert forall|k: int| 0 <= k < rest.drop_first().len() implies !is_white_space(
            #[trigger] rest.drop_first()[k],
        ) by {
            assert(rest.drop_first()[k] == rest[k + 1]);
        }
        lemma_words_run(pending.push(rest[0]), rest.drop_first());
        assert(pending.push(rest[0]) + rest.drop_first() =~= pending + rest);
    }
}

/// A line ended by `"\r\n"` or by `'\n'` alone is read without that ending.
pub proof fn lemma_line_endings(line: Seq<char>)
    requires
        !line.contains('\n'),
        line.len() == 0 || line.last() != '\r',
    ensures
        text_lines(line.push('\n')) == seq![line],
        text_lines(line.push('\r').push('\n')) == seq![line],
{
    lemma_lines_of_terminated_line(Seq::empty(), line);
    assert(Seq::<char>::empty() + line =~= line);
    assert(!line.push('\r').contains('\n')) by {
        if line.push('\r').contains('\n') {
            let k = choose|k: int| 0 <= k < line.push('\r').len() && line.push('\r')[k] == '\n';
            if k < line.len() {
                assert(line[k] == '\n');
            }
        }
    }
    lemma_lines_of_terminated_line(Seq::empty(), line.push('\r'));
    assert(Seq::<char>::empty() + line.push('\r') =~= line.push('\r'));
    assert(line.push('\r').drop_last() =~= line);
}

/// The lines of `a + b`, where `a` ends a line, are those of `a` followed
/// by those of `b`.
pub proof fn lemma_lines_concat(pending: Seq<char>, a: Seq<char>, b: Seq<char>)
    requires
        a.len() > 0,
        a.last() == '\n',
    ensures
        lines_from(pending, a + b) == lines_from(pending, a) + text_lines(b),
    decreases a.len(),
{
    let ab = a + b;
    assert(ab[0] == a[0]);
    assert(ab.drop_first() =~= a.drop_first() + b);
    if a.len() == 1 {
        assert(a.drop_first() =~= Seq::<char>::empty());
        assert(a.drop_first() + b =~= b);
        assert(lines_from(Seq::empty(), a.drop_first()) =~= Seq::<Seq<char>>::empty());
        assert(lines_from(pending, a) =~= seq![strip_cr(pending)]);
    } else {
        assert(a.drop_first().last() == '\n');
        if a[0] == '\n' {
            lemma_lines_concat(Seq::empty(), a.drop_first(), b);
            assert(seq![strip_cr(pending)] + (lines_from(Seq::empty(), a.drop_first()) + text_lines(b))
                =~= (seq![strip_cr(pending)] + lines_from(Seq::empty(), a.drop_first())) + text_lines(b));
        } else {
            lemma_lines_concat(pending.push(a[0]), a.drop_first(), b);
        }
    }
}

/// Splits a text into lines, as `str::lines` does.
pub fn lines(text: &str) -> (res: Vec<Vec<char>>)
    ensures
        char_rows(res@) == text_lines(text@),
{
    let mut res: Vec<Vec<char>> = Vec::new();
    let mut pending: Vec<char> = Vec::new();
    let ghost all = text@;
    proof {
        assert(all.skip(0) =~= all);
        assert(char_rows(res@) + lines_from(pending@, all) =~= lines_from(pending@, all));
    }
    for c in it: text.chars()
        invariant
            it.seq() == all,
            char_rows(res@) + lines_from(pending@, all.skip(it.index() as int)) == text_lines(all),
    {
        let ghost rest = all.skip(it.index() as int);
        proof {
            assert(rest[0] == c);
            assert(rest.drop_first() =~= all.skip(it.index() + 1));
        }
        if c == '\n' {
            let ghost before = pending@;
            if pending.len() > 0 && pending[pending.len() - 1] == '\r' {
                pending.pop();
            }
            assert(pending@ == strip_cr(before));
            let ghost old_res = res@;
            res.push(pending);
            pending = Vec::new();
            proof {
                lemma_char_rows_push(old_res, res@.last());
                assert(char_rows(res@) + lines_from(pending@, rest.drop_first()) =~= char_rows(
                    old_res,
                ) + lines_from(before, rest));
            }
        } else {
            pending.push(c);
        }
    }
    proof {
        assert(all.skip(all.len() as int) =~= Seq::<char>::empty());
    }
    if pending.len() > 0 {
        let ghost old_res = res@;
        res.push(pending);
        proof {
            lemma_char_rows_push(old_res, res@.last());
        }
    } else {
        assert(char_rows(res@) + Seq::<Seq<char>>::empty() =~= char_rows(res@));
    }
    res
}

/// Splits a line into its words, as `str::split_whitespace` does.
pub fn split_whitespace(line: &Vec<char>) -> (res: Vec<Vec<char>>)
    ensures
        char_rows(res@) == line_words(line@),
{
    let mut res: Vec<Vec<char>> = Vec::new();
    let mut pending: Vec<char> = Vec::new();
    let ghost all = line@;
    proof {
        assert(all.skip(0) =~= all);
        assert(char_rows(res@) + words_from(pending@, all) =~= words_from(pending@, all));
    }
    let mut i: usize = 0;
    while i < line.len()
        invariant
            all == line@,
            i <= all.len(),
            char_rows(res@) + words_from(pending@, all.skip(i as int)) == line_words(all),
        decreases all.len() - i,
    {
        let c = line[i];
        let ghost rest = all.skip(i as int);
        proof {
            assert(rest[0] == c);
            assert(rest.drop_first() =~= all.skip(i + 1));
        }
        if is_whitespace(c) {
            let ghost before = pending@;
            let ghost old_res = res@;
            if pending.len() > 0 {
                res.push(pending);
                pending = Vec::new();
                proof {
                    lemma_char_rows_push(old_res, res@.last());
                    assert(char_rows(res@) + words_from(pending@, rest.drop_first()) =~= char_rows(
                        old_res,
                    ) + words_from(before, rest));
                }
            } else {
                let ghost tail = words_from(Seq::empty(), rest.drop_first());
                assert(before =~= Seq::<char>::empty());
                assert(words_from(before, rest) == Seq::<Seq<char>>::empty() + tail);
                assert(Seq::<Seq<char>>::empty() + tail =~= tail);
            }
        } else {
            pending.push(c);
        }
        i = i + 1;
    }
    proof {
        assert(all.skip(i as int) =~= Seq::<char>::empty());
    }
    if pending.len() > 0 {
        let ghost old_res = res@;
        res.push(pending);
        proof {
            lemma_char_rows_push(old_res, res@.last());
        }
    } else {
        assert(char_rows(res@) + Seq::<Seq<char>>::empty() =~= char_rows(res@));
    }
    res
}

} // verus!
