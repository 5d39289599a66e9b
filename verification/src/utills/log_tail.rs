//! The last lines of a log text.

use vstd::prelude::*;
use vstd::string::{StrSliceExecFns, StringExecFns};
use crate::text::chars_of;

verus! {

/// A line without its line ending's carriage return.
pub open spec fn strip_cr(line: Seq<char>) -> Seq<char> {
    if line.len() > 0 && line.last() == '\r' {
        line.drop_last()
    } else {
        line
    }
}

/// The lines of `rest`, the current line having begun with `cur`: a line ends
/// at each `\n` (an `\r` just before it is dropped); the final line ending is
/// optional, and an empty text has no lines.
pub open spec fn lines_from(rest: Seq<char>, cur: Seq<char>) -> Seq<Seq<char>>
    decreases rest.len(),
{
    if rest.len() == 0 {
        if cur.len() == 0 {
            seq![]
        } else {
            seq![cur]
        }
    } else if rest[0] == '\n' {
        seq![strip_cr(cur)] + lines_from(rest.drop_first(), seq![])
    } else {
        lines_from(rest.drop_first(), cur.push(rest[0]))
    }
}

/// The lines of `text`, as `str::lines` yields them.
pub open spec fn text_lines(text: Seq<char>) -> Seq<Seq<char>> {
    lines_from(text, seq![])
}

/// Lines joined with `\n` between them.
pub open spec fn join_lines(lines: Seq<Seq<char>>) -> Seq<char>
    decreases lines.len(),
{
    if lines.len() == 0 {
        seq![]
    } else if lines.len() == 1 {
        lines[0]
    } else {
        join_lines(lines.drop_last()) + "\n"@ + lines.last()
    }
}

/// The last `n` lines of `text` (all of them when there are no more),
/// joined with `\n`.
pub open spec fn tail_text(text: Seq<char>, n: nat) -> Seq<char> {
    let ls = text_lines(text);
    if n >= ls.len() {
        join_lines(ls)
    } else {
        join_lines(ls.skip(ls.len() - n))
    }
}

/// Joining a line in front of at least one other line puts `\n` between it
/// and the joined rest.
proof fn lemma_join_front(x: Seq<char>, rest: Seq<Seq<char>>)
    requires
        rest.len() >= 1,
    ensures
        join_lines(seq![x] + rest) == x + "\n"@ + join_lines(rest),
    decreases rest.len(),
{
    let all = seq![x] + rest;
    if rest.len() == 1 {
        assert(all.drop_last() =~= seq![x]);
        assert(all.last() == rest[0]);
        assert(join_lines(seq![x]) == x);
        assert(join_lines(rest) == rest[0]);
    } else {
        lemma_join_front(x, rest.drop_last());
        assert(all.drop_last() =~= seq![x] + rest.drop_last());
        assert(all.last() == rest.last());
        assert(x + "\n"@ + join_lines(rest.drop_last()) + "\n"@ + rest.last() =~= x + "\n"@ + (
        join_lines(rest.drop_last()) + "\n"@ + rest.last()));
    }
}

/// The tail of `text` for `n` is exactly its last `min(n, count)` lines, in
/// order, joined with `\n`: every line when `n` is at least the number of
/// lines, never fewer lines than asked for while the text has them.
pub proof fn lemma_tail_is_last_lines(text: Seq<char>, n: nat)
    ensures
        ({
            let ls = text_lines(text);
            let m = if n < ls.len() { n as int } else { ls.len() as int };
            tail_text(text, n) == join_lines(ls.subrange(ls.len() - m, ls.len() as int))
        }),
{
    let ls = text_lines(text);
    assert(ls.subrange(0, ls.len() as int) =~= ls);
    if n < ls.len() {
        assert(ls.skip(ls.len() - n) =~= ls.subrange(ls.len() - n, ls.len() as int));
    }
}

/// Asking for one more line, while the text has more, puts the line just
/// before the previous tail in front of it.
pub proof fn lemma_tail_grows_by_one_line(text: Seq<char>, n: nat)
    requires
        0 < n < text_lines(text).len(),
    ensures
        ({
            let ls = text_lines(text);
            tail_text(text, n + 1) == ls[ls.len() - n - 1] + "\n"@ + tail_text(text, n)
        }),
{
    let ls = text_lines(text);
    let len = ls.len() as int;
    let short = ls.skip(len - n);
    let long = ls.skip(len - n - 1);
    assert(long =~= seq![ls[len - n - 1]] + short);
    lemma_join_front(ls[len - n - 1], short);
    if n + 1 >= ls.len() {
        assert(ls.skip(0) =~= ls);
        assert(long =~= ls);
    }
}

/// Asking for at least as many lines as the text has gives the whole text's
/// lines.
pub proof fn lemma_tail_of_all_lines(text: Seq<char>, n: nat)
    requires
        n >= text_lines(text).len(),
    ensures
        tail_text(text, n) == join_lines(text_lines(text)),
{
}

/// The text of each line span.
pub open spec fn spans_text(text: Seq<char>, spans: Seq<(usize, usize)>) -> Seq<Seq<char>> {
    spans.map_values(|sp: (usize, usize)| text.subrange(sp.0 as int, sp.1 as int))
}

proof fn lemma_lines_step(text: Seq<char>, i: int, start: int)
    requires
        0 <= start <= i < text.len(),
    ensures
        lines_from(text.skip(i), text.subrange(start, i)) == (if text[i] == '\n' {
            seq![strip_cr(text.subrange(start, i))] + lines_from(text.skip(i + 1), seq![])
        } else {
            lines_from(text.skip(i + 1), text.subrange(start, i + 1))
        }),
{
    assert(text.skip(i)[0] == text[i]);
    assert(text.skip(i).drop_first() =~= text.skip(i + 1));
    assert(text.subrange(start, i).push(text[i]) =~= text.subrange(start, i + 1));
}

/// Splits `text` into its lines, as spans of character positions.
fn line_spans(chars: &Vec<char>) -> (spans: Vec<(usize, usize)>)
    ensures
        spans_text(chars@, spans@) == text_lines(chars@),
        forall|k: int|
            0 <= k < spans@.len() ==> #[trigger] spans@[k].0 <= spans@[k].1 <= chars@.len(),
{
    let ghost text = chars@;
    let n = chars.len();
    let mut spans: Vec<(usize, usize)> = Vec::new();
    let mut start: usize = 0;
    let mut i: usize = 0;
    assert(text.skip(0) =~= text);
    assert(text.subrange(0, 0) =~= seq![]);
    while i < n
        invariant
            text == chars@,
            n == text.len(),
            start <= i <= n,
            forall|k: int| 0 <= k < spans@.len() ==> #[trigger] spans@[k].0 <= spans@[k].1 <= n,
            text_lines(text) == spans_text(text, spans@) + lines_from(
                text.skip(i as int),
                text.subrange(start as int, i as int),
            ),
        decreases n - i,
    {
        proof {
            lemma_lines_step(text, i as int, start as int);
        }
        if chars[i] == '\n' {
            let end = if i > start && chars[i - 1] == '\r' {
                i - 1
            } else {
                i
            };
            assert(text.subrange(start as int, end as int) == strip_cr(
                text.subrange(start as int, i as int),
            )) by {
                if i > start && text[i - 1] == '\r' {
                    assert(text.subrange(start as int, i - 1) =~= text.subrange(
                        start as int,
                        i as int,
                    ).drop_last());
                }
            }
            let ghost before = spans_text(text, spans@);
            let ghost old_spans = spans@;
            spans.push((start, end));
            assert forall|k: int| 0 <= k < spans@.len() implies #[trigger] spans@[k].0 <= spans@[k].1
                <= n by {
                if k < old_spans.len() {
                    assert(spans@[k] == old_spans[k]);
                }
            }
            assert(spans_text(text, spans@) =~= before.push(text.subrange(start as int, end as int)));
            assert(text.subrange(i + 1, i + 1) =~= seq![]);
            assert(before + (seq![text.subrange(start as int, end as int)] + lines_from(
                text.skip(i + 1),
                seq![],
            )) =~= before.push(text.subrange(start as int, end as int)) + lines_from(
                text.skip(i + 1),
                seq![],
            ));
            start = i + 1;
        }
        i = i + 1;
    }
    assert(text.skip(n as int) =~= seq![]);
    if start < n {
        let ghost before = spans_text(text, spans@);
        let ghost old_spans = spans@;
        spans.push((start, n));
        assert forall|k: int| 0 <= k < spans@.len() implies #[trigger] spans@[k].0 <= spans@[k].1
            <= n by {
            if k < old_spans.len() {
                assert(spans@[k] == old_spans[k]);
            }
        }
        assert(spans_text(text, spans@) =~= before.push(text.subrange(start as int, n as int)));
        assert(before + seq![text.subrange(start as int, n as int)] =~= before.push(
            text.subrange(start as int, n as int),
        ));
    } else {
        assert(text.subrange(start as int, n as int) =~= seq![]);
        assert(spans_text(text, spans@) + seq![] =~= spans_text(text, spans@));
    }
    spans
}

/// The last `lines` lines of `text` (all of them when it has no more),
/// joined with `\n`; line endings are `\n` or `\r\n`.
pub fn tail_lines(text: &str, lines: usize) -> (res: String)
    ensures
        res@ == tail_text(text@, lines as nat),
{
    let chars = chars_of(text);
    let spans = line_spans(&chars);
    let ghost ls = text_lines(text@);
    let total = spans.len();
    let first = if lines >= total {
        0
    } else {
        total - lines
    };
    let ghost chosen = ls.skip(first as int);
    let mut res = String::new();
    let mut k: usize = first;
    assert(chosen.take(0) =~= seq![]);
    while k < total
        invariant
            first <= k <= total,
            total == spans@.len(),
            ls == spans_text(text@, spans@),
            chosen == ls.skip(first as int),
            chars@ == text@,
            forall|j: int|
                0 <= j < spans@.len() ==> #[trigger] spans@[j].0 <= spans@[j].1 <= text@.len(),
            res@ == join_lines(chosen.take(k - first)),
        decreases total - k,
    {
        let (a, b) = spans[k];
        let line = text.substring_char(a, b);
        assert(line@ == chosen[k - first]);
        assert(chosen.take(k + 1 - first).drop_last() =~= chosen.take(k - first));
        if k > first {
            res.append("\n");
        } else {
            assert(res@ =~= seq![]);
        }
        res.append(line);
        assert(res@ =~= join_lines(chosen.take(k + 1 - first)));
        k = k + 1;
    }
    assert(chosen.take(total - first) =~= chosen);
    assert(ls.skip(0) =~= ls);
    res
}

} // verus!
