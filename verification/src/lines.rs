//! Splitting the text of a word list into its lines.

use crate::text::{chars_of, text_from, texts};
use vstd::prelude::*;

verus! {

/// The number of characters of `s` that come before its first line feed.
pub open spec fn line_len(s: Seq<char>) -> nat
    decreases s.len(),
{
    if s.len() == 0 || s[0] == '\n' {
        0
    } else {
        1 + line_len(s.drop_first())
    }
}

/// A line as it stood before its line feed, without the carriage return that may end it.
pub open spec fn without_carriage_return(line: Seq<char>) -> Seq<char> {
    if line.len() > 0 && line.last() == '\r' {
        line.drop_last()
    } else {
        line
    }
}

/// A run of `n` characters without a line feed that ends `s` or is followed by a line feed
/// is the first line of `s`.
proof fn lemma_line_len_is(s: Seq<char>, n: int)
    requires
        0 <= n <= s.len(),
        forall|i: int| 0 <= i < n ==> #[trigger] s[i] != '\n',
        n < s.len() ==> s[n] == '\n',
    ensures
        line_len(s) == n,
    decreases n,
{
    if n > 0 {
        let rest = s.drop_first();
        assert(s[0] != '\n');
        assert forall|i: int| 0 <= i < n - 1 implies #[trigger] rest[i] != '\n' by {
            assert(rest[i] == s[i + 1]);
        }
        lemma_line_len_is(rest, n - 1);
    }
}

/// The lines of `s`. Each line feed ends a line; what follows the last line feed is a line
/// too, unless it is empty. A line holds neither its line feed nor a carriage return that
/// stands directly before the line feed.
pub open spec fn lines_of(s: Seq<char>) -> Seq<Seq<char>>
    decreases s.len(),
{
    if s.len() == 0 {
        Seq::empty()
    } else if line_len(s) >= s.len() {
        seq![s]
    } else {
        seq![without_carriage_return(s.take(line_len(s) as int))] + lines_of(
            s.skip(line_len(s) as int + 1),
        )
    }
}

/// The lines of `text`, in their order.
pub fn split_lines(text: &str) -> (lines: Vec<String>)
    ensures
        texts(lines@) == lines_of(text@),
{
    let chars = chars_of(text);
    let mut lines: Vec<String> = Vec::new();
    let mut start: usize = 0;
    assert(chars@.skip(0) =~= chars@);
    assert(texts(lines@) + lines_of(chars@) =~= lines_of(chars@));
    while start < chars.len()
        invariant
            start <= chars.len(),
            texts(lines@) + lines_of(chars@.skip(start as int)) == lines_of(chars@),
        decreases chars.len() - start,
    {
        let ghost rest = chars@.skip(start as int);
        let mut end = start;
        while end < chars.len() && chars[end] != '\n'
            invariant
                start <= end <= chars.len(),
                forall|k: int| start <= k < end ==> #[trigger] chars@[k] != '\n',
            decreases chars.len() - end,
        {
            end += 1;
        }
        proof {
            lemma_line_len_is(rest, end - start);
            assert(rest.take(end - start) =~= chars@.subrange(start as int, end as int));
        }
        let terminated = end < chars.len();
        let line = if terminated && end > start && chars[end - 1] == '\r' {
            assert(chars@.subrange(start as int, end as int).drop_last() =~= chars@.subrange(
                start as int,
                end - 1,
            ));
            text_from(&chars, start, end - 1)
        } else {
            text_from(&chars, start, end)
        };
        let next = if terminated {
            end + 1
        } else {
            end
        };
        proof {
            assert(texts(lines@.push(line)) =~= texts(lines@).push(line@));
            if terminated {
                assert(rest.skip(end - start + 1) =~= chars@.skip(next as int));
            } else {
                assert(rest =~= chars@.subrange(start as int, end as int));
                assert(lines_of(chars@.skip(next as int)) =~= Seq::<Seq<char>>::empty());
            }
            assert(texts(lines@).push(line@) + lines_of(chars@.skip(next as int)) =~= texts(
                lines@,
            ) + lines_of(rest));
        }
        lines.push(line);
        start = next;
    }
    assert(lines_of(chars@.skip(start as int)) =~= Seq::<Seq<char>>::empty());
    assert(texts(lines@) + Seq::<Seq<char>>::empty() =~= texts(lines@));
    lines
}

} // verus!
