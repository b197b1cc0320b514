//! What reading gives back of what writing wrote: numbers, lines and tokens.

use crate::text::{
    all_digits, decimal, digit_char, digit_value, digits_value, flush, is_digit, is_white_space,
    lines_from, parse_index, split_lines, strip_cr, tokens, tokens_from, unsigned_body,
};
use crate::tgf::join_lines;
use vstd::prelude::*;

verus! {

/// A numeral is made of digits, at least one, and denotes its number.
pub proof fn lemma_decimal(n: nat)
    ensures
        decimal(n).len() > 0,
        all_digits(decimal(n)),
        digits_value(decimal(n)) == n,
    decreases n,
{
    if n < 10 {
        assert(decimal(n).drop_last() == Seq::<char>::empty());
        assert(digits_value(decimal(n).drop_last()) == 0);
        assert(digit_value(digit_char(n)) == n);
    } else {
        lemma_decimal(n / 10);
        let s = decimal(n);
        assert(s.drop_last() == decimal(n / 10));
        assert(s.last() == digit_char(n % 10));
        assert(digit_value(digit_char(n % 10)) == n % 10);
        assert(is_digit(digit_char(n % 10)));
        assert forall|i: int| 0 <= i < s.len() implies is_digit(#[trigger] s[i]) by {
            if i < s.len() - 1 {
                assert(s[i] == decimal(n / 10)[i]);
            }
        }
    }
}

/// Reading the numeral of an index gives the index.
pub proof fn lemma_parse_decimal(n: usize)
    ensures
        parse_index(decimal(n as nat)) == Some(n),
{
    lemma_decimal(n as nat);
    assert(is_digit(decimal(n as nat)[0]));
    assert(unsigned_body(decimal(n as nat)) == decimal(n as nat));
}

/// A line as the writer writes it: no line feed in it, and no carriage
/// return at its end.
pub open spec fn clean_line(line: Seq<char>) -> bool {
    &&& !line.contains('\n')
    &&& line.len() > 0 ==> line.last() != '\r'
}

/// Where reading goes on in a text does not depend on what stands before.
pub proof fn lemma_lines_shift(head: Seq<char>, t: Seq<char>, i: int, cur: Seq<char>)
    requires
        0 <= i,
    ensures
        lines_from(head + t, head.len() + i, cur) == lines_from(t, i, cur),
    decreases t.len() - i,
{
    let x = head + t;
    if i < t.len() {
        assert(x[head.len() + i] == t[i]);
        if t[i] == '\n' {
            lemma_lines_shift(head, t, i + 1, Seq::empty());
        } else {
            lemma_lines_shift(head, t, i + 1, cur.push(t[i]));
        }
    }
}

/// A clean line, a line feed, and more text: the line, then the lines of the rest.
pub proof fn lemma_lines_first(line: Seq<char>, t: Seq<char>, i: int)
    requires
        clean_line(line),
        0 <= i <= line.len(),
    ensures
        lines_from(line + seq!['\n'] + t, i, line.take(i)) == seq![line] + split_lines(t),
    decreases line.len() - i,
{
    let x = line + seq!['\n'] + t;
    if i < line.len() {
        assert(x[i] == line[i]);
        assert(line.contains(line[i]));
        assert(line.take(i).push(line[i]) == line.take(i + 1));
        lemma_lines_first(line, t, i + 1);
    } else {
        assert(x[i] == '\n');
        assert(line.take(i) == line);
        assert(strip_cr(line) == line);
        lemma_lines_shift(line + seq!['\n'], t, 0, Seq::empty());
    }
}

/// The text of a first line and of more lines.
pub proof fn lemma_join_first(line: Seq<char>, rest: Seq<Seq<char>>)
    ensures
        join_lines(seq![line] + rest) == line + seq!['\n'] + join_lines(rest),
    decreases rest.len(),
{
    let all = seq![line] + rest;
    if rest.len() == 0 {
        assert(all.drop_last() == Seq::<Seq<char>>::empty());
        assert(join_lines(all.drop_last()) == Seq::<char>::empty());
        assert(join_lines(all) == Seq::<char>::empty() + line + seq!['\n']);
        assert(join_lines(all) == line + seq!['\n'] + Seq::<char>::empty());
    } else {
        lemma_join_first(line, rest.drop_last());
        assert(all.drop_last() == seq![line] + rest.drop_last());
        assert(all.last() == rest.last());
        assert(join_lines(all) == (line + seq!['\n'] + join_lines(rest.drop_last())) + rest.last()
            + seq!['\n']);
        assert(join_lines(all) == line + seq!['\n'] + (join_lines(rest.drop_last()) + rest.last()
            + seq!['\n']));
    }
}

/// Splitting the text of clean lines gives the lines back.
pub proof fn lemma_split_join(lines: Seq<Seq<char>>)
    requires
        forall|i: int| 0 <= i < lines.len() ==> clean_line(#[trigger] lines[i]),
    ensures
        split_lines(join_lines(lines)) == lines,
    decreases lines.len(),
{
    if lines.len() == 0 {
    } else {
        let line = lines.first();
        let rest = lines.drop_first();
        assert(lines == seq![line] + rest);
        lemma_join_first(line, rest);
        assert forall|i: int| 0 <= i < rest.len() implies clean_line(#[trigger] rest[i]) by {
            assert(rest[i] == lines[i + 1]);
        }
        lemma_split_join(rest);
        assert(line.take(0) == Seq::<char>::empty());
        lemma_lines_first(line, join_lines(rest), 0);
    }
}

/// A token as the writer writes it: at least one character, none of them white space.
pub open spec fn word(w: Seq<char>) -> bool {
    &&& w.len() > 0
    &&& forall|i: int| 0 <= i < w.len() ==> !is_white_space(#[trigger] w[i])
}

/// Where tokens are read on in a line does not depend on what stands before.
pub proof fn lemma_tokens_shift(head: Seq<char>, s: Seq<char>, i: int, cur: Seq<char>)
    requires
        0 <= i,
    ensures
        tokens_from(head + s, head.len() + i, cur) == tokens_from(s, i, cur),
    decreases s.len() - i,
{
    let x = head + s;
    if i < s.len() {
        assert(x[head.len() + i] == s[i]);
        if is_white_space(s[i]) {
            lemma_tokens_shift(head, s, i + 1, Seq::empty());
        } else {
            lemma_tokens_shift(head, s, i + 1, cur.push(s[i]));
        }
    }
}

/// A word and a rest that is empty or starts with white space: the word,
/// then the tokens of the rest.
pub proof fn lemma_tokens_word(w: Seq<char>, rest: Seq<char>, i: int)
    requires
        word(w),
        rest.len() > 0 ==> is_white_space(rest[0]),
        0 <= i <= w.len(),
    ensures
        tokens_from(w + rest, i, w.take(i)) == seq![w] + tokens(rest),
    decreases w.len() - i,
{
    let x = w + rest;
    if i < w.len() {
        assert(x[i] == w[i]);
        assert(w.take(i).push(w[i]) == w.take(i + 1));
        lemma_tokens_word(w, rest, i + 1);
    } else {
        assert(w.take(i) == w);
        if rest.len() == 0 {
            assert(x == w);
            assert(seq![w] + Seq::<Seq<char>>::empty() == seq![w]);
        } else {
            assert(x[i] == rest[0]);
            lemma_tokens_shift(w, rest, 1, Seq::empty());
            assert(flush(Seq::<char>::empty()) + tokens_from(rest, 1, Seq::empty())
                == tokens_from(rest, 1, Seq::empty()));
        }
    }
}

/// A space in front of a line adds no token.
pub proof fn lemma_tokens_space(s: Seq<char>)
    ensures
        tokens(seq![' '] + s) == tokens(s),
{
    let x = seq![' '] + s;
    assert(is_white_space(x[0]));
    lemma_tokens_shift(seq![' '], s, 0, Seq::empty());
    assert(flush(Seq::<char>::empty()) + tokens_from(x, 1, Seq::empty()) == tokens_from(
        x,
        1,
        Seq::empty(),
    ));
}

/// A numeral is a word.
pub proof fn lemma_decimal_word(n: nat)
    ensures
        word(decimal(n)),
        !decimal(n).contains('\n'),
        !decimal(n).contains(' '),
        decimal(n).last() != '\r',
        decimal(n)[0] != '#',
{
    lemma_decimal(n);
    let s = decimal(n);
    assert forall|i: int| 0 <= i < s.len() implies !is_white_space(#[trigger] s[i]) by {
        assert(is_digit(s[i]));
    }
    if s.contains('\n') {
        let i = choose|i: int| 0 <= i < s.len() && s[i] == '\n';
        assert(is_digit(s[i]));
    }
    if s.contains(' ') {
        let i = choose|i: int| 0 <= i < s.len() && s[i] == ' ';
        assert(is_digit(s[i]));
    }
    assert(is_digit(s[s.len() - 1]));
    assert(is_digit(s[0]));
}

} // verus!
