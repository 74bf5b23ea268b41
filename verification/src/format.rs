//! The text form in which a store is saved: one line per pair, the key and
//! the value parted by the first tab of the line.

use crate::table;
use crate::table::{
    distinct_keys, has_key, holds_at, law_last_put_wins, lookup, put_all, Table, Text,
};
use vstd::prelude::*;

verus! {

/// `n` is the first place at which `t` holds `c`, or the length of `t` where
/// `c` does not occur in it.
pub open spec fn is_first(t: Text, c: char, n: int) -> bool {
    &&& 0 <= n <= t.len()
    &&& forall|j: int| 0 <= j < n ==> t[j] != c
    &&& n < t.len() ==> t[n] == c
}

/// The first place at which `t` holds `c`; the length of `t` where it holds
/// none.
pub open spec fn first_index(t: Text, c: char) -> int {
    choose|n: int| is_first(t, c, n)
}

/// A line without the carriage return that may stand at its end.
pub open spec fn strip_cr(l: Text) -> Text {
    if l.len() > 0 && l.last() == '\r' {
        l.drop_last()
    } else {
        l
    }
}

/// The lines of a text. A line ends with a line feed, which is no part of
/// it, nor is a carriage return just before that line feed. What follows the
/// last line feed is a line of its own unless it is empty.
pub open spec fn lines(text: Text) -> Seq<Text>
    decreases text.len(),
{
    let n = first_index(text, '\n');
    if text.len() == 0 {
        Seq::empty()
    } else if 0 <= n < text.len() {
        seq![strip_cr(text.take(n))] + lines(text.skip(n + 1))
    } else {
        seq![text]
    }
}

/// A line that holds something, but no tab to end the key.
pub open spec fn is_corrupt(l: Text) -> bool {
    l.len() > 0 && !l.contains('\t')
}

/// The pair that a line stands for: the key is what precedes the first tab,
/// the value what follows it.
pub open spec fn pair_of(l: Text) -> (Text, Text) {
    let i = first_index(l, '\t');
    (l.take(i), l.skip(i + 1))
}

/// The table that a list of lines gives: each line that is not empty is
/// stored in turn, so that of two lines with one key the later one counts.
pub open spec fn table_of(ls: Seq<Text>) -> Table
    decreases ls.len(),
{
    if ls.len() == 0 {
        Seq::empty()
    } else if ls.last().len() == 0 {
        table_of(ls.drop_last())
    } else {
        table::put(table_of(ls.drop_last()), pair_of(ls.last()).0, pair_of(ls.last()).1)
    }
}

/// Some line of the text is corrupt.
pub open spec fn has_corrupt_line(text: Text) -> bool {
    exists|i: int| 0 <= i < lines(text).len() && is_corrupt(#[trigger] lines(text)[i])
}

/// The table that a saved text stands for; none where a line is corrupt.
pub open spec fn parse(text: Text) -> Option<Table> {
    if has_corrupt_line(text) {
        None
    } else {
        Some(table_of(lines(text)))
    }
}

/// The line that stands for a pair.
pub open spec fn line_of(e: (Text, Text)) -> Text {
    e.0.push('\t') + e.1
}

/// The text that a table is saved as: the lines of its pairs in their order,
/// with a line feed between one line and the next and none at the end.
pub open spec fn serialize(t: Table) -> Text
    decreases t.len(),
{
    if t.len() == 0 {
        Seq::empty()
    } else if t.len() == 1 {
        line_of(t[0])
    } else {
        serialize(t.drop_last()).push('\n') + line_of(t.last())
    }
}

/// The pairs that the text form can hold: no key holds a tab or a line feed,
/// no value holds a line feed, and no value but the last one ends with a
/// carriage return.
pub open spec fn storable(t: Table) -> bool {
    forall|i: int|
        0 <= i < t.len() ==> {
            &&& !(#[trigger] t[i]).0.contains('\t')
            &&& !t[i].0.contains('\n')
            &&& !t[i].1.contains('\n')
            &&& i + 1 < t.len() ==> !(t[i].1.len() > 0 && t[i].1.last() == '\r')
        }
}

/// There is one first place only.
pub proof fn lemma_first_index(t: Text, c: char, n: int)
    requires
        is_first(t, c, n),
    ensures
        first_index(t, c) == n,
{
    let m = first_index(t, c);
    assert(is_first(t, c, m));
    if m < n {
        assert(t[m] != c);
    } else if n < m {
        assert(t[n] != c);
    }
}

/// Where the first line of what follows place `pos` of a text ends, and what
/// is left after it. `end` is the place of the next line feed, or the length
/// of the text where none follows.
pub proof fn lemma_lines_step(text: Text, pos: int, end: int)
    requires
        0 <= pos <= end <= text.len(),
        pos < text.len(),
        forall|j: int| pos <= j < end ==> text[j] != '\n',
        end < text.len() ==> text[end] == '\n',
    ensures
        end < text.len() ==> lines(text.skip(pos)) == seq![
            strip_cr(text.subrange(pos, end)),
        ] + lines(text.skip(end + 1)),
        end == text.len() ==> lines(text.skip(pos)) == seq![text.subrange(pos, end)],
{
    let rest = text.skip(pos);
    assert(is_first(rest, '\n', end - pos));
    lemma_first_index(rest, '\n', end - pos);
    if end < text.len() {
        assert(rest.take(end - pos) =~= text.subrange(pos, end));
        assert(rest.skip(end - pos + 1) =~= text.skip(end + 1));
    } else {
        assert(rest =~= text.subrange(pos, end));
    }
}

/// What a line is read as, given the place `tab` of its first tab, or its
/// length where it holds none.
pub proof fn lemma_line_read(line: Text, tab: int)
    requires
        is_first(line, '\t', tab),
    ensures
        line.contains('\t') <==> tab < line.len(),
        pair_of(line) == (line.take(tab), line.skip(tab + 1)),
{
    lemma_first_index(line, '\t', tab);
    if tab < line.len() {
        assert(line[tab] == '\t');
    }
}

/// Reading one more line: the table of the lines read so far takes the
/// line's pair, or stays as it is where the line is empty.
pub proof fn lemma_table_push(done: Seq<Text>, line: Text)
    ensures
        table_of(done.push(line)) == if line.len() == 0 {
            table_of(done)
        } else {
            table::put(table_of(done), pair_of(line).0, pair_of(line).1)
        },
{
    assert(done.push(line).drop_last() =~= done);
}

/// A line read back gives the pair it was written for, provided the key
/// holds no tab.
pub proof fn lemma_pair_of_line(e: (Text, Text))
    requires
        !e.0.contains('\t'),
    ensures
        pair_of(line_of(e)) == e,
        line_of(e).len() > 0,
        !is_corrupt(line_of(e)),
        line_of(e).contains('\n') <==> e.0.contains('\n') || e.1.contains('\n'),
{
    let l = line_of(e);
    let n = e.0.len() as int;
    assert(l[n] == '\t');
    assert forall|j: int| 0 <= j < n implies l[j] != '\t' by {
        assert(l[j] == e.0[j]);
        assert(e.0.contains(l[j]));
    }
    lemma_first_index(l, '\t', n);
    assert(l.take(n) =~= e.0);
    assert(l.skip(n + 1) =~= e.1);
    if e.0.contains('\n') {
        let j = choose|j: int| 0 <= j < e.0.len() && e.0[j] == '\n';
        assert(l[j] == '\n');
    }
    if e.1.contains('\n') {
        let j = choose|j: int| 0 <= j < e.1.len() && e.1[j] == '\n';
        assert(l[n + 1 + j] == '\n');
    }
    if l.contains('\n') {
        let j = choose|j: int| 0 <= j < l.len() && l[j] == '\n';
        if j < n {
            assert(e.0[j] == '\n');
        } else {
            assert(e.1[j - n - 1] == '\n');
        }
    }
}

/// The saved text of two pairs or more is the first pair's line, a line
/// feed, and the saved text of the rest.
pub proof fn lemma_serialize_front(t: Table)
    requires
        t.len() >= 2,
    ensures
        serialize(t) == line_of(t[0]).push('\n') + serialize(t.drop_first()),
    decreases t.len(),
{
    let head = line_of(t[0]).push('\n');
    if t.len() == 2 {
        assert(t.drop_last() =~= seq![t[0]]);
        assert(t.drop_first() =~= seq![t[1]]);
        assert(serialize(t.drop_last()) == line_of(t[0]));
        assert(serialize(t.drop_first()) == line_of(t[1]));
    } else {
        let body = t.drop_last();
        lemma_serialize_front(body);
        assert(body.drop_first() =~= t.drop_first().drop_last());
        assert(body[0] == t[0]);
        assert(t.drop_first().last() == t.last());
        assert(serialize(t) =~= head + serialize(t.drop_first())) by {
            assert(serialize(t) == serialize(body).push('\n') + line_of(t.last()));
            assert(serialize(body) == head + serialize(body.drop_first()));
            assert(serialize(t.drop_first()) == serialize(body.drop_first()).push('\n') + line_of(
                t.last(),
            ));
        }
    }
}

/// The lines of a pair list, each as it is written.
pub open spec fn lines_of(t: Table) -> Seq<Text> {
    Seq::new(t.len(), |i: int| line_of(t[i]))
}

/// The lines of a saved text are the lines that its pairs were written as.
pub proof fn lemma_lines_of_serialized(t: Table)
    requires
        storable(t),
    ensures
        lines(serialize(t)) == lines_of(t),
    decreases t.len(),
{
    let s = serialize(t);
    if t.len() == 0 {
        assert(lines(s) =~= lines_of(t));
    } else {
        let l0 = line_of(t[0]);
        lemma_pair_of_line(t[0]);
        if t.len() == 1 {
            assert(s == l0);
            assert(is_first(s, '\n', s.len() as int)) by {
                assert forall|j: int| 0 <= j < s.len() implies s[j] != '\n' by {
                    assert(s.contains(s[j]));
                }
            }
            lemma_first_index(s, '\n', s.len() as int);
            assert(lines(s) =~= lines_of(t));
        } else {
            let rest = t.drop_first();
            lemma_serialize_front(t);
            let n = l0.len() as int;
            assert(s == l0.push('\n') + serialize(rest));
            assert(s[n] == '\n');
            assert forall|j: int| 0 <= j < n implies s[j] != '\n' by {
                assert(s[j] == l0[j]);
                assert(l0.contains(l0[j]));
            }
            lemma_first_index(s, '\n', n);
            assert(s.take(n) =~= l0);
            assert(s.skip(n + 1) =~= serialize(rest));
            assert(strip_cr(l0) == l0) by {
                if t[0].1.len() > 0 {
                    assert(l0.last() == t[0].1.last());
                } else {
                    assert(l0.last() == '\t');
                }
            }
            assert(storable(rest)) by {
                assert forall|i: int| 0 <= i < rest.len() implies {
                    &&& !(#[trigger] rest[i]).0.contains('\t')
                    &&& !rest[i].0.contains('\n')
                    &&& !rest[i].1.contains('\n')
                    &&& i + 1 < rest.len() ==> !(rest[i].1.len() > 0 && rest[i].1.last() == '\r')
                } by {
                    assert(rest[i] == t[i + 1]);
                }
            }
            lemma_lines_of_serialized(rest);
            assert(lines(s) == seq![l0] + lines(serialize(rest)));
            assert(seq![l0] + lines_of(rest) =~= lines_of(t));
        }
    }
}

/// Lines written for pairs with distinct keys, none of which holds a tab,
/// give back the very same pairs.
pub proof fn lemma_table_of_lines(t: Table)
    requires
        distinct_keys(t),
        forall|i: int| 0 <= i < t.len() ==> !(#[trigger] t[i]).0.contains('\t'),
    ensures
        table_of(lines_of(t)) == t,
    decreases t.len(),
{
    let ls = lines_of(t);
    if t.len() == 0 {
        assert(table_of(ls) =~= t);
    } else {
        let body = t.drop_last();
        let e = t.last();
        assert(ls.drop_last() =~= lines_of(body));
        assert(ls.last() == line_of(e));
        lemma_pair_of_line(e);
        lemma_table_of_lines(body);
        assert(!has_key(body, e.0)) by {
            if has_key(body, e.0) {
                let i = choose|i: int| holds_at(body, e.0, i);
                assert(t[i].0 != t[t.len() - 1].0);
            }
        }
        assert(table::put(body, e.0, e.1) =~= t);
    }
}

/// A store that is saved and read back is the store that was saved: the
/// same pairs in the same order. This holds of every store whose pairs the
/// text form can hold.
pub proof fn law_round_trip(t: Table)
    requires
        distinct_keys(t),
        storable(t),
    ensures
        parse(serialize(t)) == Some(t),
{
    lemma_lines_of_serialized(t);
    lemma_table_of_lines(t);
    let ls = lines(serialize(t));
    assert forall|i: int| 0 <= i < ls.len() implies !is_corrupt(#[trigger] ls[i]) by {
        lemma_pair_of_line(t[i]);
    }
}

/// A run of stores, saved and read back: every key reads as the value that
/// was stored for it last, provided the text form can hold the pairs that
/// the store ends up with.
pub proof fn law_stored_then_read(ops: Seq<(Text, Text)>, i: int)
    requires
        0 <= i < ops.len(),
        forall|j: int| i < j < ops.len() ==> ops[j].0 != ops[i].0,
        storable(put_all(Seq::empty(), ops)),
    ensures
        parse(serialize(put_all(Seq::empty(), ops))) matches Some(t) && lookup(t, ops[i].0)
            == Some(ops[i].1),
{
    law_last_put_wins(Seq::empty(), ops, i);
    law_round_trip(put_all(Seq::empty(), ops));
}

} // verus!
