//! The triple sink: one operation that appends a triple, and the sink that
//! keeps its lines in memory.

use vstd::prelude::*;
use vstd::string::*;
use crate::text::replace_char;

verus! {

/// `std::io::Error`, the failure of a sink that writes to storage. Nothing is
/// claimed of what a value of it holds.
#[verifier::external_type_specification]
#[verifier::external_body]
pub struct ExIoError(std::io::Error);

/// A literal's text with a backslash put before every double quote.
pub open spec fn escape_quotes(obj: Seq<char>) -> Seq<char> {
    replace_char(obj, '"', seq!['\\', '"'])
}

/// The object as it stands in a line: a literal escaped and between double
/// quotes, a resource as it came.
pub open spec fn object_text(obj: Seq<char>, is_literal: bool) -> Seq<char> {
    if is_literal {
        seq!['"'] + escape_quotes(obj) + seq!['"']
    } else {
        obj
    }
}

/// The line of one triple, without a line end: subject, predicate and object
/// with one space between them, then a space and a full stop.
pub open spec fn triple_line(
    subj: Seq<char>,
    pred: Seq<char>,
    obj: Seq<char>,
    is_literal: bool,
) -> Seq<char> {
    subj + seq![' '] + pred + seq![' '] + object_text(obj, is_literal) + seq![' ', '.']
}

/// The text of the lines: each line, in order, with a line feed after it.
pub open spec fn join_lines(lines: Seq<Seq<char>>) -> Seq<char>
    decreases lines.len(),
{
    if lines.len() == 0 {
        Seq::<char>::empty()
    } else {
        join_lines(lines.drop_last()) + lines.last() + seq!['\n']
    }
}

/// How many characters stand before the first line feed of `text`, or in all
/// of it where it holds none.
pub open spec fn line_len(text: Seq<char>) -> nat
    decreases text.len(),
{
    if text.len() == 0 || text[0] == '\n' {
        0
    } else {
        1 + line_len(text.skip(1))
    }
}

/// The lines of `text`: what stands before each line feed, and what stands
/// after the last one where that is not empty.
pub open spec fn split_lines(text: Seq<char>) -> Seq<Seq<char>>
    decreases text.len(),
{
    let n = line_len(text) as int;
    if text.len() == 0 {
        Seq::<Seq<char>>::empty()
    } else if n < text.len() {
        seq![text.subrange(0, n)] + split_lines(text.skip(n + 1))
    } else {
        seq![text]
    }
}

/// A line without a line feed, followed by one, ends at its own length.
pub proof fn lemma_line_len_of_first(line: Seq<char>, rest: Seq<char>)
    requires
        forall|i: int| 0 <= i < line.len() ==> line[i] != '\n',
    ensures
        line_len(line + seq!['\n'] + rest) == line.len(),
    decreases line.len(),
{
    let text = line + seq!['\n'] + rest;
    if line.len() == 0 {
        assert(text[0] == '\n');
    } else {
        assert(text[0] == line[0]);
        assert(text.skip(1) =~= line.skip(1) + seq!['\n'] + rest);
        lemma_line_len_of_first(line.skip(1), rest);
    }
}

/// The text of some lines is the first line, a line feed, and the text of the
/// lines after it.
pub proof fn lemma_join_lines_front(lines: Seq<Seq<char>>)
    requires
        lines.len() > 0,
    ensures
        join_lines(lines) == lines[0] + seq!['\n'] + join_lines(lines.skip(1)),
    decreases lines.len(),
{
    if lines.len() == 1 {
        assert(lines.drop_last() =~= Seq::<Seq<char>>::empty());
        assert(lines.skip(1) =~= Seq::<Seq<char>>::empty());
        assert(join_lines(lines) =~= lines[0] + seq!['\n'] + join_lines(lines.skip(1)));
    } else {
        let front = lines.drop_last();
        lemma_join_lines_front(front);
        assert(front.skip(1) =~= lines.skip(1).drop_last());
        assert(front[0] == lines[0]);
        assert(lines.skip(1).last() == lines.last());
        assert(join_lines(lines) =~= lines[0] + seq!['\n'] + join_lines(lines.skip(1)));
    }
}

/// Splitting the text of some lines at its line feeds gives the lines back,
/// where no line holds a line feed.
pub proof fn law_lines_come_back(lines: Seq<Seq<char>>)
    requires
        forall|k: int, i: int|
            0 <= k < lines.len() && 0 <= i < lines[k].len() ==> #[trigger] lines[k][i] != '\n',
    ensures
        split_lines(join_lines(lines)) == lines,
    decreases lines.len(),
{
    if lines.len() > 0 {
        let text = join_lines(lines);
        let rest = join_lines(lines.skip(1));
        lemma_join_lines_front(lines);
        lemma_line_len_of_first(lines[0], rest);
        let n = lines[0].len() as int;
        assert(text.subrange(0, n) =~= lines[0]);
        assert(text.skip(n + 1) =~= rest);
        assert forall|k: int, i: int|
            0 <= k < lines.skip(1).len() && 0 <= i < lines.skip(1)[k].len() implies #[trigger] lines.skip(
            1,
        )[k][i] != '\n' by {
            assert(lines.skip(1)[k] == lines[k + 1]);
            assert(lines[k + 1][i] != '\n');
        }
        law_lines_come_back(lines.skip(1));
        assert(seq![lines[0]] + lines.skip(1) =~= lines);
    }
}

/// In an escaped literal every double quote stands directly after a backslash.
pub proof fn law_quotes_are_escaped(obj: Seq<char>)
    ensures
        forall|i: int|
            0 <= i < escape_quotes(obj).len() && #[trigger] escape_quotes(obj)[i] == '"' ==> i > 0
                && escape_quotes(obj)[i - 1] == '\\',
    decreases obj.len(),
{
    let e = escape_quotes(obj);
    if obj.len() > 0 {
        law_quotes_are_escaped(obj.drop_last());
        let front = escape_quotes(obj.drop_last());
        assert forall|i: int| 0 <= i < e.len() && #[trigger] e[i] == '"' implies i > 0 && e[i - 1]
            == '\\' by {
            if i < front.len() {
                assert(e[i] == front[i]);
                assert(front[i] == '"');
                assert(e[i - 1] == front[i - 1]);
            } else if obj.last() == '"' {
                assert(e == front + seq!['\\', '"']);
                assert(e[front.len() as int] == '\\');
            } else {
                assert(e == front.push(obj.last()));
            }
        }
    } else {
        assert(e.len() == 0);
    }
}

/// A literal stands in its line between two double quotes, and every double
/// quote between those two stands directly after a backslash.
pub proof fn law_literal_span(obj: Seq<char>)
    ensures
        object_text(obj, true).len() == escape_quotes(obj).len() + 2,
        object_text(obj, true).first() == '"',
        object_text(obj, true).last() == '"',
        forall|i: int|
            1 <= i < object_text(obj, true).len() - 1 && #[trigger] object_text(obj, true)[i] == '"'
                ==> i > 1 && object_text(obj, true)[i - 1] == '\\',
{
    law_quotes_are_escaped(obj);
    let e = escape_quotes(obj);
    let t = object_text(obj, true);
    assert forall|i: int| 1 <= i < t.len() - 1 && #[trigger] t[i] == '"' implies i > 1 && t[i - 1] == '\\' by {
        assert(t[i] == e[i - 1]);
        assert(t[i - 1] == e[i - 2]);
    }
}

/// A sink that took one triple with a literal object, and nothing else, gives
/// the subject, a space, the predicate, a space, the escaped literal between
/// two double quotes, a space, a full stop and a line feed; every double quote
/// between the two that enclose the literal stands directly after a backslash.
pub proof fn law_single_literal_line(subj: Seq<char>, pred: Seq<char>, obj: Seq<char>)
    ensures
        ({
            let text = join_lines(Seq::<Seq<char>>::empty().push(triple_line(subj, pred, obj, true)));
            let open: int = (subj.len() + pred.len() + 2) as int;
            let close: int = open + escape_quotes(obj).len() + 1;
            &&& text.len() == close + 4
            &&& text.last() == '\n'
            &&& text[open] == '"'
            &&& text[close] == '"'
            &&& text.subrange(open + 1, close) == escape_quotes(obj)
            &&& forall|i: int|
                open < i < close && #[trigger] text[i] == '"' ==> open + 1 < i && text[i - 1]
                    == '\\'
        }),
{
    let text = join_lines(Seq::<Seq<char>>::empty().push(triple_line(subj, pred, obj, true)));
    let e = escape_quotes(obj);
    let open: int = (subj.len() + pred.len() + 2) as int;
    let close: int = open + e.len() + 1;
    let only = Seq::<Seq<char>>::empty().push(triple_line(subj, pred, obj, true));
    assert(only.drop_last() =~= Seq::<Seq<char>>::empty());
    assert(join_lines(Seq::<Seq<char>>::empty()) =~= Seq::<char>::empty());
    assert(only.last() == triple_line(subj, pred, obj, true));
    assert(text =~= triple_line(subj, pred, obj, true) + seq!['\n']);
    law_quotes_are_escaped(obj);
    assert(text.subrange(open + 1, close) =~= e);
    assert forall|i: int| open < i < close && #[trigger] text[i] == '"' implies open + 1 < i
        && text[i - 1] == '\\' by {
        assert(text[i] == e[i - open - 1]);
        assert(e[i - open - 1] == '"');
        assert(text[i - 1] == e[i - open - 2]);
    }
}

/// Appends `obj` to `out` with a backslash before every double quote.
pub fn push_escaped(out: &mut String, obj: &str)
    ensures
        final(out)@ == old(out)@ + escape_quotes(obj@),
{
    let ghost start = out@;
    for c in it: obj.chars()
        invariant
            it.seq() == obj@,
            out@ == start + escape_quotes(obj@.subrange(0, it.index() as int)),
    {
        proof {
            let k = it.index() as int;
            assert(obj@.subrange(0, k + 1).drop_last() =~= obj@.subrange(0, k));
            assert(obj@.subrange(0, k + 1).last() == c);
        }
        if c == '"' {
            out.push('\\');
            out.push('"');
        } else {
            out.push(c);
        }
        proof {
            let k = it.index() as int;
            assert(out@ =~= start + escape_quotes(obj@.subrange(0, k + 1)));
        }
    }
    proof {
        assert(obj@.subrange(0, obj@.len() as int) =~= obj@);
    }
}

/// The line of one triple, without a line end.
pub fn format_triple(subj: &str, pred: &str, obj: &str, obj_is_literal: bool) -> (line: String)
    ensures
        line@ == triple_line(subj@, pred@, obj@, obj_is_literal),
{
    let mut line = String::new();
    line.append(subj);
    line.push(' ');
    line.append(pred);
    line.push(' ');
    if obj_is_literal {
        line.push('"');
        push_escaped(&mut line, obj);
        line.push('"');
    } else {
        line.append(obj);
    }
    line.push(' ');
    line.push('.');
    proof {
        assert(line@ =~= triple_line(subj@, pred@, obj@, obj_is_literal));
    }
    line
}

/// What can take triples, one at a time.
pub trait RdfWriter {
    /// Appends one triple. The object is a literal or a resource; a resource
    /// is written as it comes.
    fn add_triple_raw(&mut self, subj: &str, pred: &str, obj: &str, obj_is_literal: bool) -> (r:
        Result<(), std::io::Error>);
}

/// The sink that keeps the lines of its triples in memory, in the order in
/// which they came.
pub struct MemoryWriter {
    pub triples: Vec<String>,
}

impl MemoryWriter {
    /// The lines held, each as its characters.
    pub open spec fn lines(&self) -> Seq<Seq<char>> {
        Seq::new(self.triples@.len(), |i: int| self.triples@[i]@)
    }

    /// A sink that holds nothing.
    pub fn new() -> (w: Self)
        ensures
            w.lines() == Seq::<Seq<char>>::empty(),
            w.triples@.len() == 0,
    {
        let w = MemoryWriter { triples: Vec::new() };
        proof {
            assert(w.lines() =~= Seq::<Seq<char>>::empty());
        }
        w
    }

    /// All lines held, in the order in which they came, each with a line feed
    /// after it. A sink that holds nothing gives the empty text.
    pub fn into_string(self) -> (out: String)
        ensures
            out@ == join_lines(self.lines()),
    {
        let mut out = String::new();
        let mut i: usize = 0;
        proof {
            assert(self.lines().subrange(0, 0) =~= Seq::<Seq<char>>::empty());
        }
        while i < self.triples.len()
            invariant
                i <= self.triples.len(),
                out@ == join_lines(self.lines().subrange(0, i as int)),
            decreases self.triples.len() - i,
        {
            proof {
                let upto = self.lines().subrange(0, i + 1);
                assert(upto.drop_last() =~= self.lines().subrange(0, i as int));
                assert(upto.last() == self.triples@[i as int]@);
            }
            out.append(self.triples[i].as_str());
            out.push('\n');
            i += 1;
        }
        proof {
            assert(self.lines().subrange(0, i as int) =~= self.lines());
        }
        out
    }
}

impl RdfWriter for MemoryWriter {
    /// Appends the line of the triple after the lines held. Never fails.
    fn add_triple_raw(&mut self, subj: &str, pred: &str, obj: &str, obj_is_literal: bool) -> (r:
        Result<(), std::io::Error>)
        ensures
            r is Ok,
            final(self).lines() == old(self).lines().push(
                triple_line(subj@, pred@, obj@, obj_is_literal),
            ),
    {
        let line = format_triple(subj, pred, obj, obj_is_literal);
        self.triples.push(line);
        proof {
            assert(self.lines() =~= old(self).lines().push(
                triple_line(subj@, pred@, obj@, obj_is_literal),
            ));
        }
        Ok(())
    }
}

} // verus!
