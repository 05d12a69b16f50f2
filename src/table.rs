//! A whole hosts file as an ordered sequence of lines, and the text it is
//! read from and written back as.
use vstd::prelude::*;
use crate::line::{Line, LineView, line_view, render};

verus! {

/// The pieces of `s` between newline characters: one more piece than there
/// are newlines, the last one possibly empty.
pub open spec fn split_nl(s: Seq<char>) -> Seq<Seq<char>>
    decreases s.len(),
{
    if s.len() == 0 {
        seq![Seq::<char>::empty()]
    } else {
        let p = split_nl(s.drop_last());
        if s.last() == '\n' {
            p.push(Seq::<char>::empty())
        } else {
            p.update(p.len() - 1, p.last().push(s.last()))
        }
    }
}

/// The physical lines of `s`: the newline-separated pieces, without the empty
/// piece after a final newline (so empty text has no lines).
pub open spec fn lines_of(s: Seq<char>) -> Seq<Seq<char>> {
    let p = split_nl(s);
    if p.last().len() == 0 {
        p.drop_last()
    } else {
        p
    }
}

/// The table that a text parses to: one line model per physical line.
pub open spec fn parse_text(s: Seq<char>) -> Seq<LineView> {
    parse_pieces(lines_of(s))
}

/// The model of each piece of text, in order.
pub open spec fn parse_pieces(p: Seq<Seq<char>>) -> Seq<LineView> {
    p.map_values(|l: Seq<char>| line_view(l))
}

/// The model of each line, in order.
pub open spec fn views(ls: Seq<Line>) -> Seq<LineView> {
    ls.map_values(|l: Line| l@)
}

/// The text a table is written back as: each line followed by one newline.
pub open spec fn serialize_lines(t: Seq<LineView>) -> Seq<char>
    decreases t.len(),
{
    if t.len() == 0 {
        Seq::empty()
    } else {
        serialize_lines(t.drop_last()) + render(t.last()) + seq!['\n']
    }
}

proof fn lemma_push_parsed(prev: Seq<Line>, cur: Seq<Line>, done: Seq<Seq<char>>, piece: Seq<char>)
    requires
        views(prev) == parse_pieces(done),
        cur.len() == prev.len() + 1,
        forall|k: int| 0 <= k < prev.len() ==> cur[k] == prev[k],
        cur[prev.len() as int]@ == line_view(piece),
    ensures
        views(cur) == parse_pieces(done.push(piece)),
{
    assert(views(prev).len() == prev.len());
    assert(parse_pieces(done).len() == done.len());
    assert(views(cur) =~= parse_pieces(done.push(piece))) by {
        assert forall|k: int| 0 <= k < cur.len() implies views(cur)[k] == parse_pieces(done.push(piece))[k] by {
            assert(views(cur)[k] == cur[k]@);
            assert(parse_pieces(done.push(piece))[k] == line_view(done.push(piece)[k]));
            if k < prev.len() {
                assert(views(prev)[k] == prev[k]@);
                assert(parse_pieces(done)[k] == line_view(done[k]));
                assert(done.push(piece)[k] == done[k]);
            } else {
                assert(done.push(piece)[k] == piece);
            }
        }
    }
}

/// The contents of a hosts file.
#[derive(Debug)]
pub struct Table {
    pub lines: Vec<Line>,
}

impl View for Table {
    type V = Seq<LineView>;

    open spec fn view(&self) -> Seq<LineView> {
        views(self.lines@)
    }
}

impl Table {
    /// A table with no lines.
    pub fn new() -> (t: Table)
        ensures
            t@ == Seq::<LineView>::empty(),
    {
        Table { lines: Vec::new() }
    }

    /// Reads a whole file's text. Never fails: lines that are not entries are
    /// kept as comments, blanks or passthrough lines.
    pub fn parse(text: &str) -> (t: Table)
        ensures
            t@ == parse_text(text@),
    {
        let v = crate::line::chars_of(text);
        let n = v.len();
        let mut lines: Vec<Line> = Vec::new();
        let ghost mut done: Seq<Seq<char>> = Seq::empty();
        let mut start: usize = 0;
        let mut i: usize = 0;
        assert(text@.subrange(0, 0) =~= Seq::<char>::empty());
        assert(done.push(text@.subrange(0, 0)) =~= seq![Seq::<char>::empty()]);
        while i < n
            invariant
                n == v.len(),
                v@ == text@,
                start <= i <= n,
                split_nl(text@.subrange(0, i as int)) == done.push(text@.subrange(start as int, i as int)),
                views(lines@) == parse_pieces(done),
            decreases n - i,
        {
            let ghost pre = text@.subrange(0, i as int);
            assert(text@.subrange(0, i + 1).drop_last() =~= pre);
            if v[i] == '\n' {
                let piece = text.substring_char(start, i);
                let ghost prev = lines@;
                lines.push(Line::parse_line(piece));
                proof {
                    lemma_push_parsed(prev, lines@, done, piece@);
                    done = done.push(piece@);
                }
                start = i + 1;
                assert(text@.subrange(start as int, i + 1) =~= Seq::<char>::empty());
            } else {
                assert(text@.subrange(start as int, i + 1) =~= text@.subrange(start as int, i as int).push(v@[i as int]));
            }
            i = i + 1;
        }
        assert(text@.subrange(0, n as int) =~= text@);
        if start < n {
            let piece = text.substring_char(start, n);
            let ghost prev = lines@;
            lines.push(Line::parse_line(piece));
            proof {
                lemma_push_parsed(prev, lines@, done, piece@);
                done = done.push(piece@);
            }
        } else {
            assert(done.push(text@.subrange(start as int, n as int)).drop_last() =~= done);
        }
        Table { lines }
    }

    /// The text of the whole table: every line followed by exactly one
    /// newline; no text at all for an empty table.
    pub fn serialize(&self) -> (s: String)
        ensures
            s@ == serialize_lines(self@),
    {
        let mut out = String::new();
        let mut i: usize = 0;
        while i < self.lines.len()
            invariant
                i <= self.lines.len(),
                out@ == serialize_lines(self@.subrange(0, i as int)),
            decreases self.lines.len() - i,
        {
            assert(self@.subrange(0, i + 1).drop_last() =~= self@.subrange(0, i as int));
            self.lines[i].render_into(&mut out);
            proof {
                reveal_strlit("\n");
            }
            out.append("\n");
            i = i + 1;
        }
        assert(self@.subrange(0, i as int) =~= self@);
        out
    }
}

} // verus!
