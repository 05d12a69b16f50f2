//! One physical line of a hosts file: its classification, its fields, and
//! how it is written back.
use vstd::prelude::*;

verus! {

/// The separators between the fields of an entry line: the characters with
/// the Unicode White_Space property.
pub open spec fn is_ws(c: char) -> bool {
    ||| c == '\t' || c == '\n' || c == '\x0B' || c == '\x0C' || c == '\r' || c == ' '
    ||| c == '\u{85}' || c == '\u{A0}' || c == '\u{1680}'
    ||| '\u{2000}' <= c <= '\u{200A}'
    ||| c == '\u{2028}' || c == '\u{2029}' || c == '\u{202F}' || c == '\u{205F}' || c == '\u{3000}'
}

/// The first index at or after `i` that does not hold whitespace (or `i` itself
/// when `i` is past the end).
pub open spec fn skip_ws(l: Seq<char>, i: int) -> int
    decreases l.len() - i,
{
    if 0 <= i < l.len() && is_ws(l[i]) {
        skip_ws(l, i + 1)
    } else {
        i
    }
}

/// The first index at or after `i` that holds whitespace (or `i` itself when
/// `i` is past the end).
pub open spec fn skip_token(l: Seq<char>, i: int) -> int
    decreases l.len() - i,
{
    if 0 <= i < l.len() && !is_ws(l[i]) {
        skip_token(l, i + 1)
    } else {
        i
    }
}

/// A single field: non-empty and free of whitespace.
pub open spec fn is_token(s: Seq<char>) -> bool {
    s.len() > 0 && forall|k: int| 0 <= k < s.len() ==> !is_ws(#[trigger] s[k])
}

/// An address and hostname that an entry line can hold and be read back as:
/// both single fields, the address not starting a comment.
pub open spec fn valid_entry_fields(a: Seq<char>, h: Seq<char>) -> bool {
    is_token(a) && a[0] != '#' && is_token(h)
}

/// The mathematical model of a line.
pub enum LineView {
    Comment(Seq<char>),
    Blank(Seq<char>),
    Passthrough(Seq<char>),
    Entry { address: Seq<char>, hostname: Seq<char>, trailing: Option<Seq<char>> },
}

/// Where the first token starts.
pub open spec fn addr_start(l: Seq<char>) -> int {
    skip_ws(l, 0)
}

/// Where the first token ends.
pub open spec fn addr_end(l: Seq<char>) -> int {
    skip_token(l, addr_start(l))
}

/// Where the second token starts.
pub open spec fn host_start(l: Seq<char>) -> int {
    skip_ws(l, addr_end(l))
}

/// Where the second token ends.
pub open spec fn host_end(l: Seq<char>) -> int {
    skip_token(l, host_start(l))
}

/// Where the text after the second token starts, past its separating whitespace.
pub open spec fn rest_start(l: Seq<char>) -> int {
    skip_ws(l, host_end(l))
}

/// How a line of text (without its newline) is classified and split into fields.
/// Blank: only whitespace. Comment: the first non-whitespace character is `#`.
/// Passthrough: a single token. Entry: address, hostname and, if anything
/// follows, the rest of the line verbatim.
pub open spec fn line_view(l: Seq<char>) -> LineView {
    if addr_start(l) >= l.len() {
        LineView::Blank(l)
    } else if l[addr_start(l)] == '#' {
        LineView::Comment(l)
    } else if host_start(l) >= l.len() {
        LineView::Passthrough(l)
    } else {
        LineView::Entry {
            address: l.subrange(addr_start(l), addr_end(l)),
            hostname: l.subrange(host_start(l), host_end(l)),
            trailing: if rest_start(l) >= l.len() {
                None
            } else {
                Some(l.subrange(rest_start(l), l.len() as int))
            },
        }
    }
}

/// The text a line is written back as (without its newline). Entry fields are
/// separated by a single space.
pub open spec fn render(l: LineView) -> Seq<char> {
    match l {
        LineView::Comment(s) => s,
        LineView::Blank(s) => s,
        LineView::Passthrough(s) => s,
        LineView::Entry { address, hostname, trailing } => match trailing {
            Some(t) => address + seq![' '] + hostname + seq![' '] + t,
            None => address + seq![' '] + hostname,
        },
    }
}

/// One line of a hosts file.
#[derive(Debug)]
pub enum Line {
    /// A line whose first non-whitespace character is `#`, kept verbatim.
    Comment(String),
    /// An empty or whitespace-only line, kept verbatim.
    Blank(String),
    /// A line with a single token, kept verbatim and never read as an entry.
    Passthrough(String),
    /// An address, a primary hostname, and whatever followed them.
    Entry { address: String, hostname: String, trailing: Option<String> },
}

impl View for Line {
    type V = LineView;

    open spec fn view(&self) -> LineView {
        match self {
            Line::Comment(s) => LineView::Comment(s@),
            Line::Blank(s) => LineView::Blank(s@),
            Line::Passthrough(s) => LineView::Passthrough(s@),
            Line::Entry { address, hostname, trailing } => LineView::Entry {
                address: address@,
                hostname: hostname@,
                trailing: match trailing {
                    Some(t) => Some(t@),
                    None => None,
                },
            },
        }
    }
}

/// Whether `c` separates fields.
pub fn is_ws_char(c: char) -> (b: bool)
    ensures
        b == is_ws(c),
{
    (c == '\t' || c == '\n' || c == '\x0B' || c == '\x0C' || c == '\r' || c == ' ')
        || (c == '\u{85}' || c == '\u{A0}' || c == '\u{1680}')
        || ('\u{2000}' <= c && c <= '\u{200A}')
        || (c == '\u{2028}' || c == '\u{2029}' || c == '\u{202F}' || c == '\u{205F}'
            || c == '\u{3000}')
}

/// The characters of `s`, in order.
pub fn chars_of(s: &str) -> (v: Vec<char>)
    ensures
        v@ == s@,
{
    let mut v: Vec<char> = Vec::new();
    for c in it: s.chars()
        invariant
            v@ == it.seq().subrange(0, it.index() as int),
    {
        v.push(c);
    }
    v
}

fn scan_ws(v: &Vec<char>, i: usize) -> (r: usize)
    requires
        i <= v.len(),
    ensures
        i <= r <= v.len(),
        r == skip_ws(v@, i as int),
{
    let mut j: usize = i;
    while j < v.len() && is_ws_char(v[j])
        invariant
            i <= j <= v.len(),
            skip_ws(v@, j as int) == skip_ws(v@, i as int),
        decreases v.len() - j,
    {
        j = j + 1;
    }
    j
}

fn scan_token(v: &Vec<char>, i: usize) -> (r: usize)
    requires
        i <= v.len(),
    ensures
        i <= r <= v.len(),
        r == skip_token(v@, i as int),
{
    let mut j: usize = i;
    while j < v.len() && !is_ws_char(v[j])
        invariant
            i <= j <= v.len(),
            skip_token(v@, j as int) == skip_token(v@, i as int),
        decreases v.len() - j,
    {
        j = j + 1;
    }
    j
}

fn token_text(v: &Vec<char>) -> (b: bool)
    ensures
        b == is_token(v@),
{
    if v.len() == 0 {
        return false;
    }
    let mut i: usize = 0;
    while i < v.len()
        invariant
            i <= v.len(),
            forall|k: int| 0 <= k < i ==> !is_ws(#[trigger] v@[k]),
        decreases v.len() - i,
    {
        if is_ws_char(v[i]) {
            return false;
        }
        i = i + 1;
    }
    true
}

/// Whether `address` and `hostname` can be added as an entry: each a single
/// non-empty field, and the address not starting with `#`.
pub fn entry_fields_valid(address: &str, hostname: &str) -> (b: bool)
    ensures
        b == valid_entry_fields(address@, hostname@),
{
    let a = chars_of(address);
    let h = chars_of(hostname);
    token_text(&a) && a[0] != '#' && token_text(&h)
}

impl Line {
    /// Classifies one line of text (without its newline) and splits out its fields.
    pub fn parse_line(line: &str) -> (r: Line)
        ensures
            r@ == line_view(line@),
    {
        let v = chars_of(line);
        let n = v.len();
        let a0 = scan_ws(&v, 0);
        if a0 >= n {
            return Line::Blank(line.to_owned());
        }
        if v[a0] == '#' {
            return Line::Comment(line.to_owned());
        }
        let a1 = scan_token(&v, a0);
        let h0 = scan_ws(&v, a1);
        if h0 >= n {
            return Line::Passthrough(line.to_owned());
        }
        let h1 = scan_token(&v, h0);
        let t0 = scan_ws(&v, h1);
        let address = line.substring_char(a0, a1).to_owned();
        let hostname = line.substring_char(h0, h1).to_owned();
        let trailing = if t0 >= n {
            None
        } else {
            Some(line.substring_char(t0, n).to_owned())
        };
        Line::Entry { address, hostname, trailing }
    }

    /// Appends this line's text, without a newline, to `out`.
    pub fn render_into(&self, out: &mut String)
        ensures
            final(out)@ == old(out)@ + render(self@),
    {
        proof {
            reveal_strlit(" ");
        }
        match self {
            Line::Comment(s) => out.append(s.as_str()),
            Line::Blank(s) => out.append(s.as_str()),
            Line::Passthrough(s) => out.append(s.as_str()),
            Line::Entry { address, hostname, trailing } => {
                out.append(address.as_str());
                out.append(" ");
                out.append(hostname.as_str());
                match trailing {
                    Some(t) => {
                        out.append(" ");
                        out.append(t.as_str());
                    },
                    None => {},
                }
            },
        }
    }
}

} // verus!
