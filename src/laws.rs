//! Properties that relate parsing, writing back and the operations.
use vstd::prelude::*;
use crate::edit::{entry_pair, has_host, hostname_taken, list_entries, new_entry, protected_hosts};
use crate::line::{
    LineView, valid_entry_fields, addr_end, addr_start, host_end, host_start, is_ws, line_view, render, rest_start,
    skip_token, skip_ws,
};
use crate::table::{lines_of, parse_pieces, parse_text, serialize_lines, split_nl};

verus! {

/// An entry line in written-back form: no leading whitespace, one space
/// between address and hostname, and either nothing after the hostname or one
/// space and then the rest.
pub open spec fn canonical_entry(l: Seq<char>) -> bool {
    &&& addr_start(l) == 0
    &&& addr_end(l) < l.len()
    &&& l[addr_end(l)] == ' '
    &&& host_start(l) == addr_end(l) + 1
    &&& if rest_start(l) >= l.len() {
        host_end(l) == l.len()
    } else {
        &&& host_end(l) < l.len()
        &&& l[host_end(l)] == ' '
        &&& rest_start(l) == host_end(l) + 1
    }
}

/// Text in written-back form: empty or ending in a newline, with every entry
/// line in written-back form (other lines are kept verbatim anyway).
pub open spec fn canonical_text(s: Seq<char>) -> bool {
    &&& (s.len() == 0 || s.last() == '\n')
    &&& forall|k: int|
        0 <= k < lines_of(s).len() ==> (line_view(#[trigger] lines_of(s)[k]) is Entry
            ==> canonical_entry(lines_of(s)[k]))
}

/// Each piece followed by a newline.
pub open spec fn join_nl(p: Seq<Seq<char>>) -> Seq<char>
    decreases p.len(),
{
    if p.len() == 0 {
        Seq::empty()
    } else {
        join_nl(p.drop_last()) + p.last() + seq!['\n']
    }
}

proof fn lemma_skip_ws(l: Seq<char>, i: int)
    requires
        0 <= i <= l.len(),
    ensures
        i <= skip_ws(l, i) <= l.len(),
        skip_ws(l, i) < l.len() ==> !is_ws(l[skip_ws(l, i)]),
    decreases l.len() - i,
{
    if i < l.len() && is_ws(l[i]) {
        lemma_skip_ws(l, i + 1);
    }
}

proof fn lemma_skip_token(l: Seq<char>, i: int)
    requires
        0 <= i <= l.len(),
    ensures
        i <= skip_token(l, i) <= l.len(),
        skip_token(l, i) < l.len() ==> is_ws(l[skip_token(l, i)]),
    decreases l.len() - i,
{
    if i < l.len() && !is_ws(l[i]) {
        lemma_skip_token(l, i + 1);
    }
}

proof fn lemma_line_bounds(l: Seq<char>)
    ensures
        0 <= addr_start(l) <= addr_end(l) <= host_start(l) <= host_end(l) <= rest_start(l) <= l.len(),
{
    lemma_skip_ws(l, 0);
    lemma_skip_token(l, addr_start(l));
    lemma_skip_ws(l, addr_end(l));
    lemma_skip_token(l, host_start(l));
    lemma_skip_ws(l, host_end(l));
}

proof fn lemma_line_round_trip(l: Seq<char>)
    requires
        line_view(l) is Entry ==> canonical_entry(l),
    ensures
        render(line_view(l)) == l,
{
    lemma_line_bounds(l);
    if line_view(l) is Entry {
        let a1 = addr_end(l);
        let h1 = host_end(l);
        if rest_start(l) >= l.len() {
            assert(l.subrange(0, a1) + seq![' '] + l.subrange(a1 + 1, h1) =~= l);
        } else {
            assert(l.subrange(0, a1) + seq![' '] + l.subrange(a1 + 1, h1) + seq![' '] + l.subrange(
                h1 + 1,
                l.len() as int,
            ) =~= l);
        }
    }
}

proof fn lemma_split_join(s: Seq<char>)
    ensures
        split_nl(s).len() >= 1,
        join_nl(split_nl(s).drop_last()) + split_nl(s).last() == s,
    decreases s.len(),
{
    if s.len() == 0 {
        assert(join_nl(split_nl(s).drop_last()) + split_nl(s).last() =~= s);
    } else {
        let p = split_nl(s.drop_last());
        lemma_split_join(s.drop_last());
        if s.last() == '\n' {
            assert(split_nl(s).drop_last() =~= p);
            assert(p =~= p.drop_last().push(p.last()));
            assert(join_nl(split_nl(s).drop_last()) + split_nl(s).last() =~= s);
        } else {
            assert(split_nl(s).drop_last() =~= p.drop_last());
            assert(split_nl(s).last() == p.last().push(s.last()));
            assert(s =~= s.drop_last().push(s.last()));
            assert(join_nl(p.drop_last()) + p.last().push(s.last()) =~= (join_nl(p.drop_last())
                + p.last()).push(s.last()));
        }
    }
}

proof fn lemma_serialize_pieces(p: Seq<Seq<char>>)
    requires
        forall|k: int| 0 <= k < p.len() ==> render(line_view(#[trigger] p[k])) == p[k],
    ensures
        serialize_lines(parse_pieces(p)) == join_nl(p),
    decreases p.len(),
{
    if p.len() > 0 {
        assert(parse_pieces(p).drop_last() =~= parse_pieces(p.drop_last()));
        lemma_serialize_pieces(p.drop_last());
        assert(render(line_view(p[p.len() - 1])) == p[p.len() - 1]);
    }
}

/// Text already in written-back form is reproduced exactly by parsing it and
/// writing the table back.
pub proof fn lemma_round_trip(text: Seq<char>)
    requires
        canonical_text(text),
    ensures
        serialize_lines(parse_text(text)) == text,
{
    lemma_split_join(text);
    let p = split_nl(text);
    if text.len() > 0 {
        assert(text.drop_last().push(text.last()) =~= text);
    }
    assert(p.last().len() == 0);
    assert(lines_of(text) == p.drop_last());
    let ls = lines_of(text);
    assert forall|k: int| 0 <= k < ls.len() implies render(line_view(#[trigger] ls[k])) == ls[k] by {
        lemma_line_round_trip(ls[k]);
    }
    lemma_serialize_pieces(ls);
    assert(join_nl(ls) + Seq::<char>::empty() =~= join_nl(ls));
}

/// The entry line an add writes reads back as that entry.
pub proof fn lemma_new_entry_reads_back(a: Seq<char>, h: Seq<char>)
    requires
        valid_entry_fields(a, h),
    ensures
        reads_back(new_entry(a, h)),
{
    lemma_entry_reads_back(a, h, None);
    let r = render(new_entry(a, h));
    assert forall|k: int| 0 <= k < r.len() implies #[trigger] r[k] != '\n' by {
        if k < a.len() {
            assert(r[k] == a[k]);
        } else if k > a.len() {
            assert(r[k] == h[k - a.len() - 1]);
        }
    }
}

/// A successful add on a non-empty table writes the old text unchanged, which
/// already ends in a newline, followed by `address hostname` and one newline,
/// so the text ends in exactly one newline. Read back, the written text has the
/// old lines followed by the new entry: no blank line is added.
pub proof fn lemma_add_keeps_format(t: Seq<LineView>, a: Seq<char>, h: Seq<char>)
    requires
        t.len() > 0,
        forall|k: int| 0 <= k < t.len() ==> reads_back(#[trigger] t[k]),
        !hostname_taken(t, h),
        valid_entry_fields(a, h),
    ensures
        serialize_lines(t.push(new_entry(a, h))) == serialize_lines(t) + a + seq![' '] + h + seq!['\n'],
        serialize_lines(t).len() > 0 && serialize_lines(t).last() == '\n',
        serialize_lines(t.push(new_entry(a, h))).len() >= 2,
        serialize_lines(t.push(new_entry(a, h))).last() == '\n',
        serialize_lines(t.push(new_entry(a, h)))[serialize_lines(t.push(new_entry(a, h))).len() - 2]
            != '\n',
        parse_text(serialize_lines(t.push(new_entry(a, h)))) == parse_text(serialize_lines(t)).push(
            new_entry(a, h),
        ),
{
    let t2 = t.push(new_entry(a, h));
    assert(t2.drop_last() =~= t);
    let out = serialize_lines(t2);
    let body = serialize_lines(t) + a + seq![' '] + h;
    assert(out == body + seq!['\n']);
    assert(out =~= body.push('\n'));
    assert(body.last() == h.last());
    assert(out[out.len() - 2] == body.last());
    assert(!is_ws(h[h.len() - 1]));
    lemma_new_entry_reads_back(a, h);
    lemma_reparse(t);
    assert forall|k: int| 0 <= k < t2.len() implies reads_back(#[trigger] t2[k]) by {
        if k < t.len() {
            assert(t2[k] == t[k]);
        }
    }
    lemma_reparse(t2);
}

/// Adding to an empty table always succeeds and gives one entry line, written
/// back as `address hostname` and a newline.
pub proof fn lemma_add_to_empty(a: Seq<char>, h: Seq<char>)
    ensures
        !hostname_taken(Seq::<LineView>::empty(), h),
        Seq::<LineView>::empty().push(new_entry(a, h)).len() == 1,
        serialize_lines(Seq::<LineView>::empty().push(new_entry(a, h))) == a + seq![' '] + h + seq!['\n'],
{
    let t = Seq::<LineView>::empty().push(new_entry(a, h));
    assert(t.drop_last() =~= Seq::<LineView>::empty());
    assert(serialize_lines(t.drop_last()) == Seq::<char>::empty());
    assert(render(t.last()) == a + seq![' '] + h);
    assert(serialize_lines(t) == Seq::<char>::empty() + (a + seq![' '] + h) + seq!['\n']);
    assert(Seq::<char>::empty() + (a + seq![' '] + h) + seq!['\n'] =~= a + seq![' '] + h + seq!['\n']);
}

/// `localhost` and `broadcasthost` are protected, so removing either is refused
/// whatever the address.
pub proof fn lemma_default_protected()
    ensures
        protected_hosts().contains("localhost"@),
        protected_hosts().contains("broadcasthost"@),
{
    assert(protected_hosts()[0] == "localhost"@);
    assert(protected_hosts()[1] == "broadcasthost"@);
}

/// Listing keeps file order: the entries of two consecutive parts of a table
/// are those of the first part followed by those of the second.
pub proof fn lemma_list_concat(t: Seq<LineView>, u: Seq<LineView>)
    ensures
        list_entries(t + u) == list_entries(t) + list_entries(u),
    decreases u.len(),
{
    if u.len() == 0 {
        assert(t + u =~= t);
        assert(list_entries(t) + list_entries(u) =~= list_entries(t));
    } else {
        assert((t + u).drop_last() =~= t + u.drop_last());
        lemma_list_concat(t, u.drop_last());
        match entry_pair(u.last()) {
            Some(p) => {
                assert(list_entries(t + u) =~= list_entries(t) + list_entries(u.drop_last()) + seq![p]);
                assert(list_entries(t) + list_entries(u) =~= list_entries(t) + list_entries(u.drop_last()) + seq![p]);
            },
            None => {},
        }
    }
}

/// Listing one line gives its address and hostname if it is an entry, and
/// nothing for a comment, blank or passthrough line.
pub proof fn lemma_list_single(l: LineView)
    ensures
        l is Entry ==> list_entries(seq![l]) == seq![(l->address, l->hostname)],
        !(l is Entry) ==> list_entries(seq![l]) == Seq::<(Seq<char>, Seq<char>)>::empty(),
{
    let s = seq![l];
    assert(s.drop_last() =~= Seq::<LineView>::empty());
    assert(list_entries(s.drop_last()) =~= Seq::<(Seq<char>, Seq<char>)>::empty());
    assert(s.last() == l);
    if l is Entry {
        assert(entry_pair(l) == Some((l->address, l->hostname)));
        assert(list_entries(s) == list_entries(s.drop_last()) + seq![(l->address, l->hostname)]);
        assert(Seq::<(Seq<char>, Seq<char>)>::empty() + seq![(l->address, l->hostname)] =~= seq![(l->address, l->hostname)]);
    } else {
        assert(entry_pair(l) is None);
        assert(list_entries(s) == list_entries(s.drop_last()));
    }
}

/// No two entry lines share both address and hostname.
pub open spec fn pairs_unique(t: Seq<LineView>) -> bool {
    forall|i: int, j: int|
        0 <= i < j < t.len() && #[trigger] t[i] is Entry ==> entry_pair(t[i]) != entry_pair(#[trigger] t[j])
}

/// A successful add never creates two entries with the same address and
/// hostname, and the text it writes reads back as the table with the new entry.
pub proof fn lemma_add_keeps_pairs_unique(t: Seq<LineView>, a: Seq<char>, h: Seq<char>)
    requires
        pairs_unique(t),
        forall|k: int| 0 <= k < t.len() ==> reads_back(#[trigger] t[k]),
        !hostname_taken(t, h),
        valid_entry_fields(a, h),
    ensures
        parse_text(serialize_lines(t.push(new_entry(a, h)))) == t.push(new_entry(a, h)),
        pairs_unique(t.push(new_entry(a, h))),
{
    let t2 = t.push(new_entry(a, h));
    assert forall|i: int, j: int|
        0 <= i < j < t2.len() && #[trigger] t2[i] is Entry implies entry_pair(t2[i]) != entry_pair(#[trigger] t2[j]) by {
        if j == t.len() {
            assert(t2[i] == t[i]);
            assert(!has_host(t[i], h));
        } else {
            assert(t2[i] == t[i] && t2[j] == t[j]);
        }
    }
    lemma_new_entry_reads_back(a, h);
    assert forall|k: int| 0 <= k < t2.len() implies reads_back(#[trigger] t2[k]) by {
        if k < t.len() {
            assert(t2[k] == t[k]);
        }
    }
    lemma_reparse(t2);
}

/// Removing a line never creates two entries with the same address and hostname.
pub proof fn lemma_remove_keeps_pairs_unique(t: Seq<LineView>, k: int)
    requires
        pairs_unique(t),
        0 <= k < t.len(),
    ensures
        pairs_unique(t.remove(k)),
{
    let t2 = t.remove(k);
    assert forall|i: int, j: int|
        0 <= i < j < t2.len() && #[trigger] t2[i] is Entry implies entry_pair(t2[i]) != entry_pair(#[trigger] t2[j]) by {
        let i0 = if i < k { i } else { i + 1 };
        let j0 = if j < k { j } else { j + 1 };
        assert(t2[i] == t[i0] && t2[j] == t[j0]);
    }
}

proof fn lemma_token_run(l: Seq<char>, i: int, j: int)
    requires
        0 <= i <= j <= l.len(),
        forall|k: int| i <= k < j ==> !is_ws(#[trigger] l[k]),
        j == l.len() || is_ws(l[j]),
    ensures
        skip_token(l, i) == j,
    decreases j - i,
{
    if i < j {
        lemma_token_run(l, i + 1, j);
    }
}

proof fn lemma_token_inside(l: Seq<char>, i: int, k: int)
    requires
        0 <= i <= k < skip_token(l, i),
    ensures
        !is_ws(l[k]),
    decreases l.len() - i,
{
    if i < k {
        lemma_token_inside(l, i + 1, k);
    }
}

/// An entry with single-field address and hostname (the address not starting
/// with `#`), and a rest that starts with a non-whitespace character, reads
/// back as itself once written.
pub proof fn lemma_entry_reads_back(a: Seq<char>, h: Seq<char>, tr: Option<Seq<char>>)
    requires
        valid_entry_fields(a, h),
        tr is Some ==> tr->0.len() > 0 && !is_ws(tr->0[0]),
    ensures
        line_view(render(LineView::Entry { address: a, hostname: h, trailing: tr })) == (LineView::Entry {
            address: a,
            hostname: h,
            trailing: tr,
        }),
{
    let l = render(LineView::Entry { address: a, hostname: h, trailing: tr });
    let na = a.len() as int;
    let nh = h.len() as int;
    let core = a + seq![' '] + h;
    assert(l.subrange(0, core.len() as int) =~= core);
    assert forall|k: int| 0 <= k < na implies !is_ws(#[trigger] l[k]) by {
        assert(l[k] == a[k]);
    }
    assert forall|k: int| na + 1 <= k < na + 1 + nh implies !is_ws(#[trigger] l[k]) by {
        assert(l[k] == h[k - na - 1]);
    }
    assert(l[0] == a[0]);
    assert(l[na] == ' ');
    assert(l[na + 1] == h[0]);
    assert(skip_ws(l, 0) == 0);
    lemma_token_run(l, 0, na);
    assert(skip_ws(l, na + 1) == na + 1);
    assert(skip_ws(l, na) == na + 1);
    match tr {
        Some(t) => {
            assert(l =~= core + seq![' '] + t);
            assert(l[na + 1 + nh] == ' ');
            lemma_token_run(l, na + 1, na + 1 + nh);
            assert(l[na + 2 + nh] == t[0]);
            assert(skip_ws(l, na + 2 + nh) == na + 2 + nh);
            assert(skip_ws(l, na + 1 + nh) == na + 2 + nh);
            assert(l.subrange(0, na) =~= a);
            assert(l.subrange(na + 1, na + 1 + nh) =~= h);
            assert(l.subrange(na + 2 + nh, l.len() as int) =~= t);
        },
        None => {
            assert(l == core);
            lemma_token_run(l, na + 1, na + 1 + nh);
            assert(l.subrange(0, na) =~= a);
            assert(l.subrange(na + 1, na + 1 + nh) =~= h);
        },
    }
}

/// A line model that is read back as itself once written, and whose text holds
/// no newline.
pub open spec fn reads_back(l: LineView) -> bool {
    &&& line_view(render(l)) == l
    &&& forall|k: int| 0 <= k < render(l).len() ==> #[trigger] render(l)[k] != '\n'
}

/// The written text of each line, in order.
pub open spec fn renders(t: Seq<LineView>) -> Seq<Seq<char>> {
    t.map_values(|l: LineView| render(l))
}

proof fn lemma_split_append(s: Seq<char>, q: Seq<char>)
    requires
        forall|k: int| 0 <= k < q.len() ==> #[trigger] q[k] != '\n',
    ensures
        split_nl(s + q) == split_nl(s).update(split_nl(s).len() - 1, split_nl(s).last() + q),
    decreases q.len(),
{
    lemma_split_join(s);
    if q.len() == 0 {
        assert(s + q =~= s);
        assert(split_nl(s).update(split_nl(s).len() - 1, split_nl(s).last() + q) =~= split_nl(s));
    } else {
        let q1 = q.drop_last();
        lemma_split_append(s, q1);
        assert((s + q).drop_last() =~= s + q1);
        assert((s + q).last() == q.last());
        assert(split_nl(s).last() + q =~= (split_nl(s).last() + q1).push(q.last()));
        assert(split_nl(s + q) =~= split_nl(s).update(split_nl(s).len() - 1, split_nl(s).last() + q));
    }
}

proof fn lemma_split_of_join(p: Seq<Seq<char>>)
    requires
        forall|i: int, k: int| 0 <= i < p.len() && 0 <= k < p[i].len() ==> #[trigger] p[i][k] != '\n',
    ensures
        split_nl(join_nl(p)) == p.push(Seq::<char>::empty()),
        lines_of(join_nl(p)) == p,
    decreases p.len(),
{
    if p.len() == 0 {
        assert(split_nl(join_nl(p)) =~= p.push(Seq::<char>::empty()));
    } else {
        let p1 = p.drop_last();
        lemma_split_of_join(p1);
        let x = join_nl(p1) + p.last();
        assert forall|k: int| 0 <= k < p.last().len() implies #[trigger] p.last()[k] != '\n' by {
            assert(p[p.len() - 1][k] != '\n');
        }
        lemma_split_append(join_nl(p1), p.last());
        assert(join_nl(p) =~= x.push('\n'));
        assert(x.push('\n').drop_last() =~= x);
        assert(split_nl(x) =~= p);
        assert(split_nl(join_nl(p)) =~= p.push(Seq::<char>::empty()));
    }
    assert(p.push(Seq::<char>::empty()).drop_last() =~= p);
}

proof fn lemma_serialize_is_join(t: Seq<LineView>)
    ensures
        serialize_lines(t) == join_nl(renders(t)),
    decreases t.len(),
{
    if t.len() > 0 {
        assert(renders(t).drop_last() =~= renders(t.drop_last()));
        lemma_serialize_is_join(t.drop_last());
    }
}

/// A table whose every line reads back as itself is read back whole from the
/// text it is written as.
pub proof fn lemma_reparse(t: Seq<LineView>)
    requires
        forall|k: int| 0 <= k < t.len() ==> reads_back(#[trigger] t[k]),
    ensures
        parse_text(serialize_lines(t)) == t,
{
    let p = renders(t);
    assert forall|i: int, k: int| 0 <= i < p.len() && 0 <= k < p[i].len() implies #[trigger] p[i][k] != '\n' by {
        assert(reads_back(t[i]));
        assert(p[i] == render(t[i]));
    }
    lemma_serialize_is_join(t);
    lemma_split_of_join(p);
    assert(parse_pieces(p) =~= t) by {
        assert forall|k: int| 0 <= k < t.len() implies parse_pieces(p)[k] == t[k] by {
            assert(reads_back(t[k]));
        }
    }
}

proof fn lemma_split_no_nl(s: Seq<char>)
    ensures
        forall|i: int, k: int|
            0 <= i < split_nl(s).len() && 0 <= k < split_nl(s)[i].len() ==> #[trigger] split_nl(s)[i][k] != '\n',
    decreases s.len(),
{
    if s.len() > 0 {
        lemma_split_no_nl(s.drop_last());
        lemma_split_join(s.drop_last());
        let p = split_nl(s.drop_last());
        if s.last() != '\n' {
            assert forall|i: int, k: int|
                0 <= i < split_nl(s).len() && 0 <= k < split_nl(s)[i].len() implies #[trigger] split_nl(s)[i][k] != '\n' by {
                if i == p.len() - 1 {
                    if k < p.last().len() {
                        assert(split_nl(s)[i][k] == p[i][k]);
                    }
                } else {
                    assert(split_nl(s)[i] == p[i]);
                }
            }
        } else {
            assert forall|i: int, k: int|
                0 <= i < split_nl(s).len() && 0 <= k < split_nl(s)[i].len() implies #[trigger] split_nl(s)[i][k] != '\n' by {
                if i < p.len() {
                    assert(split_nl(s)[i] == p[i]);
                }
            }
        }
    }
}

proof fn lemma_line_reads_back(l: Seq<char>)
    requires
        forall|k: int| 0 <= k < l.len() ==> #[trigger] l[k] != '\n',
    ensures
        reads_back(line_view(l)),
{
    lemma_line_bounds(l);
    lemma_skip_ws(l, 0);
    lemma_skip_ws(l, addr_end(l));
    lemma_skip_ws(l, host_end(l));
    if line_view(l) is Entry {
        let a0 = addr_start(l);
        let h0 = host_start(l);
        let a = l.subrange(a0, addr_end(l));
        let h = l.subrange(h0, host_end(l));
        lemma_skip_token(l, a0 + 1);
        lemma_skip_token(l, h0 + 1);
        assert(skip_token(l, a0) > a0);
        assert(skip_token(l, h0) > h0);
        assert forall|k: int| 0 <= k < a.len() implies !is_ws(#[trigger] a[k]) by {
            lemma_token_inside(l, a0, a0 + k);
        }
        assert forall|k: int| 0 <= k < h.len() implies !is_ws(#[trigger] h[k]) by {
            lemma_token_inside(l, h0, h0 + k);
        }
        assert(a[0] == l[a0]);
        let tr = line_view(l)->trailing;
        if rest_start(l) < l.len() {
            assert(tr->0[0] == l[rest_start(l)]);
        }
        lemma_entry_reads_back(a, h, tr);
        let r = render(line_view(l));
        assert forall|k: int| 0 <= k < r.len() implies #[trigger] r[k] != '\n' by {
            if k < a.len() {
                assert(r[k] == a[k]);
            } else if k == a.len() {
                assert(r[k] == ' ');
            } else if k < a.len() + 1 + h.len() {
                assert(r[k] == h[k - a.len() - 1]);
            } else if k == a.len() + 1 + h.len() {
                assert(r[k] == ' ');
            } else {
                assert(r[k] == tr->0[k - a.len() - h.len() - 2]);
                assert(r[k] == l[rest_start(l) + k - a.len() - h.len() - 2]);
            }
        }
    }
}

/// Every line of a table read from text reads back as itself once written, so
/// writing a table read from text and reading the result gives the same table.
pub proof fn lemma_parsed_reads_back(text: Seq<char>)
    ensures
        forall|k: int| 0 <= k < parse_text(text).len() ==> reads_back(#[trigger] parse_text(text)[k]),
        parse_text(serialize_lines(parse_text(text))) == parse_text(text),
{
    let ls = lines_of(text);
    lemma_split_no_nl(text);
    lemma_split_join(text);
    assert forall|k: int| 0 <= k < parse_text(text).len() implies reads_back(#[trigger] parse_text(text)[k]) by {
        assert(ls[k] == split_nl(text)[k]);
        assert forall|j: int| 0 <= j < ls[k].len() implies #[trigger] ls[k][j] != '\n' by {
            assert(split_nl(text)[k][j] != '\n');
        }
        lemma_line_reads_back(ls[k]);
    }
    lemma_reparse(parse_text(text));
}

/// Removing line `i` from a text in written-back form writes every other line
/// back unchanged and in order, each followed by one newline.
pub proof fn lemma_remove_keeps_other_lines(text: Seq<char>, i: int)
    requires
        canonical_text(text),
        0 <= i < lines_of(text).len(),
    ensures
        text == join_nl(lines_of(text)),
        serialize_lines(parse_text(text).remove(i)) == join_nl(lines_of(text).remove(i)),
{
    let t = parse_text(text);
    let ls = lines_of(text);
    assert(renders(t) =~= ls) by {
        assert forall|k: int| 0 <= k < ls.len() implies renders(t)[k] == ls[k] by {
            lemma_line_round_trip(ls[k]);
        }
    }
    lemma_round_trip(text);
    lemma_serialize_is_join(t);
    assert(renders(t.remove(i)) =~= ls.remove(i));
    lemma_serialize_is_join(t.remove(i));
}

} // verus!
