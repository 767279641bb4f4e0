use vstd::prelude::*;
use crate::generate::{decls_view, line_of, rendered};
use crate::model::Declaration;

verus! {

/// A line of a declarations file that could not be read, by its number
/// (counted from 1).
pub struct ParseError {
    pub line: usize,
}

pub open spec fn is_blank(b: u8) -> bool {
    b == 32 || b == 9 || b == 13
}

/// The first index in `i..end` that is not blank, else `end`.
pub open spec fn skip_blanks(t: Seq<u8>, i: int, end: int) -> int
    decreases end - i,
{
    if i >= end {
        end
    } else if is_blank(t[i]) {
        skip_blanks(t, i + 1, end)
    } else {
        i
    }
}

/// The first index in `i..end` that is blank, else `end`.
pub open spec fn token_end(t: Seq<u8>, i: int, end: int) -> int
    decreases end - i,
{
    if i >= end {
        end
    } else if is_blank(t[i]) {
        i
    } else {
        token_end(t, i + 1, end)
    }
}

/// The index of the first line feed at or after `i`, else the text's length.
pub open spec fn line_end(t: Seq<u8>, i: int) -> int
    decreases t.len() - i,
{
    if i >= t.len() {
        t.len() as int
    } else if t[i] == 10 {
        i
    } else {
        line_end(t, i + 1)
    }
}

/// What one line holds: nothing (blank or a `#` comment), an entry
/// `pattern @owner`, or something malformed.
pub enum LineSpec {
    Skip,
    Entry(Seq<u8>, Seq<u8>),
    Bad,
}

pub open spec fn parse_line(t: Seq<u8>, i: int, end: int) -> LineSpec {
    let s = skip_blanks(t, i, end);
    if s == end || t[s] == 35 {
        LineSpec::Skip
    } else {
        let pe = token_end(t, s, end);
        let os = skip_blanks(t, pe, end);
        if os == end || t[os] != 64 {
            LineSpec::Bad
        } else {
            let oe = token_end(t, os + 1, end);
            if oe == os + 1 || skip_blanks(t, oe, end) != end {
                LineSpec::Bad
            } else {
                LineSpec::Entry(t.subrange(s, pe), t.subrange(os + 1, oe))
            }
        }
    }
}

pub open spec fn prepend(
    acc: Seq<(Seq<u8>, Seq<u8>)>,
    r: Result<Seq<(Seq<u8>, Seq<u8>)>, nat>,
) -> Result<Seq<(Seq<u8>, Seq<u8>)>, nat> {
    match r {
        Ok(rest) => Ok(acc + rest),
        Err(n) => Err(n),
    }
}

/// The entries of the text from byte `i` on, whose line is number `line`,
/// or the number of the first malformed line.
pub open spec fn parse_from(t: Seq<u8>, i: int, line: nat) -> Result<Seq<(Seq<u8>, Seq<u8>)>, nat>
    decreases t.len() - i,
{
    if i < 0 || i >= t.len() {
        Ok(seq![])
    } else {
        let e = line_end(t, i);
        if e < i || e > t.len() {
            Ok(seq![])
        } else {
        match parse_line(t, i, e) {
            LineSpec::Skip => if e < t.len() { parse_from(t, e + 1, line + 1) } else { Ok(seq![]) },
            LineSpec::Bad => Err(line),
            LineSpec::Entry(p, o) => prepend(
                seq![(p, o)],
                if e < t.len() { parse_from(t, e + 1, line + 1) } else { Ok(seq![]) },
            ),
        }
        }
    }
}

pub open spec fn parsed(t: Seq<u8>) -> Result<Seq<(Seq<u8>, Seq<u8>)>, nat> {
    parse_from(t, 0, 1)
}

proof fn lemma_line_end(t: Seq<u8>, i: int)
    requires
        0 <= i <= t.len(),
    ensures
        i <= line_end(t, i) <= t.len(),
    decreases t.len() - i,
{
    if i < t.len() && t[i] != 10 {
        lemma_line_end(t, i + 1);
    }
}

fn skip_blanks_exec(t: &Vec<u8>, i: usize, end: usize) -> (r: usize)
    requires
        i <= end <= t@.len(),
    ensures
        r == skip_blanks(t@, i as int, end as int),
        i <= r <= end,
    decreases end - i,
{
    if i >= end {
        end
    } else if t[i] == 32 || t[i] == 9 || t[i] == 13 {
        skip_blanks_exec(t, i + 1, end)
    } else {
        i
    }
}

fn token_end_exec(t: &Vec<u8>, i: usize, end: usize) -> (r: usize)
    requires
        i <= end <= t@.len(),
    ensures
        r == token_end(t@, i as int, end as int),
        i <= r <= end,
    decreases end - i,
{
    let mut j: usize = i;
    while j < end
        invariant
            i <= j <= end,
            end <= t@.len(),
            token_end(t@, j as int, end as int) == token_end(t@, i as int, end as int),
        decreases end - j,
    {
        if t[j] == 32 || t[j] == 9 || t[j] == 13 {
            return j;
        }
        j = j + 1;
    }
    j
}

fn slice_copy(t: &Vec<u8>, a: usize, b: usize) -> (r: Vec<u8>)
    requires
        a <= b <= t@.len(),
    ensures
        r@ == t@.subrange(a as int, b as int),
{
    let mut r: Vec<u8> = Vec::new();
    let mut i: usize = a;
    while i < b
        invariant
            a <= i <= b,
            b <= t@.len(),
            r@ == t@.subrange(a as int, i as int),
        decreases b - i,
    {
        r.push(t[i]);
        i = i + 1;
    }
    r
}

/// Reads the entries of a declarations file: one `pattern @owner` per line;
/// blank lines and `#` comments are skipped. The first malformed line is
/// reported by its number.
pub fn parse_declarations(t: &Vec<u8>) -> (r: Result<Vec<Declaration>, ParseError>)
    ensures
        r matches Ok(d) ==> parsed(t@) == Ok::<Seq<(Seq<u8>, Seq<u8>)>, nat>(decls_view(d@)),
        r matches Err(e) ==> parsed(t@) == Err::<Seq<(Seq<u8>, Seq<u8>)>, nat>(e.line as nat),
        parsed(t@) is Ok <==> r is Ok,
{
    let mut acc: Vec<Declaration> = Vec::new();
    let mut i: usize = 0;
    let mut done: usize = 0;
    while i < t.len()
        invariant
            i <= t@.len(),
            done <= i,
            parsed(t@) == prepend(decls_view(acc@), parse_from(t@, i as int, (done + 1) as nat)),
        decreases t@.len() - i,
    {
        let mut e: usize = i;
        while e < t.len() && t[e] != 10
            invariant
                i <= e <= t@.len(),
                line_end(t@, e as int) == line_end(t@, i as int),
            decreases t@.len() - e,
        {
            e = e + 1;
        }
        proof { lemma_line_end(t@, i as int); }
        let line = done + 1;
        let s = skip_blanks_exec(t, i, e);
        let ghost rest = parse_from(t@, e + 1, (line + 1) as nat);
        if s == e || t[s] == 35 {
            assert(parse_from(t@, i as int, line as nat) == rest);
        } else {
            let pe = token_end_exec(t, s, e);
            let os = skip_blanks_exec(t, pe, e);
            if os == e || t[os] != 64 {
                return Err(ParseError { line });
            }
            let oe = token_end_exec(t, os + 1, e);
            if oe == os + 1 || skip_blanks_exec(t, oe, e) != e {
                return Err(ParseError { line });
            }
            let d = Declaration { pattern: slice_copy(t, s, pe), owner: slice_copy(t, os + 1, oe) };
            let ghost before = acc@;
            acc.push(d);
            assert(decls_view(acc@) =~= decls_view(before) + seq![(t@.subrange(s as int, pe as int), t@.subrange(os + 1, oe as int))]);
            assert(parsed(t@) == prepend(decls_view(acc@), rest)) by {
                match rest {
                    Ok(x) => {
                        assert(decls_view(before) + (seq![(t@.subrange(s as int, pe as int), t@.subrange(os + 1, oe as int))] + x)
                            =~= decls_view(acc@) + x);
                    },
                    Err(_) => {},
                }
            }
        }
        if e == t.len() {
            assert(parse_from(t@, e + 1, (line + 1) as nat) == Ok::<Seq<(Seq<u8>, Seq<u8>)>, nat>(seq![]));
            assert(decls_view(acc@) + seq![] =~= decls_view(acc@));
            return Ok(acc);
        }
        i = e + 1;
        done = done + 1;
    }
    assert(decls_view(acc@) + seq![] =~= decls_view(acc@));
    Ok(acc)
}

/// A token that a line can carry: not empty, and no blank or line feed.
pub open spec fn plain_token(x: Seq<u8>) -> bool {
    x.len() > 0 && forall|k: int| 0 <= k < x.len() ==> !is_blank(#[trigger] x[k]) && x[k] != 10
}

/// An entry that reads back as itself: plain tokens, and a pattern that
/// does not start a comment.
pub open spec fn writable_entry(e: (Seq<u8>, Seq<u8>)) -> bool {
    plain_token(e.0) && plain_token(e.1) && e.0[0] != 35
}

proof fn lemma_rendered_prefix(d: Seq<(Seq<u8>, Seq<u8>)>, j: int)
    requires
        0 <= j <= d.len(),
    ensures
        rendered(d.take(j)).len() <= rendered(d).len(),
        rendered(d) == rendered(d.take(j)) + rendered(d).subrange(rendered(d.take(j)).len() as int, rendered(d).len() as int),
    decreases d.len(),
{
    if j == d.len() {
        assert(d.take(j) =~= d);
        assert(rendered(d).subrange(rendered(d).len() as int, rendered(d).len() as int) =~= seq![]);
        assert(rendered(d) + seq![] =~= rendered(d));
    } else {
        let dl = d.drop_last();
        lemma_rendered_prefix(dl, j);
        assert(dl.take(j) =~= d.take(j));
        let a = rendered(d.take(j));
        let r = rendered(dl);
        assert(rendered(d) == r + line_of(d.last()));
        assert(rendered(d) =~= a + rendered(d).subrange(a.len() as int, rendered(d).len() as int));
    }
}

proof fn lemma_token_end_run(t: Seq<u8>, i: int, j: int, end: int)
    requires
        0 <= i <= j <= end <= t.len(),
        forall|m: int| i <= m < j ==> !is_blank(#[trigger] t[m]),
        j == end || is_blank(t[j]),
    ensures
        token_end(t, i, end) == j,
    decreases j - i,
{
    if i < j {
        lemma_token_end_run(t, i + 1, j, end);
    }
}

proof fn lemma_skip_blanks_run(t: Seq<u8>, i: int, j: int, end: int)
    requires
        0 <= i <= j <= end <= t.len(),
        forall|m: int| i <= m < j ==> is_blank(#[trigger] t[m]),
        j == end || !is_blank(t[j]),
    ensures
        skip_blanks(t, i, end) == j,
    decreases j - i,
{
    if i < j {
        lemma_skip_blanks_run(t, i + 1, j, end);
    }
}

proof fn lemma_line_end_run(t: Seq<u8>, i: int, j: int)
    requires
        0 <= i <= j < t.len(),
        forall|m: int| i <= m < j ==> #[trigger] t[m] != 10,
        t[j] == 10,
    ensures
        line_end(t, i) == j,
    decreases j - i,
{
    if i < j {
        lemma_line_end_run(t, i + 1, j);
    }
}

/// A rendered line at `i` reads back as its entry.
proof fn lemma_rendered_line(t: Seq<u8>, i: int, p: Seq<u8>, o: Seq<u8>)
    requires
        writable_entry((p, o)),
        0 <= i,
        i + line_of((p, o)).len() <= t.len(),
        forall|m: int| 0 <= m < line_of((p, o)).len() ==> #[trigger] t[i + m] == line_of((p, o))[m],
    ensures
        line_end(t, i) == i + line_of((p, o)).len() - 1,
        parse_line(t, i, i + line_of((p, o)).len() - 1) == LineSpec::Entry(p, o),
{
    let l = line_of((p, o));
    let pe = i + p.len();
    let os = pe + 1;
    let e = os + 1 + o.len();
    assert(e == i + l.len() - 1);
    assert(t[pe] == 32) by { assert(t[i + p.len()] == l[p.len() as int]); }
    assert(t[os] == 64) by { assert(t[i + (p.len() + 1)] == l[p.len() as int + 1]); }
    assert(t[e] == 10) by { assert(t[i + (l.len() - 1)] == l[l.len() - 1]); }
    assert forall|m: int| i <= m < pe implies !is_blank(#[trigger] t[m]) && t[m] != 10 by {
        assert(t[i + (m - i)] == l[m - i]);
        assert(l[m - i] == p[m - i]);
    }
    assert forall|m: int| os + 1 <= m < e implies !is_blank(#[trigger] t[m]) && t[m] != 10 by {
        assert(t[i + (m - i)] == l[m - i]);
        assert(l[m - i] == o[m - (os + 1)]);
    }
    assert forall|m: int| i <= m < e implies #[trigger] t[m] != 10 by {
        if m < pe {
            assert(!is_blank(t[m]) && t[m] != 10);
        } else if m == pe || m == os {
        } else {
            assert(!is_blank(t[m]) && t[m] != 10);
        }
    }
    lemma_line_end_run(t, i, e);
    assert(t[i] == p[0]) by { assert(t[i + 0] == l[0]); }
    lemma_skip_blanks_run(t, i, i, e);
    lemma_token_end_run(t, i, pe, e);
    lemma_skip_blanks_run(t, pe, os, e);
    lemma_token_end_run(t, os + 1, e, e);
    lemma_skip_blanks_run(t, e, e, e);
    assert(t.subrange(i, pe) =~= p) by {
        assert forall|m: int| 0 <= m < p.len() implies t.subrange(i, pe)[m] == p[m] by {
            assert(t[i + m] == l[m]);
        }
    }
    assert(t.subrange(os + 1, e) =~= o) by {
        assert forall|m: int| 0 <= m < o.len() implies t.subrange(os + 1, e)[m] == o[m] by {
            assert(t[i + (p.len() + 2 + m)] == l[p.len() + 2 + m]);
        }
    }
}

/// The entries from the `k`-th on read back from the rendered text.
proof fn lemma_read_back_from(d: Seq<(Seq<u8>, Seq<u8>)>, k: int, line: nat)
    requires
        0 <= k <= d.len(),
        forall|i: int| 0 <= i < d.len() ==> writable_entry(#[trigger] d[i]),
    ensures
        parse_from(rendered(d), rendered(d.take(k)).len() as int, line) == Ok::<Seq<(Seq<u8>, Seq<u8>)>, nat>(d.skip(k)),
    decreases d.len() - k,
{
    let t = rendered(d);
    lemma_rendered_prefix(d, k);
    let i = rendered(d.take(k)).len() as int;
    if k == d.len() {
        assert(d.take(k) =~= d);
        assert(d.skip(k) =~= seq![]);
    } else {
        lemma_rendered_prefix(d, k + 1);
        lemma_read_back_from(d, k + 1, line + 1);
        let p = d[k].0;
        let o = d[k].1;
        assert(writable_entry(d[k]));
        assert(d.take(k + 1).drop_last() =~= d.take(k));
        let l = line_of(d[k]);
        assert(rendered(d.take(k + 1)) == rendered(d.take(k)) + l);
        let j = rendered(d.take(k + 1)).len() as int;
        assert(j == i + l.len());
        assert forall|m: int| 0 <= m < l.len() implies #[trigger] t[i + m] == l[m] by {
            assert(t[i + m] == rendered(d.take(k + 1))[i + m]);
        }
        lemma_rendered_line(t, i, p, o);
        let e = j - 1;
        assert(e + 1 == j);
        assert(d.skip(k) =~= seq![(p, o)] + d.skip(k + 1));
    }
}

/// A declarations file as written reads back as the same entries, provided
/// each entry is two plain tokens and its pattern does not start a comment.
pub proof fn rendered_declarations_read_back(d: Seq<(Seq<u8>, Seq<u8>)>)
    requires
        forall|i: int| 0 <= i < d.len() ==> writable_entry(#[trigger] d[i]),
    ensures
        parsed(rendered(d)) == Ok::<Seq<(Seq<u8>, Seq<u8>)>, nat>(d),
{
    lemma_read_back_from(d, 0, 1);
    assert(d.take(0) =~= seq![]);
    assert(d.skip(0) =~= d);
}

} // verus!
