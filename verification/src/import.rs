use vstd::prelude::*;

use crate::edge::Weight;
use crate::graph::{
    empty_model, spec_insert_edge, spec_insert_vertex, Graph, GraphModel,
};
use crate::text::{
    digits_val, lemma_split_prefix, lemma_tokens_prefix, parse_digit_run, spec_contains,
    spec_digits_value, spec_split, spec_tokens, str_contains,
};

verus! {

/// Why an import failed: the text broke the format, or the text could not
/// be obtained at all (reserved for callers that wrap file access).
#[derive(Clone, Copy, PartialEq, Eq, Structural, Debug)]
pub enum ImportError {
    MalformedInput,
    IOFailure,
}

/// Which section the import is reading; the `*edges` / `*arcs` marker
/// switches from the first state to the second, never back.
#[derive(Clone, Copy, PartialEq, Eq, Structural, Debug)]
pub enum ImportState {
    ReadingVertices,
    ReadingEdges,
}

/// An unsigned vertex identifier: an optional `+` sign, then decimal
/// digits whose value fits in 32 bits (at most nineteen significant
/// digits).
pub open spec fn spec_parse_u32(t: Seq<char>) -> Option<u32> {
    let d = if t.len() > 0 && t[0] == '+' {
        t.drop_first()
    } else {
        t
    };
    if d.len() > 0 && spec_digits_value(d) is Some && digits_val(d) <= u32::MAX {
        Some(digits_val(d) as u32)
    } else {
        None
    }
}

pub fn parse_u32_token(t: &str) -> (r: Option<u32>)
    ensures
        r == spec_parse_u32(t@),
{
    let n = t.unicode_len();
    let start: usize = if n > 0 && t.get_char(0) == '+' {
        1
    } else {
        0
    };
    proof {
        if start == 1 {
            assert(t@.drop_first() =~= t@.subrange(1, n as int));
        } else {
            assert(t@ =~= t@.subrange(0, n as int));
        }
    }
    if start >= n {
        return None;
    }
    match parse_digit_run(t, start, n) {
        None => None,
        Some(v) => {
            proof {
                crate::text::lemma_digits_value_fits(t@.subrange(start as int, n as int));
            }
            if v <= 0xFFFF_FFFF {
                Some(v as u32)
            } else {
                None
            }
        },
    }
}

/// The position of the first `.` in a run, or its length when none occurs.
pub open spec fn dot_index(s: Seq<char>) -> int
    decreases s.len(),
{
    if s.len() == 0 {
        0
    } else if s[0] == '.' {
        0
    } else {
        1 + dot_index(s.drop_first())
    }
}

proof fn lemma_dot_index_at(s: Seq<char>, d: int)
    requires
        0 <= d <= s.len(),
        forall|k: int| 0 <= k < d ==> s[k] != '.',
        d == s.len() || s[d] == '.',
    ensures
        dot_index(s) == d,
    decreases d,
{
    if d > 0 {
        assert(s[0] != '.');
        assert forall|k: int| 0 <= k < d - 1 implies s.drop_first()[k] != '.' by {
            assert(s[k + 1] != '.');
        }
        if d < s.len() {
            assert(s.drop_first()[d - 1] == '.');
        }
        lemma_dot_index_at(s.drop_first(), d - 1);
    }
}

/// An edge weight numeral: an optional sign, then decimal digits with at
/// most one point, at least one digit in all, each digit run within
/// nineteen significant digits, and at most 255 fraction digits.
pub open spec fn spec_parse_weight(t: Seq<char>) -> Option<Weight> {
    let neg = t.len() > 0 && t[0] == '-';
    let body = if t.len() > 0 && (t[0] == '-' || t[0] == '+') {
        t.drop_first()
    } else {
        t
    };
    let d = dot_index(body);
    let ipart = body.take(d);
    let fpart = if d < body.len() {
        body.skip(d + 1)
    } else {
        Seq::<char>::empty()
    };
    if ipart.len() + fpart.len() > 0 && spec_digits_value(ipart) is Some && spec_digits_value(
        fpart,
    ) is Some && fpart.len() <= 255 {
        Some(
            Weight {
                negative: neg,
                integer: digits_val(ipart) as u64,
                fraction: digits_val(fpart) as u64,
                fraction_digits: fpart.len() as u8,
            },
        )
    } else {
        None
    }
}

pub fn parse_weight_token(t: &str) -> (r: Option<Weight>)
    ensures
        r == spec_parse_weight(t@),
{
    let n = t.unicode_len();
    let mut neg = false;
    let mut start: usize = 0;
    if n > 0 {
        let c0 = t.get_char(0);
        if c0 == '-' {
            neg = true;
            start = 1;
        } else if c0 == '+' {
            start = 1;
        }
    }
    let ghost body = if start == 1 {
        t@.drop_first()
    } else {
        t@
    };
    proof {
        assert(body =~= t@.subrange(start as int, n as int));
    }
    let mut dpos: usize = start;
    while dpos < n && t.get_char(dpos) != '.'
        invariant
            start <= dpos <= n,
            n == t@.len(),
            forall|k: int| start <= k < dpos ==> t@[k] != '.',
        decreases n - dpos,
    {
        dpos += 1;
    }
    proof {
        assert forall|k: int| 0 <= k < dpos - start implies body[k] != '.' by {
            assert(t@[start + k] != '.');
        }
        if dpos < n {
            assert(body[dpos - start as int] == t@[dpos as int]);
        }
        lemma_dot_index_at(body, dpos - start as int);
        assert(body.take(dpos - start as int) =~= t@.subrange(start as int, dpos as int));
        if dpos < n {
            assert(body.skip(dpos - start + 1) =~= t@.subrange(dpos + 1, n as int));
        }
    }
    let ilen = dpos - start;
    let flen: usize = if dpos < n {
        n - dpos - 1
    } else {
        0
    };
    if ilen + flen == 0 {
        return None;
    }
    let iv = match parse_digit_run(t, start, dpos) {
        None => {
            return None;
        },
        Some(v) => v,
    };
    let fv: u64 = if dpos < n {
        match parse_digit_run(t, dpos + 1, n) {
            None => {
                return None;
            },
            Some(v) => v,
        }
    } else {
        proof {
            assert(t@.subrange(n as int, n as int) =~= Seq::<char>::empty());
        }
        0
    };
    if flen > 255 {
        return None;
    }
    proof {
        if dpos >= n {
            assert(spec_digits_value(Seq::<char>::empty()) == Some(0u64));
        }
    }
    Some(Weight { negative: neg, integer: iv, fraction: fv, fraction_digits: flen as u8 })
}

/// Tokens rejoined with single spaces.
pub open spec fn spec_join_spaces(ts: Seq<Seq<char>>) -> Seq<char>
    decreases ts.len(),
{
    if ts.len() == 0 {
        Seq::<char>::empty()
    } else if ts.len() == 1 {
        ts[0]
    } else {
        ts[0] + seq![' '] + spec_join_spaces(ts.drop_first())
    }
}

proof fn lemma_join_push(ts: Seq<Seq<char>>, t: Seq<char>)
    ensures
        spec_join_spaces(ts.push(t)) == if ts.len() == 0 {
            t
        } else {
            spec_join_spaces(ts) + seq![' '] + t
        },
    decreases ts.len(),
{
    let p = ts.push(t);
    if ts.len() == 0 {
        assert(p.len() == 1);
        assert(p[0] == t);
        assert(spec_join_spaces(p) == t);
    } else if ts.len() == 1 {
        assert(p.drop_first() =~= seq![t]);
        assert(spec_join_spaces(seq![t]) == t);
        assert(spec_join_spaces(p) == p[0] + seq![' '] + spec_join_spaces(p.drop_first()));
        assert(p[0] == ts[0]);
        assert(spec_join_spaces(ts) == ts[0]);
    } else {
        assert(p.drop_first() =~= ts.drop_first().push(t));
        lemma_join_push(ts.drop_first(), t);
        assert(spec_join_spaces(ts.drop_first()).len() >= 0);
        assert(spec_join_spaces(p) == p[0] + seq![' '] + spec_join_spaces(ts.drop_first().push(t)));
        assert(ts[0] + seq![' '] + (spec_join_spaces(ts.drop_first()) + seq![' '] + t) =~= (ts[0]
            + seq![' '] + spec_join_spaces(ts.drop_first())) + seq![' '] + t);
    }
}

/// The whitespace-separated tokens of a line, each borrowed from it.
fn split_tokens<'a>(line: &'a str) -> (r: Vec<&'a str>)
    ensures
        r.deep_view() == spec_tokens(line@),
{
    let ghost ts = spec_tokens(line@);
    let n = line.unicode_len();
    let mut toks: Vec<&'a str> = Vec::new();
    let mut p: usize = 0;
    proof {
        assert(line@.skip(0) =~= line@);
    }
    while p < n
        invariant
            p <= n,
            n == line@.len(),
            ts == spec_tokens(line@),
            spec_tokens(line@.skip(p as int)) == ts.skip(toks.deep_view().len() as int),
            toks.deep_view().len() <= ts.len(),
            forall|k: int|
                0 <= k < toks.deep_view().len() ==> toks.deep_view()[k] == ts[k],
        decreases n - p,
    {
        let c = line.get_char(p);
        if c == ' ' || c == '\t' || c == '\r' {
            proof {
                let suf = line@.skip(p as int);
                assert(suf[0] == c);
                assert(suf.drop_first() =~= line@.skip(p + 1));
            }
            p += 1;
        } else {
            let mut q: usize = p + 1;
            while q < n && !crate::text::char_is_space(line.get_char(q))
                invariant
                    p < q <= n,
                    n == line@.len(),
                    forall|k: int| p <= k < q ==> !crate::text::is_space(#[trigger] line@[k]),
                decreases n - q,
            {
                q += 1;
            }
            let tok = line.substring_char(p, q);
            proof {
                let suf = line@.skip(p as int);
                assert forall|k: int| 0 <= k < q - p implies !crate::text::is_space(
                    #[trigger] suf[k],
                ) by {
                    assert(!crate::text::is_space(line@[p + k]));
                }
                if q < n {
                    assert(suf[q - p as int] == line@[q as int]);
                }
                lemma_tokens_prefix(suf, q - p as int);
                assert(tok@ =~= suf.take(q - p as int));
                assert(suf.skip(q - p as int) =~= line@.skip(q as int));
            }
            let ghost dv_old = toks.deep_view();
            toks.push(tok);
            proof {
                assert(toks.deep_view() =~= dv_old.push(tok@));
                let done = dv_old.len() as int;
                assert(ts.skip(done).len() == ts.len() - done);
                assert(ts.skip(done)[0] == ts[done]);
                assert(ts[done] == tok@);
                assert(ts.skip(done).drop_first() =~= ts.skip(done + 1));
                assert(spec_tokens(line@.skip(q as int)) == ts.skip(done + 1));
            }
            p = q;
        }
    }
    proof {
        assert(line@.skip(n as int) =~= Seq::<char>::empty());
        let done = toks.deep_view().len() as int;
        assert(ts.skip(done) =~= Seq::<Seq<char>>::empty());
        assert(toks.deep_view() =~= ts);
    }
    toks
}

/// Rejoin `toks[from..]` with single spaces.
fn join_tokens(toks: &Vec<&str>, from: usize) -> (r: String)
    requires
        from <= toks@.len(),
    ensures
        r@ == spec_join_spaces(toks.deep_view().skip(from as int)),
{
    let ghost dv = toks.deep_view();
    let mut out = String::new();
    let mut k: usize = from;
    proof {
        reveal_strlit(" ");
        assert(dv.subrange(from as int, from as int) =~= Seq::<Seq<char>>::empty());
    }
    while k < toks.len()
        invariant
            from <= k <= toks@.len(),
            dv == toks.deep_view(),
            dv.len() == toks@.len(),
            out@ == spec_join_spaces(dv.subrange(from as int, k as int)),
        decreases toks@.len() - k,
    {
        let piece: &str = toks[k];
        if k > from {
            out.append(" ");
            proof {
                reveal_strlit(" ");
            }
        }
        out.append(piece);
        proof {
            reveal_strlit(" ");
            assert(" "@ =~= seq![' ']);
            let pre = dv.subrange(from as int, k as int);
            let post = dv.subrange(from as int, k + 1 as int);
            assert(post =~= pre.push(dv[k as int]));
            lemma_join_push(pre, dv[k as int]);
            assert(dv[k as int] == piece@);
        }
        k += 1;
    }
    proof {
        assert(dv.subrange(from as int, dv.len() as int) =~= dv.skip(from as int));
    }
    out
}

/// One line of the import format, applied to the accumulated graph `m`
/// in the given mode: blank lines and `*vertices` headers are skipped; a
/// line holding `*edges` or `*arcs` switches to edge mode; before the
/// switch a line is `<id> <label...>`, after it `<u> <v> <weight>`; a line
/// that fails to parse as required yields nothing.
pub open spec fn spec_import_step(m: GraphModel, state: ImportState, line: Seq<char>) -> Option<
    (GraphModel, ImportState),
> {
    let ts = spec_tokens(line);
    if spec_contains(line, "*vertices"@) {
        Some((m, state))
    } else if spec_contains(line, "*edges"@) || spec_contains(line, "*arcs"@) {
        Some((m, ImportState::ReadingEdges))
    } else if ts.len() == 0 {
        Some((m, state))
    } else if state is ReadingVertices {
        if ts.len() >= 2 && spec_parse_u32(ts[0]) is Some {
            Some(
                (
                    spec_insert_vertex(m, spec_parse_u32(ts[0])->Some_0, spec_join_spaces(ts.skip(1))),
                    ImportState::ReadingVertices,
                ),
            )
        } else {
            None
        }
    } else {
        if ts.len() >= 3 && spec_parse_u32(ts[0]) is Some && spec_parse_u32(ts[1]) is Some
            && spec_parse_weight(ts[2]) is Some {
            Some(
                (
                    spec_insert_edge(
                        m,
                        spec_parse_u32(ts[0])->Some_0,
                        spec_parse_u32(ts[1])->Some_0,
                        spec_parse_weight(ts[2])->Some_0,
                    ),
                    ImportState::ReadingEdges,
                ),
            )
        } else {
            None
        }
    }
}

/// The import format, one line at a time from line `i` on: each line is
/// one `spec_import_step`; a failing line aborts the whole import.
pub open spec fn spec_import_lines(
    m: GraphModel,
    lines: Seq<Seq<char>>,
    i: int,
    state: ImportState,
) -> Option<GraphModel>
    decreases lines.len() - i,
{
    if i < 0 || i >= lines.len() {
        Some(m)
    } else {
        match spec_import_step(m, state, lines[i]) {
            None => None,
            Some((m2, st2)) => spec_import_lines(m2, lines, i + 1, st2),
        }
    }
}

/// The whole import: the text split into lines, folded into a graph from
/// the empty one, starting in vertex mode.
pub open spec fn spec_import(s: Seq<char>) -> Option<GraphModel> {
    spec_import_lines(empty_model(), spec_split(s, '\n'), 0, ImportState::ReadingVertices)
}

/// Apply one line to the graph being built; reports whether the line was
/// acceptable.
fn import_line(g: &mut Graph, state: &mut ImportState, line: &str) -> (ok: bool)
    requires
        old(g).wf(),
    ensures
        final(g).wf(),
        ok ==> spec_import_step(old(g).model(), *old(state), line@) == Some(
            (final(g).model(), *final(state)),
        ),
        !ok ==> spec_import_step(old(g).model(), *old(state), line@) is None && *final(g)
            == *old(g) && *final(state) == *old(state),
{
    let ghost ts = spec_tokens(line@);
    if str_contains(line, "*vertices") {
        return true;
    }
    if str_contains(line, "*edges") || str_contains(line, "*arcs") {
        *state = ImportState::ReadingEdges;
        return true;
    }
    let toks = split_tokens(line);
    if toks.len() == 0 {
        return true;
    }
    if matches!(*state, ImportState::ReadingVertices) {
        if toks.len() < 2 {
            return false;
        }
        proof {
            assert(toks.deep_view()[0] == ts[0]);
        }
        match parse_u32_token(toks[0]) {
            None => false,
            Some(id) => {
                let label = join_tokens(&toks, 1);
                proof {
                    assert(toks.deep_view().skip(1) =~= ts.skip(1));
                }
                g.insert_vertex(id, label);
                true
            },
        }
    } else {
        if toks.len() < 3 {
            return false;
        }
        proof {
            assert(toks.deep_view()[0] == ts[0]);
            assert(toks.deep_view()[1] == ts[1]);
            assert(toks.deep_view()[2] == ts[2]);
        }
        let u_opt = parse_u32_token(toks[0]);
        let v_opt = parse_u32_token(toks[1]);
        let w_opt = parse_weight_token(toks[2]);
        match (u_opt, v_opt, w_opt) {
            (Some(u), Some(v), Some(w)) => {
                g.insert_edge(u, v, w);
                true
            },
            _ => false,
        }
    }
}

impl Graph {
    /// Build a graph from its textual description (the content of a `.net`
    /// or `.txt` file).  Any line that fails to parse as the format
    /// requires aborts the whole import: no partial graph is handed back.
    pub fn read_from_text(content: &str) -> (r: Result<Graph, ImportError>)
        ensures
            match r {
                Ok(g) => g.wf() && Some(g.model()) == spec_import(content@),
                Err(e) => e == ImportError::MalformedInput && spec_import(content@) is None,
            },
    {
        let ghost lines = spec_split(content@, '\n');
        let n = content.unicode_len();
        let mut g = Graph::new();
        let mut state = ImportState::ReadingVertices;
        let mut i: usize = 0;
        let ghost mut li: int = 0;
        proof {
            assert(content@.skip(0) =~= content@);
            assert(lines.skip(0) =~= lines);
            if n == 0 {
                assert(content@ =~= Seq::<char>::empty());
            }
        }
        while i < n
            invariant
                g.wf(),
                n == content@.len(),
                i <= n,
                0 <= li <= lines.len(),
                lines == spec_split(content@, '\n'),
                i < n ==> spec_split(content@.skip(i as int), '\n') == lines.skip(li),
                i == n ==> li == lines.len() || (li == lines.len() - 1 && lines[li].len() == 0),
                spec_import_lines(empty_model(), lines, 0, ImportState::ReadingVertices)
                    == spec_import_lines(g.model(), lines, li, state),
            decreases n - i,
        {
            let mut j: usize = i;
            while j < n && content.get_char(j) != '\n'
                invariant
                    i <= j <= n,
                    n == content@.len(),
                    forall|k: int| i <= k < j ==> content@[k] != '\n',
                decreases n - j,
            {
                j += 1;
            }
            let line = content.substring_char(i, j);
            proof {
                let suf = content@.skip(i as int);
                assert forall|k: int| 0 <= k < j - i implies suf[k] != '\n' by {
                    assert(content@[i + k] != '\n');
                }
                if j < n {
                    assert(suf[j - i as int] == content@[j as int]);
                }
                lemma_split_prefix(suf, '\n', j - i as int);
                crate::text::lemma_split_len(suf, '\n');
                assert(line@ =~= suf.take(j - i as int));
                assert(lines.skip(li)[0] == line@);
                assert(lines.skip(li)[0] == lines[li]);
            }
            let ok = import_line(&mut g, &mut state, line);
            if !ok {
                proof {
                    assert(spec_import_lines(g.model(), lines, li, state) is None);
                }
                return Err(ImportError::MalformedInput);
            }
            proof {
                li = li + 1;
                if j < n {
                    assert(lines.skip(li - 1).drop_first() =~= lines.skip(li));
                    assert(content@.skip(i as int).skip(j - i + 1) =~= content@.skip(j + 1));
                    assert(spec_split(content@.skip(j + 1), '\n') == lines.skip(li));
                } else {
                    assert(lines.skip(li - 1).len() == 1);
                    assert(li == lines.len());
                }
            }
            if j < n {
                i = j + 1;
                proof {
                    if i == n {
                        assert(content@.skip(n as int) =~= Seq::<char>::empty());
                        assert(lines.skip(li).len() == 1);
                        assert(lines.skip(li)[0] == lines[li]);
                        assert(lines[li].len() == 0);
                    }
                }
            } else {
                i = n;
            }
        }
        proof {
            if li < lines.len() {
                lemma_empty_line_skipped(lines[li]);
                assert(spec_import_lines(g.model(), lines, li, state) == spec_import_lines(
                    g.model(),
                    lines,
                    li + 1,
                    state,
                ));
            }
        }
        Ok(g)
    }
}

/// An empty line is one skipped step of the import.
proof fn lemma_empty_line_skipped(line: Seq<char>)
    requires
        line.len() == 0,
    ensures
        forall|m: GraphModel, st: ImportState| #[trigger] spec_import_step(m, st, line) == Some(
            (m, st),
        ),
{
    reveal_strlit("*vertices");
    reveal_strlit("*edges");
    reveal_strlit("*arcs");
    assert(!spec_contains(line, "*vertices"@)) by {
        if spec_contains(line, "*vertices"@) {
            let k = choose|k: int| crate::text::spec_contains_at(line, "*vertices"@, k);
        }
    }
    assert(!spec_contains(line, "*edges"@)) by {
        if spec_contains(line, "*edges"@) {
            let k = choose|k: int| crate::text::spec_contains_at(line, "*edges"@, k);
        }
    }
    assert(!spec_contains(line, "*arcs"@)) by {
        if spec_contains(line, "*arcs"@) {
            let k = choose|k: int| crate::text::spec_contains_at(line, "*arcs"@, k);
        }
    }
    assert(spec_tokens(line).len() == 0);
}

} // verus!
