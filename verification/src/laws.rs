//! General laws of the tokenizer, stated over its spec model and proved
//! once and for all.

use vstd::prelude::*;

use crate::parse::{
    lemma_body_bounds, spec_body, spec_scan, spec_tokenize, spec_trim, spec_trim_end,
    spec_trim_start, BodyResult, ErrorModel, ErrorType, TokenModel,
};
use crate::spec_split;

verus! {

/// No opening delimiter `{{` occurs anywhere in `s`.
pub open spec fn no_open(s: Seq<char>) -> bool {
    forall|i: int| 0 <= i && i + 1 < s.len() ==> !((#[trigger] s[i]) == '{' && s[i + 1] == '{')
}

/// No closing delimiter `}}` occurs anywhere in `s`.
pub open spec fn no_close(s: Seq<char>) -> bool {
    forall|i: int| 0 <= i && i + 1 < s.len() ==> !((#[trigger] s[i]) == '}' && s[i + 1] == '}')
}

/// No character of `s` is `c`.
pub open spec fn no_char(s: Seq<char>, c: char) -> bool {
    forall|i: int| 0 <= i < s.len() ==> (#[trigger] s[i]) != c
}

/// The tokens of a literal run: one literal token, or none for an empty run.
pub open spec fn lit_tokens(x: Seq<char>) -> Seq<TokenModel> {
    if x.len() > 0 {
        seq![TokenModel::Lit(x)]
    } else {
        Seq::empty()
    }
}

/// The zero-based column after scanning `p` from column `col`.
pub open spec fn col_after(p: Seq<char>, col: int) -> int
    decreases p.len(),
{
    if p.len() == 0 {
        col
    } else if p[0] == '\n' {
        col_after(p.drop_first(), 0)
    } else {
        col_after(p.drop_first(), col + 1)
    }
}

/// The zero-based line after scanning `p` from line `line`.
pub open spec fn line_after(p: Seq<char>, line: int) -> int
    decreases p.len(),
{
    if p.len() == 0 {
        line
    } else if p[0] == '\n' {
        line_after(p.drop_first(), line + 1)
    } else {
        line_after(p.drop_first(), line)
    }
}

/// A scan that never meets an opening delimiter accumulates everything
/// into one literal run.
pub proof fn lemma_scan_all_literal(s: Seq<char>, lit: Seq<char>, col: int, line: int)
    requires
        no_open(s),
    ensures
        spec_scan(s, lit, col, line) == Ok::<Seq<TokenModel>, ErrorModel>(lit_tokens(lit + s)),
    decreases s.len(),
{
    if s.len() == 0 {
        assert(lit + s =~= lit);
    } else {
        assert(!(s.len() >= 2 && s[0] == '{' && s[1] == '{'));
        let s2 = s.drop_first();
        assert(no_open(s2)) by {
            assert(forall|i: int|
                0 <= i && i + 1 < s2.len() ==> (#[trigger] s2[i]) == s[i + 1] && s2[i + 1] == s[i
                    + 2]);
        }
        if s[0] == '\n' {
            lemma_scan_all_literal(s2, lit.push(s[0]), 0, line + 1);
        } else {
            lemma_scan_all_literal(s2, lit.push(s[0]), col + 1, line);
        }
        assert(lit.push(s[0]) + s2 =~= lit + s);
    }
}

/// An input with no `{{` at all tokenizes to a single literal token equal
/// to the whole input, or to no token at all when the input is empty.
pub proof fn lemma_no_open_single_literal(s: Seq<char>)
    requires
        no_open(s),
    ensures
        spec_tokenize(s) == Ok::<Seq<TokenModel>, ErrorModel>(lit_tokens(s)),
{
    lemma_scan_all_literal(s, Seq::empty(), 0, 0);
    assert(Seq::<char>::empty() + s =~= s);
}

/// Scanning literal text `p` in front of `rest` only accumulates `p` into
/// the pending literal run and moves the position across it, provided no
/// opening delimiter occurs in `p` or straddles the boundary.
pub proof fn lemma_scan_literal_prefix(
    p: Seq<char>,
    rest: Seq<char>,
    lit: Seq<char>,
    col: int,
    line: int,
)
    requires
        no_open(p),
        !(p.len() > 0 && rest.len() > 0 && p[p.len() - 1] == '{' && rest[0] == '{'),
    ensures
        spec_scan(p + rest, lit, col, line) == spec_scan(
            rest,
            lit + p,
            col_after(p, col),
            line_after(p, line),
        ),
    decreases p.len(),
{
    if p.len() == 0 {
        assert(p + rest =~= rest);
        assert(lit + p =~= lit);
    } else {
        let s = p + rest;
        assert(s[0] == p[0]);
        assert(!(s.len() >= 2 && s[0] == '{' && s[1] == '{')) by {
            if s.len() >= 2 && s[0] == '{' && s[1] == '{' {
                if p.len() >= 2 {
                    assert(p[0] == '{' && p[1] == '{');
                } else {
                    assert(p[p.len() - 1] == '{' && rest[0] == '{');
                }
            }
        }
        let p2 = p.drop_first();
        assert(no_open(p2)) by {
            assert(forall|i: int|
                0 <= i && i + 1 < p2.len() ==> (#[trigger] p2[i]) == p[i + 1] && p2[i + 1] == p[i
                    + 2]);
        }
        assert(p2.len() > 0 ==> p2[p2.len() - 1] == p[p.len() - 1]);
        assert(s.drop_first() =~= p2 + rest);
        assert(lit.push(p[0]) + p2 =~= lit + p);
        if p[0] == '\n' {
            lemma_scan_literal_prefix(p2, rest, lit.push(p[0]), 0, line + 1);
        } else {
            lemma_scan_literal_prefix(p2, rest, lit.push(p[0]), col + 1, line);
        }
    }
}

/// A body with no closing delimiter, no newline and no dot is left open.
pub proof fn lemma_body_stays_open(s: Seq<char>, cur: Seq<char>, segs: Seq<Seq<char>>, pos: int)
    requires
        no_close(s),
        no_char(s, '\n'),
        no_char(s, '.'),
    ensures
        spec_body(s, cur, segs, pos) is Open,
    decreases s.len(),
{
    if s.len() == 0 {
    } else {
        assert(!(s.len() >= 2 && s[0] == '}' && s[1] == '}'));
        let s2 = s.drop_first();
        assert(forall|i: int|
            0 <= i < s2.len() ==> (#[trigger] s2[i]) == s[i + 1]);
        assert(no_close(s2)) by {
            assert(forall|i: int|
                0 <= i && i + 1 < s2.len() ==> (#[trigger] s2[i]) == s[i + 1] && s2[i + 1] == s[i
                    + 2]);
        }
        lemma_body_stays_open(s2, cur.push(s[0]), segs, pos + 1);
    }
}

/// A scan of text holding no `}}`, no newline and no dot accumulates
/// everything into one literal run: in particular an opening `{{` with no
/// closing delimiter ahead degrades to literal text.
pub proof fn lemma_scan_no_close(s: Seq<char>, lit: Seq<char>, col: int, line: int)
    requires
        no_close(s),
        no_char(s, '\n'),
        no_char(s, '.'),
    ensures
        spec_scan(s, lit, col, line) == Ok::<Seq<TokenModel>, ErrorModel>(lit_tokens(lit + s)),
    decreases s.len(),
{
    if s.len() == 0 {
        assert(lit + s =~= lit);
    } else {
        let s2 = s.drop_first();
        assert(forall|i: int|
            0 <= i < s2.len() ==> (#[trigger] s2[i]) == s[i + 1]);
        assert(no_close(s2)) by {
            assert(forall|i: int|
                0 <= i && i + 1 < s2.len() ==> (#[trigger] s2[i]) == s[i + 1] && s2[i + 1] == s[i
                    + 2]);
        }
        if s.len() >= 2 && s[0] == '{' && s[1] == '{' {
            let b = s.skip(2);
            assert(forall|i: int|
                0 <= i < b.len() ==> (#[trigger] b[i]) == s[i + 2]);
            assert(no_close(b)) by {
                assert(forall|i: int|
                    0 <= i && i + 1 < b.len() ==> (#[trigger] b[i]) == s[i + 2] && b[i + 1] == s[i
                        + 3]);
            }
            lemma_body_stays_open(b, Seq::empty(), Seq::empty(), 0);
            lemma_scan_no_close(s2, lit.push(s[0]), col + 1, line);
        } else if s[0] == '\n' {
            assert(false);
        } else {
            lemma_scan_no_close(s2, lit.push(s[0]), col + 1, line);
        }
        assert(lit.push(s[0]) + s2 =~= lit + s);
    }
}

/// An unterminated opening delimiter degrades gracefully: an input with at
/// least one `{{` but no `}}` at all — and no newline or dot, on which the
/// open body would fault first — tokenizes to a single literal token equal
/// to the whole input.
pub proof fn lemma_unterminated_open_is_literal(s: Seq<char>)
    requires
        no_close(s),
        no_char(s, '\n'),
        no_char(s, '.'),
    ensures
        spec_tokenize(s) == Ok::<Seq<TokenModel>, ErrorModel>(lit_tokens(s)),
{
    lemma_scan_no_close(s, Seq::empty(), 0, 0);
    assert(Seq::<char>::empty() + s =~= s);
}

/// A well-formed segment name: non-empty, with no blank at either end and
/// no dot or newline anywhere.
pub open spec fn segment_ok(seg: Seq<char>) -> bool {
    &&& seg.len() > 0
    &&& !crate::parse::is_blank(seg[0])
    &&& !crate::parse::is_blank(seg[seg.len() - 1])
    &&& no_char(seg, '.')
    &&& no_char(seg, '\n')
}

/// A well-formed segment list: at least one segment, each well formed.
pub open spec fn segments_ok(segs: Seq<Seq<char>>) -> bool {
    &&& segs.len() >= 1
    &&& forall|j: int| 0 <= j < segs.len() ==> segment_ok(#[trigger] segs[j])
}

/// A well-formed token: a variable reference holds a well-formed segment
/// list; literal text is unconstrained.
pub open spec fn token_ok(t: TokenModel) -> bool {
    match t {
        TokenModel::Lit(_) => true,
        TokenModel::Var(segs) => segments_ok(segs),
    }
}

proof fn lemma_trim_start_first(s: Seq<char>)
    ensures
        spec_trim_start(s).len() > 0 ==> !crate::parse::is_blank(spec_trim_start(s)[0]),
    decreases s.len(),
{
    if s.len() > 0 && crate::parse::is_blank(s[0]) {
        lemma_trim_start_first(s.drop_first());
    }
}

proof fn lemma_trim_end_last(s: Seq<char>)
    ensures
        spec_trim_end(s).len() > 0 ==> !crate::parse::is_blank(
            spec_trim_end(s)[spec_trim_end(s).len() - 1],
        ),
    decreases s.len(),
{
    if s.len() > 0 && crate::parse::is_blank(s[s.len() - 1]) {
        lemma_trim_end_last(s.drop_last());
    }
}

proof fn lemma_trim_end_first(s: Seq<char>)
    ensures
        spec_trim_end(s).len() > 0 ==> s.len() > 0 && spec_trim_end(s)[0] == s[0],
    decreases s.len(),
{
    if s.len() > 0 && crate::parse::is_blank(s[s.len() - 1]) {
        lemma_trim_end_first(s.drop_last());
    }
}

proof fn lemma_trim_start_no_char(s: Seq<char>, c: char)
    requires
        no_char(s, c),
    ensures
        no_char(spec_trim_start(s), c),
    decreases s.len(),
{
    if s.len() > 0 && crate::parse::is_blank(s[0]) {
        let s2 = s.drop_first();
        assert(forall|i: int| 0 <= i < s2.len() ==> (#[trigger] s2[i]) == s[i + 1]);
        lemma_trim_start_no_char(s2, c);
    }
}

proof fn lemma_trim_end_no_char(s: Seq<char>, c: char)
    requires
        no_char(s, c),
    ensures
        no_char(spec_trim_end(s), c),
    decreases s.len(),
{
    if s.len() > 0 && crate::parse::is_blank(s[s.len() - 1]) {
        let s2 = s.drop_last();
        assert(forall|i: int| 0 <= i < s2.len() ==> (#[trigger] s2[i]) == s[i]);
        lemma_trim_end_no_char(s2, c);
    }
}

/// A trimmed piece of dot- and newline-free text, if anything is left of
/// it, is a well-formed segment name.
pub proof fn lemma_trim_ok(s: Seq<char>)
    requires
        no_char(s, '.'),
        no_char(s, '\n'),
    ensures
        spec_trim(s).len() > 0 ==> segment_ok(spec_trim(s)),
{
    let t1 = spec_trim_start(s);
    lemma_trim_start_first(s);
    lemma_trim_start_no_char(s, '.');
    lemma_trim_start_no_char(s, '\n');
    lemma_trim_end_first(t1);
    lemma_trim_end_last(t1);
    lemma_trim_end_no_char(t1, '.');
    lemma_trim_end_no_char(t1, '\n');
}

/// Whatever segments a body scan collects are well formed, provided the
/// piece under construction and the segments already collected are.
pub proof fn lemma_body_segments_ok(s: Seq<char>, cur: Seq<char>, segs: Seq<Seq<char>>, pos: int)
    requires
        no_char(cur, '.'),
        no_char(cur, '\n'),
        forall|j: int| 0 <= j < segs.len() ==> segment_ok(#[trigger] segs[j]),
    ensures
        spec_body(s, cur, segs, pos) matches BodyResult::Parsed(all, c) ==> segments_ok(all),
    decreases s.len(),
{
    if s.len() == 0 {
    } else if s.len() >= 2 && s[0] == '}' && s[1] == '}' {
        let piece = spec_trim(cur);
        if piece.len() > 0 {
            lemma_trim_ok(cur);
            assert(forall|j: int|
                0 <= j < segs.push(piece).len() ==> segment_ok(#[trigger] segs.push(piece)[j]));
        }
    } else if s[0] == '\n' {
    } else if s[0] == '.' {
        let piece = spec_trim(cur);
        if piece.len() > 0 {
            lemma_trim_ok(cur);
            assert(forall|j: int|
                0 <= j < segs.push(piece).len() ==> segment_ok(#[trigger] segs.push(piece)[j]));
            lemma_body_segments_ok(s.drop_first(), Seq::empty(), segs.push(piece), pos + 1);
        }
    } else {
        let cur2 = cur.push(s[0]);
        assert(no_char(cur2, '.')) by {
            assert(forall|i: int|
                0 <= i < cur2.len() ==> (#[trigger] cur2[i]) == if i < cur.len() {
                    cur[i]
                } else {
                    s[0]
                });
        }
        assert(no_char(cur2, '\n')) by {
            assert(forall|i: int|
                0 <= i < cur2.len() ==> (#[trigger] cur2[i]) == if i < cur.len() {
                    cur[i]
                } else {
                    s[0]
                });
        }
        lemma_body_segments_ok(s.drop_first(), cur2, segs, pos + 1);
    }
}

/// Every token of a successful scan is well formed.
pub proof fn lemma_scan_tokens_ok(s: Seq<char>, lit: Seq<char>, col: int, line: int)
    ensures
        spec_scan(s, lit, col, line) matches Ok(ts) ==> forall|k: int|
            0 <= k < ts.len() ==> token_ok(#[trigger] ts[k]),
    decreases s.len(),
{
    if s.len() == 0 {
    } else if s.len() >= 2 && s[0] == '{' && s[1] == '{' {
        match spec_body(s.skip(2), Seq::empty(), Seq::empty(), 0) {
            BodyResult::Parsed(segs, consumed) => {
                lemma_body_bounds(s.skip(2), Seq::empty(), Seq::empty(), 0);
                lemma_body_segments_ok(s.skip(2), Seq::empty(), Seq::empty(), 0);
                lemma_scan_tokens_ok(s.skip(2 + consumed), Seq::empty(), col + 2 + consumed, line);
                let pre = if lit.len() > 0 {
                    seq![TokenModel::Lit(lit)]
                } else {
                    Seq::<TokenModel>::empty()
                };
                match spec_scan(s.skip(2 + consumed), Seq::empty(), col + 2 + consumed, line) {
                    Ok(ts2) => {
                        let ts = pre + seq![TokenModel::Var(segs)] + ts2;
                        assert forall|k: int| 0 <= k < ts.len() implies token_ok(
                            #[trigger] ts[k],
                        ) by {
                            if k < pre.len() {
                                assert(ts[k] == pre[k]);
                            } else if k == pre.len() {
                                assert(ts[k] == TokenModel::Var(segs));
                            } else {
                                assert(ts[k] == ts2[k - pre.len() - 1]);
                            }
                        }
                    },
                    Err(_) => {},
                }
            },
            BodyResult::Fault(ty, off) => {},
            BodyResult::Open => {
                lemma_scan_tokens_ok(s.drop_first(), lit.push(s[0]), col + 1, line);
            },
        }
    } else if s[0] == '\n' {
        lemma_scan_tokens_ok(s.drop_first(), lit.push(s[0]), 0, line + 1);
    } else {
        lemma_scan_tokens_ok(s.drop_first(), lit.push(s[0]), col + 1, line);
    }
}

/// Every variable reference a successful tokenization emits is well
/// formed: it holds at least one segment, and each segment is non-empty,
/// carries no blank at either end — the whitespace around the dotted name
/// was stripped — and holds no dot and no newline.
pub proof fn lemma_tokenize_variables_ok(s: Seq<char>)
    ensures
        spec_tokenize(s) matches Ok(ts) ==> forall|k: int|
            0 <= k < ts.len() ==> token_ok(#[trigger] ts[k]),
{
    lemma_scan_tokens_ok(s, Seq::empty(), 0, 0);
}

/// The opening delimiter `{{`.
pub open spec fn open_delim() -> Seq<char> {
    seq!['{', '{']
}

/// The closing delimiter `}}`.
pub open spec fn close_delim() -> Seq<char> {
    seq!['}', '}']
}

/// Each piece trimmed of leading and trailing blanks.
pub open spec fn trim_all(ps: Seq<Seq<char>>) -> Seq<Seq<char>> {
    ps.map_values(|p: Seq<char>| spec_trim(p))
}

/// A body made of a run `b` with no `}`, no newline, and only dots whose
/// pieces trim to something, followed by `}}`, parses: the segments are the
/// trimmed dot-separated pieces, and the scan consumes `b` and the closing
/// delimiter.
pub proof fn lemma_body_closes(
    b: Seq<char>,
    after: Seq<char>,
    cur: Seq<char>,
    segs: Seq<Seq<char>>,
    pos: int,
)
    requires
        no_char(b, '}'),
        no_char(b, '\n'),
        forall|j: int|
            0 <= j < spec_split(b, cur).len() ==> spec_trim(
                #[trigger] spec_split(b, cur)[j],
            ).len() > 0,
    ensures
        spec_body(b + close_delim() + after, cur, segs, pos) == BodyResult::Parsed(
            segs + trim_all(spec_split(b, cur)),
            pos + b.len() + 2,
        ),
    decreases b.len(),
{
    let s = b + close_delim() + after;
    if b.len() == 0 {
        assert(s[0] == '}' && s[1] == '}');
        let piece = spec_trim(cur);
        assert(spec_split(b, cur) == seq![cur]);
        assert(spec_split(b, cur)[0] == cur);
        assert(piece.len() > 0);
        assert(segs + trim_all(spec_split(b, cur)) =~~= segs.push(piece));
    } else {
        assert(s[0] == b[0]);
        assert(b[0] != '}' && b[0] != '\n');
        let b2 = b.drop_first();
        assert(forall|i: int| 0 <= i < b2.len() ==> (#[trigger] b2[i]) == b[i + 1]);
        assert(s.drop_first() =~= b2 + close_delim() + after);
        if b[0] == '.' {
            let piece = spec_trim(cur);
            assert(spec_split(b, cur) == seq![cur] + spec_split(b2, Seq::empty()));
            assert(spec_split(b, cur)[0] == cur);
            assert(piece.len() > 0);
            assert(forall|j: int|
                0 <= j < spec_split(b2, Seq::empty()).len() ==> (#[trigger] spec_split(
                    b2,
                    Seq::empty(),
                )[j]) == spec_split(b, cur)[j + 1]);
            lemma_body_closes(b2, after, Seq::empty(), segs.push(piece), pos + 1);
            assert(trim_all(spec_split(b, cur)) =~~= seq![piece] + trim_all(
                spec_split(b2, Seq::empty()),
            ));
            assert(segs.push(piece) + trim_all(spec_split(b2, Seq::empty())) =~~= segs + trim_all(
                spec_split(b, cur),
            ));
        } else {
            assert(spec_split(b, cur) == spec_split(b2, cur.push(b[0])));
            lemma_body_closes(b2, after, cur.push(b[0]), segs, pos + 1);
        }
    }
}

/// A well-formed variable reference embedded in literal text: the input
/// splits into the preceding literal, one variable reference holding the
/// trimmed dot-separated pieces of the body, and the tokens of the
/// remaining text.
pub proof fn lemma_embedded_variable(pre: Seq<char>, body: Seq<char>, suf: Seq<char>)
    requires
        no_open(pre),
        pre.len() > 0 ==> pre[pre.len() - 1] != '{',
        no_open(suf),
        no_char(body, '}'),
        no_char(body, '\n'),
        forall|j: int|
            0 <= j < spec_split(body, Seq::empty()).len() ==> spec_trim(
                #[trigger] spec_split(body, Seq::empty())[j],
            ).len() > 0,
    ensures
        spec_tokenize(pre + open_delim() + body + close_delim() + suf) == Ok::<
            Seq<TokenModel>,
            ErrorModel,
        >(
            lit_tokens(pre) + seq![
                TokenModel::Var(trim_all(spec_split(body, Seq::empty()))),
            ] + lit_tokens(suf),
        ),
{
    let rest = open_delim() + body + close_delim() + suf;
    let s = pre + rest;
    assert(s =~= pre + open_delim() + body + close_delim() + suf);
    assert(rest[0] == '{' && rest[1] == '{');
    lemma_scan_literal_prefix(pre, rest, Seq::empty(), 0, 0);
    assert(Seq::<char>::empty() + pre =~= pre);
    let c1 = col_after(pre, 0);
    let l1 = line_after(pre, 0);
    let b = rest.skip(2);
    assert(b =~= body + close_delim() + suf);
    lemma_body_closes(body, suf, Seq::empty(), Seq::empty(), 0);
    let segs = trim_all(spec_split(body, Seq::empty()));
    assert(Seq::<Seq<char>>::empty() + segs =~~= segs);
    let consumed = body.len() as int + 2;
    assert(spec_body(b, Seq::empty(), Seq::empty(), 0) == BodyResult::Parsed(segs, consumed));
    assert(rest.skip(2 + consumed) =~= suf);
    lemma_scan_all_literal(suf, Seq::empty(), c1 + 2 + consumed, l1);
    assert(Seq::<char>::empty() + suf =~= suf);
    assert(spec_scan(rest, pre, c1, l1) == Ok::<Seq<TokenModel>, ErrorModel>(
        lit_tokens(pre) + seq![TokenModel::Var(segs)] + lit_tokens(suf),
    ));
}

/// A raw newline inside an open variable body faults the scan with
/// `NewlineInVariableSegment` at the newline's own column and line, where
/// `good` is the fault-free part of the body before the newline.
pub proof fn lemma_body_newline(
    good: Seq<char>,
    after: Seq<char>,
    cur: Seq<char>,
    segs: Seq<Seq<char>>,
    pos: int,
)
    requires
        no_char(good, '}'),
        no_char(good, '\n'),
        forall|j: int|
            0 <= j < spec_split(good, cur).len() - 1 ==> spec_trim(
                #[trigger] spec_split(good, cur)[j],
            ).len() > 0,
    ensures
        spec_body(good + seq!['\n'] + after, cur, segs, pos) == BodyResult::Fault(
            ErrorType::NewlineInVariableSegment,
            pos + good.len(),
        ),
    decreases good.len(),
{
    let s = good + seq!['\n'] + after;
    if good.len() == 0 {
        assert(s[0] == '\n');
        assert(!(s.len() >= 2 && s[0] == '}' && s[1] == '}'));
    } else {
        assert(s[0] == good[0]);
        assert(good[0] != '}' && good[0] != '\n');
        let g2 = good.drop_first();
        assert(forall|i: int| 0 <= i < g2.len() ==> (#[trigger] g2[i]) == good[i + 1]);
        assert(s.drop_first() =~= g2 + seq!['\n'] + after);
        if good[0] == '.' {
            let piece = spec_trim(cur);
            assert(spec_split(good, cur) == seq![cur] + spec_split(g2, Seq::empty()));
            assert(spec_split(good, cur)[0] == cur);
            assert(spec_split(good, cur).len() >= 2) by {
                lemma_split_len(g2, Seq::empty());
            }
            assert(piece.len() > 0);
            assert(forall|j: int|
                0 <= j < spec_split(g2, Seq::empty()).len() ==> (#[trigger] spec_split(
                    g2,
                    Seq::empty(),
                )[j]) == spec_split(good, cur)[j + 1]);
            lemma_body_newline(g2, after, Seq::empty(), segs.push(piece), pos + 1);
        } else {
            assert(spec_split(good, cur) == spec_split(g2, cur.push(good[0])));
            lemma_body_newline(g2, after, cur.push(good[0]), segs, pos + 1);
        }
    }
}

/// A dotted split always yields at least one piece.
pub proof fn lemma_split_len(s: Seq<char>, cur: Seq<char>)
    ensures
        spec_split(s, cur).len() >= 1,
    decreases s.len(),
{
    if s.len() == 0 {
    } else if s[0] == '.' {
    } else {
        lemma_split_len(s.drop_first(), cur.push(s[0]));
    }
}

/// A raw newline inside an open variable body aborts the whole scan with
/// `NewlineInVariableSegment`, positioned at the newline: past the literal
/// prefix, the two delimiter characters and the fault-free part of the
/// body.
pub proof fn lemma_newline_in_body_faults(pre: Seq<char>, good: Seq<char>, after: Seq<char>)
    requires
        no_open(pre),
        pre.len() > 0 ==> pre[pre.len() - 1] != '{',
        no_char(good, '}'),
        no_char(good, '\n'),
        forall|j: int|
            0 <= j < spec_split(good, Seq::empty()).len() - 1 ==> spec_trim(
                #[trigger] spec_split(good, Seq::empty())[j],
            ).len() > 0,
    ensures
        spec_tokenize(pre + open_delim() + good + seq!['\n'] + after) == Err::<
            Seq<TokenModel>,
            ErrorModel,
        >(
            ErrorModel {
                ty: ErrorType::NewlineInVariableSegment,
                col: col_after(pre, 0) + 2 + good.len(),
                line: line_after(pre, 0),
            },
        ),
{
    let rest = open_delim() + good + seq!['\n'] + after;
    let s = pre + rest;
    assert(s =~= pre + open_delim() + good + seq!['\n'] + after);
    assert(rest[0] == '{' && rest[1] == '{');
    lemma_scan_literal_prefix(pre, rest, Seq::empty(), 0, 0);
    assert(Seq::<char>::empty() + pre =~= pre);
    let b = rest.skip(2);
    assert(b =~= good + seq!['\n'] + after);
    lemma_body_newline(good, after, Seq::empty(), Seq::empty(), 0);
    assert(spec_body(b, Seq::empty(), Seq::empty(), 0) == BodyResult::Fault(
        ErrorType::NewlineInVariableSegment,
        good.len() as int,
    ));
}

/// The text `segs` joined by dots.
pub open spec fn join_dots(segs: Seq<Seq<char>>) -> Seq<char>
    decreases segs.len(),
{
    if segs.len() == 0 {
        Seq::empty()
    } else if segs.len() == 1 {
        segs[0]
    } else {
        segs[0] + seq!['.'] + join_dots(segs.drop_first())
    }
}

/// The source text a token stands for: a literal's own text, or the
/// variable's segments joined by dots between the two delimiters.
pub open spec fn recon_token(t: TokenModel) -> Seq<char> {
    match t {
        TokenModel::Lit(l) => l,
        TokenModel::Var(segs) => open_delim() + join_dots(segs) + close_delim(),
    }
}

/// The concatenated source text of a token sequence.
pub open spec fn recon_tokens(ts: Seq<TokenModel>) -> Seq<char>
    decreases ts.len(),
{
    if ts.len() == 0 {
        Seq::empty()
    } else {
        recon_token(ts[0]) + recon_tokens(ts.drop_first())
    }
}

/// Reconstruction peels one token at a time.
pub proof fn lemma_recon_cons(t: TokenModel, ts: Seq<TokenModel>)
    ensures
        recon_tokens(seq![t] + ts) == recon_token(t) + recon_tokens(ts),
{
    assert((seq![t] + ts)[0] == t);
    assert((seq![t] + ts).drop_first() =~= ts);
    assert((seq![t] + ts).len() == 1 + ts.len());
}

/// Round trip for plain text: an input with no `{{` tokenizes to tokens
/// whose concatenated source text is the input itself.
pub proof fn lemma_round_trip_literal(s: Seq<char>)
    requires
        no_open(s),
    ensures
        spec_tokenize(s) == Ok::<Seq<TokenModel>, ErrorModel>(lit_tokens(s)),
        recon_tokens(lit_tokens(s)) == s,
{
    lemma_no_open_single_literal(s);
    if s.len() > 0 {
        lemma_recon_cons(TokenModel::Lit(s), Seq::empty());
        assert(seq![TokenModel::Lit(s)] + Seq::<TokenModel>::empty() =~= lit_tokens(s));
        assert(recon_tokens(lit_tokens(s)) =~= s);
    } else {
        assert(recon_tokens(lit_tokens(s)) =~= s);
    }
}

/// Round trip: concatenating the literal text of all tokens, with each
/// variable reference rendered back as its segments joined by dots between
/// the two delimiters, reproduces the input exactly — whenever the variable
/// body carries no extra whitespace to be trimmed away, that is, when it
/// already equals its own rendering.
pub proof fn lemma_round_trip(pre: Seq<char>, body: Seq<char>, suf: Seq<char>)
    requires
        no_open(pre),
        pre.len() > 0 ==> pre[pre.len() - 1] != '{',
        no_open(suf),
        no_char(body, '}'),
        no_char(body, '\n'),
        forall|j: int|
            0 <= j < spec_split(body, Seq::empty()).len() ==> spec_trim(
                #[trigger] spec_split(body, Seq::empty())[j],
            ).len() > 0,
        body == join_dots(trim_all(spec_split(body, Seq::empty()))),
    ensures
        ({
            let ts = lit_tokens(pre) + seq![
                TokenModel::Var(trim_all(spec_split(body, Seq::empty()))),
            ] + lit_tokens(suf);
            &&& spec_tokenize(pre + open_delim() + body + close_delim() + suf) == Ok::<
                Seq<TokenModel>,
                ErrorModel,
            >(ts)
            &&& recon_tokens(ts) == pre + open_delim() + body + close_delim() + suf
        }),
{
    lemma_embedded_variable(pre, body, suf);
    let segs = trim_all(spec_split(body, Seq::empty()));
    let vt = TokenModel::Var(segs);
    let ts = lit_tokens(pre) + seq![vt] + lit_tokens(suf);
    assert(recon_token(vt) == open_delim() + body + close_delim());
    if suf.len() > 0 {
        lemma_recon_cons(TokenModel::Lit(suf), Seq::empty());
        assert(seq![TokenModel::Lit(suf)] + Seq::<TokenModel>::empty() =~= lit_tokens(suf));
        assert(recon_tokens(lit_tokens(suf)) =~= suf);
    } else {
        assert(recon_tokens(lit_tokens(suf)) =~= suf);
    }
    lemma_recon_cons(vt, lit_tokens(suf));
    let mid = seq![vt] + lit_tokens(suf);
    assert(recon_tokens(mid) =~= open_delim() + body + close_delim() + suf);
    if pre.len() > 0 {
        lemma_recon_cons(TokenModel::Lit(pre), mid);
        assert(seq![TokenModel::Lit(pre)] + mid =~= ts);
        assert(recon_tokens(ts) =~= pre + open_delim() + body + close_delim() + suf);
    } else {
        assert(mid =~= ts);
        assert(recon_tokens(ts) =~= pre + open_delim() + body + close_delim() + suf);
    }
}

} // verus!
