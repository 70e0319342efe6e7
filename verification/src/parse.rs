//! The tokenizer: a single left-to-right scan of an input buffer that
//! produces literal-text tokens and variable-reference tokens delimited by
//! `{{` and `}}`, or a positioned error.
//!
//! The intended result of a scan is written down by the spec functions
//! [`spec_tokenize`], [`spec_scan`] and [`spec_body`]; the executable
//! functions are proved to return exactly that result.

use vstd::prelude::*;
use vstd::string::StrSliceExecFns;

use crate::Variable;

verus! {

/// The two fault kinds of the tokenizer.
#[derive(Debug, Clone, Copy, PartialEq, Eq, Structural)]
pub enum ErrorType {
    EmptyVariableSegment,
    NewlineInVariableSegment,
}

/// A positioned tokenizer fault.  `offset` is the zero-based
/// `(column, line)` pair at which the fault was detected.
#[derive(Debug, PartialEq, Eq)]
pub struct Error {
    pub offset: (usize, usize),
    pub ty: ErrorType,
}

impl Error {
    pub fn new(offset: (usize, usize), ty: ErrorType) -> (r: Error)
        ensures
            r.offset == offset,
            r.ty == ty,
    {
        Error { offset, ty }
    }

    /// Shifts the recorded position by `offset`, component-wise.
    pub fn add_offset(self, offset: (usize, usize)) -> (r: Error)
        requires
            self.offset.0 + offset.0 <= usize::MAX,
            self.offset.1 + offset.1 <= usize::MAX,
        ensures
            r.offset.0 == self.offset.0 + offset.0,
            r.offset.1 == self.offset.1 + offset.1,
            r.ty == self.ty,
    {
        Error { offset: (self.offset.0 + offset.0, self.offset.1 + offset.1), ty: self.ty }
    }
}

/// One unit of the tokenizer's output: raw literal text, or a variable
/// reference holding a dotted path.
#[derive(Debug, PartialEq, Eq)]
pub enum Token {
    Variable(Variable),
    Str(String),
}

/// The mathematical model of a token: literal text as a sequence of
/// characters, or a variable reference as its sequence of segments.
pub ghost enum TokenModel {
    Lit(Seq<char>),
    Var(Seq<Seq<char>>),
}

impl View for Token {
    type V = TokenModel;

    open spec fn view(&self) -> TokenModel {
        match self {
            Token::Variable(v) => TokenModel::Var(v@),
            Token::Str(s) => TokenModel::Lit(s@),
        }
    }
}

impl DeepView for Token {
    type V = TokenModel;

    open spec fn deep_view(&self) -> TokenModel {
        self.view()
    }
}

/// The mathematical model of a fault: its kind and the zero-based column
/// and line at which it was detected.
pub ghost struct ErrorModel {
    pub ty: ErrorType,
    pub col: int,
    pub line: int,
}

/// What scanning a variable body (the text after an opening `{{`) yields:
/// the segments and the count of characters consumed including the closing
/// `}}`; or a fault and the body-relative offset of its detection; or no
/// closing delimiter at all.
pub ghost enum BodyResult {
    Parsed(Seq<Seq<char>>, int),
    Fault(ErrorType, int),
    Open,
}

/// The characters trimmed from segment names: space and tab.
pub open spec fn is_blank(c: char) -> bool {
    c == ' ' || c == '\t'
}

/// Drops leading blanks.
pub open spec fn spec_trim_start(s: Seq<char>) -> Seq<char>
    decreases s.len(),
{
    if s.len() > 0 && is_blank(s[0]) {
        spec_trim_start(s.drop_first())
    } else {
        s
    }
}

/// Drops trailing blanks.
pub open spec fn spec_trim_end(s: Seq<char>) -> Seq<char>
    decreases s.len(),
{
    if s.len() > 0 && is_blank(s[s.len() - 1]) {
        spec_trim_end(s.drop_last())
    } else {
        s
    }
}

/// Drops leading and trailing blanks.
pub open spec fn spec_trim(s: Seq<char>) -> Seq<char> {
    spec_trim_end(spec_trim_start(s))
}

/// Scans a variable body.  `s` is the text still ahead, `cur` the piece
/// accumulated since the last boundary, `segs` the segments finished so
/// far, and `pos` the count of body characters already consumed.
///
/// A `}}` closes the body: the current piece is trimmed and kept if
/// non-empty, and a body that closes with no segments at all is a fault.
/// A newline before the closing delimiter is a fault, as is a dot whose
/// piece trims to nothing.  A body that ends without `}}` is left open.
pub open spec fn spec_body(s: Seq<char>, cur: Seq<char>, segs: Seq<Seq<char>>, pos: int) -> BodyResult
    decreases s.len(),
{
    if s.len() == 0 {
        BodyResult::Open
    } else if s.len() >= 2 && s[0] == '}' && s[1] == '}' {
        let piece = spec_trim(cur);
        let all = if piece.len() > 0 {
            segs.push(piece)
        } else {
            segs
        };
        if all.len() == 0 {
            BodyResult::Fault(ErrorType::EmptyVariableSegment, pos)
        } else {
            BodyResult::Parsed(all, pos + 2)
        }
    } else if s[0] == '\n' {
        BodyResult::Fault(ErrorType::NewlineInVariableSegment, pos)
    } else if s[0] == '.' {
        let piece = spec_trim(cur);
        if piece.len() == 0 {
            BodyResult::Fault(ErrorType::EmptyVariableSegment, pos)
        } else {
            spec_body(s.drop_first(), Seq::empty(), segs.push(piece), pos + 1)
        }
    } else {
        spec_body(s.drop_first(), cur.push(s[0]), segs, pos + 1)
    }
}

/// Bounds on what a body scan can report: a parse consumes at least the
/// closing delimiter and at most the whole body; a fault lies on a body
/// character.
pub proof fn lemma_body_bounds(s: Seq<char>, cur: Seq<char>, segs: Seq<Seq<char>>, pos: int)
    ensures
        spec_body(s, cur, segs, pos) matches BodyResult::Parsed(a, c) ==> pos + 2 <= c <= pos
            + s.len(),
        spec_body(s, cur, segs, pos) matches BodyResult::Fault(t, off) ==> pos <= off < pos
            + s.len(),
    decreases s.len(),
{
    if s.len() == 0 {
    } else if s.len() >= 2 && s[0] == '}' && s[1] == '}' {
    } else if s[0] == '\n' {
    } else if s[0] == '.' {
        if spec_trim(cur).len() > 0 {
            lemma_body_bounds(s.drop_first(), Seq::empty(), segs.push(spec_trim(cur)), pos + 1);
        }
    } else {
        lemma_body_bounds(s.drop_first(), cur.push(s[0]), segs, pos + 1);
    }
}

/// The whole scan.  `s` is the text still ahead, `lit` the literal run
/// accumulated since the last flush, and `col` and `line` the zero-based
/// position of the next character.
///
/// An opening `{{` hands the rest of the text to [`spec_body`]: a parsed
/// variable flushes the pending literal and emits the reference; a fault
/// aborts the scan, positioned past the two delimiter characters; a body
/// left open degrades to literal text, the `{{` included.  Every other
/// character extends the literal run, a newline moving the position to the
/// start of the next line.
pub open spec fn spec_scan(s: Seq<char>, lit: Seq<char>, col: int, line: int) -> Result<
    Seq<TokenModel>,
    ErrorModel,
>
    decreases s.len(),
{
    if s.len() == 0 {
        Ok(
            if lit.len() > 0 {
                seq![TokenModel::Lit(lit)]
            } else {
                Seq::empty()
            },
        )
    } else if s.len() >= 2 && s[0] == '{' && s[1] == '{' {
        match spec_body(s.skip(2), Seq::empty(), Seq::empty(), 0) {
            BodyResult::Parsed(segs, consumed) => {
                proof {
                    lemma_body_bounds(s.skip(2), Seq::empty(), Seq::empty(), 0);
                }
                let pre = if lit.len() > 0 {
                    seq![TokenModel::Lit(lit)]
                } else {
                    Seq::<TokenModel>::empty()
                };
                match spec_scan(s.skip(2 + consumed), Seq::empty(), col + 2 + consumed, line) {
                    Ok(ts) => Ok(pre + seq![TokenModel::Var(segs)] + ts),
                    Err(e) => Err(e),
                }
            },
            BodyResult::Fault(ty, off) => Err(ErrorModel { ty, col: col + 2 + off, line }),
            BodyResult::Open => spec_scan(s.drop_first(), lit.push(s[0]), col + 1, line),
        }
    } else if s[0] == '\n' {
        spec_scan(s.drop_first(), lit.push(s[0]), 0, line + 1)
    } else {
        spec_scan(s.drop_first(), lit.push(s[0]), col + 1, line)
    }
}

/// The model of [`tokenize`]: the scan started on the whole input.
pub open spec fn spec_tokenize(s: Seq<char>) -> Result<Seq<TokenModel>, ErrorModel> {
    spec_scan(s, Seq::empty(), 0, 0)
}

/// Prepends already-emitted tokens to the outcome of the rest of a scan.
pub open spec fn compose_tokens(
    acc: Seq<TokenModel>,
    r: Result<Seq<TokenModel>, ErrorModel>,
) -> Result<Seq<TokenModel>, ErrorModel> {
    match r {
        Ok(ts) => Ok(acc + ts),
        Err(e) => Err(e),
    }
}

/// The trimmed span of `s@` between `from` and `to`: the bounds move
/// inward past blanks, so that the result subrange is the trimmed piece.
fn trimmed_range(s: &str, from: usize, to: usize) -> (r: (usize, usize))
    requires
        from <= to <= s@.len(),
    ensures
        from <= r.0 <= r.1 <= to,
        s@.subrange(r.0 as int, r.1 as int) == spec_trim(
            s@.subrange(from as int, to as int),
        ),
{
    let ghost whole = s@.subrange(from as int, to as int);
    let mut a: usize = from;
    loop
        invariant
            from <= a <= to <= s@.len(),
            spec_trim_start(whole) == spec_trim_start(s@.subrange(a as int, to as int)),
        ensures
            from <= a <= to,
            spec_trim_start(whole) == s@.subrange(a as int, to as int),
        decreases to - a,
    {
        let ghost curs = s@.subrange(a as int, to as int);
        if a >= to {
            proof {
                assert(curs.len() == 0);
            }
            break ;
        }
        let c = s.get_char(a);
        proof {
            assert(curs[0] == s@[a as int]);
        }
        if !(c == ' ' || c == '\t') {
            break ;
        }
        proof {
            assert(curs.drop_first() =~= s@.subrange(a + 1, to as int));
        }
        a = a + 1;
    }
    let mut b: usize = to;
    loop
        invariant
            a <= b <= to <= s@.len(),
            spec_trim_end(s@.subrange(a as int, to as int)) == spec_trim_end(
                s@.subrange(a as int, b as int),
            ),
        ensures
            a <= b <= to,
            spec_trim_end(s@.subrange(a as int, to as int)) == s@.subrange(a as int, b as int),
        decreases b - a,
    {
        let ghost curs = s@.subrange(a as int, b as int);
        if b <= a {
            proof {
                assert(curs.len() == 0);
            }
            break ;
        }
        let c = s.get_char(b - 1);
        proof {
            assert(curs[curs.len() - 1] == s@[b - 1]);
        }
        if !(c == ' ' || c == '\t') {
            break ;
        }
        proof {
            assert(curs.drop_last() =~= s@.subrange(a as int, b - 1));
        }
        b = b - 1;
    }
    (a, b)
}

/// What scanning ahead for the end of one variable segment yields, from
/// position `k`: the text up to the first dot, a fault for a leading dot
/// or a newline, or nothing when no boundary follows.
pub open spec fn spec_segment(s: Seq<char>, k: int) -> Option<Result<Seq<char>, ErrorModel>>
    decreases s.len() - k,
{
    if k < 0 || k >= s.len() {
        None
    } else if s[k] == '.' {
        if k == 0 {
            Some(Err(ErrorModel { ty: ErrorType::EmptyVariableSegment, col: 0, line: 0 }))
        } else {
            Some(Ok(s.take(k)))
        }
    } else if s[k] == '\n' {
        Some(Err(ErrorModel { ty: ErrorType::NewlineInVariableSegment, col: k, line: 0 }))
    } else {
        spec_segment(s, k + 1)
    }
}

/// Scans ahead for the end of one variable segment: the text up to the
/// first dot, untrimmed.  A dot at the very start is an empty-segment
/// fault; a newline is a fault at its offset; an input with no dot and no
/// newline has no boundary to report.
pub fn try_parse_variable_segment<'a>(input: &'a str) -> (r: Option<Result<&'a str, Error>>)
    ensures
        ({
            let m = spec_segment(input@, 0);
            match r {
                None => m is None,
                Some(r2) => match r2 {
                    Ok(seg) => m matches Some(Ok(sg)) && seg@ == sg,
                    Err(e) => m matches Some(Err(em)) && e.ty == em.ty && e.offset.0 as int
                        == em.col && e.offset.1 as int == em.line,
                },
            }
        }),
{
    let n = input.unicode_len();
    let mut k: usize = 0;
    while k < n
        invariant
            0 <= k <= n == input@.len(),
            spec_segment(input@, 0) == spec_segment(input@, k as int),
        decreases n - k,
    {
        let c = input.get_char(k);
        if c == '.' {
            if k == 0 {
                return Some(
                    Err(Error { offset: (0, 0), ty: ErrorType::EmptyVariableSegment }),
                );
            }
            let seg = input.substring_char(0, k);
            proof {
                assert(seg@ =~= input@.take(k as int));
            }
            return Some(Ok(seg));
        }
        if c == '\n' {
            return Some(Err(Error { offset: (k, 0), ty: ErrorType::NewlineInVariableSegment }));
        }
        k = k + 1;
    }
    None
}

/// Scans the body of a variable reference, the text immediately after an
/// opening `{{`.  Returns the parsed path and the count of characters
/// consumed including the closing `}}`; a positioned fault, relative to
/// the body start and always on its first line; or nothing when no `}}`
/// closes the body.
pub fn parse_template_inner(input: &str) -> (r: Option<Result<(Variable, usize), Error>>)
    ensures
        ({
            let m = spec_body(input@, Seq::empty(), Seq::empty(), 0);
            match r {
                None => m is Open,
                Some(r2) => match r2 {
                    Ok(p) => {
                        &&& m matches BodyResult::Parsed(segs, consumed)
                        &&& p.0@ == segs
                        &&& p.0.wf()
                        &&& p.1 as int == consumed
                        &&& 2 <= consumed <= input@.len()
                    },
                    Err(e) => {
                        &&& m matches BodyResult::Fault(ty, off)
                        &&& e.ty == ty
                        &&& e.offset.0 as int == off
                        &&& e.offset.1 == 0
                        &&& off < input@.len()
                    },
                },
            }
        }),
{
    proof {
        lemma_body_bounds(input@, Seq::empty(), Seq::empty(), 0);
    }
    let n = input.unicode_len();
    let mut segs: Vec<String> = Vec::new();
    let mut seg_start: usize = 0;
    let mut i: usize = 0;
    proof {
        assert(input@.skip(0) =~= input@);
        assert(input@.subrange(0, 0) =~= Seq::<char>::empty());
        assert(segs.deep_view() =~= Seq::<Seq<char>>::empty());
    }
    while i < n
        invariant
            seg_start <= i <= n == input@.len(),
            spec_body(input@, Seq::empty(), Seq::empty(), 0) == spec_body(
                input@.skip(i as int),
                input@.subrange(seg_start as int, i as int),
                segs.deep_view(),
                i as int,
            ),
        decreases n - i,
    {
        let ghost pre = input@.skip(i as int);
        let ghost cur = input@.subrange(seg_start as int, i as int);
        proof {
            assert(pre.len() == n - i);
            assert(pre[0] == input@[i as int]);
            if i + 1 < n {
                assert(pre[1] == input@[i + 1]);
            }
            assert(pre.drop_first() =~= input@.skip(i + 1));
        }
        let c = input.get_char(i);
        let mut closes: bool = false;
        if c == '}' && i + 1 < n {
            if input.get_char(i + 1) == '}' {
                closes = true;
            }
        }
        if closes {
            let (a, b) = trimmed_range(input, seg_start, i);
            let ghost piece = spec_trim(cur);
            if a < b {
                let segstr = input.substring_char(a, b).to_owned();
                let ghost old_dv = segs.deep_view();
                segs.push(segstr);
                proof {
                    assert(segs.deep_view() =~~= old_dv.push(piece));
                }
            }
            if segs.len() == 0 {
                return Some(Err(Error { offset: (i, 0), ty: ErrorType::EmptyVariableSegment }));
            }
            let v = Variable::from_parts(segs);
            return Some(Ok((v, i + 2)));
        } else if c == '\n' {
            return Some(Err(Error { offset: (i, 0), ty: ErrorType::NewlineInVariableSegment }));
        } else if c == '.' {
            let (a, b) = trimmed_range(input, seg_start, i);
            if a == b {
                return Some(Err(Error { offset: (i, 0), ty: ErrorType::EmptyVariableSegment }));
            }
            let segstr = input.substring_char(a, b).to_owned();
            let ghost old_dv = segs.deep_view();
            segs.push(segstr);
            proof {
                assert(segs.deep_view() =~~= old_dv.push(spec_trim(cur)));
                assert(input@.subrange(i + 1, i + 1) =~= Seq::<char>::empty());
            }
            seg_start = i + 1;
            i = i + 1;
        } else {
            proof {
                assert(cur.push(input@[i as int]) =~= input@.subrange(seg_start as int, i + 1));
            }
            i = i + 1;
        }
    }
    proof {
        assert(input@.skip(n as int) =~= Seq::<char>::empty());
    }
    None
}

/// Tokenizes a whole input buffer: a single left-to-right pass that
/// splits it into literal runs and `{{ … }}` variable references, or
/// aborts with a fault positioned at the offending character, zero-based.
/// An opening `{{` with no closing `}}` ahead degrades to literal text.
pub fn tokenize(input: &str) -> (r: Result<Vec<Token>, Error>)
    ensures
        ({
            let m = spec_tokenize(input@);
            match r {
                Ok(toks) => m == Ok::<Seq<TokenModel>, ErrorModel>(toks.deep_view()),
                Err(e) => {
                    &&& m matches Err(em)
                    &&& e.ty == em.ty
                    &&& e.offset.0 as int == em.col
                    &&& e.offset.1 as int == em.line
                },
            }
        }),
{
    let n = input.unicode_len();
    let mut tokens: Vec<Token> = Vec::new();
    let mut head: usize = 0;
    let mut tail: usize = 0;
    let mut col: usize = 0;
    let mut line: usize = 0;
    proof {
        assert(input@.skip(0) =~= input@);
        assert(input@.subrange(0, 0) =~= Seq::<char>::empty());
        assert(tokens.deep_view() =~= Seq::<TokenModel>::empty());
        match spec_tokenize(input@) {
            Ok(ts) => {
                assert(Seq::<TokenModel>::empty() + ts =~= ts);
            },
            Err(_) => {},
        }
    }
    while head < n
        invariant
            tail <= head <= n == input@.len(),
            col <= head,
            line <= head,
            spec_tokenize(input@) == compose_tokens(
                tokens.deep_view(),
                spec_scan(
                    input@.skip(head as int),
                    input@.subrange(tail as int, head as int),
                    col as int,
                    line as int,
                ),
            ),
        decreases n - head,
    {
        let ghost pre = input@.skip(head as int);
        let ghost lit = input@.subrange(tail as int, head as int);
        let ghost tdv = tokens.deep_view();
        proof {
            assert(pre.len() == n - head);
            assert(pre[0] == input@[head as int]);
            if head + 1 < n {
                assert(pre[1] == input@[head + 1]);
            }
            assert(pre.drop_first() =~= input@.skip(head + 1));
        }
        let c = input.get_char(head);
        let mut opened: bool = false;
        if c == '{' && head + 1 < n {
            if input.get_char(head + 1) == '{' {
                opened = true;
            }
        }
        if opened {
            let body = input.substring_char(head + 2, n);
            proof {
                assert(body@ =~= pre.skip(2));
            }
            match parse_template_inner(body) {
                None => {
                    proof {
                        assert(lit.push(input@[head as int]) =~= input@.subrange(
                            tail as int,
                            head + 1,
                        ));
                    }
                    head = head + 1;
                    col = col + 1;
                },
                Some(Err(e)) => {
                    return Err(e.add_offset((col + 2, line)));
                },
                Some(Ok((var, len))) => {
                    let ghost segs = var@;
                    let ghost rest = spec_scan(
                        pre.skip(2 + len as int),
                        Seq::empty(),
                        col + 2 + len as int,
                        line as int,
                    );
                    if tail < head {
                        let lit_str = input.substring_char(tail, head).to_owned();
                        let ghost old_dv = tokens.deep_view();
                        tokens.push(Token::Str(lit_str));
                        proof {
                            assert(tokens.deep_view() =~~= old_dv.push(TokenModel::Lit(lit)));
                        }
                    }
                    let ghost mid_dv = tokens.deep_view();
                    tokens.push(Token::Variable(var));
                    proof {
                        assert(tokens.deep_view() =~~= mid_dv.push(TokenModel::Var(segs)));
                    }
                    head = head + 2 + len;
                    tail = head;
                    col = col + 2 + len;
                    proof {
                        assert(input@.subrange(head as int, head as int) =~= Seq::<char>::empty());
                        assert(pre.skip(2 + len as int) =~= input@.skip(head as int));
                        let prelit = if lit.len() > 0 {
                            seq![TokenModel::Lit(lit)]
                        } else {
                            Seq::<TokenModel>::empty()
                        };
                        match rest {
                            Ok(ts) => {
                                assert(tokens.deep_view() + ts =~~= tdv + (prelit + seq![
                                    TokenModel::Var(segs),
                                ] + ts));
                            },
                            Err(_) => {},
                        }
                    }
                },
            }
        } else if c == '\n' {
            proof {
                assert(lit.push(input@[head as int]) =~= input@.subrange(tail as int, head + 1));
            }
            head = head + 1;
            col = 0;
            line = line + 1;
        } else {
            proof {
                assert(lit.push(input@[head as int]) =~= input@.subrange(tail as int, head + 1));
            }
            head = head + 1;
            col = col + 1;
        }
    }
    proof {
        assert(input@.skip(n as int) =~= Seq::<char>::empty());
    }
    if tail < n {
        let lit_str = input.substring_char(tail, n).to_owned();
        let ghost old_dv = tokens.deep_view();
        tokens.push(Token::Str(lit_str));
        proof {
            assert(tokens.deep_view() =~~= old_dv.push(
                TokenModel::Lit(input@.subrange(tail as int, n as int)),
            ));
            assert(old_dv.push(TokenModel::Lit(input@.subrange(tail as int, n as int)))
                =~~= old_dv + seq![TokenModel::Lit(input@.subrange(tail as int, n as int))]);
        }
    } else {
        proof {
            assert(tokens.deep_view() + Seq::<TokenModel>::empty() =~~= tokens.deep_view());
        }
    }
    Ok(tokens)
}

} // verus!
