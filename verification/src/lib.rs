//! A minimal template tokenizer.
//!
//! The [`parse`] module scans a text buffer and splits it into literal-text
//! tokens and variable-reference tokens delimited by `{{` and `}}`.  A
//! variable reference names a dotted path of non-empty segments, represented
//! by [`Variable`].

use vstd::prelude::*;

pub mod laws;
pub mod parse;
mod render;

verus! {

/// Splits `s` on `'.'`, with `cur` the piece accumulated so far.
/// The result always holds at least one piece; pieces may be empty.
pub open spec fn spec_split(s: Seq<char>, cur: Seq<char>) -> Seq<Seq<char>>
    decreases s.len(),
{
    if s.len() == 0 {
        seq![cur]
    } else if s[0] == '.' {
        seq![cur] + spec_split(s.drop_first(), Seq::empty())
    } else {
        spec_split(s.drop_first(), cur.push(s[0]))
    }
}

/// The offset of the first empty dot-separated piece of a string, if any:
/// `cur_len` chars of the current piece lie before position `pos`.
pub open spec fn first_empty_offset(s: Seq<char>, cur_len: int, pos: int) -> Option<int>
    decreases s.len(),
{
    if s.len() == 0 {
        if cur_len == 0 {
            Some(pos)
        } else {
            None
        }
    } else if s[0] == '.' {
        if cur_len == 0 {
            Some(pos)
        } else {
            first_empty_offset(s.drop_first(), 0, pos + 1)
        }
    } else {
        first_empty_offset(s.drop_first(), cur_len + 1, pos + 1)
    }
}

/// A string whose dot-separated pieces all have an empty-piece offset of
/// `None` splits into non-empty pieces only.
pub proof fn lemma_no_empty_offset_no_empty_piece(s: Seq<char>, cur: Seq<char>, pos: int)
    requires
        first_empty_offset(s, cur.len() as int, pos) is None,
    ensures
        forall|j: int| 0 <= j < spec_split(s, cur).len() ==> (#[trigger] spec_split(s, cur)[j]).len() > 0,
    decreases s.len(),
{
    if s.len() == 0 {
        assert(spec_split(s, cur) == seq![cur]);
    } else if s[0] == '.' {
        lemma_no_empty_offset_no_empty_piece(s.drop_first(), Seq::empty(), pos + 1);
        assert(spec_split(s, cur) == seq![cur] + spec_split(s.drop_first(), Seq::empty()));
        assert(forall|j: int|
            1 <= j < spec_split(s, cur).len() ==> (#[trigger] spec_split(s, cur)[j]) == spec_split(
                s.drop_first(),
                Seq::empty(),
            )[j - 1]);
        assert(spec_split(s, cur)[0] == cur);
    } else {
        lemma_no_empty_offset_no_empty_piece(s.drop_first(), cur.push(s[0]), pos + 1);
        assert(spec_split(s, cur) == spec_split(s.drop_first(), cur.push(s[0])));
    }
}

/// A dotted identifier path: an ordered sequence of name segments,
/// never empty.
#[derive(Debug, PartialEq, Eq)]
pub struct Variable {
    segments: Vec<String>,
}

impl View for Variable {
    type V = Seq<Seq<char>>;

    closed spec fn view(&self) -> Seq<Seq<char>> {
        self.segments.deep_view()
    }
}

impl DeepView for Variable {
    type V = Seq<Seq<char>>;

    open spec fn deep_view(&self) -> Seq<Seq<char>> {
        self.view()
    }
}

impl Variable {
    /// A path always holds at least one segment.
    pub open spec fn wf(&self) -> bool {
        self@.len() >= 1
    }

    /// Builds a one-segment path without checking the name for dots; the
    /// caller must already guarantee that `name` holds no `'.'`.
    pub fn single_unchecked(name: String) -> (r: Variable)
        ensures
            r@ == seq![name@],
            r.wf(),
    {
        let ghost n = name@;
        let r = Variable { segments: vec![name] };
        proof {
            assert(r@ =~= seq![n]);
        }
        r
    }

    /// Builds a one-segment path.  A name holding a `'.'` is ambiguous with
    /// a dotted path and is not allowed here; such input must go through
    /// [`Variable::from_string`] instead.
    pub fn single(name: String) -> (r: Variable)
        requires
            forall|i: int| 0 <= i < name@.len() ==> name@[i] != '.',
        ensures
            r@ == seq![name@],
            r.wf(),
    {
        Variable::single_unchecked(name)
    }

    /// Builds a path from an ordered sequence of segments.  The segments are
    /// taken as given: validation happens upstream, in the scanner or in
    /// [`Variable::from_string`].
    pub fn from_parts(parts: Vec<String>) -> (r: Variable)
        requires
            parts@.len() >= 1,
        ensures
            r@ == parts.deep_view(),
            r.wf(),
    {
        Variable { segments: parts }
    }

    /// Parses a bare dotted string (`"a.b.c"`) into a path.  Fails with the
    /// offset of the first empty piece if any dot-separated piece is empty.
    pub fn from_string(s: &str) -> (r: Result<Variable, VariableParseError>)
        ensures
            match r {
                Ok(v) => {
                    &&& first_empty_offset(s@, 0, 0) is None
                    &&& v@ == spec_split(s@, Seq::empty())
                    &&& v.wf()
                    &&& forall|j: int| 0 <= j < v@.len() ==> (#[trigger] v@[j]).len() > 0
                },
                Err(e) => {
                    &&& first_empty_offset(s@, 0, 0) == Some(e.offset as int)
                    &&& e.offset <= s@.len()
                },
            },
    {
        let n = s.unicode_len();
        let mut segs: Vec<String> = Vec::new();
        let mut start: usize = 0;
        let mut i: usize = 0;
        proof {
            assert(s@.skip(0) =~= s@);
            assert(s@.subrange(0, 0) =~= Seq::<char>::empty());
            assert(segs.deep_view() =~= Seq::<Seq<char>>::empty());
            assert(segs.deep_view() + spec_split(s@, Seq::empty()) =~~= spec_split(
                s@,
                Seq::empty(),
            ));
        }
        while i < n
            invariant
                start <= i <= n == s@.len(),
                spec_split(s@, Seq::empty()) == segs.deep_view() + spec_split(
                    s@.skip(i as int),
                    s@.subrange(start as int, i as int),
                ),
                first_empty_offset(s@, 0, 0) == first_empty_offset(
                    s@.skip(i as int),
                    i - start,
                    i as int,
                ),
            decreases n - i,
        {
            let ghost pre = s@.skip(i as int);
            let ghost cur = s@.subrange(start as int, i as int);
            proof {
                assert(pre[0] == s@[i as int]);
                assert(pre.drop_first() =~= s@.skip(i + 1));
            }
            let c = s.get_char(i);
            if c == '.' {
                if start == i {
                    proof {
                        assert(cur.len() == 0);
                    }
                    return Err(VariableParseError { offset: start });
                }
                let piece = s.substring_char(start, i).to_owned();
                let ghost old_dv = segs.deep_view();
                segs.push(piece);
                proof {
                    assert(segs.deep_view() =~~= old_dv.push(cur));
                    assert(old_dv.push(cur) + spec_split(s@.skip(i + 1), Seq::empty()) =~~= old_dv
                        + (seq![cur] + spec_split(s@.skip(i + 1), Seq::empty())));
                    assert(s@.subrange(i + 1, i + 1) =~= Seq::<char>::empty());
                }
                start = i + 1;
            } else {
                proof {
                    assert(cur.push(s@[i as int]) =~= s@.subrange(start as int, i + 1));
                }
            }
            i = i + 1;
        }
        proof {
            assert(s@.skip(n as int) =~= Seq::<char>::empty());
        }
        if start == i {
            return Err(VariableParseError { offset: start });
        }
        let piece = s.substring_char(start, n).to_owned();
        let ghost cur = s@.subrange(start as int, n as int);
        let ghost old_dv = segs.deep_view();
        segs.push(piece);
        proof {
            assert(segs.deep_view() =~~= old_dv.push(cur));
            assert(old_dv.push(cur) =~~= old_dv + seq![cur]);
        }
        let v = Variable { segments: segs };
        proof {
            lemma_no_empty_offset_no_empty_piece(s@, Seq::empty(), 0);
        }
        Ok(v)
    }
}

/// The error of [`Variable::from_string`]: some dot-separated piece of the
/// input was empty, and `offset` is the index at which it starts.
#[derive(Debug, PartialEq, Eq)]
pub struct VariableParseError {
    pub offset: usize,
}

} // verus!
