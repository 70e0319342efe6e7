//! Rendering of errors as human-readable text: a verified decimal
//! formatter and the message forms of the two error types.

use vstd::prelude::*;
use vstd::string::StringExecFns;

use crate::parse::{Error, ErrorType};
use crate::VariableParseError;

verus! {

/// The decimal digit character for `d`.
pub open spec fn digit_char(d: int) -> char {
    if d == 0 {
        '0'
    } else if d == 1 {
        '1'
    } else if d == 2 {
        '2'
    } else if d == 3 {
        '3'
    } else if d == 4 {
        '4'
    } else if d == 5 {
        '5'
    } else if d == 6 {
        '6'
    } else if d == 7 {
        '7'
    } else if d == 8 {
        '8'
    } else {
        '9'
    }
}

/// The decimal rendering of `n`, most significant digit first.
pub open spec fn spec_digits(n: int) -> Seq<char>
    decreases n,
{
    if n < 10 {
        seq![digit_char(n)]
    } else {
        spec_digits(n / 10).push(digit_char(n % 10))
    }
}

fn digit_str(d: usize) -> (r: &'static str)
    requires
        d < 10,
    ensures
        r@ == seq![digit_char(d as int)],
{
    let r: &'static str = if d == 0 {
        "0"
    } else if d == 1 {
        "1"
    } else if d == 2 {
        "2"
    } else if d == 3 {
        "3"
    } else if d == 4 {
        "4"
    } else if d == 5 {
        "5"
    } else if d == 6 {
        "6"
    } else if d == 7 {
        "7"
    } else if d == 8 {
        "8"
    } else {
        "9"
    };
    proof {
        reveal_strlit("0");
        reveal_strlit("1");
        reveal_strlit("2");
        reveal_strlit("3");
        reveal_strlit("4");
        reveal_strlit("5");
        reveal_strlit("6");
        reveal_strlit("7");
        reveal_strlit("8");
        reveal_strlit("9");
        assert(r@ =~= seq![digit_char(d as int)]);
    }
    r
}

fn append_digits(out: &mut String, n: usize)
    ensures
        final(out)@ == old(out)@ + spec_digits(n as int),
    decreases n,
{
    if n >= 10 {
        append_digits(out, n / 10);
        let d = digit_str(n % 10);
        out.append(d);
        proof {
            assert(out@ =~= old(out)@ + spec_digits(n as int));
        }
    } else {
        let d = digit_str(n);
        out.append(d);
        proof {
            assert(out@ =~= old(out)@ + spec_digits(n as int));
        }
    }
}

impl ErrorType {
    /// The fault description shown to a user.
    pub open spec fn spec_message(&self) -> Seq<char> {
        match self {
            ErrorType::EmptyVariableSegment => "empty variable segment name"@,
            ErrorType::NewlineInVariableSegment => "newline in variable segment"@,
        }
    }

    /// The fault description shown to a user.
    pub fn message(&self) -> (r: String)
        ensures
            r@ == self.spec_message(),
    {
        match self {
            ErrorType::EmptyVariableSegment => "empty variable segment name".to_owned(),
            ErrorType::NewlineInVariableSegment => "newline in variable segment".to_owned(),
        }
    }
}

impl Error {
    /// The display form of a fault: its description followed by a one-based
    /// line and column.
    pub open spec fn spec_message(&self) -> Seq<char> {
        self.ty.spec_message() + " at line "@ + spec_digits(self.offset.1 + 1) + " column "@
            + spec_digits(self.offset.0 + 1)
    }

    /// The display form of a fault: its description followed by a one-based
    /// line and column.
    pub fn message(&self) -> (r: String)
        requires
            self.offset.0 < usize::MAX,
            self.offset.1 < usize::MAX,
        ensures
            r@ == self.spec_message(),
    {
        let mut out = self.ty.message();
        out.append(" at line ");
        append_digits(&mut out, self.offset.1 + 1);
        out.append(" column ");
        append_digits(&mut out, self.offset.0 + 1);
        proof {
            assert(out@ =~= self.spec_message());
        }
        out
    }
}

impl VariableParseError {
    /// The display form of a path-parse fault, naming the zero-based offset
    /// of the empty piece.
    pub open spec fn spec_message(&self) -> Seq<char> {
        "variable part is empty, at character "@ + spec_digits(self.offset as int)
    }

    /// The display form of a path-parse fault, naming the zero-based offset
    /// of the empty piece.
    pub fn message(&self) -> (r: String)
        ensures
            r@ == self.spec_message(),
    {
        let mut out = "variable part is empty, at character ".to_owned();
        append_digits(&mut out, self.offset);
        proof {
            assert(out@ =~= self.spec_message());
        }
        out
    }
}

} // verus!
