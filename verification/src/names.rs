//! Names of blocks for people to read.

use vstd::prelude::*;
use vstd::string::StringExecFns;

use crate::block::BlockId;

verus! {

/// The character for a digit.
pub open spec fn digit(n: nat) -> char {
    (('0' as u32 + n) as u32) as char
}

/// A number in decimal digits.
pub open spec fn decimal(n: nat) -> Seq<char>
    decreases n,
{
    if n < 10 {
        seq![digit(n)]
    } else {
        decimal(n / 10).push(digit(n % 10))
    }
}

/// One digit.
fn digit_text(n: usize) -> (text: &'static str)
    requires
        n < 10,
    ensures
        text@ == seq![digit(n as nat)],
{
    proof {
        reveal_strlit("0");
        reveal_strlit("1");
        reveal_strlit("2");
        reveal_strlit("3");
        reveal_strlit("4");
        reveal_strlit("5");
        reveal_strlit("6");
        reveal_strlit("7");
        reveal_strlit("8");
        reveal_strlit("9");
    }
    let text: &'static str = match n {
        0 => "0",
        1 => "1",
        2 => "2",
        3 => "3",
        4 => "4",
        5 => "5",
        6 => "6",
        7 => "7",
        8 => "8",
        _ => "9",
    };
    proof {
        assert(text@ =~= seq![digit(n as nat)]);
    }
    text
}

/// A number in decimal digits.
fn decimal_text(n: usize) -> (text: String)
    ensures
        text@ == decimal(n as nat),
    decreases n,
{
    let mut text: String = if n < 10 {
        String::new()
    } else {
        decimal_text(n / 10)
    };
    text.append(digit_text(n % 10));
    proof {
        if n < 10 {
            assert(text@ =~= decimal(n as nat));
        } else {
            assert(text@ =~= decimal(n as nat / 10).push(digit(n as nat % 10)));
        }
    }
    text
}

impl BlockId {
    /// The name of the block.
    pub open spec fn name(&self) -> Seq<char> {
        match *self {
            BlockId::Custom(id) => "Block(CustomBlockId("@ + decimal(id.0 as nat) + "))"@,
            BlockId::ExcerptBoundary(Some(id)) => "ExcerptHeader(Some(ExcerptId("@ + decimal(
                id.0 as nat,
            ) + ")))"@,
            BlockId::ExcerptBoundary(None) => "ExcerptHeader(None)"@,
        }
    }

    pub fn to_string(&self) -> (text: String)
        ensures
            text@ == self.name(),
    {
        let mut text: String = String::new();
        match self {
            BlockId::Custom(id) => {
                text.append("Block(CustomBlockId(");
                text.append(decimal_text(id.0).as_str());
                text.append("))");
            },
            BlockId::ExcerptBoundary(Some(id)) => {
                text.append("ExcerptHeader(Some(ExcerptId(");
                text.append(decimal_text(id.0).as_str());
                text.append(")))");
            },
            BlockId::ExcerptBoundary(None) => {
                text.append("ExcerptHeader(None)");
            },
        }
        proof {
            assert(text@ =~= self.name());
        }
        text
    }
}

} // verus!
