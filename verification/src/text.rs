//! The words in which the library speaks to its user.

use crate::block::BlockConnectionNode;
use crate::evaluation::{EvalError, IteratedInput};
use crate::id::Id;
use crate::value::ValueKind;
use vstd::prelude::*;
use vstd::string::StringExecFns;

verus! {

/// The character for a digit.
pub open spec fn digit(d: int) -> char {
    if d == 0 {
        '0'
    } else if d == 1 {
        '1'
    } else if d == 2 {
        '2'
    } else if d == 3 {
        '3'
    } else if d == 4 {
        '4'
    } else if d == 5 {
        '5'
    } else if d == 6 {
        '6'
    } else if d == 7 {
        '7'
    } else if d == 8 {
        '8'
    } else {
        '9'
    }
}

/// A number in decimal digits, without leading zeros.
pub open spec fn decimal(n: nat) -> Seq<char>
    decreases n,
{
    if n < 10 {
        seq![digit(n as int)]
    } else {
        decimal(n / 10).push(digit((n % 10) as int))
    }
}

/// The digit `d`, written.
fn digit_text(d: usize) -> (text: &'static str)
    requires
        d < 10,
    ensures
        text@ == seq![digit(d as int)],
{
    proof {
        reveal_strlit("0");
        reveal_strlit("1");
        reveal_strlit("2");
        reveal_strlit("3");
        reveal_strlit("4");
        reveal_strlit("5");
        reveal_strlit("6");
        reveal_strlit("7");
        reveal_strlit("8");
        reveal_strlit("9");
    }
    let text = if d == 0 {
        "0"
    } else if d == 1 {
        "1"
    } else if d == 2 {
        "2"
    } else if d == 3 {
        "3"
    } else if d == 4 {
        "4"
    } else if d == 5 {
        "5"
    } else if d == 6 {
        "6"
    } else if d == 7 {
        "7"
    } else if d == 8 {
        "8"
    } else {
        "9"
    };
    assert(text@ =~= seq![digit(d as int)]);
    text
}

/// Writes `n` in decimal digits at the end of `text`.
pub fn append_decimal(text: &mut String, n: usize)
    ensures
        final(text)@ == old(text)@ + decimal(n as nat),
    decreases n,
{
    if n >= 10 {
        append_decimal(text, n / 10);
    }
    text.append(digit_text(n % 10));
    assert(text@ =~= old(text)@ + decimal(n as nat));
}

impl Id {
    /// The identity in words: its number, in round brackets.
    pub open spec fn text(self) -> Seq<char> {
        "("@ + decimal(self.0 as nat) + ")"@
    }

    /// The identity in words, for a reader who looks for errors: its
    /// number, in round brackets, behind the word `Id`.
    pub open spec fn debug_text(self) -> Seq<char> {
        "Id("@ + decimal(self.0 as nat) + ")"@
    }

    /// The identity in words.
    pub fn to_text(&self) -> (text: String)
        ensures
            text@ == self.text(),
    {
        let mut text = String::new();
        text.append("(");
        append_decimal(&mut text, self.0);
        text.append(")");
        assert(text@ =~= self.text());
        text
    }
}

impl ValueKind {
    /// The name of the kind.
    pub open spec fn name(self) -> Seq<char> {
        match self {
            ValueKind::Number => "Number"@,
            ValueKind::Point => "Point"@,
            ValueKind::Color => "Color"@,
            ValueKind::Selection => "Selection"@,
            ValueKind::ListNumbers => "ListNumbers"@,
            ValueKind::ListPoints => "ListPoints"@,
        }
    }

    /// The name of the kind.
    pub fn to_name(&self) -> (name: &'static str)
        ensures
            name@ == self.name(),
    {
        match self {
            ValueKind::Number => "Number",
            ValueKind::Point => "Point",
            ValueKind::Color => "Color",
            ValueKind::Selection => "Selection",
            ValueKind::ListNumbers => "ListNumbers",
            ValueKind::ListPoints => "ListPoints",
        }
    }
}

impl BlockConnectionNode {
    /// The port in words: the number of its identity in round brackets,
    /// then its name.
    pub fn get_text(&self) -> (text: String)
        ensures
            text@ == "("@ + decimal(self@.id.0 as nat) + ") "@ + self@.name,
    {
        let mut text = String::new();
        text.append("(");
        append_decimal(&mut text, self.id.0);
        text.append(") ");
        text.append(self.name.as_str());
        assert(text@ =~= "("@ + decimal(self@.id.0 as nat) + ") "@ + self@.name);
        text
    }
}

impl IteratedInput {
    /// The input and its sequence in words: the input, the block that feeds
    /// it, where one is known, and the number of values that it receives.
    pub open spec fn text(self) -> Seq<char> {
        self.input.debug_text() + match self.source {
            Some(source) => " fed by block "@ + decimal(source.0 as nat),
            None => Seq::empty(),
        } + " has "@ + decimal(self.length as nat)
    }
}

/// Writes `told` at the end of `text`, as [`IteratedInput::text`] has it.
fn append_iterated(text: &mut String, told: IteratedInput)
    ensures
        final(text)@ == old(text)@ + told.text(),
{
    append_debug(text, told.input);
    match told.source {
        Some(source) => {
            text.append(" fed by block ");
            append_decimal(text, source.0);
        },
        None => {},
    }
    text.append(" has ");
    append_decimal(text, told.length);
    assert(text@ =~= old(text)@ + told.text());
}

impl EvalError {
    /// The error in words. Sequences of different lengths are told with
    /// the block that depends on them and, for each of the two, the input
    /// that it arrives at, the block that it comes from, and its length.
    pub open spec fn message_text(self) -> Seq<char> {
        match self {
            EvalError::LengthMismatch { block, first, second } => "Block "@ + decimal(
                block.0 as nat,
            ) + " depends on multiple iterations whose lengths dont match. "@ + first.text()
                + " != "@ + second.text(),
            EvalError::MissingOutput { block, output } => "My block "@ + block.debug_text()
                + " depends on output node "@ + output.debug_text()
                + ", but failed to find a value from the previous output map"@,
            EvalError::UnsupportedFlatten { block, kind } => "My block "@ + block.debug_text()
                + " cannot flatten an iteration of "@ + kind.name() + ": not yet implemented"@,
        }
    }

    /// The error in words.
    pub fn message(&self) -> (text: String)
        ensures
            text@ == self.message_text(),
    {
        let mut text = String::new();
        match *self {
            EvalError::LengthMismatch { block, first, second } => {
                text.append("Block ");
                append_decimal(&mut text, block.0);
                text.append(" depends on multiple iterations whose lengths dont match. ");
                append_iterated(&mut text, first);
                text.append(" != ");
                append_iterated(&mut text, second);
            },
            EvalError::MissingOutput { block, output } => {
                text.append("My block ");
                append_debug(&mut text, block);
                text.append(" depends on output node ");
                append_debug(&mut text, output);
                text.append(", but failed to find a value from the previous output map");
            },
            EvalError::UnsupportedFlatten { block, kind } => {
                text.append("My block ");
                append_debug(&mut text, block);
                text.append(" cannot flatten an iteration of ");
                text.append(kind.to_name());
                text.append(": not yet implemented");
            },
        }
        assert(text@ =~= self.message_text());
        text
    }
}

/// Writes `id` at the end of `text`, as [`Id::debug_text`] has it.
fn append_debug(text: &mut String, id: Id)
    ensures
        final(text)@ == old(text)@ + id.debug_text(),
{
    text.append("Id(");
    append_decimal(text, id.0);
    text.append(")");
    assert(text@ =~= old(text)@ + id.debug_text());
}

} // verus!
