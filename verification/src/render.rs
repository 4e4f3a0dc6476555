//! The textual form of a value.

use crate::assoc::{find_last, names_in, position};
use crate::eval::OutputValue;
use vstd::prelude::*;
use vstd::string::StringExecFns;

verus! {

/// The character of a decimal digit.
pub open spec fn digit(d: nat) -> char {
    if d == 0 {
        '0'
    } else if d == 1 {
        '1'
    } else if d == 2 {
        '2'
    } else if d == 3 {
        '3'
    } else if d == 4 {
        '4'
    } else if d == 5 {
        '5'
    } else if d == 6 {
        '6'
    } else if d == 7 {
        '7'
    } else if d == 8 {
        '8'
    } else {
        '9'
    }
}

/// The decimal digits of a natural, without leading zeros.
pub open spec fn decimal(n: nat) -> Seq<char>
    decreases n,
{
    if n < 10 {
        seq![digit(n)]
    } else {
        decimal(n / 10).push(digit(n % 10))
    }
}

/// The text of the fields among the first `upto` entries of a record value:
/// each as `name=value`, joined by a comma and a space. An entry whose name
/// occurs again later is no field of the record, and has no text.
pub open spec fn fields_text(entries: Seq<(String, OutputValue)>, upto: nat) -> Seq<char>
    decreases entries, upto,
{
    if upto == 0 || upto > entries.len() {
        Seq::empty()
    } else {
        let before = fields_text(entries, (upto - 1) as nat);
        let entry = entries[upto - 1];
        if position(names_in(entries), entry.0@) != Some(upto - 1) {
            before
        } else if before.len() == 0 {
            entry.0@ + seq!['='] + entry.1.text()
        } else {
            before + seq![',', ' '] + entry.0@ + seq!['='] + entry.1.text()
        }
    }
}

impl OutputValue {
    /// The text of a value: a natural in decimal digits, a boolean as `true`
    /// or `false`, a record as `{name=value, ...}` with its fields in the order
    /// of its entries, a variant as `<tag=value>`, a closure as `@ ` and its
    /// parameter followed by `. ..` for its body, and a recursive function as
    /// `fix ` and the text of the closure it wraps.
    pub open spec fn text(&self) -> Seq<char>
        decreases self, 0nat,
    {
        match self {
            OutputValue::Nat(n) => decimal(*n as nat),
            OutputValue::Bool(b) => if *b {
                seq!['t', 'r', 'u', 'e']
            } else {
                seq!['f', 'a', 'l', 's', 'e']
            },
            OutputValue::Func(param, body, table) => seq!['@', ' '] + param@ + seq!['.', ' ', '.', '.'],
            OutputValue::Record(entries) => seq!['{'] + fields_text(entries@, entries@.len())
                + seq!['}'],
            OutputValue::Variant(tag, payload) => seq!['<'] + tag@ + seq!['='] + payload.text()
                + seq!['>'],
            OutputValue::Fix(inner) => seq!['f', 'i', 'x', ' '] + inner.text(),
        }
    }

    /// Renders the value as text.
    pub fn to_string(&self) -> (rendered: String)
        ensures
            rendered@ == self.text(),
    {
        let mut rendered = String::new();
        write_value(&mut rendered, self);
        rendered
    }
}

/// The text of one decimal digit.
fn digit_text(d: usize) -> (text: &'static str)
    requires
        d < 10,
    ensures
        text@ == seq![digit(d as nat)],
{
    proof {
        reveal_strlit("0");
        reveal_strlit("1");
        reveal_strlit("2");
        reveal_strlit("3");
        reveal_strlit("4");
        reveal_strlit("5");
        reveal_strlit("6");
        reveal_strlit("7");
        reveal_strlit("8");
        reveal_strlit("9");
    }
    let text = if d == 0 {
        "0"
    } else if d == 1 {
        "1"
    } else if d == 2 {
        "2"
    } else if d == 3 {
        "3"
    } else if d == 4 {
        "4"
    } else if d == 5 {
        "5"
    } else if d == 6 {
        "6"
    } else if d == 7 {
        "7"
    } else if d == 8 {
        "8"
    } else {
        "9"
    };
    text
}

/// Appends the decimal digits of `n`.
fn write_decimal(out: &mut String, n: usize)
    ensures
        final(out)@ == old(out)@ + decimal(n as nat),
    decreases n,
{
    if n >= 10 {
        write_decimal(out, n / 10);
    }
    out.append(digit_text(n % 10));
}

/// Appends the text of a value.
fn write_value(out: &mut String, value: &OutputValue)
    ensures
        final(out)@ == old(out)@ + value.text(),
    decreases value, 0nat,
{
    proof {
        reveal_strlit("true");
        reveal_strlit("false");
        reveal_strlit("@ ");
        reveal_strlit(". ..");
        reveal_strlit("{");
        reveal_strlit("}");
        reveal_strlit("<");
        reveal_strlit("=");
        reveal_strlit(">");
        reveal_strlit("fix ");
    }
    match value {
        OutputValue::Nat(n) => {
            write_decimal(out, *n);
        },
        OutputValue::Bool(b) => {
            if *b {
                out.append("true");
            } else {
                out.append("false");
            }
        },
        OutputValue::Func(param, body, table) => {
            out.append("@ ");
            out.append(param.as_str());
            out.append(". ..");
        },
        OutputValue::Record(entries) => {
            out.append("{");
            write_fields(out, entries);
            out.append("}");
        },
        OutputValue::Variant(tag, payload) => {
            out.append("<");
            out.append(tag.as_str());
            out.append("=");
            write_value(out, payload);
            out.append(">");
        },
        OutputValue::Fix(inner) => {
            out.append("fix ");
            write_value(out, inner);
        },
    }
}

/// Appends the text of the fields of a record value.
fn write_fields(out: &mut String, entries: &Vec<(String, OutputValue)>)
    ensures
        final(out)@ == old(out)@ + fields_text(entries@, entries@.len()),
    decreases entries, entries.len() + 1,
{
    let mut any = false;
    let mut i: usize = 0;
    while i < entries.len()
        invariant
            i <= entries.len(),
            out@ == old(out)@ + fields_text(entries@, i as nat),
            any == (fields_text(entries@, i as nat).len() > 0),
        decreases entries.len() - i,
    {
        proof {
            reveal_strlit(", ");
            reveal_strlit("=");
        }
        match find_last(entries, entries[i].0.as_str()) {
            Some(last) => {
                if last == i {
                    if any {
                        out.append(", ");
                    }
                    out.append(entries[i].0.as_str());
                    out.append("=");
                    write_value(out, &entries[i].1);
                    any = true;
                }
            },
            None => {},
        }
        i = i + 1;
    }
}

} // verus!
