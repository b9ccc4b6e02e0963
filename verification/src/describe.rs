//! Values as indented text, one line per node, for logs.

use vstd::prelude::*;
use vstd::utf8::decode_utf8;
use crate::integer::{
    all_digits,
    decimal_digits,
    is_digit,
    lemma_decimal_digits_read_back,
    push_decimal,
};
use crate::text::{lemma_ascii_is_utf8, text_of};
use crate::value::{RESPValue, ValueView};

verus! {

/// The indentation of a line `levels` deep: two spaces per level.
pub open spec fn indentation(levels: nat) -> Seq<char>
    decreases levels,
{
    if levels == 0 {
        Seq::empty()
    } else {
        indentation((levels - 1) as nat) + "  "@
    }
}

/// The decimal numeral of `n` as text.
pub open spec fn count_text(n: nat) -> Seq<char> {
    decode_utf8(decimal_digits(n))
}

/// The lines that describe `value` when every line starts with `indent`.
///
/// A string is one line with its kind and its text.  An array is a line with
/// its length, the lines of its elements two spaces deeper, and a closing
/// line.  Null is one line, and so is every other value, which is shown as a
/// question mark.
pub open spec fn tabbed(value: ValueView, indent: Seq<char>) -> Seq<char>
    decreases value,
{
    match value {
        ValueView::BlobString(text) => indent + "blob string: "@ + text + "\n"@,
        ValueView::SimpleString(text) => indent + "simple string: "@ + text + "\n"@,
        ValueView::Array(items) => indent + "array("@ + count_text(items.len()) + ") [\n"@
            + tabbed_all(items, indent + "  "@) + indent + "]\n"@,
        ValueView::Null => indent + "null\n"@,
        _ => indent + "?\n"@,
    }
}

/// The lines of `items`, one value after another.
pub open spec fn tabbed_all(items: Seq<ValueView>, indent: Seq<char>) -> Seq<char>
    decreases items,
{
    if items.len() == 0 {
        Seq::empty()
    } else {
        tabbed_all(items.drop_last(), indent) + tabbed(items.last(), indent)
    }
}

/// The text of `levels` levels of indentation.
fn indentation_text(levels: usize) -> (text: String)
    ensures
        text@ == indentation(levels as nat),
{
    let mut text = String::new();
    let mut done: usize = 0;
    while done < levels
        invariant
            done <= levels,
            text@ == indentation(done as nat),
        decreases levels - done,
    {
        text.append("  ");
        done = done + 1;
    }
    text
}

/// Appends the decimal numeral of `n` to `out`.
fn append_count(out: &mut String, n: usize)
    ensures
        final(out)@ == old(out)@ + count_text(n as nat),
{
    let mut digits: Vec<u8> = Vec::new();
    push_decimal(&mut digits, n);
    proof {
        assert(digits@ =~= decimal_digits(n as nat));
        lemma_decimal_digits_read_back(n as nat);
        assert forall|i: int| 0 <= i < digits@.len() implies #[trigger] digits@[i] < 128 by {
            assert(is_digit(digits@[i]));
        }
        lemma_ascii_is_utf8(digits@);
    }
    match text_of(digits.as_slice()) {
        Some(numeral) => out.append(numeral.as_str()),
        None => {},
    }
}

impl RESPValue {
    /// The lines that describe the value when every line starts with
    /// `indent`.
    fn format_indented(&self, indent: &str) -> (text: String)
        ensures
            text@ == tabbed(self@, indent@),
        decreases self,
    {
        let mut text = String::from_str(indent);
        match self {
            RESPValue::BlobString(s) => {
                text.append("blob string: ");
                text.append(s.as_str());
                text.append("\n");
            },
            RESPValue::SimpleString(s) => {
                text.append("simple string: ");
                text.append(s.as_str());
                text.append("\n");
            },
            RESPValue::Array(arr) => {
                text.append("array(");
                append_count(&mut text, arr.len());
                text.append(") [\n");
                let deeper = String::from_str(indent).concat("  ");
                let ghost head = text@;
                let ghost items = self@->Array_0;
                let mut i: usize = 0;
                while i < arr.len()
                    invariant
                        i <= arr@.len(),
                        items.len() == arr@.len(),
                        forall|k: int| 0 <= k < arr@.len() ==> (#[trigger] arr@[k])@ == items[k],
                        forall|k: int|
                            0 <= k < arr@.len() ==> decreases_to!(self => #[trigger] arr@[k]),
                        deeper@ == indent@ + "  "@,
                        text@ == head + tabbed_all(items.subrange(0, i as int), deeper@),
                    decreases arr@.len() - i,
                {
                    let line = arr[i].format_indented(deeper.as_str());
                    proof {
                        let taken = items.subrange(0, i + 1);
                        assert(taken.drop_last() =~= items.subrange(0, i as int));
                        assert(taken.last() == items[i as int]);
                    }
                    text.append(line.as_str());
                    i = i + 1;
                }
                proof {
                    assert(items.subrange(0, i as int) =~= items);
                }
                text.append(indent);
                text.append("]\n");
            },
            RESPValue::Null => {
                text.append("null\n");
            },
            _ => {
                text.append("?\n");
            },
        }
        text
    }

    /// The lines that describe the value, indented by `num_of_tabs` levels.
    pub fn format_tabbed(&self, num_of_tabs: usize) -> (text: String)
        ensures
            text@ == tabbed(self@, indentation(num_of_tabs as nat)),
    {
        let indent = indentation_text(num_of_tabs);
        self.format_indented(indent.as_str())
    }

    /// The lines that describe the value, without indentation.
    pub fn to_text(&self) -> (text: String)
        ensures
            text@ == tabbed(self@, Seq::empty()),
    {
        self.format_tabbed(0)
    }
}

} // verus!
