//! Small decisions of the display: the labels of priorities, the indentation
//! of the project tree, and what counts as an empty entry.

use crate::task::priority_letter;
use crate::text::chars_of;
use crate::words::{trim, trimmed};
use vstd::prelude::*;

verus! {

/// The deepest level of the project tree that is indented further than the
/// one above it.
pub const MAX_INDENT: usize = 4;

/// The letter under which the display shows the priority `priority`: one of
/// the first three. The other priorities are shown without a letter.
pub fn priority_label(priority: u8) -> (label: Option<&'static str>)
    ensures
        match label {
            Some(text) => priority < 3 && text@ == seq![priority_letter(priority as nat)],
            None => priority >= 3,
        },
{
    proof {
        reveal_strlit("A");
        reveal_strlit("B");
        reveal_strlit("C");
        assert("A"@ =~= seq!['A']);
        assert("B"@ =~= seq!['B']);
        assert("C"@ =~= seq!['C']);
    }
    match priority {
        0 => Some("A"),
        1 => Some("B"),
        2 => Some("C"),
        _ => None,
    }
}

/// The number of steps by which a node at the depth `depth` of the project
/// tree is indented: its depth, but no more than `MAX_INDENT`.
pub open spec fn indent_steps(depth: nat) -> nat {
    if depth < MAX_INDENT {
        depth
    } else {
        MAX_INDENT as nat
    }
}

/// The style class of the indentation by `steps` steps.
pub open spec fn pad_class_text(steps: nat) -> Seq<char> {
    if steps == 0 {
        "pl-0"@
    } else if steps == 1 {
        "pl-4"@
    } else if steps == 2 {
        "pl-8"@
    } else if steps == 3 {
        "pl-12"@
    } else {
        "pl-16"@
    }
}

/// The style class that indents a node at the depth `depth` of the project
/// tree.
pub fn pad_class(depth: usize) -> (class: &'static str)
    ensures
        class@ == pad_class_text(indent_steps(depth as nat)),
{
    match depth {
        0 => "pl-0",
        1 => "pl-4",
        2 => "pl-8",
        3 => "pl-12",
        _ => "pl-16",
    }
}

/// Tells whether `text` holds nothing but white space, so that there is no
/// task to add.
pub fn is_blank(text: &str) -> (blank: bool)
    ensures
        blank == (trim(text@).len() == 0),
{
    let chars = chars_of(text);
    proof {
        assert(chars@.subrange(0, chars@.len() as int) =~= chars@);
    }
    trimmed(&chars, 0, chars.len()).len() == 0
}

} // verus!
