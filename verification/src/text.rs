//! The printed form of a node's links.

use crate::nodeid::NodeId;
use vstd::prelude::*;

verus! {

/// The character of the decimal digit `d`.
pub open spec fn digit(d: nat) -> char {
    if d == 0 {
        '0'
    } else if d == 1 {
        '1'
    } else if d == 2 {
        '2'
    } else if d == 3 {
        '3'
    } else if d == 4 {
        '4'
    } else if d == 5 {
        '5'
    } else if d == 6 {
        '6'
    } else if d == 7 {
        '7'
    } else if d == 8 {
        '8'
    } else {
        '9'
    }
}

/// The decimal digits of `n`, without leading zeros.
pub open spec fn decimal(n: nat) -> Seq<char>
    decreases n,
{
    if n < 10 {
        seq![digit(n)]
    } else {
        decimal(n / 10).push(digit(n % 10))
    }
}

/// The printed form of an optional identifier: `None`, or `Some(NodeId(7))`.
pub open spec fn link_chars(link: Option<NodeId>) -> Seq<char> {
    match link {
        None => "None"@,
        Some(n) => "Some(NodeId("@ + decimal(n.0 as nat) + "))"@,
    }
}

/// The five links of a node, each behind its label.
pub open spec fn links_chars(
    parent: Option<NodeId>,
    previous_sibling: Option<NodeId>,
    next_sibling: Option<NodeId>,
    first_child: Option<NodeId>,
    last_child: Option<NodeId>,
) -> Seq<char> {
    "Parent: "@ + link_chars(parent) + ", Previous sibling: "@ + link_chars(previous_sibling) + ", Next sibling: "@
        + link_chars(next_sibling) + ", First child: "@ + link_chars(first_child) + ", Last child: "@ + link_chars(
        last_child,
    )
}

fn digit_text(d: usize) -> (text: &'static str)
    requires
        d < 10,
    ensures
        text@ =~= seq![digit(d as nat)],
{
    proof {
        reveal_strlit("0");
        reveal_strlit("1");
        reveal_strlit("2");
        reveal_strlit("3");
        reveal_strlit("4");
        reveal_strlit("5");
        reveal_strlit("6");
        reveal_strlit("7");
        reveal_strlit("8");
        reveal_strlit("9");
    }
    match d {
        0 => "0",
        1 => "1",
        2 => "2",
        3 => "3",
        4 => "4",
        5 => "5",
        6 => "6",
        7 => "7",
        8 => "8",
        _ => "9",
    }
}

/// The decimal digits of `n` as a string.
pub fn decimal_text(n: usize) -> (text: String)
    ensures
        text@ == decimal(n as nat),
    decreases n,
{
    if n < 10 {
        String::from_str(digit_text(n))
    } else {
        let mut text = decimal_text(n / 10);
        text.append(digit_text(n % 10));
        proof {
            assert(text@ =~= decimal((n / 10) as nat).push(digit((n % 10) as nat)));
        }
        text
    }
}

/// The printed form of an optional identifier as a string.
pub fn link_text(link: Option<NodeId>) -> (text: String)
    ensures
        text@ == link_chars(link),
{
    match link {
        None => String::from_str("None"),
        Some(n) => {
            let mut text = String::from_str("Some(NodeId(");
            let digits = decimal_text(n.0);
            text.append(digits.as_str());
            text.append("))");
            text
        },
    }
}

} // verus!
