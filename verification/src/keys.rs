//! The calculator keypad layout.

use vstd::prelude::*;

verus! {

/// The labels of the calculator keypad, row by row: four keys per row, with
/// the digit rows first and the control keys last.
pub open spec fn key_layout() -> Seq<&'static str> {
    seq![
        "7",
        "8",
        "9",
        "+",
        "4",
        "5",
        "6",
        "-",
        "1",
        "2",
        "3",
        "\u{00d7}",
        "0",
        ".",
        "^",
        "\u{00f7}",
        "\u{221a}",
        "Bck",
        "Clr",
        "=",
    ]
}

/// The keypad labels in display order.
pub fn generate_key_layout() -> (r: Vec<&'static str>)
    ensures
        r@ == key_layout(),
{
    let r: Vec<&'static str> = vec![
        "7",
        "8",
        "9",
        "+",
        "4",
        "5",
        "6",
        "-",
        "1",
        "2",
        "3",
        "\u{00d7}",
        "0",
        ".",
        "^",
        "\u{00f7}",
        "\u{221a}",
        "Bck",
        "Clr",
        "=",
    ];
    proof {
        assert(r@ =~= key_layout());
    }
    r
}

} // verus!
