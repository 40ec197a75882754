//! The text form of an edge list: one line `tail -> head` per edge, the ids
//! in decimal.

use vstd::prelude::*;

verus! {

/// The character of the decimal digit `d`.
pub open spec fn digit(d: int) -> u8 {
    (48 + d) as u8
}

/// The decimal digits of `n`, without leading zeros.
pub open spec fn decimal(n: int) -> Seq<u8>
    decreases n,
{
    if n < 10 {
        seq![digit(n)]
    } else {
        decimal(n / 10).push(digit(n % 10))
    }
}

/// The text between the two ids of a line: a space, `->`, a space.
pub open spec fn arrow() -> Seq<u8> {
    seq![32u8, 45u8, 62u8, 32u8]
}

/// The line of `edge`: its tail, the arrow, its head, and a line feed.
pub open spec fn line_of(edge: (u32, u32)) -> Seq<u8> {
    decimal(edge.0 as int) + arrow() + decimal(edge.1 as int) + seq![10u8]
}

/// The lines of `edges`, in order.
pub open spec fn lines_of(edges: Seq<(u32, u32)>) -> Seq<u8>
    decreases edges.len(),
{
    if edges.len() == 0 {
        Seq::empty()
    } else {
        lines_of(edges.drop_last()) + line_of(edges.last())
    }
}

/// Appends the decimal digits of `n` to `text`.
fn push_decimal(text: &mut Vec<u8>, n: u32)
    ensures
        final(text)@ == old(text)@ + decimal(n as int),
    decreases n,
{
    if n >= 10 {
        push_decimal(text, n / 10);
    }
    let last: u8 = 48 + (n % 10) as u8;
    text.push(last);
    assert(text@ =~= old(text)@ + decimal(n as int));
}

/// The text of `edges`: for each edge the line `tail -> head`.
pub fn edge_lines(edges: &[(u32, u32)]) -> (text: Vec<u8>)
    ensures
        text@ == lines_of(edges@),
{
    let mut text: Vec<u8> = Vec::new();
    let mut k: usize = 0;
    while k < edges.len()
        invariant
            k <= edges.len(),
            text@ == lines_of(edges@.take(k as int)),
        decreases edges.len() - k,
    {
        let ghost before = text@;
        let edge = edges[k];
        push_decimal(&mut text, edge.0);
        text.push(32);
        text.push(45);
        text.push(62);
        text.push(32);
        push_decimal(&mut text, edge.1);
        text.push(10);
        proof {
            assert(edges@.take(k + 1).drop_last() =~= edges@.take(k as int));
            assert(edges@.take(k + 1).last() == edge);
            assert(text@ =~= before + line_of(edge));
        }
        k += 1;
    }
    assert(edges@.take(edges@.len() as int) =~= edges@);
    text
}

} // verus!
