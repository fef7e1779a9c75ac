use vstd::prelude::*;
use crate::text::string_from_chars;

verus! {

/// `n` copies of `c`.
pub open spec fn repeat(c: char, n: nat) -> Seq<char> {
    Seq::new(n, |_i: int| c)
}

/// Two text lines that draw the wire from column `start` to column `end`
/// (letter columns are two characters apart).
pub open spec fn arrow_spec(start: nat, end: nat) -> Seq<char> {
    if start == end {
        repeat(' ', 2 * start) + seq!['|', '\n'] + repeat(' ', 2 * start) + seq!['|']
    } else if start < end {
        repeat(' ', 2 * start) + seq!['|'] + repeat('_', (2 * (end - start) - 1) as nat) + seq!['\n']
            + repeat(' ', 2 * end) + seq!['|']
    } else {
        repeat(' ', 2 * end + 1) + repeat('_', (2 * (start - end) - 1) as nat) + seq!['|', '\n']
            + repeat(' ', 2 * end) + seq!['|']
    }
}

/// Appends `n` copies of `c`.
fn push_repeat(v: &mut Vec<char>, c: char, n: usize)
    ensures
        final(v)@ == old(v)@ + repeat(c, n as nat),
{
    let ghost start = v@;
    let mut i: usize = 0;
    while i < n
        invariant
            0 <= i <= n,
            v@ == start + repeat(c, i as nat),
        decreases n - i,
    {
        v.push(c);
        i = i + 1;
        assert(v@ =~= start + repeat(c, i as nat));
    }
}

/// Draws the wire from letter `start` to letter `end` as two text lines.
pub fn arrow(start: usize, end: usize) -> (r: String)
    requires
        start < 26,
        end < 26,
    ensures
        r@ == arrow_spec(start as nat, end as nat),
{
    let mut v: Vec<char> = Vec::new();
    if start == end {
        push_repeat(&mut v, ' ', 2 * start);
        v.push('|');
        v.push('\n');
        push_repeat(&mut v, ' ', 2 * start);
        v.push('|');
    } else if start < end {
        push_repeat(&mut v, ' ', 2 * start);
        v.push('|');
        push_repeat(&mut v, '_', 2 * (end - start) - 1);
        v.push('\n');
        push_repeat(&mut v, ' ', 2 * end);
        v.push('|');
    } else {
        push_repeat(&mut v, ' ', 2 * end + 1);
        push_repeat(&mut v, '_', 2 * (start - end) - 1);
        v.push('|');
        v.push('\n');
        push_repeat(&mut v, ' ', 2 * end);
        v.push('|');
    }
    assert(v@ =~= arrow_spec(start as nat, end as nat));
    string_from_chars(&v)
}

} // verus!
