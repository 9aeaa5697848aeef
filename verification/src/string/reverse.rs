//! Reversal of a string.
use vstd::prelude::*;

verus! {

/// Returns the characters of `text` in reverse order.
pub fn reverse(text: &str) -> (reversed_text: String)
    ensures
        reversed_text@ == text@.reverse(),
{
    let mut chars: Vec<char> = Vec::new();
    for c in it: text.chars()
        invariant
            it.seq() == text@,
            chars@ == text@.subrange(0, it.index()),
    {
        chars.push(c);
        proof {
            assert(chars@ =~= text@.subrange(0, it.index() + 1));
        }
    }
    proof {
        assert(chars@ =~= text@);
    }
    let mut reversed_text = String::new();
    let mut i: usize = chars.len();
    while i > 0
        invariant
            chars@ == text@,
            i <= chars@.len(),
            reversed_text@ == text@.reverse().subrange(0, chars@.len() - i),
        decreases i,
    {
        i -= 1;
        reversed_text.push(chars[i]);
        proof {
            assert(reversed_text@ =~= text@.reverse().subrange(0, chars@.len() - i));
        }
    }
    proof {
        assert(reversed_text@ =~= text@.reverse());
    }
    reversed_text
}

} // verus!
