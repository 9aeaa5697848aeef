//! The longest palindrome in a string.
use vstd::prelude::*;

verus! {

/// `t` reads the same forwards and backwards.
pub open spec fn palindrome(t: Seq<char>) -> bool {
    forall|i: int| 0 <= i < t.len() ==> #[trigger] t[i] == t[t.len() - 1 - i]
}

/// The stretch of `s` from `a` up to, but not including, `b` is a
/// palindrome.
pub open spec fn palindrome_at(s: Seq<char>, a: int, b: int) -> bool {
    &&& 0 <= a <= b <= s.len()
    &&& palindrome(s.subrange(a, b))
}

/// The stretch of `s` from `a` to `b` is a longest palindrome in `s`, and
/// of the longest palindromes the one that starts last.
pub open spec fn longest_palindrome(s: Seq<char>, a: int, b: int) -> bool {
    &&& palindrome_at(s, a, b)
    &&& forall|c: int, d: int| #[trigger]
        palindrome_at(s, c, d) ==> d - c < b - a || (d - c == b - a && c <= a)
}

/// A palindrome without its first and last character is a palindrome.
pub proof fn lemma_palindrome_inner(s: Seq<char>, a: int, b: int)
    requires
        palindrome_at(s, a, b),
        b - a >= 2,
    ensures
        palindrome_at(s, a + 1, b - 1),
        s[a] == s[b - 1],
{
    let t = s.subrange(a, b);
    let u = s.subrange(a + 1, b - 1);
    assert(t[0] == t[t.len() - 1 - 0]);
    assert forall|i: int| 0 <= i < u.len() implies #[trigger] u[i] == u[u.len() - 1 - i] by {
        assert(t[i + 1] == t[t.len() - 1 - (i + 1)]);
    }
}

/// A palindrome between two equal characters is a palindrome with them.
pub proof fn lemma_palindrome_outer(s: Seq<char>, a: int, b: int)
    requires
        palindrome_at(s, a, b),
        1 <= a,
        b < s.len(),
        s[a - 1] == s[b],
    ensures
        palindrome_at(s, a - 1, b + 1),
{
    let t = s.subrange(a, b);
    let u = s.subrange(a - 1, b + 1);
    assert forall|i: int| 0 <= i < u.len() implies #[trigger] u[i] == u[u.len() - 1 - i] by {
        if 0 < i < u.len() - 1 {
            assert(t[i - 1] == t[t.len() - 1 - (i - 1)]);
        }
    }
}

/// Of two palindromes around the same centre, the longer reaches a
/// palindrome of every shorter length around that centre; so where the
/// shorter cannot grow, there is no longer one.
pub proof fn lemma_palindrome_nested(s: Seq<char>, a: int, b: int, c: int, d: int)
    requires
        palindrome_at(s, c, d),
        c <= a <= b <= d,
        a + b == c + d,
    ensures
        palindrome_at(s, a, b),
    decreases a - c,
{
    if c < a {
        lemma_palindrome_inner(s, c, d);
        lemma_palindrome_nested(s, a, b, c + 1, d - 1);
    }
}

/// The characters of a string, in a vector.
fn characters(s: &str) -> (chars: Vec<char>)
    ensures
        chars@ == s@,
{
    let mut chars: Vec<char> = Vec::new();
    for c in it: s.chars()
        invariant
            it.seq() == s@,
            chars@ == s@.subrange(0, it.index()),
    {
        chars.push(c);
        proof {
            assert(chars@ =~= s@.subrange(0, it.index() + 1));
        }
    }
    proof {
        assert(chars@ =~= s@);
    }
    chars
}

/// Returns the longest palindrome in `s`; of several, the one that starts
/// last.
///
/// Every position of `s`, and every gap between two positions, is tried as
/// the centre of a palindrome, which is grown as long as the characters on
/// its two sides agree.
pub fn manacher(s: String) -> (answer: String)
    ensures
        exists|a: int, b: int| longest_palindrome(s@, a, b) && answer@ == s@.subrange(a, b),
{
    let chars = characters(s.as_str());
    let n = chars.len();
    let ghost text = chars@;
    let mut best_from: usize = 0;
    let mut best_to: usize = 0;
    let mut from: usize = 0;
    let mut on_character = false;
    proof {
        assert(text.subrange(0, 0) =~= Seq::<char>::empty());
    }
    // the centres from left to right: the gap before position `from`, then
    // position `from` itself, then the next gap
    loop
        invariant
            text == chars@,
            text == s@,
            n == text.len(),
            from <= n,
            on_character ==> from < n,
            palindrome_at(text, best_from as int, best_to as int),
            forall|c: int, d: int| #[trigger]
                palindrome_at(text, c, d) && c + d < 2 * from + if on_character {
                    1int
                } else {
                    0int
                } ==> d - c < best_to - best_from || (d - c == best_to - best_from && c
                    <= best_from),
        ensures
            longest_palindrome(text, best_from as int, best_to as int),
            best_from <= best_to <= n,
        decreases
                n - from,
                (if on_character {
                    0int
                } else {
                    1int
                }),
    {
        let ghost centre = 2 * from + if on_character {
            1int
        } else {
            0int
        };
        let mut left: usize = from;
        let mut right: usize = if on_character {
            from + 1
        } else {
            from
        };
        proof {
            if on_character {
                assert(text.subrange(left as int, right as int).len() == 1);
            } else {
                assert(text.subrange(left as int, right as int) =~= Seq::<char>::empty());
            }
        }
        while left >= 1 && right < n && chars[left - 1] == chars[right]
            invariant
                text == chars@,
                n == text.len(),
                left <= right <= n,
                left + right == centre,
                palindrome_at(text, left as int, right as int),
            decreases left,
        {
            proof {
                lemma_palindrome_outer(text, left as int, right as int);
            }
            left -= 1;
            right += 1;
        }
        proof {
            // no palindrome around this centre is longer
            assert forall|c: int, d: int| #[trigger]
                palindrome_at(text, c, d) && c + d == centre implies d - c <= right - left by {
                if d - c > right - left {
                    lemma_palindrome_nested(text, left - 1, right + 1, c, d);
                    lemma_palindrome_inner(text, left - 1, right + 1);
                }
            }
        }
        if right - left >= best_to - best_from {
            best_from = left;
            best_to = right;
        }
        if on_character {
            from += 1;
            on_character = false;
        } else {
            if from == n {
                break;
            }
            on_character = true;
        }
    }
    let mut answer = String::new();
    let mut i: usize = best_from;
    while i < best_to
        invariant
            text == chars@,
            best_from <= i <= best_to <= text.len(),
            answer@ == text.subrange(best_from as int, i as int),
        decreases best_to - i,
    {
        answer.push(chars[i]);
        proof {
            assert(answer@ =~= text.subrange(best_from as int, i + 1));
        }
        i += 1;
    }
    answer
}

} // verus!
