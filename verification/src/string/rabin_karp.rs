//! Search for a pattern by comparing hashes of windows of the text.
use vstd::prelude::*;
use crate::string::matching::{all_matches, bytes_of, matches_before, occurs_at};

verus! {

/// The hash after the first `upto` bytes, which stops short of the last
/// byte: each byte is added, the sum taken modulo 101, shifted by a byte
/// and taken modulo 101 again.
pub open spec fn rolling(bytes: Seq<u8>, upto: int) -> int
    decreases upto,
{
    if upto <= 0 {
        0
    } else if upto == 1 {
        (bytes[0] * 256) % 101
    } else {
        (((rolling(bytes, upto - 1) + bytes[upto - 1]) % 101) * 256) % 101
    }
}

/// The hash of a non-empty sequence of bytes: the rolling hash of all bytes
/// but the last, plus the last, modulo 101.
pub open spec fn hash_of(bytes: Seq<u8>) -> int {
    (rolling(bytes, bytes.len() - 1) + bytes.last()) % 101
}

/// The rolling hash of a stretch only depends on the bytes of the stretch.
pub proof fn lemma_rolling_window(bytes: Seq<u8>, from: int, to: int, upto: int)
    requires
        0 <= from <= to <= bytes.len(),
        0 <= upto <= to - from,
    ensures
        rolling(bytes.subrange(from, to), upto) == rolling(
            bytes.subrange(from, from + upto),
            upto,
        ),
    decreases upto,
{
    let a = bytes.subrange(from, to);
    let b = bytes.subrange(from, from + upto);
    if upto >= 1 {
        assert(a[0] == b[0]);
        assert(a[upto - 1] == b[upto - 1]);
    }
    if upto >= 2 {
        lemma_rolling_window(bytes, from, to, upto - 1);
        lemma_rolling_window(bytes, from, from + upto, upto - 1);
    }
}

/// The hash of the bytes of `bytes` from `from` up to, but not including,
/// `to`.
fn hash_window(bytes: &[u8], from: usize, to: usize) -> (h: u16)
    requires
        from < to <= bytes@.len(),
    ensures
        h == hash_of(bytes@.subrange(from as int, to as int)),
        h < 101,
{
    let prime: u16 = 101;
    let ghost window = bytes@.subrange(from as int, to as int);
    let mut res: u16 = 0;
    let mut i: usize = from;
    while i < to - 1
        invariant
            from <= i <= to - 1,
            to <= bytes@.len(),
            prime == 101,
            window == bytes@.subrange(from as int, to as int),
            res == rolling(window, i - from),
            res < 101,
        decreases to - i,
    {
        let c = bytes[i];
        proof {
            assert(window[i - from] == c);
        }
        if i == from {
            res = (c as u16 * 256) % prime;
        } else {
            res = (((res + c as u16) % 101) * 256) % 101;
        }
        i += 1;
    }
    let last_char = bytes[to - 1];
    proof {
        assert(window.last() == last_char);
    }
    (res + last_char as u16) % prime
}

/// The hash of a non-empty string, computed over its bytes.
pub fn hash(s: String) -> (h: u16)
    requires
        s@.len() > 0,
    ensures
        h == hash_of(bytes_of(s@)),
        h < 101,
{
    let bytes = s.as_str().as_bytes();
    proof {
        lemma_bytes_nonempty(s@);
        assert(bytes@.subrange(0, bytes@.len() as int) =~= bytes@);
    }
    hash_window(bytes, 0, bytes.len())
}

/// A string with a character has a byte.
pub proof fn lemma_bytes_nonempty(s: Seq<char>)
    requires
        s.len() > 0,
    ensures
        bytes_of(s).len() > 0,
{
    let first = vstd::utf8::encode_scalar(s[0] as u32);
    assert(first.len() > 0);
    assert(bytes_of(s) == first + vstd::utf8::encode_utf8(s.drop_first()));
}

/// Tells whether the window of `text` at `at` equals `pat`.
fn window_is(text: &[u8], at: usize, pat: &[u8]) -> (same: bool)
    requires
        at + pat@.len() <= text@.len(),
    ensures
        same == occurs_at(text@, pat@, at as int),
{
    let n = text.len();
    let mut k: usize = 0;
    while k < pat.len()
        invariant
            n == text@.len(),
            at + pat@.len() <= text@.len(),
            k <= pat@.len(),
            forall|j: int| 0 <= j < k ==> text@[at + j] == #[trigger] pat@[j],
        decreases pat@.len() - k,
    {
        if text[at + k] != pat[k] {
            proof {
                let window = text@.subrange(at as int, at + pat@.len());
                assert(window[k as int] != pat@[k as int]);
            }
            return false;
        }
        k += 1;
    }
    proof {
        assert(text@.subrange(at as int, at + pat@.len()) =~= pat@);
    }
    true
}

/// Returns the positions, counted in bytes, at which `pattern` occurs in
/// `target`, in rising order; none where either is empty.
///
/// A window of the text is compared with the pattern only where their
/// hashes agree.
pub fn rabin_karp(target: String, pattern: String) -> (ret: Vec<usize>)
    ensures
        all_matches(ret@, bytes_of(target@), bytes_of(pattern@)),
{
    let text = target.as_str().as_bytes();
    let pat = pattern.as_str().as_bytes();
    let mut ret: Vec<usize> = Vec::new();
    if text.len() == 0 || pat.len() == 0 || pat.len() > text.len() {
        proof {
            if text@.len() > 0 && pat@.len() > 0 {
                assert forall|i: int| 0 <= i < text@.len() implies !#[trigger] occurs_at(
                    text@,
                    pat@,
                    i,
                ) by {
                }
            }
        }
        return ret;
    }
    let hash_pattern = hash_window(pat, 0, pat.len());
    let n = text.len();
    let last = n - pat.len();
    let mut i: usize = 0;
    proof {
        assert(pat@.subrange(0, pat@.len() as int) =~= pat@);
    }
    while i <= last
        invariant
            text@ == bytes_of(target@),
            pat@ == bytes_of(pattern@),
            0 < pat@.len() <= text@.len(),
            n == text@.len(),
            last == text@.len() - pat@.len(),
            i <= last + 1,
            hash_pattern == hash_of(pat@),
            matches_before(ret@, text@, pat@, i as int),
        decreases last + 1 - i,
    {
        let string_hash = hash_window(text, i, i + pat.len());
        let ghost before = ret@;
        let mut found = false;
        if string_hash == hash_pattern {
            if window_is(text, i, pat) {
                ret.push(i);
                found = true;
            }
        }
        proof {
            assert(found == occurs_at(text@, pat@, i as int));
            assert forall|k: int| 0 <= k < ret@.len() implies occurs_at(
                text@,
                pat@,
                #[trigger] ret@[k] as int,
            ) && ret@[k] < i + 1 by {
                if k < before.len() {
                    assert(ret@[k] == before[k]);
                }
            }
            assert forall|j: int, k: int| 0 <= j < k < ret@.len() implies ret@[j] < ret@[k] by {
                assert(ret@[j] == before[j]);
                if k < before.len() {
                    assert(ret@[k] == before[k]);
                }
            }
            assert forall|p: int| 0 <= p < i + 1 && #[trigger] occurs_at(text@, pat@, p) implies exists|
                k: int,
            | 0 <= k < ret@.len() && ret@[k] == p by {
                if p < i {
                    let k = choose|k: int| 0 <= k < before.len() && before[k] == p;
                    assert(ret@[k] == p);
                } else {
                    assert(ret@[ret@.len() - 1] == p);
                }
            }
        }
        i += 1;
    }
    proof {
        assert forall|p: int| 0 <= p < text@.len() && #[trigger] occurs_at(text@, pat@, p) implies exists|
            k: int,
        | 0 <= k < ret@.len() && ret@[k] == p by {
            assert(p <= last);
        }
        assert forall|k: int| 0 <= k < ret@.len() implies occurs_at(
            text@,
            pat@,
            #[trigger] ret@[k] as int,
        ) && ret@[k] < text@.len() by {
        }
    }
    ret
}

} // verus!
