//! Search for a pattern with the Knuth-Morris-Pratt table of borders.
use vstd::prelude::*;
use crate::string::matching::{all_matches, bytes_of, matches_before, occurs_at};

verus! {

/// The first `k` bytes of `pat` are also the last `k` of its first `n`
/// bytes.
pub open spec fn border(pat: Seq<u8>, n: int, k: int) -> bool {
    &&& 0 <= k <= n <= pat.len()
    &&& forall|t: int| 0 <= t < k ==> pat[t] == #[trigger] pat[n - k + t]
}

/// `k` is the length of the longest border of the first `n` bytes of `pat`
/// that is shorter than `n`.
pub open spec fn longest_border(pat: Seq<u8>, n: int, k: int) -> bool {
    &&& border(pat, n, k)
    &&& k < n
    &&& forall|other: int| k < other < n ==> !border(pat, n, other)
}

/// The first `k` bytes of `pat` are the `k` bytes of `text` before
/// position `i`.
pub open spec fn ends_with(text: Seq<u8>, i: int, pat: Seq<u8>, k: int) -> bool {
    &&& 0 <= k <= i <= text.len()
    &&& k <= pat.len()
    &&& forall|t: int| 0 <= t < k ==> pat[t] == #[trigger] text[i - k + t]
}

/// A border of a border is a border.
pub proof fn lemma_border_of_border(pat: Seq<u8>, n: int, j: int, k: int)
    requires
        border(pat, n, j),
        border(pat, j, k),
    ensures
        border(pat, n, k),
{
    assert forall|t: int| 0 <= t < k implies pat[t] == #[trigger] pat[n - k + t] by {
        assert(pat[t] == pat[j - k + t]);
        assert(pat[j - k + t] == pat[n - j + (j - k + t)]);
    }
}

/// Of two borders, the shorter is a border of the longer.
pub proof fn lemma_border_nested(pat: Seq<u8>, n: int, j: int, k: int)
    requires
        border(pat, n, j),
        border(pat, n, k),
        k <= j,
    ensures
        border(pat, j, k),
{
    assert forall|t: int| 0 <= t < k implies pat[t] == #[trigger] pat[j - k + t] by {
        assert(pat[t] == pat[n - k + t]);
        assert(pat[j - k + t] == pat[n - j + (j - k + t)]);
    }
}

/// A border grows by one exactly where the bytes behind its two ends
/// agree.
pub proof fn lemma_border_grow(pat: Seq<u8>, n: int, k: int)
    requires
        0 <= k <= n < pat.len(),
    ensures
        border(pat, n + 1, k + 1) <==> border(pat, n, k) && pat[k] == pat[n],
{
    if border(pat, n + 1, k + 1) {
        assert forall|t: int| 0 <= t < k implies pat[t] == #[trigger] pat[n - k + t] by {
            assert(pat[t] == pat[(n + 1) - (k + 1) + t]);
        }
        assert(pat[k] == pat[(n + 1) - (k + 1) + k]);
    }
    if border(pat, n, k) && pat[k] == pat[n] {
        assert forall|t: int| 0 <= t < k + 1 implies pat[t] == #[trigger] pat[(n + 1) - (k + 1)
            + t] by {
            if t < k {
                assert(pat[t] == pat[n - k + t]);
            }
        }
    }
}

/// Where the text ends with a prefix of the pattern, it ends with every
/// border of that prefix.
pub proof fn lemma_ends_with_border(text: Seq<u8>, i: int, pat: Seq<u8>, j: int, k: int)
    requires
        ends_with(text, i, pat, j),
        border(pat, j, k),
    ensures
        ends_with(text, i, pat, k),
{
    assert forall|t: int| 0 <= t < k implies pat[t] == #[trigger] text[i - k + t] by {
        assert(pat[t] == pat[j - k + t]);
        assert(pat[j - k + t] == text[i - j + (j - k + t)]);
    }
}

/// Of two prefixes of the pattern that the text ends with, the shorter is a
/// border of the longer.
pub proof fn lemma_ends_with_nested(text: Seq<u8>, i: int, pat: Seq<u8>, j: int, k: int)
    requires
        ends_with(text, i, pat, j),
        ends_with(text, i, pat, k),
        k <= j,
    ensures
        border(pat, j, k),
{
    assert forall|t: int| 0 <= t < k implies pat[t] == #[trigger] pat[j - k + t] by {
        assert(pat[t] == text[i - k + t]);
        assert(pat[j - k + t] == text[i - j + (j - k + t)]);
    }
}

/// The prefix that the text ends with grows by one exactly where the next
/// byte of the text is the next byte of the pattern.
pub proof fn lemma_ends_with_grow(text: Seq<u8>, i: int, pat: Seq<u8>, k: int)
    requires
        0 <= i < text.len(),
        0 <= k < pat.len(),
    ensures
        ends_with(text, i + 1, pat, k + 1) <==> ends_with(text, i, pat, k) && pat[k] == text[i],
{
    if ends_with(text, i + 1, pat, k + 1) {
        assert forall|t: int| 0 <= t < k implies pat[t] == #[trigger] text[i - k + t] by {
            assert(pat[t] == text[(i + 1) - (k + 1) + t]);
        }
        assert(pat[k] == text[(i + 1) - (k + 1) + k]);
    }
    if ends_with(text, i, pat, k) && pat[k] == text[i] {
        assert forall|t: int| 0 <= t < k + 1 implies pat[t] == #[trigger] text[(i + 1) - (k + 1)
            + t] by {
            if t < k {
                assert(pat[t] == text[i - k + t]);
            }
        }
    }
}

/// The text ends with the whole pattern before `i` exactly where the
/// pattern occurs at `i` less its length.
pub proof fn lemma_ends_with_all(text: Seq<u8>, i: int, pat: Seq<u8>)
    requires
        0 <= i <= text.len(),
        pat.len() <= i,
    ensures
        ends_with(text, i, pat, pat.len() as int) <==> occurs_at(text, pat, i - pat.len()),
{
    let m = pat.len() as int;
    if ends_with(text, i, pat, m) {
        assert(text.subrange(i - m, i) =~= pat) by {
            assert forall|t: int| 0 <= t < m implies text.subrange(i - m, i)[t] == pat[t] by {
                assert(pat[t] == text[i - m + t]);
            }
        }
    }
    if occurs_at(text, pat, i - m) {
        assert forall|t: int| 0 <= t < m implies pat[t] == #[trigger] text[i - m + t] by {
            assert(text.subrange(i - m, i)[t] == text[i - m + t]);
        }
    }
}

/// The table of the pattern: for each position, the length of the longest
/// border of the pattern up to and including that position.
fn border_table(pattern: &[u8]) -> (partial: Vec<usize>)
    requires
        pattern@.len() > 0,
    ensures
        partial@.len() == pattern@.len(),
        forall|i: int|
            0 <= i < partial@.len() ==> longest_border(pattern@, i + 1, #[trigger] partial@[i] as int),
{
    let ghost pat = pattern@;
    let mut partial: Vec<usize> = Vec::new();
    partial.push(0);
    let mut i: usize = 1;
    while i < pattern.len()
        invariant
            pat == pattern@,
            1 <= i <= pat.len(),
            partial@.len() == i,
            forall|x: int| 0 <= x < i ==> longest_border(pat, x + 1, #[trigger] partial@[x] as int),
        decreases pat.len() - i,
    {
        let mut j: usize = partial[i - 1];
        proof {
            assert(longest_border(pat, i as int, partial@[i - 1] as int));
        }
        while j > 0 && pattern[j] != pattern[i]
            invariant
                pat == pattern@,
                1 <= i < pat.len(),
                partial@.len() == i,
                j < i,
                forall|x: int|
                    0 <= x < i ==> longest_border(pat, x + 1, #[trigger] partial@[x] as int),
                border(pat, i as int, j as int),
                forall|k: int| j < k < i && border(pat, i as int, k) ==> pat[k] != pat[i as int],
            decreases j,
        {
            let next = partial[j - 1];
            proof {
                assert(longest_border(pat, j as int, partial@[j - 1] as int));
                lemma_border_of_border(pat, i as int, j as int, next as int);
                assert forall|k: int| next < k < i && border(pat, i as int, k) implies pat[k]
                    != pat[i as int] by {
                    if k < j {
                        lemma_border_nested(pat, i as int, j as int, k);
                    }
                }
            }
            j = next;
        }
        let entry = if pattern[j] == pattern[i] {
            j + 1
        } else {
            j
        };
        proof {
            lemma_border_grow(pat, i as int, j as int);
            let longer = i + 1;
            assert forall|other: int| entry < other < longer implies !#[trigger] border(
                pat,
                longer,
                other,
            ) by {
                lemma_border_grow(pat, i as int, other - 1);
            }
            assert(border(pat, i + 1, entry as int)) by {
                if pattern[j as int] != pattern[i as int] {
                    assert(j == 0);
                }
            }
        }
        let ghost before = partial@;
        partial.push(entry);
        proof {
            assert forall|x: int| 0 <= x < i + 1 implies longest_border(
                pat,
                x + 1,
                #[trigger] partial@[x] as int,
            ) by {
                if x < i {
                    assert(partial@[x] == before[x]);
                }
            }
        }
        i += 1;
    }
    partial
}

/// Returns the positions, counted in bytes, at which `pat` occurs in `st`,
/// in rising order; none where either is empty.
///
/// The text is read once from left to right. After a mismatch the search
/// goes on with the longest border of what had matched, which the table of
/// the pattern gives.
pub fn knuth_morris_pratt(st: String, pat: String) -> (ret: Vec<usize>)
    ensures
        all_matches(ret@, bytes_of(st@), bytes_of(pat@)),
{
    let string = st.as_str().as_bytes();
    let pattern = pat.as_str().as_bytes();
    let mut ret: Vec<usize> = Vec::new();
    if string.len() == 0 || pattern.len() == 0 {
        return ret;
    }
    let partial = border_table(pattern);
    let ghost text = string@;
    let ghost p = pattern@;
    let n = string.len();
    let m = pattern.len();
    let mut j: usize = 0;
    let mut i: usize = 0;
    while i < n
        invariant
            text == string@,
            p == pattern@,
            text == bytes_of(st@),
            p == bytes_of(pat@),
            n == text.len(),
            m == p.len(),
            m > 0,
            n > 0,
            i <= n,
            j < m,
            partial@.len() == m,
            forall|x: int| 0 <= x < m ==> longest_border(p, x + 1, #[trigger] partial@[x] as int),
            ends_with(text, i as int, p, j as int),
            forall|k: int| j < k < m ==> !ends_with(text, i as int, p, k),
            matches_before(ret@, text, p, i - m + 1),
        decreases n - i,
    {
        let c = string[i];
        while j > 0 && c != pattern[j]
            invariant
                text == string@,
                p == pattern@,
                n == text.len(),
                m == p.len(),
                i < n,
                j < m,
                c == text[i as int],
                partial@.len() == m,
                forall|x: int|
                    0 <= x < m ==> longest_border(p, x + 1, #[trigger] partial@[x] as int),
                ends_with(text, i as int, p, j as int),
                forall|k: int| j < k < m && ends_with(text, i as int, p, k) ==> p[k] != c,
            decreases j,
        {
            let next = partial[j - 1];
            proof {
                assert(longest_border(p, j as int, partial@[j - 1] as int));
                lemma_ends_with_border(text, i as int, p, j as int, next as int);
                assert forall|k: int| next < k < m && ends_with(text, i as int, p, k) implies p[k]
                    != c by {
                    if k < j {
                        lemma_ends_with_nested(text, i as int, p, j as int, k);
                    }
                }
            }
            j = next;
        }
        let ghost reached = j;
        if c == pattern[j] {
            j += 1;
        }
        proof {
            lemma_ends_with_grow(text, i as int, p, reached as int);
            let after = i + 1;
            assert forall|k: int| j < k <= m implies !#[trigger] ends_with(text, after, p, k) by {
                lemma_ends_with_grow(text, i as int, p, k - 1);
            }
        }
        let ghost before = ret@;
        if j == m {
            ret.push(i + 1 - j);
            proof {
                lemma_ends_with_all(text, i + 1, p);
                assert(longest_border(p, m as int, partial@[m - 1] as int));
            }
            let next = partial[j - 1];
            proof {
                lemma_ends_with_border(text, i + 1, p, m as int, next as int);
                let after = i + 1;
                assert forall|k: int| next < k < m implies !#[trigger] ends_with(
                    text,
                    after,
                    p,
                    k,
                ) by {
                    if ends_with(text, after, p, k) {
                        lemma_ends_with_nested(text, after, p, m as int, k);
                    }
                }
            }
            j = next;
        } else {
            proof {
                if i + 1 >= m {
                    lemma_ends_with_all(text, i + 1, p);
                }
            }
        }
        proof {
            let end = i + 1 - m + 1;
            assert forall|k: int| 0 <= k < ret@.len() implies occurs_at(
                text,
                p,
                #[trigger] ret@[k] as int,
            ) && ret@[k] < end by {
                if k < before.len() {
                    assert(ret@[k] == before[k]);
                }
            }
            assert forall|a: int, b: int| 0 <= a < b < ret@.len() implies ret@[a] < ret@[b] by {
                assert(ret@[a] == before[a]);
                if b < before.len() {
                    assert(ret@[b] == before[b]);
                }
            }
            assert forall|q: int| 0 <= q < end && #[trigger] occurs_at(text, p, q) implies exists|
                k: int,
            | 0 <= k < ret@.len() && ret@[k] == q by {
                if q < end - 1 {
                    let k = choose|k: int| 0 <= k < before.len() && before[k] == q;
                    assert(ret@[k] == q);
                } else {
                    assert(ret@[ret@.len() - 1] == q);
                }
            }
        }
        i += 1;
    }
    proof {
        assert forall|q: int| 0 <= q < n && #[trigger] occurs_at(text, p, q) implies exists|k: int|
            0 <= k < ret@.len() && ret@[k] == q by {
            assert(q < n - m + 1);
        }
        assert forall|k: int| 0 <= k < ret@.len() implies occurs_at(
            text,
            p,
            #[trigger] ret@[k] as int,
        ) && ret@[k] < n by {
        }
    }
    ret
}

} // verus!
