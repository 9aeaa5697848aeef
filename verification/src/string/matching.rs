//! Occurrences of a pattern in a text, both taken as sequences of bytes.
use vstd::prelude::*;

verus! {

/// The bytes of a string: its characters in UTF-8.
pub open spec fn bytes_of(s: Seq<char>) -> Seq<u8> {
    vstd::utf8::encode_utf8(s)
}

/// `pat` occurs in `text` at position `i`.
pub open spec fn occurs_at(text: Seq<u8>, pat: Seq<u8>, i: int) -> bool {
    &&& 0 <= i
    &&& i + pat.len() <= text.len()
    &&& text.subrange(i, i + pat.len()) == pat
}

/// `found` lists, in rising order, exactly the positions before `end` at
/// which `pat` occurs in `text`.
pub open spec fn matches_before(found: Seq<usize>, text: Seq<u8>, pat: Seq<u8>, end: int) -> bool {
    &&& forall|k: int| 0 <= k < found.len() ==> occurs_at(text, pat, #[trigger] found[k] as int)
            && found[k] < end
    &&& forall|j: int, k: int| 0 <= j < k < found.len() ==> found[j] < found[k]
    &&& forall|i: int|
        0 <= i < end && #[trigger] occurs_at(text, pat, i) ==> exists|k: int|
            0 <= k < found.len() && found[k] == i
}

/// `found` lists, in rising order, exactly the positions at which `pat`
/// occurs in `text`; where either is empty, it lists none.
pub open spec fn all_matches(found: Seq<usize>, text: Seq<u8>, pat: Seq<u8>) -> bool {
    if text.len() == 0 || pat.len() == 0 {
        found.len() == 0
    } else {
        matches_before(found, text, pat, text.len() as int)
    }
}

/// Two lists of all matches of the same pattern in the same text are the
/// same list.
pub proof fn lemma_all_matches_unique(a: Seq<usize>, b: Seq<usize>, text: Seq<u8>, pat: Seq<u8>)
    requires
        all_matches(a, text, pat),
        all_matches(b, text, pat),
    ensures
        a == b,
    decreases a.len() + b.len(),
{
    if text.len() == 0 || pat.len() == 0 {
        assert(a =~= b);
    } else if a.len() == 0 {
        if b.len() > 0 {
            assert(occurs_at(text, pat, b[0] as int));
            let k = choose|k: int| 0 <= k < a.len() && a[k] == b[0];
        }
        assert(a =~= b);
    } else if b.len() == 0 {
        assert(occurs_at(text, pat, a[0] as int));
        let k = choose|k: int| 0 <= k < b.len() && b[k] == a[0];
    } else {
        // the last entries agree, and what comes before them lists all
        // matches before the last
        let la = a.last();
        let lb = b.last();
        assert(occurs_at(text, pat, la as int));
        assert(occurs_at(text, pat, lb as int));
        let ka = choose|k: int| 0 <= k < b.len() && b[k] == la;
        let kb = choose|k: int| 0 <= k < a.len() && a[k] == lb;
        assert(la == lb) by {
            if ka < b.len() - 1 {
                assert(b[ka] < b[b.len() - 1]);
            }
            if kb < a.len() - 1 {
                assert(a[kb] < a[a.len() - 1]);
            }
        }
        let a0 = a.drop_last();
        let b0 = b.drop_last();
        lemma_matches_shorter(a, text, pat);
        lemma_matches_shorter(b, text, pat);
        lemma_matches_same(a0, b0, text, pat, la as int);
        assert(a =~= a0.push(la));
        assert(b =~= b0.push(lb));
    }
}

/// A list of the matches before `end` without its last entry lists the
/// matches before that entry.
pub proof fn lemma_matches_shorter(found: Seq<usize>, text: Seq<u8>, pat: Seq<u8>)
    requires
        found.len() > 0,
        exists|end: int| matches_before(found, text, pat, end),
    ensures
        matches_before(found.drop_last(), text, pat, found.last() as int),
{
    let end = choose|end: int| matches_before(found, text, pat, end);
    let rest = found.drop_last();
    let last = found.last();
    assert forall|k: int| 0 <= k < rest.len() implies occurs_at(text, pat, #[trigger] rest[k] as int)
        && rest[k] < last by {
        assert(rest[k] == found[k]);
        assert(found[k] < found[found.len() - 1]);
    }
    assert forall|j: int, k: int| 0 <= j < k < rest.len() implies rest[j] < rest[k] by {
        assert(found[j] < found[k]);
    }
    assert forall|i: int| 0 <= i < last && #[trigger] occurs_at(text, pat, i) implies exists|k: int|
        0 <= k < rest.len() && rest[k] == i by {
        assert(found[found.len() - 1] < end);
        let k = choose|k: int| 0 <= k < found.len() && found[k] == i;
        assert(k < found.len() - 1);
        assert(rest[k] == i);
    }
}

/// Two lists of the matches before the same position are the same list.
pub proof fn lemma_matches_same(
    a: Seq<usize>,
    b: Seq<usize>,
    text: Seq<u8>,
    pat: Seq<u8>,
    end: int,
)
    requires
        matches_before(a, text, pat, end),
        matches_before(b, text, pat, end),
    ensures
        a == b,
    decreases a.len() + b.len(),
{
    if a.len() == 0 {
        if b.len() > 0 {
            assert(occurs_at(text, pat, b[0] as int));
            let k = choose|k: int| 0 <= k < a.len() && a[k] == b[0];
        }
        assert(a =~= b);
    } else if b.len() == 0 {
        assert(occurs_at(text, pat, a[0] as int));
        let k = choose|k: int| 0 <= k < b.len() && b[k] == a[0];
    } else {
        let la = a.last();
        let lb = b.last();
        assert(occurs_at(text, pat, la as int));
        assert(occurs_at(text, pat, lb as int));
        let ka = choose|k: int| 0 <= k < b.len() && b[k] == la;
        let kb = choose|k: int| 0 <= k < a.len() && a[k] == lb;
        assert(la == lb) by {
            if ka < b.len() - 1 {
                assert(b[ka] < b[b.len() - 1]);
            }
            if kb < a.len() - 1 {
                assert(a[kb] < a[a.len() - 1]);
            }
        }
        lemma_matches_shorter(a, text, pat);
        lemma_matches_shorter(b, text, pat);
        lemma_matches_same(a.drop_last(), b.drop_last(), text, pat, la as int);
        assert(a =~= a.drop_last().push(la));
        assert(b =~= b.drop_last().push(lb));
    }
}

} // verus!
