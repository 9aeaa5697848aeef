//! The Burrows-Wheeler transform of a string, and the walk that undoes it.
use vstd::prelude::*;

verus! {

/// The character at position `t` of the rotation of `s` that starts at
/// position `i`.
pub open spec fn rotated(s: Seq<char>, i: int, t: int) -> char {
    if i + t < s.len() {
        s[i + t]
    } else {
        s[i + t - s.len()]
    }
}

/// The number by which a character is ranked: its code, where the letters
/// `A` to `Z` count as `a` to `z`.
pub open spec fn folded(c: char) -> int {
    if 'A' <= c <= 'Z' {
        c as int + 32
    } else {
        c as int
    }
}

/// The rotations at `i` and at `j` rank alike in their first `upto`
/// characters.
pub open spec fn alike(s: Seq<char>, i: int, j: int, upto: int) -> bool {
    forall|t: int| 0 <= t < upto ==> folded(#[trigger] rotated(s, i, t)) == folded(rotated(s, j, t))
}

/// The rotation at `i` ranks strictly below the rotation at `j`: at the
/// first character in which they differ in rank, that of `i` is lower.
pub open spec fn below(s: Seq<char>, i: int, j: int) -> bool {
    exists|k: int|
        0 <= k < s.len() && #[trigger] alike(s, i, j, k) && folded(rotated(s, i, k)) < folded(
            rotated(s, j, k),
        )
}

/// The rotation at `i` comes before the rotation at `j` in the sorted
/// table: it ranks below it, or alike and starts earlier.
pub open spec fn before(s: Seq<char>, i: int, j: int) -> bool {
    below(s, i, j) || (alike(s, i, j, s.len() as int) && i < j)
}

/// The rotation at `i` is the string itself.
pub open spec fn unrotated(s: Seq<char>, i: int) -> bool {
    forall|t: int| 0 <= t < s.len() ==> #[trigger] rotated(s, i, t) == s[t]
}

/// `table` lists the starts of all rotations of `s` in sorted order,
/// `encoded` holds the last character of each rotation in that order, and
/// `index` is the last place in the table at which the string itself
/// stands.
pub open spec fn transformed(s: Seq<char>, table: Seq<usize>, encoded: Seq<char>, index: usize) -> bool {
    &&& table.len() == s.len()
    &&& encoded.len() == s.len()
    &&& forall|k: int| 0 <= k < table.len() ==> #[trigger] table[k] < s.len()
    &&& forall|p: int, q: int|
        0 <= p < q < table.len() ==> before(s, #[trigger] table[p] as int, #[trigger] table[q] as int)
    &&& forall|k: int|
        0 <= k < table.len() ==> #[trigger] encoded[k] == rotated(s, table[k] as int, s.len() - 1)
    &&& s.len() == 0 ==> index == 0
    &&& s.len() > 0 ==> {
        &&& index < s.len()
        &&& unrotated(s, table[index as int] as int)
        &&& forall|k: int| index < k < table.len() ==> !unrotated(s, #[trigger] table[k] as int)
    }
}

/// The rotation that starts at `start` is listed in `table`.
pub open spec fn listed(table: Seq<usize>, start: int) -> bool {
    exists|k: int| 0 <= k < table.len() && #[trigger] table[k] == start
}

/// Coming before is transitive.
pub proof fn lemma_before_trans(s: Seq<char>, i: int, j: int, k: int)
    requires
        before(s, i, j),
        before(s, j, k),
    ensures
        before(s, i, k),
{
    let n = s.len() as int;
    if below(s, i, j) {
        let a = choose|a: int|
            0 <= a < n && #[trigger] alike(s, i, j, a) && folded(rotated(s, i, a)) < folded(
                rotated(s, j, a),
            );
        if below(s, j, k) {
            let b = choose|b: int|
                0 <= b < n && #[trigger] alike(s, j, k, b) && folded(rotated(s, j, b)) < folded(
                    rotated(s, k, b),
                );
            let m = if a <= b {
                a
            } else {
                b
            };
            assert(alike(s, i, k, m)) by {
                assert forall|t: int| 0 <= t < m implies folded(#[trigger] rotated(s, i, t))
                    == folded(rotated(s, k, t)) by {
                    assert(folded(rotated(s, i, t)) == folded(rotated(s, j, t)));
                    assert(folded(rotated(s, j, t)) == folded(rotated(s, k, t)));
                }
            }
            if a < b {
                assert(folded(rotated(s, j, a)) == folded(rotated(s, k, a)));
            } else if b < a {
                assert(folded(rotated(s, i, b)) == folded(rotated(s, j, b)));
            }
            assert(below(s, i, k));
        } else {
            assert(alike(s, i, k, a)) by {
                assert forall|t: int| 0 <= t < a implies folded(#[trigger] rotated(s, i, t))
                    == folded(rotated(s, k, t)) by {
                    assert(folded(rotated(s, i, t)) == folded(rotated(s, j, t)));
                    assert(folded(rotated(s, j, t)) == folded(rotated(s, k, t)));
                }
            }
            assert(folded(rotated(s, j, a)) == folded(rotated(s, k, a)));
            assert(below(s, i, k));
        }
    } else {
        if below(s, j, k) {
            let b = choose|b: int|
                0 <= b < n && #[trigger] alike(s, j, k, b) && folded(rotated(s, j, b)) < folded(
                    rotated(s, k, b),
                );
            assert(alike(s, i, k, b)) by {
                assert forall|t: int| 0 <= t < b implies folded(#[trigger] rotated(s, i, t))
                    == folded(rotated(s, k, t)) by {
                    assert(folded(rotated(s, i, t)) == folded(rotated(s, j, t)));
                    assert(folded(rotated(s, j, t)) == folded(rotated(s, k, t)));
                }
            }
            assert(folded(rotated(s, i, b)) == folded(rotated(s, j, b)));
            assert(below(s, i, k));
        } else {
            assert(alike(s, i, k, n)) by {
                assert forall|t: int| 0 <= t < n implies folded(#[trigger] rotated(s, i, t))
                    == folded(rotated(s, k, t)) by {
                    assert(folded(rotated(s, i, t)) == folded(rotated(s, j, t)));
                    assert(folded(rotated(s, j, t)) == folded(rotated(s, k, t)));
                }
            }
        }
    }
}

/// The rank of a character.
fn fold(c: char) -> (r: u32)
    ensures
        r == folded(c),
{
    let code = c as u32;
    if 'A' <= c && c <= 'Z' {
        code + 32
    } else {
        code
    }
}

/// The character at position `t` of the rotation that starts at `i`.
fn rotate(chars: &Vec<char>, i: usize, t: usize) -> (c: char)
    requires
        i < chars@.len(),
        t < chars@.len(),
    ensures
        c == rotated(chars@, i as int, t as int),
{
    let n = chars.len();
    if t < n - i {
        chars[i + t]
    } else {
        chars[t - (n - i)]
    }
}

/// How the rotation at `i` ranks against the rotation at `j`.
enum Rank {
    Lower,
    Alike,
    Higher,
}

/// Compares the rotations at `i` and at `j` character by character.
fn rank(chars: &Vec<char>, i: usize, j: usize) -> (r: Rank)
    requires
        i < chars@.len(),
        j < chars@.len(),
    ensures
        r is Lower ==> below(chars@, i as int, j as int),
        r is Higher ==> below(chars@, j as int, i as int),
        r is Alike ==> alike(chars@, i as int, j as int, chars@.len() as int) && alike(
            chars@,
            j as int,
            i as int,
            chars@.len() as int,
        ),
{
    let n = chars.len();
    let mut t: usize = 0;
    while t < n
        invariant
            n == chars@.len(),
            i < n,
            j < n,
            t <= n,
            alike(chars@, i as int, j as int, t as int),
            alike(chars@, j as int, i as int, t as int),
        decreases n - t,
    {
        let a = fold(rotate(chars, i, t));
        let b = fold(rotate(chars, j, t));
        if a < b {
            return Rank::Lower;
        }
        if b < a {
            return Rank::Higher;
        }
        t += 1;
    }
    Rank::Alike
}

/// The starts of all rotations of `chars`, sorted: by the rank of the
/// rotation, and by the start among rotations that rank alike.
fn sorted_rotations(chars: &Vec<char>) -> (table: Vec<usize>)
    ensures
        table@.len() == chars@.len(),
        forall|k: int| 0 <= k < table@.len() ==> #[trigger] table@[k] < chars@.len(),
        forall|p: int, q: int|
            0 <= p < q < table@.len() ==> before(
                chars@,
                #[trigger] table@[p] as int,
                #[trigger] table@[q] as int,
            ),
        forall|start: int| 0 <= start < chars@.len() ==> #[trigger] listed(table@, start),
{
    let n = chars.len();
    let ghost s = chars@;
    let mut table: Vec<usize> = Vec::new();
    let mut start: usize = 0;
    while start < n
        invariant
            s == chars@,
            n == s.len(),
            start <= n,
            table@.len() == start,
            forall|k: int| 0 <= k < table@.len() ==> #[trigger] table@[k] < start,
            forall|p: int, q: int|
                0 <= p < q < table@.len() ==> before(
                    s,
                    #[trigger] table@[p] as int,
                    #[trigger] table@[q] as int,
                ),
            forall|known: int| 0 <= known < start ==> #[trigger] listed(table@, known),
        decreases n - start,
    {
        let ghost unsorted = table@;
        table.push(start);
        let mut pos: usize = start;
        proof {
            assert forall|known: int| 0 <= known < start + 1 implies #[trigger] listed(
                table@,
                known,
            ) by {
                if known < start {
                    assert(listed(unsorted, known));
                    let k = choose|k: int| 0 <= k < unsorted.len() && #[trigger] unsorted[k] == known;
                    assert(table@[k] == known);
                } else {
                    assert(table@[start as int] == known);
                }
            }
            assert forall|p: int, q: int| 0 <= p < q < pos implies before(
                s,
                #[trigger] table@[p] as int,
                #[trigger] table@[q] as int,
            ) by {
                assert(table@[p] == unsorted[p] && table@[q] == unsorted[q]);
            }
        }
        while pos > 0
            invariant
                s == chars@,
                n == s.len(),
                start < n,
                pos <= start,
                table@.len() == start + 1,
                table@[pos as int] == start,
                forall|k: int| 0 <= k < table@.len() ==> #[trigger] table@[k] <= start,
                forall|k: int| 0 <= k < table@.len() && k != pos ==> #[trigger] table@[k] < start,
                forall|p: int, q: int|
                    0 <= p < q < pos ==> before(
                        s,
                        #[trigger] table@[p] as int,
                        #[trigger] table@[q] as int,
                    ),
                forall|p: int, q: int|
                    pos <= p < q <= start ==> before(
                        s,
                        #[trigger] table@[p] as int,
                        #[trigger] table@[q] as int,
                    ),
                forall|p: int, q: int|
                    0 <= p < pos < q <= start ==> before(
                        s,
                        #[trigger] table@[p] as int,
                        #[trigger] table@[q] as int,
                    ),
                forall|known: int| 0 <= known < start + 1 ==> #[trigger] listed(table@, known),
            ensures
                table@.len() == start + 1,
                forall|k: int| 0 <= k < table@.len() ==> #[trigger] table@[k] <= start,
                forall|p: int, q: int|
                    0 <= p < q < table@.len() ==> before(
                        s,
                        #[trigger] table@[p] as int,
                        #[trigger] table@[q] as int,
                    ),
                forall|known: int| 0 <= known < start + 1 ==> #[trigger] listed(table@, known),
            decreases pos,
        {
            let ghost here = table@;
            let other = table[pos - 1];
            match rank(chars, start, other) {
                Rank::Lower => {},
                _ => {
                    proof {
                        assert(before(s, other as int, start as int));
                        assert forall|p: int, q: int| 0 <= p < q < here.len() implies before(
                            s,
                            #[trigger] here[p] as int,
                            #[trigger] here[q] as int,
                        ) by {
                            if q < pos {
                            } else if p >= pos {
                            } else if q > pos {
                            } else {
                                // q == pos, p < pos
                                if p < pos - 1 {
                                    assert(before(s, here[p] as int, here[pos - 1] as int));
                                    lemma_before_trans(
                                        s,
                                        here[p] as int,
                                        here[pos - 1] as int,
                                        here[pos as int] as int,
                                    );
                                }
                            }
                        }
                    }
                    break;
                },
            }
            table.as_mut_slice().swap(pos - 1, pos);
            proof {
                let now = table@;
                assert(now[pos - 1] == start && now[pos as int] == other);
                assert(before(s, start as int, other as int));
                assert forall|p: int, q: int| pos - 1 <= p < q <= start implies before(
                    s,
                    #[trigger] now[p] as int,
                    #[trigger] now[q] as int,
                ) by {
                    if p == pos - 1 {
                        if q == pos {
                        } else {
                            assert(now[q] == here[q]);
                            assert(before(s, here[pos as int] as int, here[q] as int));
                        }
                    } else if p == pos {
                        assert(now[q] == here[q]);
                        assert(before(s, here[pos - 1] as int, here[q] as int));
                    } else {
                        assert(now[p] == here[p] && now[q] == here[q]);
                    }
                }
                assert forall|p: int, q: int| 0 <= p < pos - 1 < q <= start implies before(
                    s,
                    #[trigger] now[p] as int,
                    #[trigger] now[q] as int,
                ) by {
                    assert(now[p] == here[p]);
                    if q == pos {
                        assert(before(s, here[p] as int, here[pos - 1] as int));
                    } else {
                        assert(now[q] == here[q]);
                    }
                }
                assert forall|p: int, q: int| 0 <= p < q < pos - 1 implies before(
                    s,
                    #[trigger] now[p] as int,
                    #[trigger] now[q] as int,
                ) by {
                    assert(now[p] == here[p] && now[q] == here[q]);
                }
                assert forall|known: int| 0 <= known < start + 1 implies #[trigger] listed(
                    now,
                    known,
                ) by {
                    assert(listed(here, known));
                    let k = choose|k: int| 0 <= k < here.len() && #[trigger] here[k] == known;
                    if k == pos {
                        assert(now[pos - 1] == known);
                    } else if k == pos - 1 {
                        assert(now[pos as int] == known);
                    } else {
                        assert(now[k] == known);
                    }
                }
                assert forall|k: int| 0 <= k < now.len() && k != pos - 1 implies #[trigger] now[k]
                    < start by {
                    if k == pos {
                        assert(here[pos - 1] < start);
                    } else {
                        assert(now[k] == here[k]);
                    }
                }
            }
            pos -= 1;
        }
        start += 1;
    }
    table
}

/// Tells whether the rotation at `i` is the string itself.
fn is_unrotated(chars: &Vec<char>, i: usize) -> (r: bool)
    requires
        i < chars@.len(),
    ensures
        r == unrotated(chars@, i as int),
{
    let n = chars.len();
    let mut t: usize = 0;
    while t < n
        invariant
            n == chars@.len(),
            i < n,
            t <= n,
            forall|x: int| 0 <= x < t ==> #[trigger] rotated(chars@, i as int, x) == chars@[x],
        decreases n - t,
    {
        if rotate(chars, i, t) != chars[t] {
            return false;
        }
        t += 1;
    }
    true
}

/// The characters of a string, in a vector.
fn characters(s: &str) -> (chars: Vec<char>)
    ensures
        chars@ == s@,
{
    let mut chars: Vec<char> = Vec::new();
    for c in it: s.chars()
        invariant
            it.seq() == s@,
            chars@ == s@.subrange(0, it.index()),
    {
        chars.push(c);
        proof {
            assert(chars@ =~= s@.subrange(0, it.index() + 1));
        }
    }
    proof {
        assert(chars@ =~= s@);
    }
    chars
}

/// Transforms `input`: all its rotations are sorted, the letters `A` to `Z`
/// ranking as `a` to `z` and rotations of equal rank staying in the order
/// of their starts. Returned are the last characters of the sorted
/// rotations and the last place among them at which `input` itself stands.
pub fn burrows_wheeler_transform(input: String) -> (r: (String, usize))
    ensures
        exists|table: Seq<usize>| transformed(input@, table, r.0@, r.1),
{
    let chars = characters(input.as_str());
    let len = chars.len();
    let table = sorted_rotations(&chars);
    let ghost s = chars@;
    let mut encoded = String::new();
    let mut index: usize = 0;
    let mut i: usize = 0;
    while i < len
        invariant
            s == chars@,
            s == input@,
            len == s.len(),
            i <= len,
            table@.len() == len,
            forall|k: int| 0 <= k < table@.len() ==> #[trigger] table@[k] < len,
            forall|start: int| 0 <= start < len ==> #[trigger] listed(table@, start),
            encoded@.len() == i,
            forall|k: int| 0 <= k < i ==> #[trigger] encoded@[k] == rotated(s, table@[k] as int, len - 1),
            index <= i,
            i > 0 ==> index < i,
            forall|k: int| 0 <= k < i && unrotated(s, #[trigger] table@[k] as int) ==> k <= index,
            (exists|k: int| 0 <= k < i && unrotated(s, #[trigger] table@[k] as int)) ==> unrotated(
                s,
                table@[index as int] as int,
            ),
        decreases len - i,
    {
        let start = table[i];
        let ghost before_push = encoded@;
        encoded.push(rotate(&chars, start, len - 1));
        if is_unrotated(&chars, start) {
            index = i;
        }
        proof {
            assert forall|k: int| 0 <= k < i + 1 implies #[trigger] encoded@[k] == rotated(
                s,
                table@[k] as int,
                len - 1,
            ) by {
                if k < i {
                    assert(encoded@[k] == before_push[k]);
                }
            }
        }
        i += 1;
    }
    proof {
        if len > 0 {
            assert(unrotated(s, 0));
            assert(listed(table@, 0));
            let k = choose|k: int| 0 <= k < table@.len() && #[trigger] table@[k] == 0;
            assert(unrotated(s, table@[k] as int));
        }
    }
    let r = (encoded, index);
    proof {
        assert(transformed(input@, table@, r.0@, r.1));
    }
    r
}

/// The character at position `i` of `s` comes before the one at position
/// `j` when the characters are sorted: it has the lower code, or the same
/// and stands earlier.
pub open spec fn sorts_before(s: Seq<char>, i: int, j: int) -> bool {
    s[i] < s[j] || (s[i] == s[j] && i < j)
}

/// `table` lists the positions of `s` in the sorted order of their
/// characters.
pub open spec fn ranked(s: Seq<char>, table: Seq<usize>) -> bool {
    &&& table.len() == s.len()
    &&& forall|k: int| 0 <= k < table.len() ==> #[trigger] table[k] < s.len()
    &&& forall|p: int, q: int|
        0 <= p < q < table.len() ==> sorts_before(
            s,
            #[trigger] table[p] as int,
            #[trigger] table[q] as int,
        )
}

/// The place in the table that is reached from `index` after `k` steps,
/// where each step goes from a place to the position that the table holds
/// there.
pub open spec fn place_after(table: Seq<usize>, index: int, k: int) -> int
    decreases k,
{
    if k <= 0 {
        index
    } else {
        table[place_after(table, index, k - 1)] as int
    }
}

/// `decoded` spells what the walk through the table from `index` passes:
/// at each place the character of `s` at the position that the table holds
/// there.
pub open spec fn restored(s: Seq<char>, table: Seq<usize>, index: int, decoded: Seq<char>) -> bool {
    &&& ranked(s, table)
    &&& decoded.len() == s.len()
    &&& forall|k: int|
        0 <= k < decoded.len() ==> #[trigger] decoded[k] == s[table[place_after(table, index, k)] as int]
}

/// The positions of `chars`, sorted by their characters; positions with the
/// same character stay in their order.
fn sorted_positions(chars: &Vec<char>) -> (table: Vec<usize>)
    ensures
        ranked(chars@, table@),
{
    let n = chars.len();
    let ghost s = chars@;
    let mut table: Vec<usize> = Vec::new();
    let mut start: usize = 0;
    while start < n
        invariant
            s == chars@,
            n == s.len(),
            start <= n,
            table@.len() == start,
            forall|k: int| 0 <= k < table@.len() ==> #[trigger] table@[k] < start,
            forall|p: int, q: int|
                0 <= p < q < table@.len() ==> sorts_before(
                    s,
                    #[trigger] table@[p] as int,
                    #[trigger] table@[q] as int,
                ),
        decreases n - start,
    {
        let ghost unsorted = table@;
        table.push(start);
        let mut pos: usize = start;
        proof {
            assert forall|p: int, q: int| 0 <= p < q < pos implies sorts_before(
                s,
                #[trigger] table@[p] as int,
                #[trigger] table@[q] as int,
            ) by {
                assert(table@[p] == unsorted[p] && table@[q] == unsorted[q]);
            }
        }
        while pos > 0 && chars[start] < chars[table[pos - 1]]
            invariant
                s == chars@,
                n == s.len(),
                start < n,
                pos <= start,
                table@.len() == start + 1,
                table@[pos as int] == start,
                forall|k: int| 0 <= k < table@.len() ==> #[trigger] table@[k] <= start,
                forall|k: int| 0 <= k < table@.len() && k != pos ==> #[trigger] table@[k] < start,
                forall|p: int, q: int|
                    0 <= p < q < pos ==> sorts_before(
                        s,
                        #[trigger] table@[p] as int,
                        #[trigger] table@[q] as int,
                    ),
                forall|p: int, q: int|
                    pos <= p < q <= start ==> sorts_before(
                        s,
                        #[trigger] table@[p] as int,
                        #[trigger] table@[q] as int,
                    ),
                forall|p: int, q: int|
                    0 <= p < pos < q <= start ==> sorts_before(
                        s,
                        #[trigger] table@[p] as int,
                        #[trigger] table@[q] as int,
                    ),
            decreases pos,
        {
            let ghost here = table@;
            table.as_mut_slice().swap(pos - 1, pos);
            proof {
                let now = table@;
                assert(now[pos - 1] == start && now[pos as int] == here[pos - 1]);
                assert forall|p: int, q: int| pos - 1 <= p < q <= start implies sorts_before(
                    s,
                    #[trigger] now[p] as int,
                    #[trigger] now[q] as int,
                ) by {
                    if p == pos - 1 {
                        if q > pos {
                            assert(now[q] == here[q]);
                            assert(sorts_before(s, here[pos as int] as int, here[q] as int));
                        }
                    } else if p == pos {
                        assert(now[q] == here[q]);
                        assert(sorts_before(s, here[pos - 1] as int, here[q] as int));
                    } else {
                        assert(now[p] == here[p] && now[q] == here[q]);
                    }
                }
                assert forall|p: int, q: int| 0 <= p < pos - 1 < q <= start implies sorts_before(
                    s,
                    #[trigger] now[p] as int,
                    #[trigger] now[q] as int,
                ) by {
                    assert(now[p] == here[p]);
                    if q == pos {
                        assert(sorts_before(s, here[p] as int, here[pos - 1] as int));
                    } else {
                        assert(now[q] == here[q]);
                    }
                }
                assert forall|p: int, q: int| 0 <= p < q < pos - 1 implies sorts_before(
                    s,
                    #[trigger] now[p] as int,
                    #[trigger] now[q] as int,
                ) by {
                    assert(now[p] == here[p] && now[q] == here[q]);
                }
                assert forall|k: int| 0 <= k < now.len() && k != pos - 1 implies #[trigger] now[k]
                    < start by {
                    if k == pos {
                        assert(here[pos - 1] < start);
                    } else {
                        assert(now[k] == here[k]);
                    }
                }
            }
            pos -= 1;
        }
        proof {
            let here = table@;
            assert forall|p: int, q: int| 0 <= p < q < here.len() implies sorts_before(
                s,
                #[trigger] here[p] as int,
                #[trigger] here[q] as int,
            ) by {
                if q < pos {
                } else if p >= pos {
                } else if q > pos {
                } else {
                    if p < pos - 1 {
                        assert(sorts_before(s, here[p] as int, here[pos - 1] as int));
                    }
                    assert(here[pos - 1] < start);
                }
            }
        }
        start += 1;
    }
    table
}

/// Undoes the transform: the characters of the encoded string are sorted,
/// those that are equal staying in their order, and the walk that starts at
/// the given place of the sorted table and goes on at the position that
/// each character came from spells the result.
pub fn inv_burrows_wheeler_transform(input: (String, usize)) -> (decoded: String)
    requires
        input.0@.len() > 0 ==> input.1 < input.0@.len(),
    ensures
        exists|table: Seq<usize>| restored(input.0@, table, input.1 as int, decoded@),
{
    let chars = characters(input.0.as_str());
    let len = chars.len();
    let table = sorted_positions(&chars);
    let ghost s = chars@;
    let ghost first = input.1 as int;
    let mut decoded = String::new();
    let mut idx: usize = input.1;
    let mut k: usize = 0;
    while k < len
        invariant
            s == chars@,
            s == input.0@,
            len == s.len(),
            k <= len,
            ranked(s, table@),
            len > 0 ==> idx < len,
            idx == place_after(table@, first, k as int),
            decoded@.len() == k,
            forall|j: int|
                0 <= j < k ==> #[trigger] decoded@[j] == s[table@[place_after(table@, first, j)] as int],
        decreases len - k,
    {
        let ghost spelled = decoded@;
        let from = table[idx];
        decoded.push(chars[from]);
        proof {
            assert forall|j: int| 0 <= j < k + 1 implies #[trigger] decoded@[j]
                == s[table@[place_after(table@, first, j)] as int] by {
                if j < k {
                    assert(decoded@[j] == spelled[j]);
                }
            }
            assert(place_after(table@, first, k + 1) == table@[place_after(
                table@,
                first,
                k as int,
            )] as int);
        }
        idx = from;
        k += 1;
    }
    proof {
        assert(restored(input.0@, table@, input.1 as int, decoded@));
    }
    decoded
}

} // verus!
