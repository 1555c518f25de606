//! Edit distance between byte strings.

use vstd::prelude::*;
use vstd::utf8::encode_utf8;

verus! {

/// The smallest of three numbers.
pub open spec fn min3(x: nat, y: nat, z: nat) -> nat {
    if x <= y && x <= z {
        x
    } else if y <= z {
        y
    } else {
        z
    }
}

/// The Levenshtein distance between `a` and `b`: the least number of
/// single-byte insertions, deletions and substitutions that turn one into
/// the other.
pub open spec fn edit_distance(a: Seq<u8>, b: Seq<u8>) -> nat
    decreases a.len() + b.len(),
{
    if a.len() == 0 {
        b.len()
    } else if b.len() == 0 {
        a.len()
    } else {
        let keep: nat = if a.last() == b.last() { 0 } else { 1 };
        min3(
            edit_distance(a.drop_last(), b) + 1,
            edit_distance(a, b.drop_last()) + 1,
            edit_distance(a.drop_last(), b.drop_last()) + keep,
        )
    }
}

/// The distance never exceeds the length of the longer string.
pub proof fn lemma_distance_at_most_longer(a: Seq<u8>, b: Seq<u8>)
    ensures
        edit_distance(a, b) <= a.len() || edit_distance(a, b) <= b.len(),
    decreases a.len() + b.len(),
{
    if a.len() > 0 && b.len() > 0 {
        lemma_distance_at_most_longer(a.drop_last(), b.drop_last());
    }
}

/// Appending one byte to the second string raises the distance by at most one.
proof fn lemma_distance_push_right(a: Seq<u8>, b: Seq<u8>, c: u8)
    ensures
        edit_distance(a, b.push(c)) <= edit_distance(a, b) + 1,
{
    assert(b.push(c).drop_last() =~= b);
}

/// Appending one byte to the first string raises the distance by at most one.
proof fn lemma_distance_push_left(a: Seq<u8>, b: Seq<u8>, c: u8)
    ensures
        edit_distance(a.push(c), b) <= edit_distance(a, b) + 1,
{
    assert(a.push(c).drop_last() =~= a);
}

/// Dropping the last byte of the first string raises the distance by at most one.
proof fn lemma_distance_drop_left(a: Seq<u8>, b: Seq<u8>, c: u8)
    ensures
        edit_distance(a, b) <= edit_distance(a.push(c), b) + 1,
    decreases a.len() + b.len(),
{
    let a1 = a.push(c);
    assert(a1.drop_last() =~= a);
    if b.len() > 0 {
        let b0 = b.drop_last();
        assert(b =~= b0.push(b.last()));
        lemma_distance_drop_left(a, b0, c);
        lemma_distance_push_right(a, b0, b.last());
    }
}

/// Dropping the last byte of the second string raises the distance by at most one.
proof fn lemma_distance_drop_right(a: Seq<u8>, b: Seq<u8>, c: u8)
    ensures
        edit_distance(a, b) <= edit_distance(a, b.push(c)) + 1,
    decreases a.len() + b.len(),
{
    let b1 = b.push(c);
    assert(b1.drop_last() =~= b);
    if a.len() > 0 {
        let a0 = a.drop_last();
        assert(a =~= a0.push(a.last()));
        lemma_distance_drop_right(a0, b, c);
        lemma_distance_push_left(a0, b, a.last());
    }
}

/// Two strings that end in the same byte are as far apart as they are
/// without it.
proof fn lemma_distance_same_last(a: Seq<u8>, b: Seq<u8>, c: u8)
    ensures
        edit_distance(a.push(c), b.push(c)) == edit_distance(a, b),
{
    assert(a.push(c).drop_last() =~= a);
    assert(b.push(c).drop_last() =~= b);
    lemma_distance_drop_left(a, b, c);
    lemma_distance_drop_right(a, b, c);
}

/// How many bytes of `s` are in the set `of`.
pub open spec fn count(s: Seq<u8>, of: Set<u8>) -> nat
    decreases s.len(),
{
    if s.len() == 0 {
        0
    } else {
        count(s.drop_last(), of) + if of.contains(s.last()) {
            1nat
        } else {
            0nat
        }
    }
}

/// A string has no more bytes of a set than it has bytes.
proof fn lemma_count_at_most_len(s: Seq<u8>, of: Set<u8>)
    ensures
        count(s, of) <= s.len(),
    decreases s.len(),
{
    if s.len() > 0 {
        lemma_count_at_most_len(s.drop_last(), of);
    }
}

/// Two strings are at least as far apart as their numbers of bytes of any
/// one set are.
pub proof fn lemma_distance_at_least_count_gap(a: Seq<u8>, b: Seq<u8>, of: Set<u8>)
    ensures
        count(a, of) - count(b, of) <= edit_distance(a, b),
        count(b, of) - count(a, of) <= edit_distance(a, b),
    decreases a.len() + b.len(),
{
    lemma_count_at_most_len(a, of);
    lemma_count_at_most_len(b, of);
    if a.len() > 0 && b.len() > 0 {
        lemma_distance_at_least_count_gap(a.drop_last(), b, of);
        lemma_distance_at_least_count_gap(a, b.drop_last(), of);
        lemma_distance_at_least_count_gap(a.drop_last(), b.drop_last(), of);
    }
}

/// Two strings are at least as far apart as their lengths are.
pub proof fn lemma_distance_at_least_length_gap(a: Seq<u8>, b: Seq<u8>)
    ensures
        a.len() - b.len() <= edit_distance(a, b),
        b.len() - a.len() <= edit_distance(a, b),
    decreases a.len() + b.len(),
{
    if a.len() > 0 && b.len() > 0 {
        lemma_distance_at_least_length_gap(a.drop_last(), b);
        lemma_distance_at_least_length_gap(a, b.drop_last());
        lemma_distance_at_least_length_gap(a.drop_last(), b.drop_last());
    }
}

/// A string is at distance zero from itself.
pub proof fn lemma_distance_to_self(a: Seq<u8>)
    ensures
        edit_distance(a, a) == 0,
    decreases a.len(),
{
    if a.len() > 0 {
        lemma_distance_to_self(a.drop_last());
    }
}

/// Only equal strings are at distance zero.
pub proof fn lemma_distance_zero(a: Seq<u8>, b: Seq<u8>)
    ensures
        edit_distance(a, b) == 0 <==> a == b,
    decreases a.len() + b.len(),
{
    if a == b {
        lemma_distance_to_self(a);
    }
    if a.len() > 0 && b.len() > 0 {
        lemma_distance_zero(a.drop_last(), b.drop_last());
        if edit_distance(a, b) == 0 {
            assert(a =~= a.drop_last().push(a.last()));
            assert(b =~= b.drop_last().push(b.last()));
        }
    } else if edit_distance(a, b) == 0 {
        assert(a =~= b);
    }
}

/// The distance is the same in both directions.
pub proof fn lemma_distance_symmetric(a: Seq<u8>, b: Seq<u8>)
    ensures
        edit_distance(a, b) == edit_distance(b, a),
    decreases a.len() + b.len(),
{
    if a.len() > 0 && b.len() > 0 {
        lemma_distance_symmetric(a.drop_last(), b);
        lemma_distance_symmetric(a, b.drop_last());
        lemma_distance_symmetric(a.drop_last(), b.drop_last());
    }
}

/// The way from `a` to `c` is no longer than the way through `b`.
pub proof fn lemma_distance_triangle(a: Seq<u8>, b: Seq<u8>, c: Seq<u8>)
    ensures
        edit_distance(a, c) <= edit_distance(a, b) + edit_distance(b, c),
    decreases a.len() + b.len() + c.len(),
{
    if a.len() == 0 || c.len() == 0 {
        lemma_distance_at_least_length_gap(a, b);
        lemma_distance_at_least_length_gap(b, c);
    } else if b.len() == 0 {
        lemma_distance_at_most_longer(a, c);
    } else {
        let a0 = a.drop_last();
        let b0 = b.drop_last();
        let c0 = c.drop_last();
        lemma_distance_triangle(a0, b, c);
        lemma_distance_triangle(a, b0, c);
        lemma_distance_triangle(a, b, c0);
        lemma_distance_triangle(a, b0, c0);
        lemma_distance_triangle(a0, b0, c);
        lemma_distance_triangle(a0, b0, c0);
    }
}

/// The edit distance between two byte slices, by dynamic programming over
/// two rows of the table.
pub fn bytes_distance(a: &[u8], b: &[u8]) -> (d: usize)
    ensures
        d == edit_distance(a@, b@),
{
    let m: usize = a.len();
    let n: usize = b.len();
    let mut prev: Vec<usize> = Vec::new();
    let mut dist: Vec<usize> = Vec::new();
    prev.push(0);
    dist.push(0);
    let mut j: usize = 0;
    while j < n
        invariant
            j <= n,
            n == b@.len(),
            prev@.len() == j + 1,
            dist@.len() == j + 1,
            forall|k: int| 0 <= k <= j ==> prev@[k] == k,
        decreases n - j,
    {
        j += 1;
        prev.push(j);
        dist.push(j);
    }
    assert forall|k: int| 0 <= k <= n implies prev@[k] == edit_distance(
        a@.take(0),
        #[trigger] b@.take(k),
    ) by {
        assert(a@.take(0).len() == 0);
    }
    let mut i: usize = 0;
    while i < m
        invariant
            i <= m,
            m == a@.len(),
            n == b@.len(),
            prev@.len() == n + 1,
            dist@.len() == n + 1,
            forall|k: int|
                0 <= k <= n ==> prev@[k] == edit_distance(a@.take(i as int), #[trigger] b@.take(k)),
        decreases m - i,
    {
        let ghost upper = a@.take(i as int);
        let ghost lower = a@.take(i + 1);
        proof {
            assert(lower =~= upper.push(a@[i as int]));
            assert(lower.drop_last() =~= upper);
            assert(b@.take(0).len() == 0);
            assert(prev@[0] == edit_distance(upper, b@.take(0)));
        }
        dist.set(0, i + 1);
        let mut j: usize = 0;
        while j < n
            invariant
                j <= n,
                i < m,
                m == a@.len(),
                n == b@.len(),
                prev@.len() == n + 1,
                dist@.len() == n + 1,
                upper == a@.take(i as int),
                lower == a@.take(i + 1),
                lower == upper.push(a@[i as int]),
                forall|k: int|
                    0 <= k <= n ==> prev@[k] == edit_distance(upper, #[trigger] b@.take(k)),
                forall|k: int|
                    0 <= k <= j ==> dist@[k] == edit_distance(lower, #[trigger] b@.take(k)),
            decreases n - j,
        {
            j += 1;
            let ghost left = b@.take(j - 1);
            let ghost here = b@.take(j as int);
            proof {
                assert(here =~= left.push(b@[j - 1]));
                assert(here.drop_last() =~= left);
                assert(lower.drop_last() =~= upper);
                assert(prev@[j as int] == edit_distance(upper, here));
                assert(prev@[j - 1] == edit_distance(upper, left));
                assert(dist@[j - 1] == edit_distance(lower, left));
                lemma_distance_at_most_longer(lower, here);
            }
            let next: usize = if a[i] == b[j - 1] {
                proof {
                    lemma_distance_same_last(upper, left, a@[i as int]);
                }
                prev[j - 1]
            } else {
                let mut least: usize = prev[j];
                if dist[j - 1] < least {
                    least = dist[j - 1];
                }
                if prev[j - 1] < least {
                    least = prev[j - 1];
                }
                least + 1
            };
            dist.set(j, next);
        }
        std::mem::swap(&mut prev, &mut dist);
        i += 1;
    }
    proof {
        assert(a@.take(m as int) =~= a@);
        assert(b@.take(n as int) =~= b@);
    }
    prev[n]
}

/// The edit distance between two strings, taken over their bytes, so that a
/// character of several bytes counts as several.
pub fn min_distance(word1: &str, word2: &str) -> (d: usize)
    ensures
        d == edit_distance(encode_utf8(word1@), encode_utf8(word2@)),
{
    bytes_distance(word1.as_bytes(), word2.as_bytes())
}

} // verus!
