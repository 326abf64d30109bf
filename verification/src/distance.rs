//! Edit distance between identifiers, measured in Unicode scalar values,
//! and its algebraic laws.

use vstd::prelude::*;

verus! {

/// The smallest of three numbers.
pub open spec fn min3(x: nat, y: nat, z: nat) -> nat {
    if x <= y && x <= z {
        x
    } else if y <= z {
        y
    } else {
        z
    }
}

/// Cost of aligning two characters: free when equal, one substitution otherwise.
pub open spec fn subst_cost(x: char, y: char) -> nat {
    if x == y { 0 } else { 1 }
}

/// The Levenshtein distance: the fewest single-character insertions,
/// deletions and substitutions turning `a` into `b`.
pub open spec fn edit_distance(a: Seq<char>, b: Seq<char>) -> nat
    decreases a.len() + b.len(),
{
    if a.len() == 0 {
        b.len()
    } else if b.len() == 0 {
        a.len()
    } else {
        min3(
            edit_distance(a.drop_last(), b) + 1,
            edit_distance(a, b.drop_last()) + 1,
            edit_distance(a.drop_last(), b.drop_last()) + subst_cost(a.last(), b.last()),
        )
    }
}

/// The larger of two lengths.
pub open spec fn max_len(a: Seq<char>, b: Seq<char>) -> nat {
    if a.len() >= b.len() { a.len() } else { b.len() }
}

/// The distance never exceeds the longer length (substitute the common
/// part, then insert or delete the rest).
pub proof fn lemma_distance_at_most_longer(a: Seq<char>, b: Seq<char>)
    ensures
        edit_distance(a, b) <= max_len(a, b),
    decreases a.len() + b.len(),
{
    if a.len() != 0 && b.len() != 0 {
        lemma_distance_at_most_longer(a.drop_last(), b.drop_last());
    }
}

/// The distance is at least the difference of the lengths.
pub proof fn lemma_distance_at_least_length_gap(a: Seq<char>, b: Seq<char>)
    ensures
        edit_distance(a, b) >= a.len() - b.len(),
        edit_distance(a, b) >= b.len() - a.len(),
    decreases a.len() + b.len(),
{
    if a.len() != 0 && b.len() != 0 {
        lemma_distance_at_least_length_gap(a.drop_last(), b);
        lemma_distance_at_least_length_gap(a, b.drop_last());
        lemma_distance_at_least_length_gap(a.drop_last(), b.drop_last());
    }
}

/// A string is at distance zero from itself.
pub proof fn lemma_distance_to_self(a: Seq<char>)
    ensures
        edit_distance(a, a) == 0,
    decreases a.len(),
{
    if a.len() != 0 {
        lemma_distance_to_self(a.drop_last());
    }
}

/// Distance zero means the strings are equal.
pub proof fn lemma_distance_zero_means_equal(a: Seq<char>, b: Seq<char>)
    requires
        edit_distance(a, b) == 0,
    ensures
        a == b,
    decreases a.len() + b.len(),
{
    if a.len() != 0 && b.len() != 0 {
        lemma_distance_at_least_length_gap(a.drop_last(), b);
        lemma_distance_at_least_length_gap(a, b.drop_last());
        // only the diagonal step can reach zero
        lemma_distance_zero_means_equal(a.drop_last(), b.drop_last());
        assert(a =~= a.drop_last().push(a.last()));
        assert(b =~= b.drop_last().push(b.last()));
    }
}

/// The distance is symmetric.
pub proof fn lemma_distance_symmetric(a: Seq<char>, b: Seq<char>)
    ensures
        edit_distance(a, b) == edit_distance(b, a),
    decreases a.len() + b.len(),
{
    if a.len() != 0 && b.len() != 0 {
        lemma_distance_symmetric(a.drop_last(), b);
        lemma_distance_symmetric(a, b.drop_last());
        lemma_distance_symmetric(a.drop_last(), b.drop_last());
    }
}

/// The triangle inequality: going from `a` to `c` never costs more than
/// going through `b`.
pub proof fn lemma_distance_triangle(a: Seq<char>, b: Seq<char>, c: Seq<char>)
    ensures
        edit_distance(a, c) <= edit_distance(a, b) + edit_distance(b, c),
    decreases a.len() + b.len() + c.len(),
{
    if a.len() == 0 {
        lemma_distance_at_least_length_gap(b, c);
    } else if c.len() == 0 {
        lemma_distance_at_least_length_gap(a, b);
    } else if b.len() == 0 {
        lemma_distance_at_most_longer(a, c);
    } else {
        lemma_distance_triangle(a.drop_last(), b, c);
        lemma_distance_triangle(a, b, c.drop_last());
        lemma_distance_triangle(a, b.drop_last(), c);
        lemma_distance_triangle(a.drop_last(), b.drop_last(), c.drop_last());
        lemma_distance_triangle(a, b.drop_last(), c.drop_last());
        lemma_distance_triangle(a.drop_last(), b.drop_last(), c);
        lemma_drop_last_costs_one(a, c);
        lemma_drop_last_costs_one(c, a);
        lemma_distance_symmetric(a, c.drop_last());
        lemma_distance_symmetric(a, c);
    }
}

/// Dropping the last character of the first string changes the distance
/// by at most one.
proof fn lemma_drop_last_costs_one(a: Seq<char>, c: Seq<char>)
    requires
        a.len() > 0,
    ensures
        edit_distance(a, c) <= edit_distance(a.drop_last(), c) + 1,
{
}

/// The distance between the prefixes `a[..i]` and `b[..j]`: the cell the
/// dynamic program fills in row `i`, column `j`.
pub open spec fn prefix_distance(a: Seq<char>, b: Seq<char>, i: int, j: int) -> nat {
    edit_distance(a.take(i), b.take(j))
}

proof fn lemma_prefix_step(a: Seq<char>, b: Seq<char>, i: int, j: int)
    requires
        0 <= i < a.len(),
        0 <= j < b.len(),
    ensures
        prefix_distance(a, b, i + 1, j + 1) == min3(
            prefix_distance(a, b, i, j + 1) + 1,
            prefix_distance(a, b, i + 1, j) + 1,
            prefix_distance(a, b, i, j) + subst_cost(a[i], b[j]),
        ),
{
    assert(a.take(i + 1).drop_last() =~= a.take(i));
    assert(b.take(j + 1).drop_last() =~= b.take(j));
    assert(a.take(i + 1).last() == a[i]);
    assert(b.take(j + 1).last() == b[j]);
}

proof fn lemma_prefix_edges(a: Seq<char>, b: Seq<char>, i: int, j: int)
    requires
        0 <= i <= a.len(),
        0 <= j <= b.len(),
    ensures
        prefix_distance(a, b, 0, j) == j,
        prefix_distance(a, b, i, 0) == i,
        prefix_distance(a, b, i, j) <= if i >= j { i } else { j },
{
    lemma_distance_at_most_longer(a.take(i), b.take(j));
}

/// The Levenshtein distance between the character sequences `a` and `b`,
/// by the two-row dynamic program.
pub fn char_distance(a: &Vec<char>, b: &Vec<char>) -> (d: usize)
    ensures
        d == edit_distance(a@, b@),
{
    let len_a = a.len();
    let len_b = b.len();
    if len_a == 0 {
        return len_b;
    }
    if len_b == 0 {
        return len_a;
    }
    // row 0: the distance from the empty prefix of `a`
    let mut prev: Vec<usize> = Vec::new();
    prev.push(0);
    let mut j: usize = 0;
    while j < len_b
        invariant
            j <= len_b == b@.len(),
            prev@.len() == j + 1,
            forall|k: int| 0 <= k <= j ==> prev@[k] == k,
        decreases len_b - j,
    {
        prev.push(j + 1);
        j = j + 1;
    }
    proof {
        assert forall|k: int| 0 <= k <= len_b implies prev@[k] == prefix_distance(a@, b@, 0, k) by {
            lemma_prefix_edges(a@, b@, 0, k);
        }
    }
    let mut i: usize = 0;
    while i < len_a
        invariant
            i <= len_a == a@.len(),
            len_b == b@.len(),
            prev@.len() == len_b + 1,
            forall|k: int| 0 <= k <= len_b ==> prev@[k] == prefix_distance(a@, b@, i as int, k),
        decreases len_a - i,
    {
        let mut cur: Vec<usize> = Vec::new();
        cur.push(i + 1);
        proof {
            lemma_prefix_edges(a@, b@, i + 1, 0);
        }
        let mut j: usize = 0;
        while j < len_b
            invariant
                i < len_a == a@.len(),
                j <= len_b == b@.len(),
                prev@.len() == len_b + 1,
                forall|k: int| 0 <= k <= len_b ==> prev@[k] == prefix_distance(a@, b@, i as int, k),
                cur@.len() == j + 1,
                forall|k: int| 0 <= k <= j ==> cur@[k] == prefix_distance(a@, b@, i + 1, k),
            decreases len_b - j,
        {
            let diag = prev[j];
            let up = prev[j + 1];
            let left = cur[j];
            proof {
                lemma_prefix_step(a@, b@, i as int, j as int);
                lemma_prefix_edges(a@, b@, i as int, j as int);
                lemma_prefix_edges(a@, b@, i + 1, j + 1);
            }
            let cost: usize = if a[i] == b[j] { 0 } else { 1 };
            let via_diag = diag + cost;
            let m = if up <= left { up } else { left };
            let cell = if m < via_diag { m + 1 } else { via_diag };
            cur.push(cell);
            j = j + 1;
        }
        prev = cur;
        i = i + 1;
    }
    proof {
        assert(a@.take(len_a as int) =~= a@);
        assert(b@.take(len_b as int) =~= b@);
    }
    prev[len_b]
}

} // verus!
