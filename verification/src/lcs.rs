//! The longest-common-subsequence engine: the classic dynamic-programming
//! table over two character sequences, a backtracking pass that recovers one
//! maximal matching, and the proofs that the result is a common subsequence
//! of both inputs and that no longer one exists.

use vstd::prelude::*;

verus! {

/// The length of the longest common subsequence of s and c.
pub open spec fn lcs_len(s: Seq<char>, c: Seq<char>) -> nat
    decreases s.len(), c.len(),
{
    if s.len() == 0 || c.len() == 0 {
        0
    } else if s.last() == c.last() {
        lcs_len(s.drop_last(), c.drop_last()) + 1
    } else {
        let a = lcs_len(s.drop_last(), c);
        let b = lcs_len(s, c.drop_last());
        if a >= b {
            a
        } else {
            b
        }
    }
}

/// m is a matching of s and c: pairs of positions, strictly increasing in
/// both sequences, whose characters agree. A matching is exactly a common
/// subsequence given by the positions it occupies in each input.
pub open spec fn is_match(s: Seq<char>, c: Seq<char>, m: Seq<(int, int)>) -> bool {
    &&& forall|k: int|
        0 <= k < m.len() ==> 0 <= (#[trigger] m[k]).0 < s.len() && 0 <= m[k].1 < c.len()
            && s[m[k].0] == c[m[k].1]
    &&& forall|k: int, l: int|
        #![trigger m[k], m[l]]
        0 <= k < l < m.len() ==> m[k].0 < m[l].0 && m[k].1 < m[l].1
}

/// A common subsequence is never longer than either input.
pub proof fn lemma_lcs_len_le(s: Seq<char>, c: Seq<char>)
    ensures
        lcs_len(s, c) <= s.len(),
        lcs_len(s, c) <= c.len(),
    decreases s.len(), c.len(),
{
    if s.len() == 0 || c.len() == 0 {
    } else if s.last() == c.last() {
        lemma_lcs_len_le(s.drop_last(), c.drop_last());
    } else {
        lemma_lcs_len_le(s.drop_last(), c);
        lemma_lcs_len_le(s, c.drop_last());
    }
}

/// No matching is longer than the longest common subsequence: `lcs_len`
/// really is an upper bound over every common subsequence.
pub proof fn lemma_match_le_lcs(s: Seq<char>, c: Seq<char>, m: Seq<(int, int)>)
    requires
        is_match(s, c, m),
    ensures
        m.len() <= lcs_len(s, c),
    decreases s.len() + c.len(),
{
    if m.len() == 0 {
    } else if s.len() == 0 || c.len() == 0 {
        assert(0 <= m[0].0 < s.len());
        assert(false);
    } else {
        let e = m.len() - 1;
        let last = m[e];
        assert(forall|k: int| #![trigger m[k]] 0 <= k < e ==> m[k].0 < last.0 && m[k].1 < last.1);
        if s.last() == c.last() {
            if last.0 == s.len() - 1 || last.1 == c.len() - 1 {
                let m2 = m.drop_last();
                assert(forall|k: int|
                    0 <= k < m2.len() ==> (#[trigger] m2[k]) == m[k]);
                assert(is_match(s.drop_last(), c.drop_last(), m2));
                lemma_match_le_lcs(s.drop_last(), c.drop_last(), m2);
            } else {
                assert(is_match(s.drop_last(), c.drop_last(), m));
                lemma_match_le_lcs(s.drop_last(), c.drop_last(), m);
            }
        } else {
            if last.0 < s.len() - 1 {
                assert(is_match(s.drop_last(), c, m));
                lemma_match_le_lcs(s.drop_last(), c, m);
            } else {
                assert(s[last.0] == c[last.1]);
                assert(last.1 < c.len() - 1);
                assert(is_match(s, c.drop_last(), m));
                lemma_match_le_lcs(s, c.drop_last(), m);
            }
        }
    }
}

/// Some matching reaches the length `lcs_len` gives: the bound is tight.
pub proof fn lemma_lcs_achievable(s: Seq<char>, c: Seq<char>)
    ensures
        exists|m: Seq<(int, int)>| is_match(s, c, m) && m.len() == lcs_len(s, c),
    decreases s.len() + c.len(),
{
    if s.len() == 0 || c.len() == 0 {
        let m = Seq::<(int, int)>::empty();
        assert(is_match(s, c, m) && m.len() == lcs_len(s, c));
    } else if s.last() == c.last() {
        lemma_lcs_achievable(s.drop_last(), c.drop_last());
        let m0 = choose|m0: Seq<(int, int)>|
            is_match(s.drop_last(), c.drop_last(), m0) && m0.len() == lcs_len(
                s.drop_last(),
                c.drop_last(),
            );
        let m = m0.push((s.len() - 1, c.len() - 1));
        assert(forall|k: int| 0 <= k < m0.len() ==> (#[trigger] m[k]) == m0[k]);
        assert(m[m.len() - 1] == (s.len() - 1, c.len() - 1));
        assert(is_match(s, c, m) && m.len() == lcs_len(s, c));
    } else {
        if lcs_len(s.drop_last(), c) >= lcs_len(s, c.drop_last()) {
            lemma_lcs_achievable(s.drop_last(), c);
            let m = choose|m: Seq<(int, int)>|
                is_match(s.drop_last(), c, m) && m.len() == lcs_len(s.drop_last(), c);
            assert(is_match(s, c, m) && m.len() == lcs_len(s, c));
        } else {
            lemma_lcs_achievable(s, c.drop_last());
            let m = choose|m: Seq<(int, int)>|
                is_match(s, c.drop_last(), m) && m.len() == lcs_len(s, c.drop_last());
            assert(is_match(s, c, m) && m.len() == lcs_len(s, c));
        }
    }
}

/// The matching a list of machine-integer position pairs denotes.
pub open spec fn pairs_int(r: Seq<(usize, usize)>) -> Seq<(int, int)> {
    Seq::new(r.len(), |k: int| (r[k].0 as int, r[k].1 as int))
}

/// The one matching the engine selects, read off the table of prefix
/// lengths from cell (i, j) toward the origin. The tie-break is fixed:
/// where dropping the source-side character loses nothing, it is dropped
/// first; then the changed-side character; only a cell that needs its
/// matched pair records it.
pub open spec fn chosen_step(s: Seq<char>, c: Seq<char>, i: int, j: int) -> Seq<(int, int)>
    decreases i + j,
{
    if i <= 0 || j <= 0 {
        Seq::empty()
    } else if lcs_len(s.take(i - 1), c.take(j)) == lcs_len(s.take(i), c.take(j)) {
        chosen_step(s, c, i - 1, j)
    } else if lcs_len(s.take(i), c.take(j - 1)) == lcs_len(s.take(i), c.take(j)) {
        chosen_step(s, c, i, j - 1)
    } else {
        chosen_step(s, c, i - 1, j - 1).push((i - 1, j - 1))
    }
}

/// The matching this engine returns for s and c: one specific maximum, the
/// same on every call.
pub open spec fn chosen_match(s: Seq<char>, c: Seq<char>) -> Seq<(int, int)> {
    chosen_step(s, c, s.len() as int, c.len() as int)
}

/// Computes the longest common subsequence of the two character vectors,
/// as the list of matched position pairs in ascending order. The result is
/// a matching of both inputs, no common subsequence is longer, and it is
/// exactly the matching `chosen_match` fixes -- a pure function of the two
/// inputs, with the tie-break pinned.
pub fn lcs_pairs(s: &Vec<char>, c: &Vec<char>) -> (r: Vec<(usize, usize)>)
    requires
        s@.len() < usize::MAX,
        c@.len() < usize::MAX,
    ensures
        is_match(s@, c@, pairs_int(r@)),
        r@.len() == lcs_len(s@, c@),
        pairs_int(r@) == chosen_match(s@, c@),
{
    let n = s.len();
    let m = c.len();
    let mut memo: Vec<Vec<usize>> = Vec::new();
    let mut i: usize = 0;
    while i <= n
        invariant
            n == s@.len() < usize::MAX,
            m == c@.len() < usize::MAX,
            i <= n + 1,
            memo@.len() == i,
            forall|a: int, b: int|
                0 <= a < i && 0 <= b <= m ==> (#[trigger] memo@[a]@[b]) == lcs_len(
                    s@.take(a),
                    c@.take(b),
                ),
            forall|a: int| 0 <= a < i ==> (#[trigger] memo@[a])@.len() == m + 1,
        decreases n + 1 - i,
    {
        let mut row: Vec<usize> = Vec::new();
        let mut j: usize = 0;
        while j <= m
            invariant
                n == s@.len() < usize::MAX,
                m == c@.len() < usize::MAX,
                i <= n,
                j <= m + 1,
                memo@.len() == i,
                forall|a: int, b: int|
                    0 <= a < i && 0 <= b <= m ==> (#[trigger] memo@[a]@[b]) == lcs_len(
                        s@.take(a),
                        c@.take(b),
                    ),
                forall|a: int| 0 <= a < i ==> (#[trigger] memo@[a])@.len() == m + 1,
                row@.len() == j,
                forall|b: int|
                    0 <= b < j ==> (#[trigger] row@[b]) == lcs_len(s@.take(i as int), c@.take(b)),
            decreases m + 1 - j,
        {
            proof {
                assert(c@.take(0) =~= Seq::<char>::empty());
                assert(s@.take(0) =~= Seq::<char>::empty());
            }
            if i == 0 || j == 0 {
                row.push(0);
            } else {
                proof {
                    assert(s@.take(i as int).drop_last() =~= s@.take(i - 1));
                    assert(c@.take(j as int).drop_last() =~= c@.take(j - 1));
                    assert(s@.take(i as int).last() == s@[i - 1]);
                    assert(c@.take(j as int).last() == c@[j - 1]);
                    lemma_lcs_len_le(s@.take(i - 1), c@.take(j - 1));
                }
                if s[i - 1] == c[j - 1] {
                    let v = memo[i - 1][j - 1] + 1;
                    row.push(v);
                } else {
                    let up = memo[i - 1][j];
                    let left = row[j - 1];
                    if up > left {
                        row.push(up);
                    } else {
                        row.push(left);
                    }
                }
            }
            j = j + 1;
        }
        memo.push(row);
        i = i + 1;
    }
    // backtrack from the bottom-right corner, which holds the best length
    let mut bi: usize = n;
    let mut bj: usize = m;
    let mut acc: Vec<(usize, usize)> = Vec::new();
    proof {
        assert(s@.take(n as int) =~= s@);
        assert(c@.take(m as int) =~= c@);
        assert(is_match(s@, c@, pairs_int(acc@)));
        assert(chosen_step(s@, c@, bi as int, bj as int) + pairs_int(acc@) =~= chosen_match(
            s@,
            c@,
        ));
    }
    while bi > 0 && bj > 0
        invariant
            n == s@.len(),
            m == c@.len(),
            bi <= n,
            bj <= m,
            memo@.len() == n + 1,
            forall|a: int, b: int|
                0 <= a <= n && 0 <= b <= m ==> (#[trigger] memo@[a]@[b]) == lcs_len(
                    s@.take(a),
                    c@.take(b),
                ),
            forall|a: int| 0 <= a <= n ==> (#[trigger] memo@[a])@.len() == m + 1,
            is_match(s@, c@, pairs_int(acc@)),
            forall|k: int|
                0 <= k < acc@.len() ==> (#[trigger] pairs_int(acc@)[k]).0 >= bi && pairs_int(
                    acc@,
                )[k].1 >= bj,
            acc@.len() + lcs_len(s@.take(bi as int), c@.take(bj as int)) == lcs_len(s@, c@),
            chosen_step(s@, c@, bi as int, bj as int) + pairs_int(acc@) == chosen_match(s@, c@),
        decreases bi + bj,
    {
        proof {
            assert(s@.take(bi as int).drop_last() =~= s@.take(bi - 1));
            assert(c@.take(bj as int).drop_last() =~= c@.take(bj - 1));
            assert(s@.take(bi as int).last() == s@[bi - 1]);
            assert(c@.take(bj as int).last() == c@[bj - 1]);
        }
        if memo[bi - 1][bj] == memo[bi][bj] {
            bi = bi - 1;
        } else if memo[bi][bj - 1] == memo[bi][bj] {
            bj = bj - 1;
        } else {
            proof {
                if s@[bi - 1] != c@[bj - 1] {
                    assert(lcs_len(s@.take(bi as int), c@.take(bj as int)) == lcs_len(
                        s@.take(bi - 1),
                        c@.take(bj as int),
                    ) || lcs_len(s@.take(bi as int), c@.take(bj as int)) == lcs_len(
                        s@.take(bi as int),
                        c@.take(bj - 1),
                    ));
                    assert(false);
                }
            }
            let ghost old_acc = acc@;
            acc.insert(0, (bi - 1, bj - 1));
            proof {
                assert(forall|k: int|
                    1 <= k < acc@.len() ==> (#[trigger] pairs_int(acc@)[k]) == pairs_int(
                        old_acc,
                    )[k - 1]);
                assert(pairs_int(acc@)[0] == ((bi - 1) as int, (bj - 1) as int));
                assert(is_match(s@, c@, pairs_int(acc@)));
                assert(chosen_step(s@, c@, bi as int, bj as int) == chosen_step(
                    s@,
                    c@,
                    bi - 1,
                    bj - 1,
                ).push(((bi - 1) as int, (bj - 1) as int)));
                assert(chosen_step(s@, c@, bi - 1, bj - 1) + pairs_int(acc@) =~= chosen_step(
                    s@,
                    c@,
                    bi as int,
                    bj as int,
                ) + pairs_int(old_acc));
            }
            bi = bi - 1;
            bj = bj - 1;
        }
    }
    proof {
        if bi == 0 {
            assert(s@.take(0) =~= Seq::<char>::empty());
        } else {
            assert(c@.take(0) =~= Seq::<char>::empty());
        }
        assert(chosen_step(s@, c@, bi as int, bj as int) =~= Seq::<(int, int)>::empty());
        assert(pairs_int(acc@) =~= chosen_match(s@, c@));
    }
    acc
}

} // verus!
