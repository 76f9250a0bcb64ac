use vstd::prelude::*;

verus! {

/// How many entries of `s` equal `b`.
pub open spec fn count_in(s: Seq<usize>, b: usize) -> nat
    decreases s.len(),
{
    if s.len() == 0 {
        0
    } else {
        count_in(s.drop_last(), b) + if s.last() == b { 1nat } else { 0nat }
    }
}

/// Range `b` (of `n` ranges) holds the most entries of `s`, and no later
/// range holds as many: the range that `Iterator::max_by_key` picks, which
/// returns the last of several equal maxima.
pub open spec fn is_densest(s: Seq<usize>, n: usize, b: usize) -> bool {
    &&& b < n
    &&& forall|c: usize| c < n && c <= b ==> #[trigger] count_in(s, c) <= count_in(s, b)
    &&& forall|c: usize| c < n && c > b ==> #[trigger] count_in(s, c) < count_in(s, b)
}

proof fn lemma_count_in_member(s: Seq<usize>, i: int)
    requires
        0 <= i < s.len(),
    ensures
        count_in(s, s[i]) >= 1,
    decreases s.len(),
{
    if i < s.len() - 1 {
        lemma_count_in_member(s.drop_last(), i);
    }
}

proof fn lemma_count_in_take(s: Seq<usize>, k: int, b: usize)
    requires
        0 <= k < s.len(),
    ensures
        count_in(s.take(k + 1), b) == count_in(s.take(k), b) + if s[k] == b { 1nat } else { 0nat },
{
    assert(s.take(k + 1).drop_last() =~= s.take(k));
}

/// The frequency-distribution selection over samples already split into
/// `range_count` ranges: `ranges[k]` is the range of the `k`-th sample (in
/// ascending order).  The samples of the most populated range are taken
/// (of equally populated ranges, the last), and the position of the first of
/// them is returned.
pub fn densest_range_start(ranges: &Vec<usize>, range_count: usize) -> (r: usize)
    requires
        ranges@.len() > 0,
        forall|k: int| 0 <= k < ranges@.len() ==> #[trigger] ranges@[k] < range_count,
    ensures
        r < ranges@.len(),
        is_densest(ranges@, range_count, ranges@[r as int]),
        forall|k: int| 0 <= k < r ==> #[trigger] ranges@[k] != ranges@[r as int],
{
    let n = ranges.len();
    let mut counts: Vec<usize> = Vec::new();
    let mut b: usize = 0;
    while b < range_count
        invariant
            b <= range_count,
            counts@.len() == b,
            forall|c: int| 0 <= c < b ==> #[trigger] counts@[c] == 0,
        decreases range_count - b,
    {
        counts.push(0);
        b += 1;
    }
    let mut k: usize = 0;
    while k < n
        invariant
            n == ranges@.len(),
            k <= n,
            counts@.len() == range_count,
            forall|j: int| 0 <= j < n ==> #[trigger] ranges@[j] < range_count,
            forall|c: int| 0 <= c < range_count ==> #[trigger] counts@[c] == count_in(ranges@.take(k as int), c as usize),
        decreases n - k,
    {
        proof {
            assert forall|c: int| 0 <= c < range_count implies #[trigger] count_in(ranges@.take(k + 1), c as usize) == count_in(
                ranges@.take(k as int),
                c as usize,
            ) + if ranges@[k as int] == c as usize { 1nat } else { 0nat } by {
                lemma_count_in_take(ranges@, k as int, c as usize);
            }
            assert(count_in(ranges@.take(k as int), ranges@[k as int]) <= k) by {
                lemma_count_in_bound(ranges@.take(k as int), ranges@[k as int]);
            }
        }
        let c = ranges[k];
        let v = counts[c] + 1;
        counts.set(c, v);
        k += 1;
    }
    assert(ranges@.take(n as int) =~= ranges@);
    let mut best: usize = 0;
    let mut c: usize = 1;
    proof {
        lemma_count_in_member(ranges@, 0);
    }
    while c < range_count
        invariant
            counts@.len() == range_count,
            0 < c <= range_count,
            best < c,
            forall|d: int| 0 <= d < range_count ==> #[trigger] counts@[d] == count_in(ranges@, d as usize),
            forall|d: usize| d < c && d <= best ==> #[trigger] count_in(ranges@, d) <= count_in(ranges@, best),
            forall|d: usize| d < c && d > best ==> #[trigger] count_in(ranges@, d) < count_in(ranges@, best),
        decreases range_count - c,
    {
        if counts[c] >= counts[best] {
            best = c;
        }
        c += 1;
    }
    proof {
        lemma_count_in_member(ranges@, 0);
        assert(count_in(ranges@, ranges@[0]) <= count_in(ranges@, best));
        lemma_count_in_positive(ranges@, best);
    }
    let mut r: usize = 0;
    while r < n
        invariant
            n == ranges@.len(),
            r <= n,
            exists|j: int| r <= j < n && ranges@[j] == best,
            is_densest(ranges@, range_count, best),
            forall|j: int| 0 <= j < r ==> #[trigger] ranges@[j] != best,
        decreases n - r,
    {
        if ranges[r] == best {
            return r;
        }
        r += 1;
    }
    r
}

proof fn lemma_count_in_bound(s: Seq<usize>, b: usize)
    ensures
        count_in(s, b) <= s.len(),
    decreases s.len(),
{
    if s.len() > 0 {
        lemma_count_in_bound(s.drop_last(), b);
    }
}

proof fn lemma_count_in_positive(s: Seq<usize>, b: usize)
    requires
        count_in(s, b) > 0,
    ensures
        exists|j: int| 0 <= j < s.len() && s[j] == b,
    decreases s.len(),
{
    if s.last() == b {
        assert(s[s.len() - 1] == b);
    } else {
        lemma_count_in_positive(s.drop_last(), b);
        let j = choose|j: int| 0 <= j < s.drop_last().len() && s.drop_last()[j] == b;
        assert(s[j] == b);
    }
}

} // verus!
