//! Sequence queries: the second largest element, the most frequent
//! elements, and the longest strictly increasing subsequence.

use vstd::prelude::*;
use crate::order::{insertion_sort, TotalOrdered};

verus! {

broadcast use vstd::seq_lib::group_to_multiset_ensures;

/// Returns the second largest element of a slice: the largest value
/// strictly below the maximum. There is none when the slice has fewer than
/// two elements, when all elements are equal to the maximum, or when
/// nothing lies strictly between the minimum representable value and the
/// maximum.
pub fn second_largest(vec: &[i32]) -> (r: Option<i32>)
    ensures
        match r {
            Some(v) => {
                &&& vec@.len() >= 2
                &&& vec@.contains(v)
                &&& i32::MIN < v
                &&& exists|m: i32|
                    {
                        &&& #[trigger] vec@.contains(m)
                        &&& v < m
                        &&& forall|i: int| 0 <= i < vec@.len() ==> #[trigger] vec@[i] <= m
                        &&& forall|i: int| 0 <= i < vec@.len() && #[trigger] vec@[i] < m
                            ==> vec@[i] <= v
                    }
            },
            None => vec@.len() < 2 || exists|m: i32|
                {
                    &&& #[trigger] vec@.contains(m)
                    &&& forall|i: int| 0 <= i < vec@.len() ==> #[trigger] vec@[i] <= m
                    &&& forall|i: int| 0 <= i < vec@.len() && #[trigger] vec@[i] < m ==> vec@[i]
                        == i32::MIN
                },
        },
{
    if vec.len() < 2 {
        return None;
    }
    let mut first = i32::MIN;
    let mut second = i32::MIN;
    let mut i: usize = 0;
    while i < vec.len()
        invariant
            0 <= i <= vec@.len(),
            second <= first,
            forall|j: int| 0 <= j < i ==> #[trigger] vec@[j] <= first,
            first == i32::MIN || vec@.take(i as int).contains(first),
            second == i32::MIN || (vec@.take(i as int).contains(second) && second < first),
            forall|j: int| 0 <= j < i && #[trigger] vec@[j] < first ==> vec@[j] <= second,
        decreases vec@.len() - i,
    {
        let num = vec[i];
        if num > first {
            second = first;
            first = num;
        } else if num > second && num < first {
            second = num;
        }
        proof {
            assert(vec@.take(i as int + 1) =~= vec@.take(i as int).push(vec@[i as int]));
            if first != i32::MIN {
                assert(vec@.take(i as int + 1).contains(first)) by {
                    if vec@[i as int] == first {
                        assert(vec@.take(i as int + 1).last() == first);
                    } else {
                        let w = choose|w: int| 0 <= w < i && #[trigger] vec@.take(i as int)[w]
                            == first;
                        assert(vec@.take(i as int + 1)[w] == first);
                    }
                }
            }
            if second != i32::MIN {
                assert(vec@.take(i as int + 1).contains(second)) by {
                    if vec@[i as int] == second {
                        assert(vec@.take(i as int + 1).last() == second);
                    } else {
                        let w = choose|w: int| 0 <= w < i && #[trigger] vec@.take(i as int)[w]
                            == second;
                        assert(vec@.take(i as int + 1)[w] == second);
                    }
                }
            }
        }
        i = i + 1;
    }
    proof {
        assert(vec@.take(vec@.len() as int) =~= vec@);
        if first == i32::MIN {
            assert(vec@[0] <= first);
            assert(vec@.contains(first)) by {
                assert(vec@[0] == i32::MIN);
            }
        }
    }
    if second == i32::MIN {
        None
    } else {
        Some(second)
    }
}

/// Returns the `k` most frequent values of a vector: distinct values,
/// ordered by falling count and, among equal counts, by falling value.
/// With fewer than `k` distinct values, all of them come back; any value
/// left out occurs no more often than every value kept.
pub fn top_k_frequent(nums: Vec<i32>, k: usize) -> (r: Vec<i32>)
    ensures
        ({
            let ms = nums@.to_multiset();
            &&& r@.len() <= k
            &&& r@.no_duplicates()
            &&& forall|j: int| 0 <= j < r@.len() ==> ms.count(#[trigger] r@[j]) >= 1
            &&& forall|i: int, j: int| 0 <= i < j < r@.len() ==> ms.count(#[trigger] r@[i])
                > ms.count(#[trigger] r@[j]) || (ms.count(r@[i]) == ms.count(r@[j]) && r@[i]
                > r@[j])
            &&& r@.len() < k ==> (forall|x: i32| ms.count(x) > 0 ==> r@.contains(x))
            &&& forall|x: i32, j: int|
                #![trigger ms.count(x), r@[j]]
                (ms.count(x) > 0 && !r@.contains(x) && 0 <= j < r@.len()) ==> ms.count(r@[j])
                    > ms.count(x) || (ms.count(r@[j]) == ms.count(x) && r@[j] > x)
        }),
{
    let ghost ms = nums@.to_multiset();
    let mut pairs: Vec<(usize, i32)> = Vec::new();
    let mut i: usize = 0;
    proof {
        assert(nums@.take(0) =~= Seq::<i32>::empty());
    }
    while i < nums.len()
        invariant
            0 <= i <= nums@.len(),
            ms == nums@.to_multiset(),
            forall|j1: int, j2: int| 0 <= j1 < j2 < pairs@.len() ==> (#[trigger] pairs@[j1]).1
                != (#[trigger] pairs@[j2]).1,
            forall|j: int| 0 <= j < pairs@.len() ==> nums@.take(i as int).to_multiset().count(
                (#[trigger] pairs@[j]).1,
            ) == pairs@[j].0 && 1 <= pairs@[j].0 <= i,
            forall|x: i32| nums@.take(i as int).to_multiset().count(x) > 0 ==> exists|j: int|
                0 <= j < pairs@.len() && (#[trigger] pairs@[j]).1 == x,
        decreases nums@.len() - i,
    {
        let ghost prev = pairs@;
        let x = nums[i];
        proof {
            assert(nums@.take(i as int + 1) =~= nums@.take(i as int).push(x));
        }
        let found = find_value(&pairs, x);
        match found {
            Some(j) => {
                let (cnt, kv) = pairs.remove(j);
                pairs.insert(j, (cnt + 1, kv));
                proof {
                    assert(pairs@ =~= prev.update(j as int, ((prev[j as int].0 + 1) as usize,
                        prev[j as int].1)));
                }
            },
            None => {
                proof {
                    if nums@.take(i as int).to_multiset().count(x) > 0 {
                        let j0 = choose|j0: int| 0 <= j0 < prev.len() && (#[trigger] prev[j0]).1
                            == x;
                        assert(false);
                    }
                }
                pairs.push((1, x));
            },
        }
        proof {
            assert forall|y: i32| #[trigger] nums@.take(i as int + 1).to_multiset().count(y) > 0
                implies exists|j: int| 0 <= j < pairs@.len() && (#[trigger] pairs@[j]).1 == y by {
                if y == x {
                    match found {
                        Some(jj) => {
                            assert(pairs@[jj as int].1 == y);
                        },
                        None => {
                            assert(pairs@[pairs@.len() - 1].1 == y);
                        },
                    }
                } else {
                    assert(nums@.take(i as int).to_multiset().count(y) > 0);
                    let j0 = choose|j0: int| 0 <= j0 < prev.len() && (#[trigger] prev[j0]).1 == y;
                    match found {
                        Some(jj) => {
                            assert(pairs@[j0].1 == y);
                        },
                        None => {
                            assert(pairs@[j0].1 == y);
                        },
                    }
                }
            }
        }
        i = i + 1;
    }
    proof {
        assert(nums@.take(nums@.len() as int) =~= nums@);
    }
    let sorted = insertion_sort(pairs);
    proof {
        assert forall|j1: int, j2: int| 0 <= j1 < j2 < pairs@.len() implies pairs@[j1]
            != pairs@[j2] by {
            assert(pairs@[j1].1 != pairs@[j2].1);
        }
        pairs@.lemma_multiset_has_no_duplicates();
        sorted@.lemma_multiset_has_no_duplicates_conv();
        assert forall|j: int| 0 <= j < sorted@.len() implies ms.count((#[trigger] sorted@[j]).1)
            == sorted@[j].0 && sorted@[j].0 >= 1 by {
            assert(sorted@.contains(sorted@[j]));
            assert(pairs@.to_multiset().count(sorted@[j]) > 0);
            assert(pairs@.contains(sorted@[j]));
        }
        assert forall|j1: int, j2: int| 0 <= j1 < j2 < sorted@.len() implies (
        #[trigger] sorted@[j1]).1 != (#[trigger] sorted@[j2]).1 by {
            if sorted@[j1].1 == sorted@[j2].1 {
                assert(sorted@[j1].0 == sorted@[j2].0);
                assert(sorted@[j1] == sorted@[j2]);
                assert(sorted@.no_duplicates());
            }
        }
    }
    let mut out: Vec<i32> = Vec::new();
    let mut t: usize = 0;
    while t < sorted.len() && t < k
        invariant
            0 <= t <= sorted@.len(),
            t <= k,
            out@ == sorted@.map_values(|p: (usize, i32)| p.1).take(t as int),
        decreases sorted@.len() - t,
    {
        out.push(sorted[t].1);
        proof {
            assert(out@ =~= sorted@.map_values(|p: (usize, i32)| p.1).take(t as int + 1));
        }
        t = t + 1;
    }
    proof {
        assert(out@.len() == t);
        assert forall|j: int| 0 <= j < out@.len() implies #[trigger] out@[j] == sorted@[j].1 by {}
        assert forall|j1: int, j2: int| 0 <= j1 < j2 < out@.len() implies out@[j1] != out@[j2] by {
            assert(out@[j1] == sorted@[j1].1 && out@[j2] == sorted@[j2].1);
        }
        assert forall|i2: int, j2: int| 0 <= i2 < j2 < out@.len() implies ms.count(
            #[trigger] out@[i2],
        ) > ms.count(#[trigger] out@[j2]) || (ms.count(out@[i2]) == ms.count(out@[j2])
            && out@[i2] > out@[j2]) by {
            assert(sorted@[i2].le_spec(&sorted@[j2]));
        }
        assert forall|x: i32, j: int|
            #![trigger ms.count(x), out@[j]]
            (ms.count(x) > 0 && !out@.contains(x) && 0 <= j < out@.len()) implies ms.count(
            out@[j],
        ) > ms.count(x) || (ms.count(out@[j]) == ms.count(x) && out@[j] > x) by {
            assert(nums@.contains(x));
            let j0 = choose|j0: int| 0 <= j0 < pairs@.len() && (#[trigger] pairs@[j0]).1 == x;
            let e = pairs@[j0];
            assert(pairs@.to_multiset().count(e) > 0);
            assert(sorted@.to_multiset().count(e) > 0);
            assert(sorted@.contains(e));
            let mm = choose|mm: int| 0 <= mm < sorted@.len() && sorted@[mm] == e;
            if mm < out@.len() {
                assert(out@[mm] == x);
                assert(out@.contains(x));
            } else {
                assert(out@[j] == sorted@[j].1);
                assert(sorted@[j].le_spec(&sorted@[mm]));
                assert(e.0 == ms.count(x));
            }
        }
        if out@.len() < k {
            assert forall|x: i32| ms.count(x) > 0 implies out@.contains(x) by {
                let j0 = choose|j0: int| 0 <= j0 < pairs@.len() && (#[trigger] pairs@[j0]).1 == x;
                let e = pairs@[j0];
                assert(pairs@.to_multiset().count(e) > 0);
                assert(sorted@.to_multiset().count(e) > 0);
                assert(sorted@.contains(e));
                let mm = choose|mm: int| 0 <= mm < sorted@.len() && sorted@[mm] == e;
                assert(out@[mm] == x);
            }
        }
    }
    out
}

/// An index chain into a sequence: positions that rise strictly, with
/// strictly rising values. Its values form a strictly increasing
/// subsequence, and every strictly increasing subsequence arises this way.
pub open spec fn is_index_chain(c: Seq<int>, s: Seq<i32>) -> bool {
    &&& forall|i: int| 0 <= i < c.len() ==> 0 <= #[trigger] c[i] < s.len()
    &&& forall|i: int| 0 <= i < c.len() - 1 ==> #[trigger] c[i] < c[i + 1] && s[c[i]] < s[c[i + 1]]
}

/// The values a chain picks out, in order.
pub open spec fn chain_values(c: Seq<int>, s: Seq<i32>) -> Seq<i32> {
    c.map_values(|i: int| s[i])
}

/// Along a chain, both positions and values rise strictly between any two
/// points, adjacent or not.
proof fn lemma_chain_increasing(c: Seq<int>, s: Seq<i32>, i: int, j: int)
    requires
        is_index_chain(c, s),
        0 <= i < j < c.len(),
    ensures
        c[i] < c[j],
        s[c[i]] < s[c[j]],
    decreases j - i,
{
    if j == i + 1 {
    } else {
        lemma_chain_increasing(c, s, i, j - 1);
        assert(c[j - 1] < c[j] && s[c[j - 1]] < s[c[j]]);
    }
}

/// Finds the longest strictly increasing subsequence of the slice: the
/// result's values are picked out by some index chain, and no index chain
/// is longer.
#[verifier::loop_isolation(false)]
#[verifier::rlimit(100)]
pub fn longest_increasing_subsequence(init_sequence: &[i32]) -> (r: Vec<i32>)
    ensures
        exists|c: Seq<int>| #[trigger] is_index_chain(c, init_sequence@) && r@ == chain_values(
            c,
            init_sequence@,
        ),
        forall|i: int, j: int| 0 <= i < j < r@.len() ==> r@[i] < r@[j],
        forall|c: Seq<int>| #[trigger] is_index_chain(c, init_sequence@) ==> c.len() <= r@.len(),
        init_sequence@.len() == 0 ==> r@.len() == 0,
        init_sequence@.len() > 0 ==> r@.len() >= 1,
{
    let ghost s = init_sequence@;
    let n = init_sequence.len();
    if n == 0 {
        let empty_result: Vec<i32> = Vec::new();
        proof {
            let c0 = Seq::<int>::empty();
            assert(is_index_chain(c0, s));
            assert(empty_result@ =~= chain_values(c0, s));
            assert forall|c: Seq<int>| #[trigger] is_index_chain(c, s) implies c.len() <= 0 by {
                if c.len() > 0 {
                    assert(0 <= c[0] < s.len());
                }
            }
        }
        return empty_result;
    }
    let mut dp: Vec<usize> = Vec::new();
    let mut prev: Vec<Option<usize>> = Vec::new();
    let ghost mut wit: Seq<Seq<int>> = Seq::empty();
    let mut i: usize = 0;
    while i < n
        invariant
            0 <= i <= n,
            dp@.len() == i && prev@.len() == i && wit.len() == i,
            forall|a: int| 0 <= a < i ==> 1 <= #[trigger] dp@[a] <= a + 1,
            forall|a: int|
                #![trigger wit[a]]
                0 <= a < i ==> (is_index_chain(wit[a], s) && wit[a].len() == dp@[a]
                    && wit[a].last() == a),
            forall|a: int| 0 <= a < i ==> (match #[trigger] prev@[a] {
                Some(b) => b < a && wit[a] == wit[b as int].push(a),
                None => wit[a] == seq![a],
            }),
            forall|a: int, c: Seq<int>|
                #![trigger is_index_chain(c, s), dp@[a]]
                (0 <= a < i && is_index_chain(c, s) && c.len() > 0 && c.last() == a) ==> c.len()
                    <= dp@[a],
        decreases n - i,
    {
        let mut best_len: usize = 1;
        let mut best_prev: Option<usize> = None;
        let ghost mut cur_chain: Seq<int> = seq![i as int];
        proof {
            assert(is_index_chain(cur_chain, s));
            assert(cur_chain.last() == i as int);
        }
        let mut j: usize = 0;
        while j < i
            invariant
                0 <= j <= i,
                1 <= best_len <= i + 1,
                is_index_chain(cur_chain, s),
                cur_chain.len() == best_len,
                cur_chain.last() == i as int,
                match best_prev {
                    Some(b) => b < i && s[b as int] < s[i as int] && cur_chain == wit[b as int].push(
                        i as int,
                    ) && best_len == dp@[b as int] + 1,
                    None => best_len == 1 && cur_chain == seq![i as int],
                },
                forall|b: int| 0 <= b < j && s[b] < s[i as int] ==> #[trigger] dp@[b] + 1
                    <= best_len,
            decreases i - j,
        {
            if init_sequence[j] < init_sequence[i] && dp[j] + 1 > best_len {
                best_len = dp[j] + 1;
                best_prev = Some(j);
                proof {
                    let wj = wit[j as int];
                    cur_chain = wj.push(i as int);
                    assert forall|m: int| 0 <= m < cur_chain.len() - 1 implies #[trigger] cur_chain[m]
                        < cur_chain[m + 1] && s[cur_chain[m]] < s[cur_chain[m + 1]] by {
                        if m < wj.len() - 1 {
                            assert(cur_chain[m] == wj[m] && cur_chain[m + 1] == wj[m + 1]);
                        } else {
                            assert(cur_chain[m] == wj.last() && cur_chain[m + 1] == i as int);
                            assert(wj.last() == j as int);
                        }
                    }
                    assert(is_index_chain(cur_chain, s));
                }
            }
            j = j + 1;
        }
        dp.push(best_len);
        prev.push(best_prev);
        proof {
            wit = wit.push(cur_chain);
            assert forall|c: Seq<int>|
                (#[trigger] is_index_chain(c, s) && c.len() > 0 && c.last() == i as int)
                implies c.len() <= best_len by {
                if c.len() >= 2 {
                    let b = c[c.len() - 2];
                    assert(b < c[c.len() - 1] && s[b] < s[c[c.len() - 1]]);
                    let cd = c.drop_last();
                    assert forall|m: int| 0 <= m < cd.len() - 1 implies #[trigger] cd[m] < cd[m
                        + 1] && s[cd[m]] < s[cd[m + 1]] by {
                        assert(cd[m] == c[m] && cd[m + 1] == c[m + 1]);
                        assert(c[m] < c[m + 1] && s[c[m]] < s[c[m + 1]]);
                    }
                    assert(is_index_chain(cd, s));
                    assert(cd.last() == b);
                    assert(0 <= b < i as int);
                    assert(cd.len() <= dp@[b]);
                    assert(s[b] < s[i as int]);
                    assert(dp@[b] + 1 <= best_len);
                }
            }
        }
        i = i + 1;
    }
    let mut max_len = dp[0];
    let mut max_idx: usize = 0;
    let mut t: usize = 1;
    while t < n
        invariant
            1 <= t <= n,
            0 <= max_idx < t,
            dp@[max_idx as int] == max_len,
            forall|a: int| 0 <= a < t ==> #[trigger] dp@[a] <= max_len,
        decreases n - t,
    {
        if dp[t] > max_len {
            max_len = dp[t];
            max_idx = t;
        }
        t = t + 1;
    }
    let ghost cfin = wit[max_idx as int];
    let mut rev_result: Vec<i32> = Vec::new();
    let mut current: Option<usize> = Some(max_idx);
    proof {
        assert(cfin.take(cfin.len() as int) =~= cfin);
    }
    while current.is_some()
        invariant
            rev_result@.len() <= cfin.len(),
            match current {
                Some(idx) => {
                    let k = cfin.len() - rev_result@.len();
                    &&& k >= 1
                    &&& idx < n
                    &&& cfin[k - 1] == idx as int
                    &&& wit[idx as int] == cfin.take(k as int)
                },
                None => rev_result@.len() == cfin.len(),
            },
            forall|m: int| 0 <= m < rev_result@.len() ==> #[trigger] rev_result@[m]
                == s[cfin[cfin.len() - 1 - m]],
        decreases cfin.len() - rev_result@.len(),
    {
        let idx = current.unwrap();
        let ghost k = cfin.len() - rev_result@.len();
        proof {
            assert(wit[idx as int].last() == idx as int);
            assert(wit[idx as int].len() == dp@[idx as int]);
        }
        rev_result.push(init_sequence[idx]);
        current = prev[idx];
        proof {
            match prev@[idx as int] {
                Some(b) => {
                    assert(wit[idx as int] == wit[b as int].push(idx as int));
                    assert(wit[b as int] =~= cfin.take(k as int).drop_last());
                    assert(cfin.take(k as int).drop_last() =~= cfin.take(k as int - 1));
                    assert(wit[b as int].last() == b as int);
                    assert(cfin.take(k as int - 1).last() == cfin[k - 2]);
                },
                None => {
                    assert(wit[idx as int] == seq![idx as int]);
                    assert(cfin.take(k as int).len() == 1);
                    assert(k == 1);
                },
            }
        }
    }
    let mut result: Vec<i32> = Vec::new();
    let mut q = rev_result.len();
    while q > 0
        invariant
            0 <= q <= rev_result@.len(),
            result@.len() == rev_result@.len() - q,
            forall|m: int| 0 <= m < result@.len() ==> #[trigger] result@[m]
                == rev_result@[rev_result@.len() - 1 - m],
        decreases q,
    {
        q = q - 1;
        result.push(rev_result[q]);
    }
    proof {
        assert(result@.len() == cfin.len());
        assert forall|m: int| 0 <= m < result@.len() implies #[trigger] result@[m] == s[cfin[m]] by {
            assert(result@[m] == rev_result@[result@.len() - 1 - m]);
            assert(rev_result@[result@.len() - 1 - m] == s[cfin[m]]);
        }
        assert(result@ =~= chain_values(cfin, s));
        assert(is_index_chain(cfin, s));
        assert forall|i2: int, j2: int| 0 <= i2 < j2 < result@.len() implies result@[i2]
            < result@[j2] by {
            lemma_chain_increasing(cfin, s, i2, j2);
        }
        assert forall|c: Seq<int>| #[trigger] is_index_chain(c, s) implies c.len()
            <= result@.len() by {
            if c.len() > 0 {
                let a = c.last();
                assert(0 <= a < n);
                assert(c.len() <= dp@[a]);
                assert(dp@[a] <= max_len);
            }
        }
    }
    result
}

/// Finds the position of a value already counted.
fn find_value(pairs: &Vec<(usize, i32)>, x: i32) -> (r: Option<usize>)
    ensures
        match r {
            Some(j) => 0 <= j < pairs@.len() && pairs@[j as int].1 == x,
            None => forall|j: int| 0 <= j < pairs@.len() ==> (#[trigger] pairs@[j]).1 != x,
        },
{
    let mut idx: usize = 0;
    while idx < pairs.len()
        invariant
            0 <= idx <= pairs@.len(),
            forall|j: int| 0 <= j < idx ==> (#[trigger] pairs@[j]).1 != x,
        decreases pairs@.len() - idx,
    {
        if pairs[idx].1 == x {
            return Some(idx);
        }
        idx = idx + 1;
    }
    None
}

} // verus!
