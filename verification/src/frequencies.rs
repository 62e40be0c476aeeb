//! Frequency counting and ordering: word frequencies, the most common
//! letters, filtered and case-insensitively sorted name lists, and students
//! grouped by grade.

use vstd::prelude::*;
use std::collections::HashMap;
use crate::order::{insertion_sort, lemma_map_values_to_multiset, TotalOrdered};
use crate::text::{
    byte_len, is_letter_char, lex_le, lower_str_of, split_words, to_lowercase_str, words_of,
    ascii_lower, is_letter,
};

verus! {

broadcast use vstd::seq_lib::group_to_multiset_ensures, vstd::slice::axiom_spec_len,
    vstd::std_specs::hash::axiom_u32_obeys_hash_table_key_model,
    vstd::std_specs::hash::axiom_random_state_builds_valid_hashers;

/// Finds the position of a word already counted, by its text.
fn find_word(pairs: &Vec<(String, usize)>, key: &String) -> (r: Option<usize>)
    ensures
        match r {
            Some(j) => 0 <= j < pairs@.len() && pairs@[j as int].0@ == key@,
            None => forall|j: int| 0 <= j < pairs@.len() ==> (#[trigger] pairs@[j].0)@ != key@,
        },
{
    let mut idx: usize = 0;
    while idx < pairs.len()
        invariant
            0 <= idx <= pairs@.len(),
            forall|j: int| 0 <= j < idx ==> (#[trigger] pairs@[j].0)@ != key@,
        decreases pairs@.len() - idx,
    {
        if pairs[idx].0.eq(key) {
            return Some(idx);
        }
        idx = idx + 1;
    }
    None
}

/// Counts how often each word of a text occurs, ignoring case, and ranks
/// the counts: the result pairs each distinct lowercased word with its
/// count, ordered by falling count and, among equal counts, alphabetically.
pub fn word_frequencies(text: &str) -> (r: Vec<(String, usize)>)
    ensures
        ({
            let lws = words_of(text@).map_values(|w: Seq<char>| lower_str_of(w));
            &&& forall|i: int, j: int| 0 <= i < j < r@.len() ==> (#[trigger] r@[i].1)
                > (#[trigger] r@[j].1) || (r@[i].1 == r@[j].1 && lex_le(r@[i].0@, r@[j].0@))
            &&& forall|i: int, j: int| 0 <= i < j < r@.len() ==> r@[i].0@ != r@[j].0@
            &&& forall|j: int| 0 <= j < r@.len() ==> lws.to_multiset().count(
                (#[trigger] r@[j].0)@,
            ) == r@[j].1 && r@[j].1 >= 1
            &&& forall|w: Seq<char>| lws.contains(w) ==> exists|j: int| 0 <= j < r@.len() && (
            #[trigger] r@[j].0)@ == w
        }),
{
    let ghost lws = words_of(text@).map_values(|w: Seq<char>| lower_str_of(w));
    let words = split_words(text);
    let mut lowered: Vec<String> = Vec::new();
    let mut i: usize = 0;
    proof {
        assert(lowered@.map_values(|s: String| s@) =~= lws.take(0));
    }
    while i < words.len()
        invariant
            0 <= i <= words@.len() == lws.len(),
            words@.map_values(|w: String| w@) == words_of(text@),
            lws == words_of(text@).map_values(|w: Seq<char>| lower_str_of(w)),
            lowered@.len() == i,
            lowered@.map_values(|s: String| s@) == lws.take(i as int),
        decreases words@.len() - i,
    {
        proof {
            assert(words@.map_values(|w: String| w@)[i as int] == words@[i as int]@);
            assert(lws[i as int] == lower_str_of(words_of(text@)[i as int]));
        }
        let lw = to_lowercase_str(words[i].as_str());
        let ghost prevl = lowered@;
        lowered.push(lw);
        proof {
            assert(lw@ == lws[i as int]);
            assert forall|m: int| 0 <= m <= i as int implies lowered@.map_values(
                |s: String| s@,
            )[m] == #[trigger] lws.take(i as int + 1)[m] by {
                assert(lowered@.map_values(|s: String| s@)[m] == lowered@[m]@);
                if m < i as int {
                    assert(prevl.map_values(|s: String| s@)[m] == prevl[m]@);
                    assert(lowered@[m] == prevl[m]);
                } else {
                    assert(lowered@[m] == lw);
                }
            }
            assert(lowered@.map_values(|s: String| s@) =~= lws.take(i as int + 1));
        }
        i = i + 1;
    }
    proof {
        assert(lws.take(lws.len() as int) =~= lws);
    }
    let mut pairs: Vec<(String, usize)> = Vec::new();
    let mut t: usize = 0;
    while t < lowered.len()
        invariant
            0 <= t <= lowered@.len() == lws.len(),
            lowered@.map_values(|s: String| s@) == lws,
            forall|j1: int, j2: int| 0 <= j1 < j2 < pairs@.len() ==> pairs@[j1].0@
                != pairs@[j2].0@,
            forall|j: int| 0 <= j < pairs@.len() ==> lws.take(t as int).to_multiset().count(
                (#[trigger] pairs@[j].0)@,
            ) == pairs@[j].1 && 1 <= pairs@[j].1 <= t,
            forall|w: Seq<char>| lws.take(t as int).contains(w) ==> exists|j: int| 0 <= j
                < pairs@.len() && (#[trigger] pairs@[j].0)@ == w,
        decreases lowered@.len() - t,
    {
        let ghost prev = pairs@;
        let ghost lpre = lws.take(t as int);
        proof {
            assert(lws.take(t as int + 1) =~= lpre.push(lws[t as int]));
            assert(lowered@[t as int]@ == lws[t as int]);
        }
        let found = find_word(&pairs, &lowered[t]);
        match found {
            Some(j) => {
                let (ks, c) = pairs.remove(j);
                proof {
                    assert(c <= t);
                }
                pairs.insert(j, (ks, c + 1));
                proof {
                    assert(pairs@ =~= prev.update(j as int, (prev[j as int].0, (prev[j as int].1
                        + 1) as usize)));
                }
            },
            None => {
                pairs.push((lowered[t].clone(), 1));
            },
        }
        proof {
            assert forall|w: Seq<char>| #[trigger] lws.take(t as int + 1).contains(w)
                implies exists|j: int| 0 <= j < pairs@.len() && (#[trigger] pairs@[j].0)@ == w by {
                let wi = choose|wi: int| 0 <= wi < lws.take(t as int + 1).len() && #[trigger] lws.take(
                    t as int + 1,
                )[wi] == w;
                if wi < t {
                    assert(lpre[wi] == w);
                    assert(lpre.contains(w));
                    let j0 = choose|j0: int| 0 <= j0 < prev.len() && prev[j0].0@ == w;
                    if found is Some {
                        assert(pairs@[j0].0@ == w);
                    } else {
                        assert(pairs@[j0].0@ == w);
                    }
                } else {
                    assert(w == lws[t as int]);
                    match found {
                        Some(jj) => {
                            assert(pairs@[jj as int].0@ == w);
                        },
                        None => {
                            assert(pairs@[pairs@.len() - 1].0@ == w);
                        },
                    }
                }
            }
            if !(lpre.contains(lws[t as int])) {
                assert(lpre.to_multiset().count(lws[t as int]) == 0);
            }
        }
        t = t + 1;
    }
    proof {
        assert(lws.take(lws.len() as int) =~= lws);
    }
    let sorted = insertion_sort(pairs);
    proof {
        assert forall|j1: int, j2: int| 0 <= j1 < j2 < pairs@.len() implies pairs@[j1]
            != pairs@[j2] by {
            assert(pairs@[j1].0@ != pairs@[j2].0@);
        }
        pairs@.lemma_multiset_has_no_duplicates();
        sorted@.lemma_multiset_has_no_duplicates_conv();
        assert forall|j: int| 0 <= j < sorted@.len() implies lws.to_multiset().count(
            (#[trigger] sorted@[j].0)@,
        ) == sorted@[j].1 && sorted@[j].1 >= 1 by {
            assert(sorted@.to_multiset().count(sorted@[j]) > 0);
            assert(pairs@.contains(sorted@[j]));
        }
        assert forall|w: Seq<char>| lws.contains(w) implies exists|j: int| 0 <= j < sorted@.len()
            && (#[trigger] sorted@[j].0)@ == w by {
            let j0 = choose|j0: int| 0 <= j0 < pairs@.len() && pairs@[j0].0@ == w;
            assert(pairs@.to_multiset().count(pairs@[j0]) > 0);
            assert(sorted@.to_multiset().count(pairs@[j0]) > 0);
            assert(sorted@.contains(pairs@[j0]));
            let j = choose|j: int| 0 <= j < sorted@.len() && sorted@[j] == pairs@[j0];
            assert(sorted@[j].0@ == w);
        }
        assert forall|j1: int, j2: int| 0 <= j1 < j2 < sorted@.len() implies sorted@[j1].0@
            != sorted@[j2].0@ by {
            if sorted@[j1].0@ == sorted@[j2].0@ {
                assert(sorted@[j1].1 == sorted@[j2].1);
                assert(sorted@.contains(sorted@[j1]));
                assert(sorted@.contains(sorted@[j2]));
                assert(pairs@.to_multiset().count(sorted@[j1]) > 0);
                assert(pairs@.to_multiset().count(sorted@[j2]) > 0);
                assert(pairs@.contains(sorted@[j1]));
                assert(pairs@.contains(sorted@[j2]));
                let m1 = choose|m: int| 0 <= m < pairs@.len() && pairs@[m] == sorted@[j1];
                let m2 = choose|m: int| 0 <= m < pairs@.len() && pairs@[m] == sorted@[j2];
                assert(m1 == m2);
                assert(sorted@[j1] == sorted@[j2]);
                assert(sorted@.no_duplicates());
            }
        }
        assert forall|i: int, j: int| 0 <= i < j < sorted@.len() implies (
        #[trigger] sorted@[i].1) > (#[trigger] sorted@[j].1) || (sorted@[i].1 == sorted@[j].1
            && lex_le(sorted@[i].0@, sorted@[j].0@)) by {
            assert(sorted@[i].le_spec(&sorted@[j]));
        }
    }
    sorted
}

/// The lowercase code point a letter counts as: ASCII uppercase moves down
/// by the case offset, everything else counts as itself.
pub open spec fn lower_code(c: char) -> int {
    if 0x41 <= c as u32 <= 0x5a {
        c as u32 + 0x20
    } else {
        (c as u32) as int
    }
}

/// The code points of the alphabetic characters of a text, lowercased, in
/// order.
pub open spec fn lowered_letters(s: Seq<char>) -> Seq<int>
    decreases s.len(),
{
    if s.len() == 0 {
        Seq::empty()
    } else {
        let rest = lowered_letters(s.drop_last());
        if is_letter_char(s.last()) {
            rest.push(lower_code(s.last()))
        } else {
            rest
        }
    }
}

/// Every alphabetic character of the text contributes its lowered code.
proof fn lemma_lowered_letters_membership(s: Seq<char>, p: int)
    requires
        0 <= p < s.len(),
        is_letter_char(s[p]),
    ensures
        lowered_letters(s).contains(lower_code(s[p])),
    decreases s.len(),
{
    if p == s.len() - 1 {
        let rest = lowered_letters(s.drop_last());
        assert(lowered_letters(s)[rest.len() as int] == lower_code(s[p]));
    } else {
        assert(s.drop_last()[p] == s[p]);
        lemma_lowered_letters_membership(s.drop_last(), p);
        let rest = lowered_letters(s.drop_last());
        let w = choose|w: int| 0 <= w < rest.len() && rest[w] == lower_code(s[p]);
        if is_letter_char(s.last()) {
            assert(lowered_letters(s)[w] == lower_code(s[p]));
        }
    }
}

/// Finds the position of a letter already counted, by its code point.
fn find_letter(pairs: &Vec<(char, usize)>, key: char) -> (r: Option<usize>)
    ensures
        match r {
            Some(j) => 0 <= j < pairs@.len() && (pairs@[j as int].0 as u32) as int == (
            key as u32) as int,
            None => forall|j: int| 0 <= j < pairs@.len() ==> ((#[trigger] pairs@[j].0) as u32) as int
                != (key as u32) as int,
        },
{
    let mut idx: usize = 0;
    while idx < pairs.len()
        invariant
            0 <= idx <= pairs@.len(),
            forall|j: int| 0 <= j < idx ==> ((#[trigger] pairs@[j].0) as u32) as int != (
            key as u32) as int,
        decreases pairs@.len() - idx,
    {
        if pairs[idx].0 as u32 == key as u32 {
            return Some(idx);
        }
        idx = idx + 1;
    }
    None
}

/// Counts the alphabetic characters of a text case-insensitively and
/// returns the `k` most common, each with its count, ordered by falling
/// count and then alphabetically. With fewer than `k` distinct letters,
/// all of them come back; any letter left out occurs no more often than
/// every letter kept.
pub fn top_k_most_common_letters(text: &str, k: usize) -> (r: Vec<(char, usize)>)
    ensures
        ({
            let codes = lowered_letters(text@);
            &&& r@.len() <= k
            &&& forall|i: int, j: int| 0 <= i < j < r@.len() ==> (#[trigger] r@[i].1) > (
            #[trigger] r@[j].1) || (r@[i].1 == r@[j].1 && r@[i].0 as u32 <= r@[j].0 as u32)
            &&& forall|i: int, j: int| 0 <= i < j < r@.len() ==> r@[i].0 != r@[j].0
            &&& forall|j: int| 0 <= j < r@.len() ==> codes.to_multiset().count(
                ((#[trigger] r@[j].0) as u32) as int,
            ) == r@[j].1 && r@[j].1 >= 1
            &&& r@.len() < k ==> (forall|x: int| codes.contains(x) ==> exists|m: int| 0 <= m
                < r@.len() && ((#[trigger] r@[m].0) as u32) as int == x)
            &&& forall|p: int, j: int|
                #![trigger is_letter_char(text@[p]), r@[j].1]
                (0 <= p < text@.len() && is_letter_char(text@[p]) && 0 <= j < r@.len() && !(
                exists|m: int| 0 <= m < r@.len() && ((#[trigger] r@[m].0) as u32) as int
                    == lower_code(text@[p]))) ==> r@[j].1 > codes.to_multiset().count(
                    lower_code(text@[p]),
                ) || (r@[j].1 == codes.to_multiset().count(lower_code(text@[p])) && r@[j].0 as u32
                    <= lower_code(text@[p]))
        }),
{
    let ghost codes = lowered_letters(text@);
    let n = text.unicode_len();
    let mut pairs: Vec<(char, usize)> = Vec::new();
    let mut i: usize = 0;
    proof {
        assert(text@.take(0) =~= Seq::<char>::empty());
    }
    while i < n
        invariant
            0 <= i <= n == text@.len(),
            codes == lowered_letters(text@),
            forall|j1: int, j2: int| 0 <= j1 < j2 < pairs@.len() ==> ((
            #[trigger] pairs@[j1].0) as u32) as int != ((#[trigger] pairs@[j2].0) as u32) as int,
            forall|j: int| 0 <= j < pairs@.len() ==> lowered_letters(text@.take(i as int))
                .to_multiset().count(((#[trigger] pairs@[j].0) as u32) as int) == pairs@[j].1 && 1
                <= pairs@[j].1 <= i,
            forall|x: int| lowered_letters(text@.take(i as int)).contains(x) ==> exists|j: int|
                0 <= j < pairs@.len() && ((#[trigger] pairs@[j].0) as u32) as int == x,
        decreases n - i,
    {
        let ghost lpre = lowered_letters(text@.take(i as int));
        proof {
            assert(text@.take(i as int + 1).drop_last() =~= text@.take(i as int));
            assert(text@.take(i as int + 1).last() == text@[i as int]);
        }
        let c = text.get_char(i);
        if is_letter(c) {
            let ghost prev = pairs@;
            let ghost x = lower_code(text@[i as int]);
            proof {
                assert(lowered_letters(text@.take(i as int + 1)) =~= lpre.push(x));
            }
            let lc = ascii_lower(c);
            proof {
                assert(((lc as u32) as int) == x);
            }
            let found = find_letter(&pairs, lc);
            match found {
                Some(j) => {
                    let (kc, cnt) = pairs.remove(j);
                    pairs.insert(j, (kc, cnt + 1));
                    proof {
                        assert(pairs@ =~= prev.update(j as int, (prev[j as int].0, (prev[j
                            as int].1 + 1) as usize)));
                    }
                },
                None => {
                    pairs.push((lc, 1));
                    proof {
                        if lpre.contains(x) {
                            let j0 = choose|j0: int| 0 <= j0 < prev.len() && ((
                            #[trigger] prev[j0].0) as u32) as int == x;
                            assert(false);
                        }
                        assert(lpre.to_multiset().count(x) == 0);
                    }
                },
            }
            proof {
                assert forall|y: int| #[trigger] lowered_letters(text@.take(i as int + 1)).contains(
                    y,
                ) implies exists|j: int| 0 <= j < pairs@.len() && ((
                #[trigger] pairs@[j].0) as u32) as int == y by {
                    let wi = choose|wi: int| 0 <= wi < lpre.push(x).len() && #[trigger] lpre.push(
                        x,
                    )[wi] == y;
                    if wi < lpre.len() {
                        assert(lpre[wi] == y);
                        assert(lpre.contains(y));
                        let j0 = choose|j0: int| 0 <= j0 < prev.len() && ((
                        #[trigger] prev[j0].0) as u32) as int == y;
                        match found {
                            Some(jj) => {
                                if j0 == jj as int {
                                    assert(((pairs@[j0].0) as u32) as int == y);
                                } else {
                                    assert(((pairs@[j0].0) as u32) as int == y);
                                }
                            },
                            None => {
                                assert(((pairs@[j0].0) as u32) as int == y);
                            },
                        }
                    } else {
                        assert(y == x);
                        match found {
                            Some(jj) => {
                                assert(((pairs@[jj as int].0) as u32) as int == y);
                            },
                            None => {
                                assert(((pairs@[pairs@.len() - 1].0) as u32) as int == y);
                            },
                        }
                    }
                }
            }
        } else {
            proof {
                assert(lowered_letters(text@.take(i as int + 1)) == lpre);
            }
        }
        i = i + 1;
    }
    proof {
        assert(text@.take(n as int) =~= text@);
    }
    let sorted = insertion_sort(pairs);
    proof {
        assert forall|j1: int, j2: int| 0 <= j1 < j2 < pairs@.len() implies pairs@[j1]
            != pairs@[j2] by {
            assert(((pairs@[j1].0) as u32) as int != ((pairs@[j2].0) as u32) as int);
        }
        pairs@.lemma_multiset_has_no_duplicates();
        sorted@.lemma_multiset_has_no_duplicates_conv();
        assert forall|j: int| 0 <= j < sorted@.len() implies codes.to_multiset().count(
            ((#[trigger] sorted@[j].0) as u32) as int,
        ) == sorted@[j].1 && sorted@[j].1 >= 1 by {
            assert(sorted@.contains(sorted@[j]));
            assert(pairs@.to_multiset().count(sorted@[j]) > 0);
            assert(pairs@.contains(sorted@[j]));
        }
        assert forall|j1: int, j2: int| 0 <= j1 < j2 < sorted@.len() implies sorted@[j1].0
            != sorted@[j2].0 by {
            if sorted@[j1].0 == sorted@[j2].0 {
                assert(sorted@[j1].1 == sorted@[j2].1);
                assert(sorted@[j1] == sorted@[j2]);
                assert(sorted@.no_duplicates());
            }
        }
    }
    let mut out: Vec<(char, usize)> = Vec::new();
    let mut t: usize = 0;
    while t < sorted.len() && t < k
        invariant
            0 <= t <= sorted@.len(),
            t <= k,
            t == k || t == sorted@.len() || (t < k && t < sorted@.len()),
            out@ == sorted@.take(t as int),
        decreases sorted@.len() - t,
    {
        out.push(sorted[t]);
        proof {
            assert(out@ =~= sorted@.take(t as int + 1));
        }
        t = t + 1;
    }
    proof {
        assert(out@.len() == t);
        if t == sorted@.len() as usize {
            assert(out@ =~= sorted@);
        }
        assert forall|i2: int, j2: int| 0 <= i2 < j2 < out@.len() implies (#[trigger] out@[i2].1)
            > (#[trigger] out@[j2].1) || (out@[i2].1 == out@[j2].1 && out@[i2].0 as u32
            <= out@[j2].0 as u32) by {
            assert(out@[i2] == sorted@[i2] && out@[j2] == sorted@[j2]);
            assert(sorted@[i2].le_spec(&sorted@[j2]));
        }
        if out@.len() < k {
            assert forall|x: int| codes.contains(x) implies exists|m: int| 0 <= m < out@.len()
                && ((#[trigger] out@[m].0) as u32) as int == x by {
                let j0 = choose|j0: int| 0 <= j0 < pairs@.len() && ((
                #[trigger] pairs@[j0].0) as u32) as int == x;
                assert(pairs@.to_multiset().count(pairs@[j0]) > 0);
                assert(sorted@.to_multiset().count(pairs@[j0]) > 0);
                assert(sorted@.contains(pairs@[j0]));
                let mm = choose|mm: int| 0 <= mm < sorted@.len() && sorted@[mm] == pairs@[j0];
                assert(((out@[mm].0) as u32) as int == x);
            }
        }
        assert forall|p: int, j: int|
            #![trigger is_letter_char(text@[p]), out@[j].1]
            (0 <= p < text@.len() && is_letter_char(text@[p]) && 0 <= j < out@.len() && !(exists|
            m: int| 0 <= m < out@.len() && ((#[trigger] out@[m].0) as u32) as int == lower_code(
                text@[p],
            ))) implies out@[j].1 > codes.to_multiset().count(lower_code(text@[p]))
            || (out@[j].1 == codes.to_multiset().count(lower_code(text@[p])) && out@[j].0 as u32
            <= lower_code(text@[p])) by {
            let x = lower_code(text@[p]);
            lemma_lowered_letters_membership(text@, p);
            let j0 = choose|j0: int| 0 <= j0 < pairs@.len() && ((
            #[trigger] pairs@[j0].0) as u32) as int == x;
            let e = pairs@[j0];
            assert(pairs@.to_multiset().count(e) > 0);
            assert(sorted@.to_multiset().count(e) > 0);
            assert(sorted@.contains(e));
            let mm = choose|mm: int| 0 <= mm < sorted@.len() && sorted@[mm] == e;
            if mm < out@.len() {
                assert(((out@[mm].0) as u32) as int == x);
            } else {
                assert(out@[j] == sorted@[j]);
                assert(sorted@[j].le_spec(&sorted@[mm]));
                assert(e.1 == codes.to_multiset().count(x));
            }
        }
    }
    out
}

/// The names whose UTF-8 length reaches the minimum, in their original
/// order.
pub open spec fn long_names(ns: Seq<Seq<char>>, min: nat) -> Seq<Seq<char>>
    decreases ns.len(),
{
    if ns.len() == 0 {
        Seq::empty()
    } else {
        let rest = long_names(ns.drop_last(), min);
        if byte_len(ns.last()) >= min {
            rest.push(ns.last())
        } else {
            rest
        }
    }
}

/// Keeps the names at least `minimum_length` bytes long and sorts them
/// case-insensitively: the result holds exactly the long-enough names,
/// ordered by the lexicographic order of their lowercase forms.
pub fn filter_and_sort_names(names: Vec<String>, minimum_length: usize) -> (r: Vec<String>)
    ensures
        forall|i: int, j: int| 0 <= i < j < r@.len() ==> lex_le(
            lower_str_of((#[trigger] r@[i])@),
            lower_str_of((#[trigger] r@[j])@),
        ),
        r@.map_values(|s: String| s@).to_multiset() == long_names(
            names@.map_values(|s: String| s@),
            minimum_length as nat,
        ).to_multiset(),
{
    let ghost nv = names@.map_values(|s: String| s@);
    let mut kept: Vec<String> = Vec::new();
    let mut i: usize = 0;
    proof {
        assert(nv.take(0) =~= Seq::<Seq<char>>::empty());
        assert(kept@.map_values(|s: String| s@) =~= long_names(nv.take(0), minimum_length as nat));
    }
    while i < names.len()
        invariant
            0 <= i <= names@.len() == nv.len(),
            nv == names@.map_values(|s: String| s@),
            kept@.map_values(|s: String| s@) == long_names(nv.take(i as int), minimum_length as nat),
        decreases names@.len() - i,
    {
        proof {
            assert(nv.take(i as int + 1).drop_last() =~= nv.take(i as int));
            assert(nv.take(i as int + 1).last() == nv[i as int]);
            assert(nv[i as int] == names@[i as int]@);
        }
        let blen = names[i].as_str().as_bytes().len();
        proof {
            assert(blen == byte_len(names@[i as int]@));
        }
        if blen >= minimum_length {
            let ghost prevk = kept@;
            kept.push(names[i].clone());
            proof {
                assert forall|m: int| 0 <= m < kept@.len() implies kept@.map_values(
                    |s: String| s@,
                )[m] == #[trigger] long_names(nv.take(i as int + 1), minimum_length as nat)[m] by {
                    if m < prevk.len() {
                        assert(kept@[m] == prevk[m]);
                        assert(prevk.map_values(|s: String| s@)[m] == prevk[m]@);
                    } else {
                        assert(kept@[m]@ == names@[i as int]@);
                    }
                }
                assert(kept@.map_values(|s: String| s@) =~= long_names(
                    nv.take(i as int + 1),
                    minimum_length as nat,
                ));
            }
        }
        i = i + 1;
    }
    proof {
        assert(nv.take(nv.len() as int) =~= nv);
    }
    let sorted = insertion_sort(kept);
    proof {
        lemma_map_values_to_multiset(sorted@, kept@, |s: String| s@);
        assert forall|i2: int, j2: int| 0 <= i2 < j2 < sorted@.len() implies lex_le(
            lower_str_of((#[trigger] sorted@[i2])@),
            lower_str_of((#[trigger] sorted@[j2])@),
        ) by {
            assert(sorted@[i2].le_spec(&sorted@[j2]));
        }
    }
    sorted
}

/// The names of the students with the given grade, in their original order.
pub open spec fn names_with_grade(ps: Seq<(Seq<char>, u32)>, g: u32) -> Seq<Seq<char>>
    decreases ps.len(),
{
    if ps.len() == 0 {
        Seq::empty()
    } else {
        let rest = names_with_grade(ps.drop_last(), g);
        if ps.last().1 == g {
            rest.push(ps.last().0)
        } else {
            rest
        }
    }
}

/// Finds the position of a grade's group.
fn find_grade(groups: &Vec<(u32, Vec<String>)>, g: u32) -> (r: Option<usize>)
    ensures
        match r {
            Some(j) => 0 <= j < groups@.len() && groups@[j as int].0 == g,
            None => forall|j: int| 0 <= j < groups@.len() ==> (#[trigger] groups@[j]).0 != g,
        },
{
    let mut idx: usize = 0;
    while idx < groups.len()
        invariant
            0 <= idx <= groups@.len(),
            forall|j: int| 0 <= j < idx ==> (#[trigger] groups@[j]).0 != g,
        decreases groups@.len() - idx,
    {
        if groups[idx].0 == g {
            return Some(idx);
        }
        idx = idx + 1;
    }
    None
}

/// Groups students by grade: the map holds exactly the grades that occur,
/// each bound to the names of its students, sorted case-insensitively.
pub fn group_students_by_grade(students: Vec<(String, u32)>) -> (m: HashMap<u32, Vec<String>>)
    ensures
        ({
            let sv = students@.map_values(|p: (String, u32)| (p.0@, p.1));
            &&& forall|g: u32|
                #![trigger m@.dom().contains(g)]
                #![trigger names_with_grade(sv, g)]
                m@.dom().contains(g) <==> names_with_grade(sv, g).len() > 0
            &&& forall|g: u32| #[trigger] m@.dom().contains(g) ==> m@[g]@.map_values(
                |s: String| s@,
            ).to_multiset() == names_with_grade(sv, g).to_multiset()
            &&& forall|g: u32, i: int, j: int|
                #![trigger m@[g]@[i], m@[g]@[j]]
                m@.dom().contains(g) && 0 <= i < j < m@[g]@.len() ==> lex_le(
                    lower_str_of(m@[g]@[i]@),
                    lower_str_of(m@[g]@[j]@),
                )
        }),
{
    let ghost sv = students@.map_values(|p: (String, u32)| (p.0@, p.1));
    let ghost n = sv.len();
    let mut rest = students;
    let mut grouped: Vec<(u32, Vec<String>)> = Vec::new();
    proof {
        assert(rest@.map_values(|p: (String, u32)| (p.0@, p.1)) =~= sv.skip(0));
        assert(sv.take(0) =~= Seq::<(Seq<char>, u32)>::empty());
    }
    while rest.len() > 0
        invariant
            rest@.len() <= n == sv.len(),
            sv == students@.map_values(|p: (String, u32)| (p.0@, p.1)),
            rest@.map_values(|p: (String, u32)| (p.0@, p.1)) == sv.skip(n - rest@.len()),
            forall|j1: int, j2: int| 0 <= j1 < j2 < grouped@.len() ==> (
            #[trigger] grouped@[j1]).0 != (#[trigger] grouped@[j2]).0,
            forall|j: int| 0 <= j < grouped@.len() ==> (#[trigger] grouped@[j]).1@.map_values(
                |s: String| s@,
            ) == names_with_grade(sv.take(n - rest@.len()), grouped@[j].0)
                && grouped@[j].1@.len() >= 1,
            forall|g: u32| #[trigger] names_with_grade(sv.take(n - rest@.len()), g).len() > 0
                ==> exists|j: int| 0 <= j < grouped@.len() && (#[trigger] grouped@[j]).0 == g,
        decreases rest@.len(),
    {
        let ghost t = n - rest@.len();
        let ghost spre = sv.take(t);
        let ghost prev_rest = rest@;
        proof {
            assert(sv.take(t + 1).drop_last() =~= sv.take(t));
            assert(sv.take(t + 1).last() == sv[t]);
            assert(prev_rest.map_values(|p: (String, u32)| (p.0@, p.1))[0] == sv.skip(t)[0]);
            assert(sv.skip(t)[0] == sv[t]);
        }
        let (name, grade) = rest.remove(0);
        proof {
            assert(name@ == sv[t].0 && grade == sv[t].1);
            assert forall|q: int| 0 <= q < rest@.len() implies rest@.map_values(
                |p: (String, u32)| (p.0@, p.1),
            )[q] == #[trigger] sv.skip(n - rest@.len())[q] by {
                assert(rest@[q] == prev_rest[q + 1]);
                assert(prev_rest.map_values(|p: (String, u32)| (p.0@, p.1))[q + 1] == sv.skip(
                    t,
                )[q + 1]);
            }
            assert(rest@.map_values(|p: (String, u32)| (p.0@, p.1)) =~= sv.skip(
                n - rest@.len(),
            ));
        }
        let ghost prevg = grouped@;
        let found = find_grade(&grouped, grade);
        match found {
            Some(j) => {
                let (g2, mut names_vec) = grouped.remove(j);
                let ghost nv0 = names_vec@;
                names_vec.push(name);
                grouped.insert(j, (g2, names_vec));
                proof {
                    assert forall|jj: int| 0 <= jj < grouped@.len() implies (
                    #[trigger] grouped@[jj]).1@.map_values(|s: String| s@) == names_with_grade(
                        sv.take(t + 1),
                        grouped@[jj].0,
                    ) && grouped@[jj].1@.len() >= 1 by {
                        if jj == j as int {
                            assert(grouped@[jj].0 == g2 && g2 == grade);
                            assert(grouped@[jj].1@ =~= nv0.push(name));
                            assert(grouped@[jj].1@.map_values(|s: String| s@)
                                =~= nv0.map_values(|s: String| s@).push(name@));
                            assert(names_with_grade(sv.take(t + 1), grade)
                                == names_with_grade(spre, grade).push(sv[t].0));
                        } else {
                            assert(grouped@[jj] == prevg[jj]);
                            assert(prevg[jj].0 != grade);
                            assert(names_with_grade(sv.take(t + 1), prevg[jj].0)
                                == names_with_grade(spre, prevg[jj].0));
                        }
                    }
                }
            },
            None => {
                let mut names_vec: Vec<String> = Vec::new();
                names_vec.push(name);
                grouped.push((grade, names_vec));
                proof {
                    if names_with_grade(spre, grade).len() > 0 {
                        let j0 = choose|j0: int| 0 <= j0 < prevg.len() && (
                        #[trigger] prevg[j0]).0 == grade;
                        assert(false);
                    }
                    assert forall|jj: int| 0 <= jj < grouped@.len() implies (
                    #[trigger] grouped@[jj]).1@.map_values(|s: String| s@) == names_with_grade(
                        sv.take(t + 1),
                        grouped@[jj].0,
                    ) && grouped@[jj].1@.len() >= 1 by {
                        if jj == grouped@.len() - 1 {
                            assert(grouped@[jj].0 == grade);
                            assert(grouped@[jj].1@.map_values(|s: String| s@) =~= Seq::<
                                Seq<char>,
                            >::empty().push(name@));
                            assert(names_with_grade(sv.take(t + 1), grade)
                                == names_with_grade(spre, grade).push(sv[t].0));
                            assert(names_with_grade(spre, grade) =~= Seq::<Seq<char>>::empty());
                        } else {
                            assert(grouped@[jj] == prevg[jj]);
                            if prevg[jj].0 == grade {
                                assert(names_with_grade(spre, grade).len() > 0);
                            }
                            assert(names_with_grade(sv.take(t + 1), prevg[jj].0)
                                == names_with_grade(spre, prevg[jj].0));
                        }
                    }
                }
            },
        }
        proof {
            assert forall|g: u32| #[trigger] names_with_grade(sv.take(t + 1), g).len() > 0
                implies exists|j: int| 0 <= j < grouped@.len() && (#[trigger] grouped@[j]).0
                == g by {
                if g == grade {
                    match found {
                        Some(jj) => {
                            assert(grouped@[jj as int].0 == g);
                        },
                        None => {
                            assert(grouped@[grouped@.len() - 1].0 == g);
                        },
                    }
                } else {
                    assert(names_with_grade(sv.take(t + 1), g) == names_with_grade(spre, g));
                    let j0 = choose|j0: int| 0 <= j0 < prevg.len() && (#[trigger] prevg[j0]).0
                        == g;
                    match found {
                        Some(jj) => {
                            if j0 == jj as int {
                                assert(grouped@[j0].0 == g);
                            } else {
                                assert(grouped@[j0].0 == g);
                            }
                        },
                        None => {
                            assert(grouped@[j0].0 == g);
                        },
                    }
                }
            }
        }
    }
    proof {
        assert(sv.take(n as int) =~= sv);
    }
    let mut m: HashMap<u32, Vec<String>> = HashMap::new();
    while grouped.len() > 0
        invariant
            forall|j1: int, j2: int| 0 <= j1 < j2 < grouped@.len() ==> (
            #[trigger] grouped@[j1]).0 != (#[trigger] grouped@[j2]).0,
            forall|j: int| 0 <= j < grouped@.len() ==> (#[trigger] grouped@[j]).1@.map_values(
                |s: String| s@,
            ) == names_with_grade(sv, grouped@[j].0) && grouped@[j].1@.len() >= 1,
            forall|g: u32|
                #![trigger m@.dom().contains(g)]
                #![trigger names_with_grade(sv, g)]
                m@.dom().contains(g) <==> (names_with_grade(sv, g).len() > 0 && !(exists|j: int|
                0 <= j < grouped@.len() && (#[trigger] grouped@[j]).0 == g)),
            forall|g: u32| #[trigger] m@.dom().contains(g) ==> m@[g]@.map_values(|s: String| s@)
                .to_multiset() == names_with_grade(sv, g).to_multiset(),
            forall|g: u32, i: int, j: int|
                #![trigger m@[g]@[i], m@[g]@[j]]
                m@.dom().contains(g) && 0 <= i < j < m@[g]@.len() ==> lex_le(
                    lower_str_of(m@[g]@[i]@),
                    lower_str_of(m@[g]@[j]@),
                ),
        decreases grouped@.len(),
    {
        let ghost prevg = grouped@;
        let ghost prevm = m@;
        let (g, names_vec) = grouped.remove(0);
        let ghost nv0 = names_vec@;
        let sorted_names = insertion_sort(names_vec);
        proof {
            lemma_map_values_to_multiset(sorted_names@, nv0, |s: String| s@);
        }
        m.insert(g, sorted_names);
        proof {
            assert(m@ == prevm.insert(g, sorted_names));
            assert forall|jj: int| 0 <= jj < grouped@.len() implies #[trigger] grouped@[jj]
                == prevg[jj + 1] by {}
            assert(names_with_grade(sv, g).len() >= 1);
            assert forall|g2: u32|
                #![trigger m@.dom().contains(g2)]
                #![trigger names_with_grade(sv, g2)]
                m@.dom().contains(g2) <==> (names_with_grade(sv, g2).len() > 0 && !(exists|
            j: int| 0 <= j < grouped@.len() && (#[trigger] grouped@[j]).0 == g2)) by {
                if g2 == g {
                    assert(m@.dom().contains(g2));
                    if exists|j: int| 0 <= j < grouped@.len() && (#[trigger] grouped@[j]).0
                        == g2 {
                        let j = choose|j: int| 0 <= j < grouped@.len() && (
                        #[trigger] grouped@[j]).0 == g2;
                        assert(prevg[j + 1].0 == g2 && prevg[0].0 == g2);
                        assert(false);
                    }
                } else {
                    assert(m@.dom().contains(g2) == prevm.dom().contains(g2));
                    if prevm.dom().contains(g2) {
                        if exists|j: int| 0 <= j < grouped@.len() && (#[trigger] grouped@[j]).0
                            == g2 {
                            let j = choose|j: int| 0 <= j < grouped@.len() && (
                            #[trigger] grouped@[j]).0 == g2;
                            assert(prevg[j + 1].0 == g2);
                            assert(false);
                        }
                    } else {
                        if names_with_grade(sv, g2).len() > 0 {
                            let j = choose|j: int| 0 <= j < prevg.len() && (
                            #[trigger] prevg[j]).0 == g2;
                            assert(j >= 1);
                            assert(grouped@[j - 1].0 == g2);
                        }
                    }
                }
            }
            assert forall|g2: u32, i: int, j: int|
                #![trigger m@[g2]@[i], m@[g2]@[j]]
                m@.dom().contains(g2) && 0 <= i < j < m@[g2]@.len() implies lex_le(
                lower_str_of(m@[g2]@[i]@),
                lower_str_of(m@[g2]@[j]@),
            ) by {
                if g2 == g {
                    assert(m@[g2] == sorted_names);
                    assert(sorted_names@[i].le_spec(&sorted_names@[j]));
                } else {
                    assert(m@[g2] == prevm[g2]);
                }
            }
        }
    }
    m
}

} // verus!
