//! String functions over words and characters: picking the last or longest
//! word, reversing word order, normalizing capitalization, and testing for
//! repeated characters.

use vstd::prelude::*;
use crate::text::{
    byte_len, capitalize_word, contains_char, join_spaced, join_step,
    lemma_join_spaced_nonempty, lemma_join_spaced_push, lemma_lower_flat_snoc,
    lemma_words_nonempty, longest_word_fold, lower_chars_of, lower_flat, push_char,
    split_word_bounds, to_lowercase_chars, to_uppercase_chars, upper_chars_of, words_of,
};

verus! {

broadcast use vstd::slice::axiom_spec_len;

/// Returns the last word of a string slice, or the empty slice when there is
/// no word.
pub fn last_word(slice: &str) -> (r: &str)
    ensures
        words_of(slice@).len() == 0 ==> r@ == Seq::<char>::empty(),
        words_of(slice@).len() > 0 ==> r@ == words_of(slice@).last(),
{
    let bounds = split_word_bounds(slice);
    if bounds.len() == 0 {
        proof {
            reveal_strlit("");
            assert(""@ =~= Seq::<char>::empty());
        }
        ""
    } else {
        let (a, b) = bounds[bounds.len() - 1];
        slice.substring_char(a, b)
    }
}

/// Returns the longest word of a sentence, measured in bytes as the standard
/// library measures strings; of several equally long words, the last. With
/// no words the result is empty.
pub fn longest_word(sentence: &str) -> (r: &str)
    ensures
        r@ == longest_word_fold(words_of(sentence@)),
{
    let ghost ws = words_of(sentence@);
    let bounds = split_word_bounds(sentence);
    let mut best: &str = "";
    proof {
        reveal_strlit("");
        assert(""@ =~= Seq::<char>::empty());
        assert(ws.take(0) =~= Seq::<Seq<char>>::empty());
    }
    let mut k: usize = 0;
    while k < bounds.len()
        invariant
            0 <= k <= bounds@.len() == ws.len(),
            ws == words_of(sentence@),
            bounds@.map_values(|p: (usize, usize)| sentence@.subrange(p.0 as int, p.1 as int))
                == ws,
            forall|m: int| 0 <= m < bounds@.len()
                ==> 0 <= #[trigger] bounds@[m].0 < bounds@[m].1 <= sentence@.len(),
            best@ == longest_word_fold(ws.take(k as int)),
        decreases bounds@.len() - k,
    {
        let (a, b) = bounds[k];
        let w = sentence.substring_char(a, b);
        let ghost prev_fold = longest_word_fold(ws.take(k as int));
        proof {
            assert(w@ == ws[k as int]);
            assert(ws.take(k as int + 1).drop_last() =~= ws.take(k as int));
            assert(ws.take(k as int + 1).last() == ws[k as int]);
            assert(longest_word_fold(ws.take(k as int + 1)) == (if byte_len(ws[k as int])
                >= byte_len(prev_fold) {
                ws[k as int]
            } else {
                prev_fold
            }));
        }
        let wlen = w.as_bytes().len();
        let blen = best.as_bytes().len();
        proof {
            assert(wlen == byte_len(w@));
            assert(blen == byte_len(best@));
        }
        if wlen >= blen {
            best = w;
        }
        k = k + 1;
    }
    proof {
        assert(ws.take(ws.len() as int) =~= ws);
    }
    best
}

/// Reverses the order of the words in a sentence, keeping each word intact;
/// the words are joined with single spaces.
pub fn reverse_words(sentence: &str) -> (r: String)
    ensures
        r@ == join_spaced(words_of(sentence@).reverse()),
{
    let ghost ws = words_of(sentence@);
    let ghost rws = ws.reverse();
    let bounds = split_word_bounds(sentence);
    proof {
        lemma_words_nonempty(sentence@, 0);
        assert(rws.take(0) =~= Seq::<Seq<char>>::empty());
    }
    let mut acc = String::new();
    let mut t: usize = 0;
    while t < bounds.len()
        invariant
            0 <= t <= bounds@.len() == ws.len(),
            ws == words_of(sentence@),
            rws == ws.reverse(),
            bounds@.map_values(|p: (usize, usize)| sentence@.subrange(p.0 as int, p.1 as int))
                == ws,
            forall|m: int| 0 <= m < bounds@.len()
                ==> 0 <= #[trigger] bounds@[m].0 < bounds@[m].1 <= sentence@.len(),
            forall|m: int| 0 <= m < ws.len() ==> #[trigger] ws[m].len() >= 1,
            acc@ == join_spaced(rws.take(t as int)),
        decreases bounds@.len() - t,
    {
        let idx = bounds.len() - 1 - t;
        let (a, b) = bounds[idx];
        let w = sentence.substring_char(a, b);
        proof {
            assert(w@ == ws[idx as int]);
            assert(rws[t as int] == ws[idx as int]);
            assert(rws.take(t as int + 1) =~= rws.take(t as int).push(rws[t as int]));
            lemma_join_spaced_push(rws.take(t as int), rws[t as int]);
            if t > 0 {
                assert forall|m: int| 0 <= m < rws.take(t as int).len()
                    implies #[trigger] rws.take(t as int)[m].len() >= 1 by {
                    assert(rws.take(t as int)[m] == ws[ws.len() - 1 - m]);
                }
                lemma_join_spaced_nonempty(rws.take(t as int));
            }
        }
        join_step(&mut acc, w);
        t = t + 1;
    }
    proof {
        assert(rws.take(rws.len() as int) =~= rws);
    }
    acc
}

/// Normalizes a sentence: surrounding and repeated spaces collapse so that
/// the words are joined by single spaces, and each word is capitalized —
/// its first character mapped to uppercase, the rest to lowercase.
pub fn normalize_and_capitalize(sentence: &str) -> (r: String)
    ensures
        r@ == join_spaced(words_of(sentence@).map_values(|w: Seq<char>| capitalize_word(w))),
{
    let ghost ws = words_of(sentence@);
    let ghost cws = ws.map_values(|w: Seq<char>| capitalize_word(w));
    let bounds = split_word_bounds(sentence);
    proof {
        lemma_words_nonempty(sentence@, 0);
        assert(cws.take(0) =~= Seq::<Seq<char>>::empty());
    }
    let mut acc = String::new();
    let mut t: usize = 0;
    while t < bounds.len()
        invariant
            0 <= t <= bounds@.len() == ws.len(),
            ws == words_of(sentence@),
            cws == ws.map_values(|w: Seq<char>| capitalize_word(w)),
            bounds@.map_values(|p: (usize, usize)| sentence@.subrange(p.0 as int, p.1 as int))
                == ws,
            forall|m: int| 0 <= m < bounds@.len()
                ==> 0 <= #[trigger] bounds@[m].0 < bounds@[m].1 <= sentence@.len(),
            forall|m: int| 0 <= m < ws.len() ==> #[trigger] ws[m].len() >= 1,
            acc@ == join_spaced(cws.take(t as int)),
        decreases bounds@.len() - t,
    {
        let (a, b) = bounds[t];
        let ghost word_spec = sentence@.subrange(a as int, b as int);
        let mut word = String::new();
        let c0 = sentence.get_char(a);
        let up = to_uppercase_chars(c0);
        push_char(&mut word, up[0]);
        let mut p = a + 1;
        while p < b
            invariant
                a < p <= b <= sentence@.len(),
                word_spec == sentence@.subrange(a as int, b as int),
                word@.len() == p - a,
                word@[0] == upper_chars_of(sentence@[a as int])[0],
                forall|m: int| 1 <= m < p - a
                    ==> #[trigger] word@[m] == lower_chars_of(sentence@[a + m])[0],
            decreases b - p,
        {
            let cc = sentence.get_char(p);
            let lo = to_lowercase_chars(cc);
            push_char(&mut word, lo[0]);
            p = p + 1;
        }
        proof {
            assert(word@ =~= capitalize_word(word_spec));
            assert(word_spec == ws[t as int]);
            assert(cws[t as int] == capitalize_word(ws[t as int]));
            assert(cws.take(t as int + 1) =~= cws.take(t as int).push(cws[t as int]));
            lemma_join_spaced_push(cws.take(t as int), cws[t as int]);
            if t > 0 {
                assert forall|m: int| 0 <= m < cws.take(t as int).len()
                    implies #[trigger] cws.take(t as int)[m].len() >= 1 by {
                    assert(cws.take(t as int)[m] == capitalize_word(ws[m]));
                    assert(capitalize_word(ws[m]).len() == ws[m].len());
                }
                lemma_join_spaced_nonempty(cws.take(t as int));
            }
        }
        join_step(&mut acc, word.as_str());
        t = t + 1;
    }
    proof {
        assert(cws.take(cws.len() as int) =~= cws);
    }
    acc
}

/// Whether all characters of a string are unique once lowercased: the full
/// lowercase expansion of the text repeats no character.
pub fn unique_chars(s: &str) -> (r: bool)
    ensures
        r == lower_flat(s@).no_duplicates(),
{
    let n = s.unicode_len();
    let mut seen: Vec<char> = Vec::new();
    let mut i: usize = 0;
    proof {
        assert(s@.take(0) =~= Seq::<char>::empty());
        assert(seen@ =~= lower_flat(s@.take(0)));
    }
    while i < n
        invariant
            0 <= i <= n == s@.len(),
            seen@ == lower_flat(s@.take(i as int)),
            seen@.no_duplicates(),
        decreases n - i,
    {
        let c = s.get_char(i);
        let exp = to_lowercase_chars(c);
        let ghost base = seen@;
        let mut j: usize = 0;
        while j < exp.len()
            invariant
                0 <= j <= exp@.len(),
                exp@ == lower_chars_of(s@[i as int]),
                base == lower_flat(s@.take(i as int)),
                0 <= i < s@.len() == n,
                seen@ == base + exp@.take(j as int),
                seen@.no_duplicates(),
            decreases exp@.len() - j,
        {
            let lc = exp[j];
            if contains_char(&seen, lc) {
                proof {
                    lemma_dup_in_prefix(s@, i as int, j as int, seen@);
                }
                return false;
            }
            let ghost sprev = seen@;
            seen.push(lc);
            proof {
                assert(seen@ =~= base + exp@.take(j as int + 1));
                assert forall|m: int, m2: int|
                    0 <= m < m2 < seen@.len() implies seen@[m] != seen@[m2] by {
                    if m2 < sprev.len() {
                        assert(seen@[m] == sprev[m] && seen@[m2] == sprev[m2]);
                    } else {
                        assert(seen@[m2] == lc);
                        assert(seen@[m] == sprev[m]);
                        assert(!sprev.contains(lc));
                    }
                }
            }
            j = j + 1;
        }
        proof {
            lemma_lower_flat_snoc(s@.take(i as int), s@[i as int]);
            assert(s@.take(i as int).push(s@[i as int]) =~= s@.take(i as int + 1));
            assert(exp@.take(j as int) =~= exp@);
            assert(seen@ =~= lower_flat(s@.take(i as int + 1)));
        }
        i = i + 1;
    }
    proof {
        assert(s@.take(n as int) =~= s@);
    }
    true
}

/// The lowercase expansion of a text splits at any character position.
proof fn lemma_lower_flat_split(s: Seq<char>, i: int)
    requires
        0 <= i <= s.len(),
    ensures
        lower_flat(s) == lower_flat(s.take(i)) + lower_flat(s.skip(i)),
    decreases i,
{
    if i == 0 {
        assert(s.take(0) =~= Seq::<char>::empty());
        assert(s.skip(0) =~= s);
        assert(lower_flat(s.take(0)) + lower_flat(s.skip(0)) =~= lower_flat(s));
    } else {
        lemma_lower_flat_split(s, i - 1);
        lemma_lower_flat_snoc(s.take(i - 1), s[i - 1]);
        assert(s.take(i - 1).push(s[i - 1]) =~= s.take(i));
        assert(lower_flat(s.skip(i - 1)) == lower_chars_of(s.skip(i - 1)[0]) + lower_flat(
            s.skip(i - 1).drop_first(),
        ));
        assert(s.skip(i - 1)[0] == s[i - 1]);
        assert(s.skip(i - 1).drop_first() =~= s.skip(i));
        assert((lower_flat(s.take(i - 1)) + lower_chars_of(s[i - 1])) + lower_flat(s.skip(i))
            =~= lower_flat(s.take(i - 1)) + (lower_chars_of(s[i - 1]) + lower_flat(s.skip(i))));
    }
}

/// A repeated character inside the scanned prefix is a repetition in the
/// whole lowercase expansion.
proof fn lemma_dup_in_prefix(s: Seq<char>, i: int, j: int, seen: Seq<char>)
    requires
        0 <= i < s.len(),
        0 <= j < lower_chars_of(s[i]).len(),
        seen == lower_flat(s.take(i)) + lower_chars_of(s[i]).take(j),
        seen.contains(lower_chars_of(s[i])[j]),
    ensures
        !lower_flat(s).no_duplicates(),
{
    let exp = lower_chars_of(s[i]);
    let lc = exp[j];
    let m = choose|m: int| 0 <= m < seen.len() && seen[m] == lc;
    lemma_lower_flat_split(s, i);
    assert(lower_flat(s.skip(i)) == lower_chars_of(s.skip(i)[0]) + lower_flat(
        s.skip(i).drop_first(),
    ));
    assert(s.skip(i)[0] == s[i]);
    let whole = lower_flat(s);
    let base_len = lower_flat(s.take(i)).len();
    assert(whole[base_len + j] == lc);
    assert(whole.len() >= base_len + exp.len());
    assert forall|k: int| 0 <= k < seen.len() implies whole[k] == seen[k] by {
        if k < base_len {
            assert(seen[k] == lower_flat(s.take(i))[k]);
            assert(whole[k] == lower_flat(s.take(i))[k]);
        } else {
            assert(seen[k] == exp.take(j)[k - base_len]);
            assert(whole[k] == lower_flat(s.skip(i))[k - base_len]);
            assert(lower_flat(s.skip(i))[k - base_len] == exp[k - base_len]);
        }
    }
    assert(whole[m] == lc);
    assert(m < base_len + j);
}

} // verus!
