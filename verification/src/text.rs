//! Text machinery shared by the string functions: whitespace splitting with
//! an exact word-by-word specification, lexicographic ordering of character
//! sequences, and the case mappings that only Unicode tables can compute.

use vstd::prelude::*;

verus! {

/// The Unicode White_Space code points, the characters that split words.
pub open spec fn is_space_char(c: char) -> bool {
    let u = c as u32;
    u == 0x20 || (0x9 <= u && u <= 0xd) || u == 0x85 || u == 0xa0 || u == 0x1680 || (0x2000 <= u
        && u <= 0x200a) || u == 0x2028 || u == 0x2029 || u == 0x202f || u == 0x205f || u == 0x3000
}

/// Tests a character for Unicode whitespace.
pub fn is_space(c: char) -> (r: bool)
    ensures
        r == is_space_char(c),
{
    let u = c as u32;
    u == 0x20 || (0x9 <= u && u <= 0xd) || u == 0x85 || u == 0xa0 || u == 0x1680 || (0x2000 <= u
        && u <= 0x200a) || u == 0x2028 || u == 0x2029 || u == 0x202f || u == 0x205f || u == 0x3000
}

/// The position just past the run of non-space characters starting at `i`.
pub open spec fn word_end(s: Seq<char>, i: int) -> int
    decreases s.len() - i when 0 <= i <= s.len()
{
    if i >= s.len() {
        i
    } else if is_space_char(s[i]) {
        i
    } else {
        word_end(s, i + 1)
    }
}

/// The end of a word lies between its start and the end of the text, and a
/// word that starts on a non-space character has at least one character.
pub proof fn lemma_word_end_bounds(s: Seq<char>, i: int)
    requires
        0 <= i <= s.len(),
    ensures
        i <= word_end(s, i) <= s.len(),
        i < s.len() && !is_space_char(s[i]) ==> word_end(s, i) >= i + 1,
    decreases s.len() - i,
{
    if i < s.len() && !is_space_char(s[i]) {
        lemma_word_end_bounds(s, i + 1);
    }
}

/// The words of `s` from position `i` on: the maximal runs of non-space
/// characters, in order.
pub open spec fn words_from(s: Seq<char>, i: int) -> Seq<Seq<char>>
    decreases s.len() - i when 0 <= i <= s.len()
    via words_from_decreases
{
    if i >= s.len() {
        Seq::empty()
    } else if is_space_char(s[i]) {
        words_from(s, i + 1)
    } else {
        seq![s.subrange(i, word_end(s, i))] + words_from(s, word_end(s, i))
    }
}

#[via_fn]
proof fn words_from_decreases(s: Seq<char>, i: int) {
    if 0 <= i < s.len() && !is_space_char(s[i]) {
        lemma_word_end_bounds(s, i);
    }
}

/// The words of a whole text.
pub open spec fn words_of(s: Seq<char>) -> Seq<Seq<char>> {
    words_from(s, 0)
}

/// Every word is a nonempty run of non-space characters.
pub proof fn lemma_words_nonempty(s: Seq<char>, i: int)
    requires
        0 <= i <= s.len(),
    ensures
        forall|k: int| 0 <= k < words_from(s, i).len() ==> #[trigger] words_from(s, i)[k].len() >= 1,
    decreases s.len() - i,
{
    if i >= s.len() {
    } else if is_space_char(s[i]) {
        lemma_words_nonempty(s, i + 1);
        assert forall|k: int| 0 <= k < words_from(s, i).len()
            implies #[trigger] words_from(s, i)[k].len() >= 1 by {
            assert(words_from(s, i)[k] == words_from(s, i + 1)[k]);
        }
    } else {
        lemma_word_end_bounds(s, i);
        lemma_words_nonempty(s, word_end(s, i));
        let we = word_end(s, i);
        let tail = words_from(s, we);
        assert(words_from(s, i) == seq![s.subrange(i, we)] + tail);
        assert forall|k: int| 0 <= k < words_from(s, i).len()
            implies #[trigger] words_from(s, i)[k].len() >= 1 by {
            if k == 0 {
                assert(words_from(s, i)[0] == s.subrange(i, we));
            } else {
                assert(words_from(s, i)[k] == tail[k - 1]);
                assert(tail[k - 1].len() >= 1);
            }
        }
    }
}

/// The word boundaries of `s`: for each word in order, the character indices
/// of its start and its end. The words themselves are exactly `words_of`.
pub fn split_word_bounds(s: &str) -> (r: Vec<(usize, usize)>)
    ensures
        r@.map_values(|p: (usize, usize)| s@.subrange(p.0 as int, p.1 as int)) == words_of(s@),
        forall|k: int| 0 <= k < r@.len()
            ==> 0 <= #[trigger] r@[k].0 < r@[k].1 <= s@.len(),
{
    let n = s.unicode_len();
    let mut bounds: Vec<(usize, usize)> = Vec::new();
    let mut i: usize = 0;
    proof {
        assert(bounds@.map_values(|p: (usize, usize)| s@.subrange(p.0 as int, p.1 as int))
            + words_from(s@, 0) =~= words_of(s@));
    }
    while i < n
        invariant
            0 <= i <= n == s@.len(),
            bounds@.map_values(|p: (usize, usize)| s@.subrange(p.0 as int, p.1 as int))
                + words_from(s@, i as int) == words_of(s@),
            forall|k: int| 0 <= k < bounds@.len()
                ==> 0 <= #[trigger] bounds@[k].0 < bounds@[k].1 <= s@.len(),
        decreases n - i,
    {
        let c = s.get_char(i);
        if is_space(c) {
            i = i + 1;
        } else {
            let start = i;
            let mut j = i + 1;
            while j < n && !is_space(s.get_char(j))
                invariant
                    start < j <= n == s@.len(),
                    word_end(s@, start as int) == word_end(s@, j as int),
                decreases n - j,
            {
                j = j + 1;
            }
            proof {
                assert(word_end(s@, j as int) == j);
                assert(words_from(s@, start as int) == seq![
                    s@.subrange(start as int, j as int)
                ] + words_from(s@, j as int));
            }
            let ghost prev = bounds@;
            bounds.push((start, j));
            proof {
                let f = |p: (usize, usize)| s@.subrange(p.0 as int, p.1 as int);
                assert(bounds@.map_values(f)
                    =~= prev.map_values(f).push(s@.subrange(start as int, j as int)));
                assert(bounds@.map_values(f) + words_from(s@, j as int) =~= words_of(s@));
            }
            i = j;
        }
    }
    proof {
        assert(bounds@.map_values(|p: (usize, usize)| s@.subrange(p.0 as int, p.1 as int))
            =~= words_of(s@));
    }
    bounds
}

/// The words of `s`, each as its own string.
pub fn split_words(s: &str) -> (r: Vec<String>)
    ensures
        r@.map_values(|w: String| w@) == words_of(s@),
{
    let bounds = split_word_bounds(s);
    let mut words: Vec<String> = Vec::new();
    let mut k: usize = 0;
    while k < bounds.len()
        invariant
            0 <= k <= bounds@.len(),
            words@.len() == k,
            forall|m: int| 0 <= m < bounds@.len()
                ==> 0 <= #[trigger] bounds@[m].0 < bounds@[m].1 <= s@.len(),
            forall|m: int| 0 <= m < k ==> #[trigger] words@[m]@
                == s@.subrange(bounds@[m].0 as int, bounds@[m].1 as int),
        decreases bounds@.len() - k,
    {
        let (a, b) = (bounds[k].0, bounds[k].1);
        let w = s.substring_char(a, b);
        words.push(w.to_owned());
        k = k + 1;
    }
    proof {
        assert(words@.map_values(|w: String| w@)
            =~= bounds@.map_values(|p: (usize, usize)| s@.subrange(p.0 as int, p.1 as int)));
    }
    words
}

/// The given words joined with single spaces.
pub open spec fn join_spaced(ws: Seq<Seq<char>>) -> Seq<char>
    decreases ws.len(),
{
    if ws.len() == 0 {
        Seq::empty()
    } else if ws.len() == 1 {
        ws[0]
    } else {
        ws[0] + seq![' '] + join_spaced(ws.drop_first())
    }
}

/// Joining one more word appends a space and the word (or just the word, to
/// an empty join).
pub proof fn lemma_join_spaced_push(ws: Seq<Seq<char>>, w: Seq<char>)
    ensures
        ws.len() == 0 ==> join_spaced(ws.push(w)) == w,
        ws.len() > 0 ==> join_spaced(ws.push(w)) == join_spaced(ws) + seq![' '] + w,
    decreases ws.len(),
{
    if ws.len() == 0 {
        assert(ws.push(w)[0] == w);
        assert(join_spaced(ws.push(w)) == w);
    } else if ws.len() == 1 {
        assert(ws.push(w).drop_first() =~= seq![w]);
        assert(join_spaced(seq![w]) == seq![w][0]);
        assert(seq![w][0] == w);
        assert(ws.push(w)[0] == ws[0]);
        assert(join_spaced(ws.push(w)) == ws[0] + seq![' '] + w);
    } else {
        lemma_join_spaced_push(ws.drop_first(), w);
        assert(ws.push(w).drop_first() =~= ws.drop_first().push(w));
        assert(join_spaced(ws) + seq![' '] + w
            =~= ws[0] + seq![' '] + (join_spaced(ws.drop_first()) + seq![' '] + w));
    }
}

/// Appends `w` to `acc`, preceded by a single space unless `acc` is empty.
/// One step of joining words with spaces.
pub fn join_step(acc: &mut String, w: &str)
    ensures
        old(acc)@.len() == 0 ==> final(acc)@ == w@,
        old(acc)@.len() > 0 ==> final(acc)@ == old(acc)@ + seq![' '] + w@,
{
    let empty = acc.as_str().is_empty();
    if !empty {
        acc.append(" ");
        proof {
            reveal_strlit(" ");
            assert(" "@ =~= seq![' ']);
        }
    }
    acc.append(w);
    proof {
        if old(acc)@.len() == 0 {
            assert(acc@ =~= w@);
        } else {
            assert(acc@ =~= old(acc)@ + seq![' '] + w@);
        }
    }
}

/// Joining at least one word, each nonempty, yields a nonempty text.
pub proof fn lemma_join_spaced_nonempty(ws: Seq<Seq<char>>)
    requires
        ws.len() >= 1,
        forall|k: int| 0 <= k < ws.len() ==> #[trigger] ws[k].len() >= 1,
    ensures
        join_spaced(ws).len() >= 1,
    decreases ws.len(),
{
}

/// Lexicographic order on character sequences, by code point: the order in
/// which the standard library compares strings.
pub open spec fn lex_le(a: Seq<char>, b: Seq<char>) -> bool
    decreases a.len(),
{
    if a.len() == 0 {
        true
    } else if b.len() == 0 {
        false
    } else if (a[0] as u32) < (b[0] as u32) {
        true
    } else if (a[0] as u32) > (b[0] as u32) {
        false
    } else {
        lex_le(a.drop_first(), b.drop_first())
    }
}

/// Any two character sequences are lexicographically comparable.
pub proof fn lemma_lex_le_total(a: Seq<char>, b: Seq<char>)
    ensures
        lex_le(a, b) || lex_le(b, a),
    decreases a.len(),
{
    if a.len() > 0 && b.len() > 0 && (a[0] as u32) == (b[0] as u32) {
        lemma_lex_le_total(a.drop_first(), b.drop_first());
    }
}

/// Lexicographic order is transitive.
pub proof fn lemma_lex_le_trans(a: Seq<char>, b: Seq<char>, c: Seq<char>)
    requires
        lex_le(a, b),
        lex_le(b, c),
    ensures
        lex_le(a, c),
    decreases a.len(),
{
    if a.len() > 0 && b.len() > 0 && c.len() > 0 && (a[0] as u32) == (b[0] as u32) && (b[0] as u32)
        == (c[0] as u32) {
        lemma_lex_le_trans(a.drop_first(), b.drop_first(), c.drop_first());
    }
}

/// Compares two strings lexicographically by code point.
pub fn lex_le_str(a: &str, b: &str) -> (r: bool)
    ensures
        r == lex_le(a@, b@),
{
    let alen = a.unicode_len();
    let blen = b.unicode_len();
    let mut i: usize = 0;
    proof {
        assert(a@.skip(0) =~= a@);
        assert(b@.skip(0) =~= b@);
    }
    while i < alen && i < blen
        invariant
            0 <= i <= alen == a@.len(),
            i <= blen == b@.len(),
            lex_le(a@, b@) == lex_le(a@.skip(i as int), b@.skip(i as int)),
            lex_le(b@, a@) == lex_le(b@.skip(i as int), a@.skip(i as int)),
        decreases alen - i,
    {
        let ca = a.get_char(i) as u32;
        let cb = b.get_char(i) as u32;
        proof {
            assert(a@.skip(i as int)[0] == a@[i as int]);
            assert(b@.skip(i as int)[0] == b@[i as int]);
        }
        if ca < cb {
            return true;
        }
        if ca > cb {
            return false;
        }
        proof {
            assert(a@.skip(i as int).drop_first() =~= a@.skip(i as int + 1));
            assert(b@.skip(i as int).drop_first() =~= b@.skip(i as int + 1));
        }
        i = i + 1;
    }
    proof {
        if i == alen {
            assert(a@.skip(i as int).len() == 0);
        } else {
            assert(b@.skip(i as int).len() == 0);
            assert(a@.skip(i as int).len() > 0);
        }
    }
    i == alen
}

/// What `char::to_lowercase` yields for a character: a function of the
/// character alone, given by the Unicode tables.
pub uninterp spec fn lower_chars_of(c: char) -> Seq<char>;

/// What `char::to_uppercase` yields for a character.
pub uninterp spec fn upper_chars_of(c: char) -> Seq<char>;

/// What `str::to_lowercase` yields for a text.
pub uninterp spec fn lower_str_of(s: Seq<char>) -> Seq<char>;

/// Whether a character is alphabetic, as the Unicode tables define it.
pub uninterp spec fn is_letter_char(c: char) -> bool;

/// Relies on char::to_lowercase: yields the character's lowercase mapping,
/// one or more characters determined by the character alone.
#[verifier::external_body]
pub(crate) fn to_lowercase_chars(c: char) -> (r: Vec<char>)
    ensures
        r@ == lower_chars_of(c),
        r@.len() >= 1,
{
    c.to_lowercase().collect()
}

/// Relies on char::to_uppercase: yields the character's uppercase mapping,
/// one or more characters determined by the character alone.
#[verifier::external_body]
pub(crate) fn to_uppercase_chars(c: char) -> (r: Vec<char>)
    ensures
        r@ == upper_chars_of(c),
        r@.len() >= 1,
{
    c.to_uppercase().collect()
}

/// Relies on str::to_lowercase: the lowercase equivalent of the text,
/// determined by its characters alone.
#[verifier::external_body]
pub(crate) fn to_lowercase_str(s: &str) -> (r: String)
    ensures
        r@ == lower_str_of(s@),
{
    s.to_lowercase()
}

/// Relies on char::is_alphabetic: whether the Unicode tables class the
/// character as alphabetic.
#[verifier::external_body]
pub(crate) fn is_letter(c: char) -> (r: bool)
    ensures
        r == is_letter_char(c),
{
    c.is_alphabetic()
}

/// Relies on char::to_ascii_lowercase: 'A' to 'Z' move down by the case
/// offset of 32; every other character is unchanged.
#[verifier::external_body]
pub(crate) fn ascii_lower(c: char) -> (r: char)
    ensures
        0x41 <= c as u32 <= 0x5a ==> r as u32 == c as u32 + 0x20,
        !(0x41 <= c as u32 <= 0x5a) ==> r == c,
{
    c.to_ascii_lowercase()
}

/// Relies on String::push: appends exactly the one character.
#[verifier::external_body]
pub(crate) fn push_char(s: &mut String, c: char)
    ensures
        final(s)@ == old(s)@.push(c),
{
    s.push(c);
}

/// The length of a text's UTF-8 encoding: what `str::len` counts.
pub open spec fn byte_len(w: Seq<char>) -> nat {
    vstd::utf8::encode_utf8(w).len()
}

/// The result of scanning words left to right and keeping each word at
/// least as long (in bytes) as the best so far: the last word of maximal
/// byte length, or the empty text when there are no words.
pub open spec fn longest_word_fold(ws: Seq<Seq<char>>) -> Seq<char>
    decreases ws.len(),
{
    if ws.len() == 0 {
        Seq::empty()
    } else {
        let prev = longest_word_fold(ws.drop_last());
        if byte_len(ws.last()) >= byte_len(prev) {
            ws.last()
        } else {
            prev
        }
    }
}

/// A word with its first character mapped through the head of its uppercase
/// expansion and every later character through the head of its lowercase
/// expansion.
pub open spec fn capitalize_word(w: Seq<char>) -> Seq<char>
    recommends
        w.len() >= 1,
{
    seq![upper_chars_of(w[0])[0]] + Seq::new((w.len() - 1) as nat, |i: int| lower_chars_of(w[i + 1])[0])
}

/// Every character of the text replaced by its full lowercase expansion, in
/// order.
pub open spec fn lower_flat(s: Seq<char>) -> Seq<char>
    decreases s.len(),
{
    if s.len() == 0 {
        Seq::empty()
    } else {
        lower_chars_of(s[0]) + lower_flat(s.drop_first())
    }
}

/// Lowercase expansion distributes over appending one character.
pub proof fn lemma_lower_flat_snoc(u: Seq<char>, c: char)
    ensures
        lower_flat(u.push(c)) == lower_flat(u) + lower_chars_of(c),
    decreases u.len(),
{
    if u.len() == 0 {
        assert(u.push(c).drop_first() =~= Seq::<char>::empty());
        assert(u.push(c)[0] == c);
        assert(lower_flat(Seq::<char>::empty()) == Seq::<char>::empty());
        assert(lower_flat(u.push(c)) == lower_chars_of(c) + Seq::<char>::empty());
        assert(lower_chars_of(c) + Seq::<char>::empty() =~= lower_flat(u) + lower_chars_of(c));
    } else {
        lemma_lower_flat_snoc(u.drop_first(), c);
        assert(u.push(c).drop_first() =~= u.drop_first().push(c));
        assert(u.push(c)[0] == u[0]);
        assert(lower_chars_of(u[0]) + (lower_flat(u.drop_first()) + lower_chars_of(c))
            =~= (lower_chars_of(u[0]) + lower_flat(u.drop_first())) + lower_chars_of(c));
    }
}

/// Whether a vector of characters holds the given character.
pub fn contains_char(v: &Vec<char>, c: char) -> (r: bool)
    ensures
        r == v@.contains(c),
{
    let mut i: usize = 0;
    while i < v.len()
        invariant
            0 <= i <= v@.len(),
            forall|k: int| 0 <= k < i ==> v@[k] != c,
        decreases v@.len() - i,
    {
        if v[i] == c {
            return true;
        }
        i = i + 1;
    }
    false
}

} // verus!
