//! Fallible operations with exact success conditions: the first character of
//! a string, parsing a line of integers, and extracting an email's domain.

use vstd::prelude::*;
use crate::text::{split_word_bounds, words_of};

verus! {

/// Returns the first character of a string, or reports that it is empty.
pub fn first_char(text: &str) -> (r: Result<char, String>)
    ensures
        match r {
            Ok(c) => text@.len() > 0 && c == text@[0],
            Err(e) => text@.len() == 0 && e@ == "Empty string"@,
        },
{
    if text.unicode_len() == 0 {
        Err("Empty string".to_owned())
    } else {
        Ok(text.get_char(0))
    }
}

/// A decimal digit.
pub open spec fn is_digit_char(c: char) -> bool {
    0x30 <= c as u32 <= 0x39
}

/// The numeric value of a decimal digit.
pub open spec fn digit_val(c: char) -> int {
    c as u32 - 0x30
}

/// Whether every character is a decimal digit.
pub open spec fn all_digits(ds: Seq<char>) -> bool {
    forall|i: int| 0 <= i < ds.len() ==> is_digit_char(#[trigger] ds[i])
}

/// The value of a run of decimal digits, most significant first.
pub open spec fn digits_val(ds: Seq<char>) -> int
    decreases ds.len(),
{
    if ds.len() == 0 {
        0
    } else {
        digits_val(ds.drop_last()) * 10 + digit_val(ds.last())
    }
}

/// Whether a word is an integer literal as the standard library accepts one:
/// an optional sign followed by at least one decimal digit, and nothing
/// else.
pub open spec fn is_int_literal(w: Seq<char>) -> bool {
    if w.len() == 0 {
        false
    } else if w[0] == '+' || w[0] == '-' {
        w.len() >= 2 && all_digits(w.skip(1))
    } else {
        all_digits(w)
    }
}

/// The value an integer literal denotes.
pub open spec fn int_literal_val(w: Seq<char>) -> int
    recommends
        is_int_literal(w),
{
    if w[0] == '-' {
        -digits_val(w.skip(1))
    } else if w[0] == '+' {
        digits_val(w.skip(1))
    } else {
        digits_val(w)
    }
}

/// Whether a word parses as an i32: a well-formed literal whose value fits.
pub open spec fn parses_to_i32(w: Seq<char>) -> bool {
    is_int_literal(w) && i32::MIN <= int_literal_val(w) <= i32::MAX
}

/// A run of digits has a non-negative value.
proof fn lemma_digits_val_nonneg(ds: Seq<char>)
    requires
        all_digits(ds),
    ensures
        digits_val(ds) >= 0,
    decreases ds.len(),
{
    if ds.len() > 0 {
        assert(all_digits(ds.drop_last()));
        lemma_digits_val_nonneg(ds.drop_last());
        assert(digit_val(ds.last()) >= 0);
    }
}

/// A prefix of a digit run never exceeds the whole run's value.
proof fn lemma_digits_val_prefix_le(ds: Seq<char>, j: int)
    requires
        all_digits(ds),
        0 <= j <= ds.len(),
    ensures
        digits_val(ds.take(j)) <= digits_val(ds),
    decreases ds.len() - j,
{
    if j == ds.len() {
        assert(ds.take(j) =~= ds);
    } else {
        lemma_digits_val_prefix_le(ds, j + 1);
        assert(ds.take(j + 1).drop_last() =~= ds.take(j));
        assert(ds.take(j + 1).last() == ds[j]);
        let v = digits_val(ds.take(j));
        assert(all_digits(ds.take(j)));
        lemma_digits_val_nonneg(ds.take(j));
        assert(digits_val(ds.take(j + 1)) == v * 10 + digit_val(ds[j]));
        assert(v * 10 >= v) by (nonlinear_arith)
            requires
                v >= 0,
        ;
    }
}

/// Parses a word as an i32, accepting exactly what the standard library's
/// integer parsing accepts and rejecting everything else, overflow included.
pub fn parse_i32(w: &str) -> (r: Option<i32>)
    ensures
        match r {
            Some(v) => parses_to_i32(w@) && v == int_literal_val(w@),
            None => !parses_to_i32(w@),
        },
{
    let n = w.unicode_len();
    if n == 0 {
        return None;
    }
    let c0 = w.get_char(0);
    let neg = c0 == '-';
    let has_sign = neg || c0 == '+';
    let start: usize = if has_sign {
        1
    } else {
        0
    };
    if start >= n {
        return None;
    }
    let ghost ds = w@.skip(start as int);
    let mut acc: u64 = 0;
    let mut j = start;
    proof {
        assert(ds.take(0) =~= Seq::<char>::empty());
    }
    while j < n
        invariant
            start <= j <= n == w@.len(),
            start == if has_sign { 1int } else { 0int },
            has_sign == (w@[0] == '+' || w@[0] == '-'),
            neg == (w@[0] == '-'),
            start < n,
            ds == w@.skip(start as int),
            all_digits(ds.take(j - start)),
            acc == digits_val(ds.take(j - start)),
            acc <= 0xffff_ffff * 10 + 9,
        decreases n - j,
    {
        if acc > 0xffff_ffff {
            proof {
                if !has_sign {
                    assert(ds =~= w@);
                }
                if is_int_literal(w@) {
                    assert(all_digits(ds));
                    lemma_digits_val_prefix_le(ds, j - start);
                    assert(digits_val(ds) >= acc);
                }
            }
            return None;
        }
        let c = w.get_char(j);
        let u = c as u32;
        if u < 0x30 || u > 0x39 {
            proof {
                assert(ds[j - start] == w@[j as int]);
                assert(!all_digits(ds));
                if !has_sign {
                    assert(ds =~= w@);
                }
            }
            return None;
        }
        let d = (u - 0x30) as u64;
        acc = acc * 10 + d;
        proof {
            assert(ds.take(j - start + 1).drop_last() =~= ds.take(j - start));
            assert(ds.take(j - start + 1).last() == ds[j - start]);
            assert(ds[j - start] == w@[j as int]);
        }
        j = j + 1;
    }
    proof {
        assert(ds.take(j - start) =~= ds);
        if !has_sign {
            assert(ds =~= w@);
        }
        assert(is_int_literal(w@));
        if neg {
            assert(int_literal_val(w@) == -digits_val(ds));
        } else {
            assert(int_literal_val(w@) == digits_val(ds));
        }
    }
    if neg {
        if acc > 0x8000_0000 {
            None
        } else if acc == 0x8000_0000 {
            Some(i32::MIN)
        } else {
            Some(-(acc as i32))
        }
    } else {
        if acc > 0x7fff_ffff {
            None
        } else {
            Some(acc as i32)
        }
    }
}

/// Parses a line of whitespace-separated integers. Succeeds with the parsed
/// values in order exactly when every word of the line parses as an i32;
/// otherwise reports the first offending word as an invalid number.
pub fn read_numbers_from_str(line: &str) -> (r: Result<Vec<i32>, String>)
    ensures
        match r {
            Ok(v) => {
                &&& forall|k: int| 0 <= k < words_of(line@).len()
                    ==> parses_to_i32(#[trigger] words_of(line@)[k])
                &&& v@.len() == words_of(line@).len()
                &&& forall|k: int| 0 <= k < v@.len()
                    ==> v@[k] == int_literal_val(#[trigger] words_of(line@)[k])
            },
            Err(e) => {
                &&& e@ == "Invalid number"@
                &&& exists|k: int| 0 <= k < words_of(line@).len()
                    && !parses_to_i32(#[trigger] words_of(line@)[k])
            },
        },
{
    let ghost ws = words_of(line@);
    let bounds = split_word_bounds(line);
    let mut out: Vec<i32> = Vec::new();
    let mut k: usize = 0;
    while k < bounds.len()
        invariant
            0 <= k <= bounds@.len() == ws.len(),
            ws == words_of(line@),
            bounds@.map_values(|p: (usize, usize)| line@.subrange(p.0 as int, p.1 as int)) == ws,
            forall|m: int| 0 <= m < bounds@.len()
                ==> 0 <= #[trigger] bounds@[m].0 < bounds@[m].1 <= line@.len(),
            out@.len() == k,
            forall|m: int| 0 <= m < k ==> parses_to_i32(#[trigger] ws[m]),
            forall|m: int| 0 <= m < k ==> out@[m] == int_literal_val(#[trigger] ws[m]),
        decreases bounds@.len() - k,
    {
        let (a, b) = bounds[k];
        let word = line.substring_char(a, b);
        proof {
            assert(word@ == ws[k as int]);
        }
        match parse_i32(word) {
            Some(v) => {
                out.push(v);
            },
            None => {
                return Err("Invalid number".to_owned());
            },
        }
        k = k + 1;
    }
    Ok(out)
}

/// The position of the first `'@'` at or after `i`, or the end of the text.
pub open spec fn at_from(s: Seq<char>, i: int) -> int
    decreases s.len() - i when 0 <= i <= s.len()
{
    if i >= s.len() {
        i
    } else if s[i] == '@' {
        i
    } else {
        at_from(s, i + 1)
    }
}

/// The first `'@'` position lies between the start of the scan and the end
/// of the text.
pub proof fn lemma_at_from_bounds(s: Seq<char>, i: int)
    requires
        0 <= i <= s.len(),
    ensures
        i <= at_from(s, i) <= s.len(),
    decreases s.len() - i,
{
    if i < s.len() && s[i] != '@' {
        lemma_at_from_bounds(s, i + 1);
    }
}

/// Finds the first `'@'` at or after `from`, or the end of the string.
fn find_at(s: &str, from: usize) -> (r: usize)
    requires
        from <= s@.len(),
    ensures
        r == at_from(s@, from as int),
        from <= r <= s@.len(),
{
    let n = s.unicode_len();
    let mut p = from;
    while p < n && s.get_char(p) != '@'
        invariant
            from <= p <= n == s@.len(),
            at_from(s@, from as int) == at_from(s@, p as int),
        decreases n - p,
    {
        p = p + 1;
    }
    proof {
        assert(at_from(s@, p as int) == p);
    }
    p
}

/// A user's profile: a username and, optionally, an email address.
pub struct UserProfile {
    username: String,
    email: Option<String>,
}

impl UserProfile {
    /// The profile's username.
    pub closed spec fn spec_username(&self) -> Seq<char> {
        self.username@
    }

    /// The profile's email address, if it has one.
    pub closed spec fn spec_email(&self) -> Option<Seq<char>> {
        match self.email {
            Some(e) => Some(e@),
            None => None,
        }
    }

    /// Creates a profile from its parts.
    pub fn new(username: String, email: Option<String>) -> (r: Self)
        ensures
            r.spec_username() == username@,
            email matches Some(e) ==> r.spec_email() == Some(e@),
            email is None ==> r.spec_email() is None,
    {
        UserProfile { username, email }
    }

    /// Extracts the domain of the profile's email: the part between the
    /// first `'@'` and the next `'@'` or the end. Yields nothing when there
    /// is no email or the email has no `'@'`.
    pub fn get_email_domain(&self) -> (r: Option<String>)
        ensures
            match self.spec_email() {
                None => r is None,
                Some(e) => {
                    let p = at_from(e, 0);
                    if p == e.len() {
                        r is None
                    } else {
                        r matches Some(d) && d@ == e.subrange(p + 1, at_from(e, p + 1))
                    }
                },
            },
{
        match &self.email {
            None => None,
            Some(email) => {
                let s = email.as_str();
                let n = s.unicode_len();
                let p = find_at(s, 0);
                if p == n {
                    None
                } else {
                    proof {
                        lemma_at_from_bounds(s@, p as int + 1);
                    }
                    let q = find_at(s, p + 1);
                    Some(s.substring_char(p + 1, q).to_owned())
                }
            },
        }
    }
}

} // verus!
