//! Letter tallies: counting lowercase letters in words, both at the byte
//! level (as the checks on raw ASCII input work) and at the character level
//! (as the game engine's contracts speak of string views).

use vstd::prelude::*;

verus! {

/// A byte is an ASCII lowercase letter `a`..=`z`.
pub open spec fn is_lower_byte(b: u8) -> bool {
    97 <= b <= 122
}

/// Every byte of the sequence is an ASCII lowercase letter.
pub open spec fn all_lower_bytes(s: Seq<u8>) -> bool {
    forall|i: int| 0 <= i < s.len() ==> is_lower_byte(#[trigger] s[i])
}

/// How many times the byte `b` occurs in `s`.
pub open spec fn count_byte(s: Seq<u8>, b: u8) -> nat
    decreases s.len(),
{
    if s.len() == 0 {
        0
    } else {
        count_byte(s.drop_last(), b) + (if s.last() == b {
            1nat
        } else {
            0nat
        })
    }
}

/// Letter-tally comparison on bytes: `w` uses no more of any lowercase
/// letter than `s` contains. Bytes outside `a`..=`z` are not part of a
/// tally and play no role.
pub open spec fn tally_le_bytes(w: Seq<u8>, s: Seq<u8>) -> bool {
    forall|b: u8| is_lower_byte(b) ==> #[trigger] count_byte(w, b) <= count_byte(s, b)
}

/// A character is an ASCII lowercase letter `a`..=`z`.
pub open spec fn is_lower_char(c: char) -> bool {
    97 <= c as u32 <= 122
}

/// Every character of the sequence is an ASCII lowercase letter.
pub open spec fn all_lower_chars(s: Seq<char>) -> bool {
    forall|i: int| 0 <= i < s.len() ==> is_lower_char(#[trigger] s[i])
}

/// How many times the character `c` occurs in `s`.
pub open spec fn count_char(s: Seq<char>, c: char) -> nat
    decreases s.len(),
{
    if s.len() == 0 {
        0
    } else {
        count_char(s.drop_last(), c) + (if s.last() == c {
            1nat
        } else {
            0nat
        })
    }
}

/// Letter-tally comparison on characters: `w` can be formed from the
/// letters of `s`, using no letter more often than `s` contains it.
pub open spec fn can_form(w: Seq<char>, s: Seq<char>) -> bool {
    forall|c: char| is_lower_char(c) ==> #[trigger] count_char(w, c) <= count_char(s, c)
}

/// A positive character count names an occurrence.
proof fn lemma_count_char_pos(s: Seq<char>, c: char)
    requires
        count_char(s, c) > 0,
    ensures
        exists|i: int| 0 <= i < s.len() && s[i] == c,
    decreases s.len(),
{
    if s.last() == c {
        assert(s[s.len() - 1] == c);
    } else {
        lemma_count_char_pos(s.drop_last(), c);
        let i = choose|i: int| 0 <= i < s.drop_last().len() && s.drop_last()[i] == c;
        assert(s[i] == c);
    }
}

/// A positive byte count names an occurrence.
proof fn lemma_count_byte_pos(s: Seq<u8>, b: u8)
    requires
        count_byte(s, b) > 0,
    ensures
        exists|i: int| 0 <= i < s.len() && s[i] == b,
    decreases s.len(),
{
    if s.last() == b {
        assert(s[s.len() - 1] == b);
    } else {
        lemma_count_byte_pos(s.drop_last(), b);
        let i = choose|i: int| 0 <= i < s.drop_last().len() && s.drop_last()[i] == b;
        assert(s[i] == b);
    }
}

/// Counting one more element extends the count by whether it matches.
proof fn lemma_count_byte_extend(s: Seq<u8>, n: int, b: u8)
    requires
        0 <= n < s.len(),
    ensures
        count_byte(s.subrange(0, n + 1), b) == count_byte(s.subrange(0, n), b) + (if s[n] == b {
            1nat
        } else {
            0nat
        }),
{
    let t = s.subrange(0, n + 1);
    assert(t.drop_last() =~= s.subrange(0, n));
    assert(t.last() == s[n]);
}

/// Counting one more character extends the count by whether it matches.
proof fn lemma_count_char_extend(s: Seq<char>, n: int, c: char)
    requires
        0 <= n < s.len(),
    ensures
        count_char(s.subrange(0, n + 1), c) == count_char(s.subrange(0, n), c) + (if s[n] == c {
            1nat
        } else {
            0nat
        }),
{
    let t = s.subrange(0, n + 1);
    assert(t.drop_last() =~= s.subrange(0, n));
    assert(t.last() == s[n]);
}

/// Every byte of `words` is an ASCII lowercase letter `a`..=`z`.
pub fn is_only_lower_case_elements(words: &[u8]) -> (r: bool)
    ensures
        r == all_lower_bytes(words@),
{
    let mut i: usize = 0;
    while i < words.len()
        invariant
            0 <= i <= words@.len(),
            forall|j: int| 0 <= j < i ==> is_lower_byte(#[trigger] words@[j]),
        decreases words@.len() - i,
    {
        let b = words[i];
        if b < 97 || b > 122 {
            return false;
        }
        i += 1;
    }
    true
}

/// How many times `b` occurs in `s`.
fn count_byte_in(s: &[u8], b: u8) -> (r: usize)
    ensures
        r == count_byte(s@, b),
{
    let mut i: usize = 0;
    let mut r: usize = 0;
    while i < s.len()
        invariant
            0 <= i <= s@.len(),
            r == count_byte(s@.subrange(0, i as int), b),
            r <= i,
        decreases s@.len() - i,
    {
        proof {
            lemma_count_byte_extend(s@, i as int, b);
        }
        if s[i] == b {
            r += 1;
        }
        i += 1;
    }
    assert(s@.subrange(0, s@.len() as int) =~= s@);
    r
}

/// The word `words` can be formed from the letters of `start_string`:
/// it uses no lowercase letter more often than the starting string
/// contains it.
pub fn is_all_char_present_in_start_string(words: &[u8], start_string: &[u8]) -> (r: bool)
    ensures
        r == tally_le_bytes(words@, start_string@),
{
    let mut i: usize = 0;
    while i < words.len()
        invariant
            0 <= i <= words@.len(),
            forall|j: int|
                0 <= j < i && is_lower_byte(#[trigger] words@[j]) ==> count_byte(words@, words@[j])
                    <= count_byte(start_string@, words@[j]),
        decreases words@.len() - i,
    {
        let b = words[i];
        if 97 <= b && b <= 122 {
            if count_byte_in(words, b) > count_byte_in(start_string, b) {
                proof {
                    assert(!tally_le_bytes(words@, start_string@)) by {
                        assert(is_lower_byte(b) && count_byte(words@, b) > count_byte(
                            start_string@,
                            b,
                        ));
                    }
                }
                return false;
            }
        }
        i += 1;
    }
    proof {
        assert forall|b: u8| is_lower_byte(b) implies #[trigger] count_byte(words@, b)
            <= count_byte(start_string@, b) by {
            if count_byte(words@, b) > 0 {
                lemma_count_byte_pos(words@, b);
            }
        }
    }
    true
}

/// Every character of `s` is an ASCII lowercase letter `a`..=`z`.
pub(crate) fn all_lower_str(s: &str) -> (r: bool)
    ensures
        r == all_lower_chars(s@),
{
    let len = s.unicode_len();
    let mut i: usize = 0;
    while i < len
        invariant
            len == s@.len(),
            0 <= i <= len,
            forall|j: int| 0 <= j < i ==> is_lower_char(#[trigger] s@[j]),
        decreases len - i,
    {
        let c = s.get_char(i);
        let v = c as u32;
        if v < 97 || v > 122 {
            return false;
        }
        i += 1;
    }
    true
}

/// How many times `c` occurs in `s`.
fn count_char_in(s: &str, c: char) -> (r: usize)
    ensures
        r == count_char(s@, c),
{
    let len = s.unicode_len();
    let mut i: usize = 0;
    let mut r: usize = 0;
    while i < len
        invariant
            len == s@.len(),
            0 <= i <= len,
            r == count_char(s@.subrange(0, i as int), c),
            r <= i,
        decreases len - i,
    {
        proof {
            lemma_count_char_extend(s@, i as int, c);
        }
        if s.get_char(i) == c {
            r += 1;
        }
        i += 1;
    }
    assert(s@.subrange(0, s@.len() as int) =~= s@);
    r
}

/// The word `w` can be formed from the letters of `start`: it uses no
/// lowercase letter more often than `start` contains it.
pub(crate) fn can_form_str(w: &str, start: &str) -> (r: bool)
    ensures
        r == can_form(w@, start@),
{
    let len = w.unicode_len();
    let mut i: usize = 0;
    while i < len
        invariant
            len == w@.len(),
            0 <= i <= len,
            forall|j: int|
                0 <= j < i && is_lower_char(#[trigger] w@[j]) ==> count_char(w@, w@[j])
                    <= count_char(start@, w@[j]),
        decreases len - i,
    {
        let c = w.get_char(i);
        let v = c as u32;
        if 97 <= v && v <= 122 {
            if count_char_in(w, c) > count_char_in(start, c) {
                proof {
                    assert(!can_form(w@, start@)) by {
                        assert(is_lower_char(c) && count_char(w@, c) > count_char(start@, c));
                    }
                }
                return false;
            }
        }
        i += 1;
    }
    proof {
        assert forall|c: char| is_lower_char(c) implies #[trigger] count_char(w@, c) <= count_char(
            start@,
            c,
        ) by {
            if count_char(w@, c) > 0 {
                lemma_count_char_pos(w@, c);
            }
        }
    }
    true
}

} // verus!
