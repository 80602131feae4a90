//! Character and string helpers shared by the matchers.
//!
//! Passwords are treated as sequences of characters; byte offsets never
//! appear in a contract. Case folding is ASCII-only, which matches the
//! built-in word lists.

use vstd::prelude::*;

verus! {

/// The character class tests and the case folding below are over ASCII
/// codes; every other character is left alone.
pub open spec fn spec_is_digit(c: char) -> bool {
    '0' <= c && c <= '9'
}

pub open spec fn spec_is_lower(c: char) -> bool {
    'a' <= c && c <= 'z'
}

pub open spec fn spec_is_upper(c: char) -> bool {
    'A' <= c && c <= 'Z'
}

/// The ASCII lower-case counterpart of a character.
pub open spec fn spec_to_lower(c: char) -> char {
    if spec_is_upper(c) {
        ((c as u8) + 32) as char
    } else {
        c
    }
}

/// A whole sequence, folded to ASCII lower case.
pub open spec fn lower_seq(s: Seq<char>) -> Seq<char> {
    s.map_values(|c: char| spec_to_lower(c))
}

/// A sequence read back to front.
pub open spec fn rev_seq(s: Seq<char>) -> Seq<char> {
    Seq::new(s.len(), |i: int| s[s.len() - 1 - i])
}

#[verifier::when_used_as_spec(spec_is_digit)]
pub fn is_digit_char(c: char) -> (r: bool)
    ensures
        r == spec_is_digit(c),
{
    '0' <= c && c <= '9'
}

#[verifier::when_used_as_spec(spec_is_lower)]
pub fn is_lower_char(c: char) -> (r: bool)
    ensures
        r == spec_is_lower(c),
{
    'a' <= c && c <= 'z'
}

#[verifier::when_used_as_spec(spec_is_upper)]
pub fn is_upper_char(c: char) -> (r: bool)
    ensures
        r == spec_is_upper(c),
{
    'A' <= c && c <= 'Z'
}

pub fn to_lower_char(c: char) -> (r: char)
    ensures
        r == spec_to_lower(c),
{
    if is_upper_char(c) {
        ((c as u8) + 32) as char
    } else {
        c
    }
}

/// Relies on `String::push`: appends one character at the end.
#[verifier::external_body]
pub fn push_char(s: &mut String, c: char)
    ensures
        final(s)@ == old(s)@.push(c),
{
    s.push(c);
}

/// Character-for-character equality of two string slices.
pub fn str_eq(a: &str, b: &str) -> (r: bool)
    ensures
        r == (a@ == b@),
{
    let a_len = a.unicode_len();
    let b_len = b.unicode_len();
    if a_len != b_len {
        return false;
    }
    let mut i: usize = 0;
    while i < a_len
        invariant
            a_len == a@.len(),
            b_len == b@.len(),
            a_len == b_len,
            i <= a_len,
            forall|k: int| 0 <= k < i ==> a@[k] == b@[k],
        decreases a_len - i,
    {
        if a.get_char(i) != b.get_char(i) {
            return false;
        }
        i = i + 1;
    }
    proof {
        assert(a@ =~= b@);
    }
    true
}

/// The string folded to ASCII lower case.
pub fn to_lowercase_str(s: &str) -> (r: String)
    ensures
        r@ == lower_seq(s@),
{
    let len = s.unicode_len();
    let mut r = String::new();
    let mut i: usize = 0;
    while i < len
        invariant
            len == s@.len(),
            i <= len,
            r@ == lower_seq(s@.subrange(0, i as int)),
        decreases len - i,
    {
        let c = s.get_char(i);
        push_char(&mut r, to_lower_char(c));
        proof {
            assert(r@ =~= lower_seq(s@.subrange(0, i + 1)));
        }
        i = i + 1;
    }
    proof {
        assert(s@.subrange(0, s@.len() as int) =~= s@);
    }
    r
}

/// The string read back to front.
pub fn reverse_str(s: &str) -> (r: String)
    ensures
        r@ == rev_seq(s@),
{
    let len = s.unicode_len();
    let mut r = String::new();
    let mut i: usize = 0;
    while i < len
        invariant
            len == s@.len(),
            i <= len,
            r@.len() == i,
            forall|k: int| 0 <= k < i ==> r@[k] == s@[len - 1 - k],
        decreases len - i,
    {
        let c = s.get_char(len - 1 - i);
        push_char(&mut r, c);
        i = i + 1;
    }
    proof {
        assert(r@ =~= rev_seq(s@));
    }
    r
}

/// The numeric value of a sequence of ASCII digits, most significant first.
pub open spec fn digits_val(s: Seq<char>) -> int
    decreases s.len(),
{
    if s.len() == 0 {
        0
    } else {
        digits_val(s.drop_last()) * 10 + (s.last() as int - '0' as int)
    }
}

pub open spec fn all_digits(s: Seq<char>) -> bool {
    forall|i: int| 0 <= i < s.len() ==> spec_is_digit(s[i])
}

proof fn lemma_digits_val_bound(s: Seq<char>)
    requires
        all_digits(s),
    ensures
        0 <= digits_val(s),
        digits_val(s) < pow10(s.len() as nat),
    decreases s.len(),
{
    if s.len() > 0 {
        assert(all_digits(s.drop_last())) by {
            assert(forall|i: int|
                0 <= i < s.drop_last().len() ==> s.drop_last()[i] == s[i]);
        }
        lemma_digits_val_bound(s.drop_last());
    }
}

/// Ten to the n-th power.
pub open spec fn pow10(n: nat) -> int
    decreases n,
{
    if n == 0 {
        1
    } else {
        pow10((n - 1) as nat) * 10
    }
}

proof fn lemma_pow10_small(n: nat)
    requires
        n <= 4,
    ensures
        pow10(n) <= 10000,
{
    reveal_with_fuel(pow10, 6);
}

/// Reads a run of at most four ASCII digits as a number.
pub fn parse_digits(s: &str, from: usize, to: usize) -> (r: u32)
    requires
        from <= to <= s@.len(),
        to - from <= 4,
        forall|i: int| from <= i < to ==> spec_is_digit(s@[i]),
    ensures
        r == digits_val(s@.subrange(from as int, to as int)),
        r < 10000,
{
    let mut r: u32 = 0;
    let mut i: usize = from;
    proof {
        assert(s@.subrange(from as int, from as int) =~= Seq::<char>::empty());
        reveal_with_fuel(pow10, 2);
    }
    while i < to
        invariant
            from <= i <= to <= s@.len(),
            to - from <= 4,
            forall|k: int| from <= k < to ==> spec_is_digit(s@[k]),
            r == digits_val(s@.subrange(from as int, i as int)),
            r < pow10((i - from) as nat),
        decreases to - i,
    {
        let c = s.get_char(i);
        proof {
            lemma_pow10_small((i - from) as nat);
            lemma_pow10_small((i + 1 - from) as nat);
            let pre = s@.subrange(from as int, i + 1);
            assert(pre.drop_last() =~= s@.subrange(from as int, i as int));
            assert(all_digits(pre)) by {
                assert(forall|k: int| 0 <= k < pre.len() ==> pre[k] == s@[from + k]);
            }
            lemma_digits_val_bound(pre);
        }
        let d: u32 = (c as u32) - 48;
        r = r * 10 + d;
        i = i + 1;
    }
    proof {
        lemma_pow10_small((to - from) as nat);
    }
    r
}

} // verus!
