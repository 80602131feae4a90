//! Guess estimation and the sequence optimizer.
//!
//! Guess counts are unsigned 64-bit numbers; every product, sum and power
//! that could overflow is clamped to `u64::MAX` instead of wrapping or
//! panicking.

use vstd::prelude::*;
use crate::matches::{BaseMatch, MatchData, match_eq, wf_match, all_wf};
use crate::result::PasswordResult;
use crate::text::{spec_is_upper, spec_is_digit, is_upper_char, is_lower_char, is_digit_char, pow10,
    digits_val, all_digits};

verus! {

/// `x`, clamped to the unsigned 64-bit range.
pub open spec fn cap64(x: int) -> int {
    if x > u64::MAX as int {
        u64::MAX as int
    } else {
        x
    }
}

/// Saturating product of two guess counts.
pub fn sat_mul(a: u64, b: u64) -> (r: u64)
    ensures
        r as int == cap64(a as int * b as int),
{
    match a.checked_mul(b) {
        Option::Some(x) => x,
        Option::None => u64::MAX,
    }
}

/// Saturating sum of two guess counts.
pub fn sat_add(a: u64, b: u64) -> (r: u64)
    ensures
        r as int == cap64(a as int + b as int),
{
    match a.checked_add(b) {
        Option::Some(x) => x,
        Option::None => u64::MAX,
    }
}

/// Clamping commutes with adding clamped addends.
proof fn lemma_cap_add(x: int, y: int)
    requires
        0 <= x,
        0 <= y,
    ensures
        cap64(cap64(x) + cap64(y)) == cap64(x + y),
{
}

/// Clamping commutes with multiplying by a clamped positive factor.
proof fn lemma_cap_mul(x: int, c: int)
    requires
        0 <= x,
        1 <= c,
    ensures
        cap64(cap64(x) * c) == cap64(x * c),
{
    if x > u64::MAX as int {
        assert(cap64(x) * c >= cap64(x) * 1 == cap64(x)) by (nonlinear_arith)
            requires 1 <= c && 0 <= cap64(x);
        assert(x * c >= x * 1 == x) by (nonlinear_arith)
            requires 1 <= c && 0 <= x;
    } else {
        assert(cap64(x) == x);
    }
}

/// The factorial of `n`.
pub open spec fn spec_factorial(n: nat) -> nat
    decreases n,
{
    if n == 0 {
        1
    } else {
        n * spec_factorial((n - 1) as nat)
    }
}

proof fn lemma_factorial_pos(n: nat)
    ensures
        spec_factorial(n) >= 1,
    decreases n,
{
    if n > 0 {
        lemma_factorial_pos((n - 1) as nat);
        assert(n * spec_factorial((n - 1) as nat) >= 1 * spec_factorial((n - 1) as nat))
            by (nonlinear_arith)
            requires n >= 1 && spec_factorial((n - 1) as nat) >= 0;
    }
}

proof fn lemma_factorial_mono(a: nat, b: nat)
    requires
        a <= b,
    ensures
        spec_factorial(a) <= spec_factorial(b),
    decreases b,
{
    if a < b {
        lemma_factorial_mono(a, (b - 1) as nat);
        lemma_factorial_pos((b - 1) as nat);
        assert(b * spec_factorial((b - 1) as nat) >= 1 * spec_factorial((b - 1) as nat))
            by (nonlinear_arith)
            requires b >= 1 && spec_factorial((b - 1) as nat) >= 0;
    }
}

proof fn lemma_factorial_21_overflows()
    ensures
        spec_factorial(20) == 2432902008176640000,
        spec_factorial(21) > u64::MAX,
{
    reveal_with_fuel(spec_factorial, 2);
    assert(spec_factorial(0) == 1);
    assert(spec_factorial(1) == 1);
    assert(spec_factorial(2) == 2);
    assert(spec_factorial(3) == 6);
    assert(spec_factorial(4) == 24);
    assert(spec_factorial(5) == 120);
    assert(spec_factorial(6) == 720);
    assert(spec_factorial(7) == 5040);
    assert(spec_factorial(8) == 40320);
    assert(spec_factorial(9) == 362880);
    assert(spec_factorial(10) == 3628800);
    assert(spec_factorial(11) == 39916800);
    assert(spec_factorial(12) == 479001600);
    assert(spec_factorial(13) == 6227020800);
    assert(spec_factorial(14) == 87178291200);
    assert(spec_factorial(15) == 1307674368000);
    assert(spec_factorial(16) == 20922789888000);
    assert(spec_factorial(17) == 355687428096000);
    assert(spec_factorial(18) == 6402373705728000);
    assert(spec_factorial(19) == 121645100408832000);
    assert(spec_factorial(20) == 2432902008176640000);
    assert(spec_factorial(21) == 51090942171709440000);
}

/// The factorial of `n`, clamped to the unsigned 64-bit range.
pub fn factorial(n: u64) -> (r: u64)
    ensures
        r as int == cap64(spec_factorial(n as nat) as int),
{
    proof {
        lemma_factorial_21_overflows();
    }
    if n > 20 {
        proof {
            lemma_factorial_mono(21, n as nat);
        }
        return u64::MAX;
    }
    let mut acc: u64 = 1;
    let mut k: u64 = 1;
    proof {
        reveal_with_fuel(spec_factorial, 3);
    }
    while k < n
        invariant
            n <= 20,
            1 <= k <= n || (k == 1 && n == 0),
            acc == spec_factorial(k as nat),
        decreases n - k,
    {
        k = k + 1;
        proof {
            lemma_factorial_21_overflows();
            lemma_factorial_mono(k as nat, 20);
            assert(spec_factorial(k as nat) == k as nat * spec_factorial((k - 1) as nat));
            let f = spec_factorial((k - 1) as nat) as int;
            assert(acc as int == f);
            assert(acc as int * k as int == f * k as int) by (nonlinear_arith)
                requires acc as int == f;
            assert(f * k as int == k as int * f) by (nonlinear_arith);
            assert(acc as int * k as int <= 2432902008176640000);
        }
        acc = acc * k;
    }
    proof {
        reveal_with_fuel(spec_factorial, 3);
    }
    acc
}

/// The binomial coefficient, by the Pascal recurrence.
pub open spec fn spec_binom(n: nat, k: nat) -> nat
    decreases n, k,
{
    if k == 0 {
        1
    } else if n == 0 {
        0
    } else {
        spec_binom((n - 1) as nat, (k - 1) as nat) + spec_binom((n - 1) as nat, k)
    }
}

/// The binomial coefficient `n` choose `k`, clamped to the unsigned 64-bit
/// range; zero when `k` exceeds `n`.
#[allow(non_snake_case)]
pub fn nCk(n: u64, k: u64) -> (r: u64)
    requires
        k < usize::MAX as u64,
    ensures
        r as int == cap64(spec_binom(n as nat, k as nat) as int),
{
    if k > n {
        proof {
            lemma_binom_high(n as nat, k as nat);
        }
        return 0;
    }
    let width: usize = (k as usize) + 1;
    let mut row: Vec<u64> = Vec::new();
    row.push(1);
    let mut j: usize = 1;
    while j < width
        invariant
            1 <= j <= width,
            row@.len() == j,
            row@[0] == 1,
            forall|q: int| 1 <= q < j ==> row@[q] == 0,
        decreases width - j,
    {
        row.push(0);
        j = j + 1;
    }
    let mut i: u64 = 0;
    while i < n
        invariant
            i <= n,
            k < usize::MAX as u64,
            width == k + 1,
            row@.len() == width,
            forall|q: int| 0 <= q < width ==> row@[q] as int == cap64(
                spec_binom(i as nat, q as nat) as int,
            ),
        decreases n - i,
    {
        let mut next: Vec<u64> = Vec::new();
        next.push(1);
        let mut j: usize = 1;
        while j < width
            invariant
                1 <= j <= width,
                width == k + 1,
                row@.len() == width,
                next@.len() == j,
                forall|q: int| 0 <= q < width ==> row@[q] as int == cap64(
                    spec_binom(i as nat, q as nat) as int,
                ),
                forall|q: int| 0 <= q < j ==> next@[q] as int == cap64(
                    spec_binom((i + 1) as nat, q as nat) as int,
                ),
            decreases width - j,
        {
            let v = sat_add(row[j - 1], row[j]);
            proof {
                lemma_cap_add(
                    spec_binom(i as nat, (j - 1) as nat) as int,
                    spec_binom(i as nat, j as nat) as int,
                );
            }
            next.push(v);
            j = j + 1;
        }
        row = next;
        i = i + 1;
    }
    row[k as usize]
}

proof fn lemma_binom_high(n: nat, k: nat)
    requires
        k > n,
    ensures
        spec_binom(n, k) == 0,
    decreases n,
{
    if n > 0 {
        lemma_binom_high((n - 1) as nat, (k - 1) as nat);
        lemma_binom_high((n - 1) as nat, k);
    }
}

/// Clamping commutes with multiplying two clamped factors.
proof fn lemma_cap_mul2(x: int, y: int)
    requires
        0 <= x,
        0 <= y,
    ensures
        cap64(cap64(x) * cap64(y)) == cap64(x * y),
{
    let m = u64::MAX as int;
    if x <= m && y <= m {
    } else if x > m && y == 0 {
        assert(m * 0 == 0);
        assert(x * 0 == 0) by (nonlinear_arith);
    } else if y > m && x == 0 {
        assert(0 * m == 0);
        assert(0 * y == 0) by (nonlinear_arith);
    } else if x > m {
        assert(m * cap64(y) >= m * 1) by (nonlinear_arith)
            requires 1 <= cap64(y) && 0 <= m;
        assert(x * y >= x * 1) by (nonlinear_arith)
            requires 1 <= y && 0 <= x;
    } else {
        assert(cap64(x) * m >= 1 * m) by (nonlinear_arith)
            requires 1 <= cap64(x) && 0 <= m;
        assert(x * y >= 1 * y) by (nonlinear_arith)
            requires 1 <= x && 0 <= y;
    }
}

/// How many characters of `s` are ASCII upper case.
pub open spec fn count_upper(s: Seq<char>) -> int
    decreases s.len(),
{
    if s.len() == 0 {
        0
    } else {
        count_upper(s.drop_last()) + if spec_is_upper(s.last()) {
            1int
        } else {
            0int
        }
    }
}

proof fn lemma_count_upper_bounds(s: Seq<char>)
    ensures
        0 <= count_upper(s) <= s.len(),
    decreases s.len(),
{
    if s.len() > 0 {
        lemma_count_upper_bounds(s.drop_last());
    }
}

/// How many characters of `s` are ASCII lower case.
pub open spec fn count_lower(s: Seq<char>) -> int
    decreases s.len(),
{
    if s.len() == 0 {
        0
    } else {
        count_lower(s.drop_last()) + if crate::text::spec_is_lower(s.last()) {
            1int
        } else {
            0int
        }
    }
}

proof fn lemma_count_lower_bounds(s: Seq<char>)
    ensures
        0 <= count_lower(s) <= s.len(),
    decreases s.len(),
{
    if s.len() > 0 {
        lemma_count_lower_bounds(s.drop_last());
    }
}

fn exec_count_upper(s: &str) -> (r: usize)
    ensures
        r == count_upper(s@),
{
    let n = s.unicode_len();
    let mut r: usize = 0;
    let mut i: usize = 0;
    proof {
        assert(s@.subrange(0, 0) =~= Seq::<char>::empty());
    }
    while i < n
        invariant
            n == s@.len(),
            i <= n,
            r == count_upper(s@.subrange(0, i as int)),
            r <= i,
        decreases n - i,
    {
        proof {
            lemma_count_upper_bounds(s@.subrange(0, i as int));
            assert(s@.subrange(0, i + 1).drop_last() =~= s@.subrange(0, i as int));
        }
        if is_upper_char(s.get_char(i)) {
            r = r + 1;
        }
        i = i + 1;
    }
    proof {
        assert(s@.subrange(0, n as int) =~= s@);
    }
    r
}

fn exec_count_lower(s: &str) -> (r: usize)
    ensures
        r == count_lower(s@),
{
    let n = s.unicode_len();
    let mut r: usize = 0;
    let mut i: usize = 0;
    proof {
        assert(s@.subrange(0, 0) =~= Seq::<char>::empty());
    }
    while i < n
        invariant
            n == s@.len(),
            i <= n,
            r == count_lower(s@.subrange(0, i as int)),
            r <= i,
        decreases n - i,
    {
        proof {
            lemma_count_lower_bounds(s@.subrange(0, i as int));
            assert(s@.subrange(0, i + 1).drop_last() =~= s@.subrange(0, i as int));
        }
        if is_lower_char(s.get_char(i)) {
            r = r + 1;
        }
        i = i + 1;
    }
    proof {
        assert(s@.subrange(0, n as int) =~= s@);
    }
    r
}

/// The sum of `n` choose `i` for `i` from 1 to `upto`.
pub open spec fn sum_binoms(n: nat, upto: nat) -> nat
    decreases upto,
{
    if upto == 0 {
        0
    } else {
        sum_binoms(n, (upto - 1) as nat) + spec_binom(n, upto)
    }
}

/// The token keeps an upper-case character only at its first or last
/// position.
pub open spec fn only_first_upper(tok: Seq<char>) -> bool {
    tok.len() >= 2 && spec_is_upper(tok[0]) && count_upper(tok.drop_first()) == 0
}

pub open spec fn only_last_upper(tok: Seq<char>) -> bool {
    tok.len() >= 2 && spec_is_upper(tok.last()) && count_upper(tok.drop_last()) == 0
}

/// The number of case variants an attacker must try for a token: 1 for an
/// all-lower token, 2 for all-upper or a single capital at an end, else the
/// number of ways to place the upper-case letters.
pub open spec fn spec_uppercase_variations(tok: Seq<char>) -> int {
    let u = count_upper(tok);
    let l = count_lower(tok);
    if u == 0 {
        1
    } else if l == 0 || only_first_upper(tok) || only_last_upper(tok) {
        2
    } else {
        sum_binoms((u + l) as nat, (if u <= l {
            u
        } else {
            l
        }) as nat) as int
    }
}

/// No character is counted as both upper and lower case.
proof fn lemma_count_both(s: Seq<char>)
    ensures
        count_upper(s) + count_lower(s) <= s.len(),
    decreases s.len(),
{
    if s.len() > 0 {
        lemma_count_both(s.drop_last());
    }
}

/// Counts the case variants of `tok`, clamped to the unsigned 64-bit range.
pub fn uppercase_variations(tok: &str) -> (r: u64)
    ensures
        r as int == cap64(spec_uppercase_variations(tok@)),
{
    proof {
        lemma_count_upper_bounds(tok@);
        lemma_count_lower_bounds(tok@);
        lemma_count_both(tok@);
    }
    let n = tok.unicode_len();
    let u = exec_count_upper(tok);
    let l = exec_count_lower(tok);
    if u == 0 {
        return 1;
    }
    if l == 0 {
        return 2;
    }
    // single capital at the first or last position
    proof {
        lemma_first_last_upper(tok@);
    }
    let first_upper = is_upper_char(tok.get_char(0));
    let last_upper = is_upper_char(tok.get_char(n - 1));
    if u == 1 && (first_upper || last_upper) {
        return 2;
    }
    let upto: usize = if u <= l {
        u
    } else {
        l
    };
    let total: usize = u + l;
    let mut sum: u64 = 0;
    let mut i: usize = 0;
    while i < upto
        invariant
            u == count_upper(tok@),
            l == count_lower(tok@),
            u + l <= tok@.len(),
            total == u + l,
            2 * upto <= total,
            i <= upto,
            sum as int == cap64(sum_binoms(total as nat, i as nat) as int),
        decreases upto - i,
    {
        let b = nCk(total as u64, (i + 1) as u64);
        proof {
            lemma_cap_add(
                sum_binoms(total as nat, i as nat) as int,
                spec_binom(total as nat, (i + 1) as nat) as int,
            );
        }
        sum = sat_add(sum, b);
        i = i + 1;
    }
    sum
}

/// A single capital at an end is the same as one upper-case character that
/// stands first or last.
proof fn lemma_first_last_upper(tok: Seq<char>)
    requires
        tok.len() >= 2,
    ensures
        only_first_upper(tok) <==> (spec_is_upper(tok[0]) && count_upper(tok) == 1),
        only_last_upper(tok) <==> (spec_is_upper(tok.last()) && count_upper(tok) == 1),
{
    assert(tok =~= seq![tok[0]] + tok.drop_first());
    lemma_count_upper_concat(seq![tok[0]], tok.drop_first());
    assert(seq![tok[0]].drop_last() =~= Seq::<char>::empty());
    assert(count_upper(Seq::<char>::empty()) == 0);
    assert(seq![tok[0]].last() == tok[0]);
    assert(count_upper(seq![tok[0]]) == if spec_is_upper(tok[0]) {
        1int
    } else {
        0int
    });
    lemma_count_upper_bounds(tok.drop_first());
    assert(count_upper(tok) == count_upper(tok.drop_last()) + if spec_is_upper(tok.last()) {
        1int
    } else {
        0int
    });
    lemma_count_upper_bounds(tok.drop_last());
}

proof fn lemma_count_upper_concat(a: Seq<char>, b: Seq<char>)
    ensures
        count_upper(a + b) == count_upper(a) + count_upper(b),
    decreases b.len(),
{
    if b.len() == 0 {
        assert(a + b =~= a);
    } else {
        lemma_count_upper_concat(a, b.drop_last());
        assert((a + b).drop_last() =~= a + b.drop_last());
        assert((a + b).last() == b.last());
    }
}

/// `b` to the `e`-th power.
pub open spec fn pow_int(b: int, e: nat) -> int
    decreases e,
{
    if e == 0 {
        1
    } else {
        b * pow_int(b, (e - 1) as nat)
    }
}

proof fn lemma_pow_pos(b: int, e: nat)
    requires
        b >= 1,
    ensures
        pow_int(b, e) >= 1,
    decreases e,
{
    if e > 0 {
        lemma_pow_pos(b, (e - 1) as nat);
        assert(b * pow_int(b, (e - 1) as nat) >= 1 * pow_int(b, (e - 1) as nat))
            by (nonlinear_arith)
            requires b >= 1 && pow_int(b, (e - 1) as nat) >= 1;
    }
}

proof fn lemma_pow10_pos(n: nat)
    ensures
        pow10(n) >= 1,
    decreases n,
{
    if n > 0 {
        lemma_pow10_pos((n - 1) as nat);
    }
}

fn pow_sat(b: u64, e: usize) -> (r: u64)
    requires
        1 <= b,
    ensures
        r as int == cap64(pow_int(b as int, e as nat)),
        r >= 1,
{
    let mut p: u64 = 1;
    let mut i: usize = 0;
    while i < e
        invariant
            1 <= b,
            i <= e,
            p as int == cap64(pow_int(b as int, i as nat)),
            p >= 1,
        decreases e - i,
    {
        proof {
            lemma_pow_pos(b as int, i as nat);
            lemma_pow_pos(b as int, (i + 1) as nat);
            lemma_cap_mul(pow_int(b as int, i as nat), b as int);
            assert(pow_int(b as int, (i + 1) as nat) == b * pow_int(b as int, i as nat));
            assert(b * pow_int(b as int, i as nat) == pow_int(b as int, i as nat) * b)
                by (nonlinear_arith);
        }
        p = sat_mul(p, b);
        i = i + 1;
    }
    p
}

/// `10^len` clamped to the unsigned 64-bit range, with the bruteforce floor
/// of 11 guesses for one character and 51 for more.
pub open spec fn spec_bruteforce_guesses(len: nat) -> int {
    let mn: int = if len == 1 {
        11
    } else {
        51
    };
    let p = cap64(pow10(len));
    if p > mn {
        p
    } else {
        mn
    }
}

proof fn lemma_pow10_is_pow_int(n: nat)
    ensures
        pow10(n) == pow_int(10, n),
    decreases n,
{
    if n > 0 {
        lemma_pow10_is_pow_int((n - 1) as nat);
        assert(pow10((n - 1) as nat) * 10 == 10 * pow_int(10, (n - 1) as nat))
            by (nonlinear_arith)
            requires pow10((n - 1) as nat) == pow_int(10, (n - 1) as nat);
    }
}

pub fn bruteforce_guesses(m: &BaseMatch) -> (r: u64)
    ensures
        r as int == spec_bruteforce_guesses(m.token@.len()),
{
    let len = m.token.as_str().unicode_len();
    proof {
        lemma_pow10_is_pow_int(len as nat);
    }
    let p = pow_sat(10, len);
    let mn: u64 = if len == 1 {
        11
    } else {
        51
    };
    if p > mn {
        p
    } else {
        mn
    }
}

/// Rank times case variations, doubled for a reversed word.
pub open spec fn spec_dictionary_guesses(m: BaseMatch) -> int {
    match m.data {
        MatchData::Dictionary { rank, reversed, .. } => {
            let rv: int = if reversed {
                2
            } else {
                1
            };
            rank as int * spec_uppercase_variations(m.token@) * rv
        },
        _ => 0,
    }
}

proof fn lemma_uppercase_variations_pos(tok: Seq<char>)
    ensures
        spec_uppercase_variations(tok) >= 0,
{
}

pub fn dictionary_guesses(m: &BaseMatch) -> (r: u64)
    ensures
        r as int == cap64(spec_dictionary_guesses(*m)),
{
    match &m.data {
        MatchData::Dictionary { rank, reversed, .. } => {
            let uv = uppercase_variations(m.token.as_str());
            proof {
                lemma_uppercase_variations_pos(m.token@);
                lemma_cap_mul2(*rank as int, spec_uppercase_variations(m.token@));
            }
            let g = sat_mul(*rank as u64, uv);
            let rv: u64 = if *reversed {
                2
            } else {
                1
            };
            proof {
                lemma_cap_mul(*rank as int * spec_uppercase_variations(m.token@), rv as int);
            }
            sat_mul(g, rv)
        },
        _ => 0,
    }
}

/// Base alphabet size for the first character, doubled for a descending
/// run, times the length of the run.
pub open spec fn spec_sequence_guesses(m: BaseMatch) -> int {
    match m.data {
        MatchData::Sequence { ascending, .. } => {
            let tok = m.token@;
            if tok.len() == 0 {
                0
            } else {
                let base: int = if tok[0] == '0' || tok[0] == '1' || tok[0] == '9' || tok[0] == 'a'
                    || tok[0] == 'z' || tok[0] == 'A' || tok[0] == 'Z' {
                    4
                } else if spec_is_digit(tok[0]) {
                    10
                } else {
                    26
                };
                let desc: int = if ascending {
                    1
                } else {
                    2
                };
                cap64(base * desc * tok.len())
            }
        },
        _ => 0,
    }
}

pub fn sequence_guesses(m: &BaseMatch) -> (r: u64)
    ensures
        r as int == spec_sequence_guesses(*m),
{
    match &m.data {
        MatchData::Sequence { ascending, .. } => {
            let len = m.token.as_str().unicode_len();
            if len == 0 {
                return 0;
            }
            let c = m.token.as_str().get_char(0);
            let base: u64 = if c == '0' || c == '1' || c == '9' || c == 'a' || c == 'z' || c == 'A'
                || c == 'Z' {
                4
            } else if is_digit_char(c) {
                10
            } else {
                26
            };
            let desc: u64 = if *ascending {
                1
            } else {
                2
            };
            sat_mul(base * desc, len as u64)
        },
        _ => 0,
    }
}

pub open spec fn abs_int(x: int) -> int {
    if x < 0 {
        -x
    } else {
        x
    }
}

/// Distance of the matched year from the reference year, floored at 20; one
/// guess for a token that is not a four-digit year.
pub open spec fn spec_regex_guesses(m: BaseMatch, ref_year: int) -> int {
    match m.data {
        MatchData::Regex { .. } => {
            let tok = m.token@;
            if tok.len() == 4 && all_digits(tok) {
                let d = abs_int(digits_val(tok) - ref_year);
                if d > 20 {
                    d
                } else {
                    20
                }
            } else {
                1
            }
        },
        _ => 0,
    }
}

fn token_is_four_digits(s: &str) -> (r: bool)
    ensures
        r == (s@.len() == 4 && all_digits(s@)),
{
    let n = s.unicode_len();
    if n != 4 {
        return false;
    }
    let mut i: usize = 0;
    while i < 4
        invariant
            s@.len() == 4,
            i <= 4,
            forall|k: int| 0 <= k < i ==> spec_is_digit(s@[k]),
        decreases 4 - i,
    {
        if !is_digit_char(s.get_char(i)) {
            return false;
        }
        i = i + 1;
    }
    true
}

pub fn regex_guesses(m: &BaseMatch, ref_year: i32) -> (r: u64)
    ensures
        r as int == spec_regex_guesses(*m, ref_year as int),
{
    match &m.data {
        MatchData::Regex { .. } => {
            if token_is_four_digits(m.token.as_str()) {
                let year = crate::text::parse_digits(m.token.as_str(), 0, 4);
                proof {
                    assert(m.token@.subrange(0, 4) =~= m.token@);
                }
                let diff: i64 = if (year as i64) >= (ref_year as i64) {
                    year as i64 - ref_year as i64
                } else {
                    ref_year as i64 - year as i64
                };
                if diff > 20 {
                    diff as u64
                } else {
                    20
                }
            } else {
                1
            }
        },
        _ => 0,
    }
}

/// One guess per day in the window around the reference year, four times as
/// many when the date was written with a separator.
pub open spec fn spec_date_guesses(m: BaseMatch, ref_year: int) -> int {
    match m.data {
        MatchData::Date { separator, date } => {
            let yd = abs_int(date.year as int - ref_year);
            let ys: int = if yd > 20 {
                yd
            } else {
                20
            };
            365 * ys * (if separator == '\0' {
                1int
            } else {
                4int
            })
        },
        _ => 0,
    }
}

pub fn date_guesses(m: &BaseMatch, ref_year: i32) -> (r: u64)
    ensures
        r as int == cap64(spec_date_guesses(*m, ref_year as int)),
{
    match &m.data {
        MatchData::Date { separator, date } => {
            let yd: i64 = if (date.year as i64) >= (ref_year as i64) {
                date.year as i64 - ref_year as i64
            } else {
                ref_year as i64 - date.year as i64
            };
            let ys: i64 = if yd > 20 {
                yd
            } else {
                20
            };
            let sep: u64 = if *separator == '\0' {
                1
            } else {
                4
            };
            365 * (ys as u64) * sep
        },
        _ => 0,
    }
}

/// The guesses of the base token, once per repetition.
pub open spec fn spec_repeat_guesses(m: BaseMatch) -> int {
    match m.data {
        MatchData::Repeat { base_guesses, repeat_count, .. } => cap64(
            base_guesses as int * repeat_count as int,
        ),
        _ => 0,
    }
}

pub fn repeat_guesses(m: &BaseMatch) -> (r: u64)
    ensures
        r as int == spec_repeat_guesses(*m),
{
    match &m.data {
        MatchData::Repeat { base_guesses, repeat_count, .. } => sat_mul(
            *base_guesses,
            *repeat_count as u64,
        ),
        _ => 0,
    }
}

/// How many keys the named keyboard has.
pub open spec fn spec_graph_size(g: Seq<char>) -> int {
    if g == "qwerty"@ || g == "dvorak"@ {
        47
    } else if g == "Keypad"@ {
        15
    } else if g == "Mac keypad"@ {
        16
    } else {
        10
    }
}

/// How many neighbours a key of the named keyboard has, rounded up.
pub open spec fn spec_graph_degree(g: Seq<char>) -> int {
    if g == "qwerty"@ || g == "dvorak"@ {
        6
    } else if g == "Keypad"@ || g == "Mac keypad"@ {
        8
    } else {
        4
    }
}

/// The walks of length `i` that start anywhere and take `j` turns, summed
/// for `j` from 1 to `jmax`: positions of the turns, times the possible
/// start keys, times a direction for each turn.
pub open spec fn spec_turn_sum(i: nat, jmax: nat, s: int, d: int) -> int
    decreases jmax,
{
    if jmax == 0 {
        0
    } else {
        spec_turn_sum(i, (jmax - 1) as nat, s, d) + spec_binom((i - 1) as nat, (jmax - 1) as nat)
            * s * pow_int(d, jmax)
    }
}

/// The spatial search space: walks of every length from 2 up to the token
/// length, with up to the seen number of turns.
pub open spec fn spec_spatial_base(len: nat, t: nat, s: int, d: int) -> int
    decreases len,
{
    if len < 2 {
        0
    } else {
        spec_spatial_base((len - 1) as nat, t, s, d) + spec_turn_sum(
            len,
            if t <= len - 1 {
                t
            } else {
                (len - 1) as nat
            },
            s,
            d,
        )
    }
}

/// The ways the shift key could have been used: 1 when nothing is shifted,
/// 2 when everything is, else the ways to place the shifted keys.
pub open spec fn spec_shifted_variations(sh: int, len: int) -> int {
    if sh == 0 {
        1
    } else if sh >= len {
        2
    } else {
        let unsh = len - sh;
        sum_binoms(len as nat, (if sh <= unsh {
            sh
        } else {
            unsh
        }) as nat) as int
    }
}

/// The spatial guess count: the walk search space, times the shift
/// variations.
pub open spec fn spec_spatial_guesses(m: BaseMatch) -> int {
    match m.data {
        MatchData::Spatial { graph, turns, shifted_count } => {
            let s = spec_graph_size(graph@);
            let d = spec_graph_degree(graph@);
            let base = spec_spatial_base(m.token@.len(), turns as nat, s, d);
            base * spec_shifted_variations(shifted_count as int, m.token@.len() as int)
        },
        _ => 0,
    }
}

proof fn lemma_turn_sum_nonneg(i: nat, jmax: nat, s: int, d: int)
    requires
        s >= 1,
        d >= 1,
    ensures
        spec_turn_sum(i, jmax, s, d) >= 0,
    decreases jmax,
{
    if jmax > 0 {
        lemma_turn_sum_nonneg(i, (jmax - 1) as nat, s, d);
        lemma_pow_pos(d, jmax);
        assert(spec_binom((i - 1) as nat, (jmax - 1) as nat) * s * pow_int(d, jmax) >= 0)
            by (nonlinear_arith)
            requires spec_binom((i - 1) as nat, (jmax - 1) as nat) >= 0 && s >= 1 && pow_int(
                d,
                jmax,
            ) >= 1;
    }
}

proof fn lemma_spatial_base_nonneg(len: nat, t: nat, s: int, d: int)
    requires
        s >= 1,
        d >= 1,
    ensures
        spec_spatial_base(len, t, s, d) >= 0,
    decreases len,
{
    if len >= 2 {
        lemma_spatial_base_nonneg((len - 1) as nat, t, s, d);
        lemma_turn_sum_nonneg(
            len,
            if t <= len - 1 {
                t
            } else {
                (len - 1) as nat
            },
            s,
            d,
        );
    }
}

/// Sum of `n` choose `i` for `i` from 1 to `upto`, clamped.
fn sum_binoms_sat(n: u64, upto: u64) -> (r: u64)
    requires
        upto < usize::MAX as u64,
    ensures
        r as int == cap64(sum_binoms(n as nat, upto as nat) as int),
{
    let mut sum: u64 = 0;
    let mut i: u64 = 0;
    while i < upto
        invariant
            i <= upto,
            upto < usize::MAX as u64,
            sum as int == cap64(sum_binoms(n as nat, i as nat) as int),
        decreases upto - i,
    {
        let b = nCk(n, i + 1);
        proof {
            lemma_cap_add(
                sum_binoms(n as nat, i as nat) as int,
                spec_binom(n as nat, (i + 1) as nat) as int,
            );
        }
        sum = sat_add(sum, b);
        i = i + 1;
    }
    sum
}

pub fn spatial_guesses(m: &BaseMatch) -> (r: u64)
    ensures
        r as int == cap64(spec_spatial_guesses(*m)),
{
    match &m.data {
        MatchData::Spatial { graph, turns, shifted_count } => {
            let s: u64 = if crate::text::str_eq(graph.as_str(), "qwerty") || crate::text::str_eq(
                graph.as_str(),
                "dvorak",
            ) {
                47
            } else if crate::text::str_eq(graph.as_str(), "Keypad") {
                15
            } else if crate::text::str_eq(graph.as_str(), "Mac keypad") {
                16
            } else {
                10
            };
            let d: u64 = if crate::text::str_eq(graph.as_str(), "qwerty") || crate::text::str_eq(
                graph.as_str(),
                "dvorak",
            ) {
                6
            } else if crate::text::str_eq(graph.as_str(), "Keypad") || crate::text::str_eq(
                graph.as_str(),
                "Mac keypad",
            ) {
                8
            } else {
                4
            };
            let ghost gs = spec_graph_size(graph@);
            let ghost gd = spec_graph_degree(graph@);
            proof {
                assert(s == gs && d == gd);
            }
            let len = m.token.as_str().unicode_len();
            let t = *turns;
            let mut base: u64 = 0;
            let mut i: usize = 1;
            while i < len
                invariant
                    1 <= i,
                    i <= len || i == 1,
                    s == gs,
                    d == gd,
                    1 <= s,
                    1 <= d,
                    t == turns,
                    len == m.token@.len(),
                    base as int == cap64(spec_spatial_base(i as nat, t as nat, gs as int, gd as int)),
                decreases len - i,
    {
                i = i + 1;
                let jmax: usize = if t <= i - 1 {
                    t
                } else {
                    i - 1
                };
                let mut tsum: u64 = 0;
                let mut j: usize = 0;
                while j < jmax
                    invariant
                        j <= jmax,
                        jmax <= i - 1,
                        2 <= i <= len,
                        len == m.token@.len(),
                        s == gs,
                        d == gd,
                        1 <= s,
                        1 <= d,
                        tsum as int == cap64(
                            spec_turn_sum(i as nat, j as nat, gs as int, gd as int),
                        ),
                    decreases jmax - j,
                {
                    j = j + 1;
                    let b = nCk((i - 1) as u64, (j - 1) as u64);
                    proof {
                        lemma_cap_mul((spec_binom((i - 1) as nat, (j - 1) as nat)) as int, gs as int);
                    }
                    let term1 = sat_mul(b, s);
                    let pw = pow_sat(d, j);
                    proof {
                        lemma_pow_pos(gd as int, j as nat);
                        assert(spec_binom((i - 1) as nat, (j - 1) as nat) * gs >= 0)
                            by (nonlinear_arith)
                            requires spec_binom((i - 1) as nat, (j - 1) as nat) >= 0 && gs >= 1;
                        lemma_cap_mul2(
                            spec_binom((i - 1) as nat, (j - 1) as nat) * gs,
                            pow_int(gd as int, j as nat),
                        );
                    }
                    let term = sat_mul(term1, pw);
                    proof {
                        lemma_turn_sum_nonneg(i as nat, (j - 1) as nat, gs as int, gd as int);
                        assert(spec_binom((i - 1) as nat, (j - 1) as nat) * gs * pow_int(
                            gd as int,
                            j as nat,
                        ) >= 0) by (nonlinear_arith)
                            requires spec_binom((i - 1) as nat, (j - 1) as nat) >= 0 && gs >= 1
                                && pow_int(gd as int, j as nat) >= 1;
                        lemma_cap_add(
                            spec_turn_sum(i as nat, (j - 1) as nat, gs as int, gd as int),
                            spec_binom((i - 1) as nat, (j - 1) as nat) * gs * pow_int(
                                gd as int,
                                j as nat,
                            ),
                        );
                        assert(spec_turn_sum(i as nat, j as nat, gs as int, gd as int)
                            == spec_turn_sum(i as nat, (j - 1) as nat, gs as int, gd as int)
                            + spec_binom((i - 1) as nat, (j - 1) as nat) * gs * pow_int(
                            gd as int,
                            j as nat,
                        ));
                    }
                    tsum = sat_add(tsum, term);
                }
                proof {
                    lemma_spatial_base_nonneg((i - 1) as nat, t as nat, gs as int, gd as int);
                    lemma_turn_sum_nonneg(i as nat, jmax as nat, gs as int, gd as int);
                    lemma_cap_add(
                        spec_spatial_base((i - 1) as nat, t as nat, gs as int, gd as int),
                        spec_turn_sum(i as nat, jmax as nat, gs as int, gd as int),
                    );
                    assert(spec_spatial_base(i as nat, t as nat, gs as int, gd as int)
                        == spec_spatial_base((i - 1) as nat, t as nat, gs as int, gd as int)
                        + spec_turn_sum(i as nat, jmax as nat, gs as int, gd as int));
                }
                base = sat_add(base, tsum);
            }
            proof {
                if len < 2 {
                    assert(spec_spatial_base(len as nat, t as nat, gs as int, gd as int) == 0);
                    assert(spec_spatial_base(1, t as nat, gs as int, gd as int) == 0);
                }
            }
            let sv: u64 = if *shifted_count == 0 {
                1
            } else if *shifted_count >= len {
                2
            } else {
                let sh = *shifted_count;
                let unsh = len - sh;
                let upto: u64 = if sh <= unsh {
                    sh as u64
                } else {
                    unsh as u64
                };
                sum_binoms_sat(len as u64, upto)
            };
            proof {
                lemma_spatial_base_nonneg(len as nat, t as nat, gs as int, gd as int);
                assert(spec_shifted_variations(*shifted_count as int, len as int) >= 0);
                lemma_cap_mul2(
                    spec_spatial_base(len as nat, t as nat, gs as int, gd as int),
                    spec_shifted_variations(*shifted_count as int, len as int),
                );
            }
            sat_mul(base, sv)
        },
        _ => 0,
    }
}

/// The floor on a submatch: 10 guesses for one character, 50 for more, 1
/// when the match covers the whole password.
pub open spec fn spec_min_submatch(m: BaseMatch, pw: Seq<char>) -> int {
    if m.token@.len() < pw.len() {
        if m.token@.len() == 1 {
            10
        } else {
            50
        }
    } else {
        1
    }
}

/// The per-pattern guess formula.
pub open spec fn spec_pattern_guesses(m: BaseMatch, ref_year: int) -> int {
    match m.data {
        MatchData::Plain => spec_bruteforce_guesses(m.token@.len()),
        MatchData::Dictionary { .. } => spec_dictionary_guesses(m),
        MatchData::Spatial { .. } => spec_spatial_guesses(m),
        MatchData::Repeat { .. } => spec_repeat_guesses(m),
        MatchData::Sequence { .. } => spec_sequence_guesses(m),
        MatchData::Regex { .. } => spec_regex_guesses(m, ref_year),
        MatchData::Date { .. } => spec_date_guesses(m, ref_year),
    }
}

/// The guess count of one match: its pattern formula, never below the
/// submatch floor.
pub open spec fn spec_estimate_guesses(m: BaseMatch, pw: Seq<char>, ref_year: int) -> int {
    let g = cap64(spec_pattern_guesses(m, ref_year));
    let mn = spec_min_submatch(m, pw);
    if g > mn {
        g
    } else {
        mn
    }
}

pub proof fn lemma_estimate_bounds(m: BaseMatch, pw: Seq<char>, ref_year: int)
    ensures
        1 <= spec_estimate_guesses(m, pw, ref_year) <= u64::MAX,
{
    let g = spec_pattern_guesses(m, ref_year);
    assert(cap64(g) <= u64::MAX);
}

/// Equal match content gives an equal guess estimate.
pub proof fn lemma_estimate_match_eq(a: BaseMatch, b: BaseMatch, pw: Seq<char>, ry: int)
    requires
        match_eq(a, b),
    ensures
        spec_estimate_guesses(a, pw, ry) == spec_estimate_guesses(b, pw, ry),
{
    match (a.data, b.data) {
        (MatchData::Plain, MatchData::Plain) => {},
        (MatchData::Dictionary { .. }, MatchData::Dictionary { .. }) => {
            assert(spec_dictionary_guesses(a) == spec_dictionary_guesses(b));
        },
        (MatchData::Spatial { .. }, MatchData::Spatial { .. }) => {
            assert(spec_spatial_guesses(a) == spec_spatial_guesses(b));
        },
        (MatchData::Repeat { .. }, MatchData::Repeat { .. }) => {},
        (MatchData::Sequence { .. }, MatchData::Sequence { .. }) => {},
        (MatchData::Regex { .. }, MatchData::Regex { .. }) => {},
        (MatchData::Date { .. }, MatchData::Date { .. }) => {},
        _ => {},
    }
}

/// Estimates how many guesses an attacker needs for this match alone.
pub fn estimate_guesses(m: &BaseMatch, password: &str, ref_year: i32) -> (r: u64)
    ensures
        r as int == spec_estimate_guesses(*m, password@, ref_year as int),
{
    let g: u64 = match &m.data {
        MatchData::Plain => bruteforce_guesses(m),
        MatchData::Dictionary { .. } => dictionary_guesses(m),
        MatchData::Spatial { .. } => spatial_guesses(m),
        MatchData::Repeat { .. } => repeat_guesses(m),
        MatchData::Sequence { .. } => sequence_guesses(m),
        MatchData::Regex { .. } => regex_guesses(m, ref_year),
        MatchData::Date { .. } => date_guesses(m, ref_year),
    };
    let tok_len = m.token.as_str().unicode_len();
    let pw_len = password.unicode_len();
    let mn: u64 = if tok_len < pw_len {
        if tok_len == 1 {
            10
        } else {
            50
        }
    } else {
        1
    };
    if g > mn {
        g
    } else {
        mn
    }
}

/// A synthetic bruteforce match over one span of the password.
pub open spec fn is_bruteforce_fill(pw: Seq<char>, x: BaseMatch) -> bool {
    &&& wf_match(pw, x)
    &&& x.pattern@ == "Bruteforce"@
    &&& x.data is Plain
}

/// A match the optimizer may place in a cover: one of the candidates, or a
/// bruteforce fill.
pub open spec fn elem_ok(pw: Seq<char>, ms: Seq<BaseMatch>, x: BaseMatch) -> bool {
    (exists|j: int| 0 <= j < ms.len() && match_eq(x, #[trigger] ms[j])) || is_bruteforce_fill(
        pw,
        x,
    )
}

/// Consecutive matches tile the span `[0, k]` without gap or overlap.
pub open spec fn is_chain(c: Seq<BaseMatch>, k: int) -> bool {
    &&& c.len() >= 1
    &&& c[0].start == 0
    &&& c.last().end == k
    &&& forall|q: int| 0 <= q < c.len() ==> (#[trigger] c[q]).start <= c[q].end
    &&& forall|q: int| 0 < q < c.len() ==> (#[trigger] c[q]).start == c[q - 1].end + 1
}

/// No two neighbouring bruteforce fills: they would stand for one longer
/// fill whose cost the product would count twice.
pub open spec fn no_adjacent_fill(c: Seq<BaseMatch>) -> bool {
    forall|q: int| 0 < q < c.len() ==> !((#[trigger] c[q]).data is Plain && c[q - 1].data is Plain)
}

/// The product of the per-match guess counts of a cover, clamped at each
/// step.
pub open spec fn seq_pi(c: Seq<BaseMatch>, pw: Seq<char>, ry: int) -> int
    decreases c.len(),
{
    if c.len() == 0 {
        1
    } else {
        cap64(seq_pi(c.drop_last(), pw, ry) * spec_estimate_guesses(c.last(), pw, ry))
    }
}

/// The cost of a cover: the factorial of its length times the product of
/// its guess counts, clamped.
pub open spec fn chain_cost(c: Seq<BaseMatch>, pw: Seq<char>, ry: int) -> int {
    cap64(cap64(spec_factorial(c.len()) as int) * seq_pi(c, pw, ry))
}

proof fn lemma_seq_pi_bounds(c: Seq<BaseMatch>, pw: Seq<char>, ry: int)
    ensures
        1 <= seq_pi(c, pw, ry) <= u64::MAX,
    decreases c.len(),
{
    if c.len() > 0 {
        lemma_seq_pi_bounds(c.drop_last(), pw, ry);
        lemma_estimate_bounds(c.last(), pw, ry);
        let p = seq_pi(c.drop_last(), pw, ry);
        let e = spec_estimate_guesses(c.last(), pw, ry);
        assert(p * e >= 1 * 1) by (nonlinear_arith)
            requires p >= 1 && e >= 1;
    }
}

proof fn lemma_chain_cost_bounds(c: Seq<BaseMatch>, pw: Seq<char>, ry: int)
    ensures
        1 <= chain_cost(c, pw, ry) <= u64::MAX,
{
    lemma_seq_pi_bounds(c, pw, ry);
    lemma_factorial_pos(c.len());
    let f = cap64(spec_factorial(c.len()) as int);
    let p = seq_pi(c, pw, ry);
    assert(f * p >= 1 * 1) by (nonlinear_arith)
        requires f >= 1 && p >= 1;
}

/// Equal cover content gives an equal cost.
pub proof fn lemma_cost_match_eq(a: Seq<BaseMatch>, b: Seq<BaseMatch>, pw: Seq<char>, ry: int)
    requires
        a.len() == b.len(),
        forall|q: int| 0 <= q < a.len() ==> match_eq(#[trigger] a[q], b[q]),
    ensures
        seq_pi(a, pw, ry) == seq_pi(b, pw, ry),
        chain_cost(a, pw, ry) == chain_cost(b, pw, ry),
    decreases a.len(),
{
    if a.len() > 0 {
        assert(forall|q: int|
            0 <= q < a.drop_last().len() ==> a.drop_last()[q] == a[q] && b.drop_last()[q] == b[q]);
        lemma_cost_match_eq(a.drop_last(), b.drop_last(), pw, ry);
        lemma_estimate_match_eq(a.last(), b.last(), pw, ry);
    }
}

/// A chain ending at `k` holds at most `k + 1` matches.
proof fn lemma_chain_len(c: Seq<BaseMatch>, k: int)
    requires
        is_chain(c, k),
    ensures
        c.len() <= k + 1,
    decreases c.len(),
{
    if c.len() > 1 {
        let c2 = c.drop_last();
        let k2 = c.last().start - 1;
        assert(c2[0] == c[0]);
        assert(c2.last() == c[c.len() - 2]);
        assert(c[c.len() - 1].start == c[c.len() - 2].end + 1);
        assert(is_chain(c2, k2)) by {
            assert(forall|q: int| 0 <= q < c2.len() ==> c2[q] == c[q]);
        }
        lemma_chain_len(c2, k2);
    }
}

/// One scored way to cover the password up to some position.
struct MatchScores {
    m: BaseMatch,
    pi: u64,
    g: u64,
    length: usize,
    parent: usize,
    cover: Ghost<Seq<BaseMatch>>,
}

/// The books an entry must keep: its ghost cover is a real chain, its
/// numbers are the cover's cost, and every cover element is a candidate or
/// a fill.
spec fn entry_ok(pw: Seq<char>, ms: Seq<BaseMatch>, ry: int, k: int, e: MatchScores) -> bool {
    let c = e.cover@;
    &&& e.length == c.len()
    &&& is_chain(c, k)
    &&& c.last() == e.m
    &&& e.pi as int == seq_pi(c, pw, ry)
    &&& e.g as int == chain_cost(c, pw, ry)
    &&& forall|q: int| 0 <= q < c.len() ==> elem_ok(pw, ms, #[trigger] c[q])
    &&& no_adjacent_fill(c)
}

spec fn row_ok(pw: Seq<char>, ms: Seq<BaseMatch>, ry: int, k: int, row: Seq<MatchScores>) -> bool {
    forall|i: int| 0 <= i < row.len() ==> entry_ok(pw, ms, ry, k, #[trigger] row[i])
}

/// A long entry's parent index names the entry its cover extends.
spec fn entry_parent_ok(table: Seq<Vec<MatchScores>>, e: MatchScores) -> bool {
    e.length >= 2 ==> {
        &&& 1 <= e.m.start
        &&& e.m.start - 1 < table.len()
        &&& e.parent < table[e.m.start - 1]@.len()
        &&& table[e.m.start - 1]@[e.parent as int].cover@ == e.cover@.drop_last()
        &&& table[e.m.start - 1]@[e.parent as int].length == e.length - 1
    }
}

spec fn row_parents_ok(table: Seq<Vec<MatchScores>>, row: Seq<MatchScores>) -> bool {
    forall|i: int| 0 <= i < row.len() ==> entry_parent_ok(table, #[trigger] row[i])
}

/// Records a candidate entry unless one at least as short and at most as
/// costly already stands.
fn insert_entry(
    row: &mut Vec<MatchScores>,
    e: MatchScores,
    Ghost(pw): Ghost<Seq<char>>,
    Ghost(ms): Ghost<Seq<BaseMatch>>,
    Ghost(ry): Ghost<int>,
    Ghost(k): Ghost<int>,
    Ghost(table): Ghost<Seq<Vec<MatchScores>>>,
)
    requires
        row_ok(pw, ms, ry, k, old(row)@),
        row_parents_ok(table, old(row)@),
        entry_ok(pw, ms, ry, k, e),
        entry_parent_ok(table, e),
    ensures
        row_ok(pw, ms, ry, k, final(row)@),
        row_parents_ok(table, final(row)@),
        final(row)@ == old(row)@ || final(row)@ == old(row)@.push(e),
        exists|i: int|
            0 <= i < final(row)@.len() && (#[trigger] final(row)@[i]).g <= e.g
                && final(row)@[i].length <= e.length,
{
    let mut i: usize = 0;
    while i < row.len()
        invariant
            i <= row@.len(),
            row@ == old(row)@,
            row_ok(pw, ms, ry, k, row@),
            row_parents_ok(table, row@),
            forall|q: int|
                0 <= q < i ==> !((#[trigger] row@[q]).length <= e.length && row@[q].g <= e.g),
        decreases row@.len() - i,
    {
        if row[i].length <= e.length && row[i].g <= e.g {
            return ;
        }
        i = i + 1;
    }
    let ghost before = row@;
    row.push(e);
    proof {
        assert(final(row)@[before.len() as int] == e);
        assert(forall|q: int| 0 <= q < before.len() ==> final(row)@[q] == before[q]);
    }
}

/// Builds the entry for a cover of a single match starting at 0.
fn entry_single(
    m: BaseMatch,
    password: &str,
    ref_year: i32,
    Ghost(ms): Ghost<Seq<BaseMatch>>,
) -> (e: MatchScores)
    requires
        wf_match(password@, m),
        m.start == 0,
        elem_ok(password@, ms, m),
    ensures
        entry_ok(password@, ms, ref_year as int, m.end as int, e),
        e.m == m,
        e.length == 1,
        e.cover@ == seq![m],
        e.g as int == spec_estimate_guesses(m, password@, ref_year as int),
{
    let pi = estimate_guesses(&m, password, ref_year);
    let f1 = factorial(1);
    proof {
        reveal_with_fuel(spec_factorial, 3);
        assert(seq![m].drop_last() =~= Seq::<BaseMatch>::empty());
        assert(seq![m].last() == m);
        assert(seq_pi(Seq::<BaseMatch>::empty(), password@, ref_year as int) == 1);
        lemma_estimate_bounds(m, password@, ref_year as int);
        assert(1 * spec_estimate_guesses(m, password@, ref_year as int)
            == spec_estimate_guesses(m, password@, ref_year as int));
        assert(seq_pi(seq![m], password@, ref_year as int) == spec_estimate_guesses(
            m,
            password@,
            ref_year as int,
        ));
    }
    let g = sat_mul(f1, pi);
    proof {
        assert(1 * seq_pi(seq![m], password@, ref_year as int) == seq_pi(
            seq![m],
            password@,
            ref_year as int,
        ));
    }
    let ghost c = seq![m];
    MatchScores { m, pi, g, length: 1, parent: 0, cover: Ghost(c) }
}

/// Builds the entry that extends a recorded cover by one more match.
fn entry_extend(
    m: BaseMatch,
    parent_entry: &MatchScores,
    parent_idx: usize,
    password: &str,
    ref_year: i32,
    Ghost(ms): Ghost<Seq<BaseMatch>>,
    Ghost(kp): Ghost<int>,
) -> (e: MatchScores)
    requires
        entry_ok(password@, ms, ref_year as int, kp, *parent_entry),
        wf_match(password@, m),
        elem_ok(password@, ms, m),
        m.start as int == kp + 1,
        !(m.data is Plain && parent_entry.m.data is Plain),
        parent_entry.length < usize::MAX,
    ensures
        entry_ok(password@, ms, ref_year as int, m.end as int, e),
        e.m == m,
        e.length == parent_entry.length + 1,
        e.parent == parent_idx,
        e.cover@ == parent_entry.cover@.push(m),
{
    let ghost pw = password@;
    let ghost ry = ref_year as int;
    let ghost pc = parent_entry.cover@;
    let ghost c = pc.push(m);
    let est = estimate_guesses(&m, password, ref_year);
    let pi = sat_mul(parent_entry.pi, est);
    let l = parent_entry.length + 1;
    let f = factorial(l as u64);
    let g = sat_mul(f, pi);
    proof {
        assert(c.drop_last() =~= pc);
        assert(c.last() == m);
        assert(seq_pi(c, pw, ry) == cap64(seq_pi(pc, pw, ry) * spec_estimate_guesses(m, pw, ry)));
        assert(pi as int == seq_pi(c, pw, ry));
        assert(g as int == chain_cost(c, pw, ry));
        // the extended cover is still a chain
        assert(is_chain(c, m.end as int)) by {
            assert(c[0] == pc[0]);
            assert(pc.last().end == kp);
            assert(forall|q: int| 0 <= q < pc.len() ==> c[q] == pc[q]);
        }
        assert(forall|q: int| 0 <= q < c.len() ==> elem_ok(pw, ms, #[trigger] c[q])) by {
            assert(forall|q: int| 0 <= q < pc.len() ==> c[q] == pc[q]);
        }
        assert(no_adjacent_fill(c)) by {
            assert(forall|q: int| 0 <= q < pc.len() ==> c[q] == pc[q]);
            assert(c[c.len() - 2] == parent_entry.m);
        }
    }
    MatchScores { m, pi, g, length: l, parent: parent_idx, cover: Ghost(c) }
}

/// No candidate match is a bruteforce fill: the optimizer synthesizes those
/// itself.
pub open spec fn no_plain(ms: Seq<BaseMatch>) -> bool {
    forall|j: int| 0 <= j < ms.len() ==> !((#[trigger] ms[j]).data is Plain)
}

/// The synthetic match that covers `start..=end` by raw guessing.
fn bruteforce_match(password: &str, start: usize, end: usize) -> (r: BaseMatch)
    requires
        start <= end < password@.len(),
        end < usize::MAX,
    ensures
        is_bruteforce_fill(password@, r),
        r.start == start,
        r.end == end,
        r.data is Plain,
{
    BaseMatch {
        pattern: "Bruteforce".to_owned(),
        start,
        end,
        token: password.substring_char(start, end + 1).to_owned(),
        data: MatchData::Plain,
    }
}

/// The guess estimate of a bruteforce fill is the bruteforce formula for
/// its span.
proof fn lemma_fill_estimate(pw: Seq<char>, bm: BaseMatch, ry: int)
    requires
        is_bruteforce_fill(pw, bm),
    ensures
        spec_estimate_guesses(bm, pw, ry) == spec_bruteforce_guesses(bm.token@.len()),
{
    let len = bm.token@.len();
    assert(len == bm.end - bm.start + 1);
    assert(len >= 1);
    let g = spec_bruteforce_guesses(len);
    assert(g >= 11);
    assert(g <= u64::MAX);
    assert(cap64(g) == g);
    let mn = spec_min_submatch(bm, pw);
    if len < pw.len() {
        if len == 1 {
            assert(mn == 10 && g >= 11);
        } else {
            assert(pow10(len) >= 100) by {
                reveal_with_fuel(pow10, 3);
                lemma_pow10_mono(2, len);
            }
            assert(mn == 50 && g >= 51);
        }
    } else {
        assert(mn == 1);
    }
}

proof fn lemma_pow10_mono(a: nat, b: nat)
    requires
        a <= b,
    ensures
        pow10(a) <= pow10(b),
    decreases b,
{
    if a < b {
        lemma_pow10_mono(a, (b - 1) as nat);
        lemma_pow10_pos((b - 1) as nat);
    }
}

/// The row holds an entry at most as costly as the bound.
spec fn row_has_cheap(row: Seq<MatchScores>, bound: int) -> bool {
    exists|i: int| 0 <= i < row.len() && ((#[trigger] row[i]).g) as int <= bound
}

/// The books the whole table keeps: each row holds real entries for its
/// position, and every parent link points at a real earlier entry.
spec fn table_ok(pw: Seq<char>, ms: Seq<BaseMatch>, ry: int, table: Seq<Vec<MatchScores>>) -> bool {
    &&& forall|kk: int| 0 <= kk < table.len() ==> row_ok(pw, ms, ry, kk, (#[trigger] table[kk])@)
    &&& forall|kk: int| 0 <= kk < table.len() ==> row_parents_ok(table, (#[trigger] table[kk])@)
}

/// Builds the next row of the table: every way to end a cover at position
/// `k`, by a candidate match or a bruteforce fill, minus dominated ones.
#[verifier::rlimit(100)]
fn build_row(
    scores: &Vec<Vec<MatchScores>>,
    k: usize,
    password: &str,
    matches: &Vec<BaseMatch>,
    ref_year: i32,
) -> (row: Vec<MatchScores>)
    requires
        all_wf(password@, matches@),
        no_plain(matches@),
        k < password@.len(),
        k < usize::MAX,
        k == scores@.len(),
        forall|kk: int|
            0 <= kk < k ==> row_ok(password@, matches@, ref_year as int, kk, (
            #[trigger] scores@[kk])@),
    ensures
        row_ok(password@, matches@, ref_year as int, k as int, row@),
        row_parents_ok(scores@, row@),
        row_has_cheap(row@, spec_bruteforce_guesses((k + 1) as nat)),
{
    let ghost pw = password@;
    let ghost ms = matches@;
    let ghost ry = ref_year as int;
    let mut row: Vec<MatchScores> = Vec::new();
    // candidate matches that end here
    let mut idx: usize = 0;
    while idx < matches.len()
        invariant
            pw == password@,
            ms == matches@,
            ry == ref_year as int,
            all_wf(pw, ms),
            no_plain(ms),
            k < pw.len(),
            k < usize::MAX,
            scores@.len() == k,
            forall|kk: int| 0 <= kk < k ==> row_ok(pw, ms, ry, kk, (#[trigger] scores@[kk])@),
            idx <= matches@.len(),
            row_ok(pw, ms, ry, k as int, row@),
            row_parents_ok(scores@, row@),
        decreases matches@.len() - idx,
    {
        if matches[idx].end == k {
            proof {
                assert(wf_match(pw, ms[idx as int]));
            }
            if matches[idx].start == 0 {
                let m = matches[idx].clone();
                proof {
                    assert(m.token@ == ms[idx as int].token@);
                    assert(wf_match(pw, m));
                    assert(elem_ok(pw, ms, m));
                }
                let e = entry_single(m, password, ref_year, Ghost(ms));
                insert_entry(
                    &mut row,
                    e,
                    Ghost(pw),
                    Ghost(ms),
                    Ghost(ry),
                    Ghost(k as int),
                    Ghost(scores@),
                );
            } else {
                let sidx = matches[idx].start - 1;
                proof {
                    assert(sidx < k);
                }
                let prow_len = scores[sidx].len();
                let mut pidx: usize = 0;
                while pidx < prow_len
                    invariant
                        pw == password@,
                        ms == matches@,
                        ry == ref_year as int,
                        all_wf(pw, ms),
                        no_plain(ms),
                        k < pw.len(),
                        k < usize::MAX,
                        scores@.len() == k,
                        forall|kk: int|
                            0 <= kk < k ==> row_ok(pw, ms, ry, kk, (#[trigger] scores@[kk])@),
                        idx < matches@.len(),
                        ms[idx as int].end == k,
                        ms[idx as int].start >= 1,
                        sidx == ms[idx as int].start - 1,
                        sidx < k,
                        prow_len == scores@[sidx as int]@.len(),
                        pidx <= prow_len,
                        row_ok(pw, ms, ry, k as int, row@),
                        row_parents_ok(scores@, row@),
                    decreases prow_len - pidx,
                {
                    let m = matches[idx].clone();
                    proof {
                        assert(m.token@ == ms[idx as int].token@);
                        assert(wf_match(pw, m));
                        assert(elem_ok(pw, ms, m));
                        assert(entry_ok(pw, ms, ry, sidx as int, scores@[sidx as int]@[pidx as int]));
                        lemma_chain_len(scores@[sidx as int]@[pidx as int].cover@, sidx as int);
                    }
                    let pe = &scores[sidx][pidx];
                    let e = entry_extend(m, pe, pidx, password, ref_year, Ghost(ms), Ghost(sidx as int));
                    proof {
                        assert(e.cover@.drop_last() =~= pe.cover@);
                        assert(entry_parent_ok(scores@, e));
                    }
                    insert_entry(
                        &mut row,
                        e,
                        Ghost(pw),
                        Ghost(ms),
                        Ghost(ry),
                        Ghost(k as int),
                        Ghost(scores@),
                    );
                    pidx = pidx + 1;
                }
            }
        }
        idx = idx + 1;
    }
    // a single bruteforce fill over the whole prefix
    let bm = bruteforce_match(password, 0, k);
    proof {
        lemma_fill_estimate(pw, bm, ry);
    }
    let e = entry_single(bm, password, ref_year, Ghost(ms));
    let ghost bf_cost = spec_bruteforce_guesses((k + 1) as nat);
    proof {
        assert(e.g as int == bf_cost);
    }
    insert_entry(&mut row, e, Ghost(pw), Ghost(ms), Ghost(ry), Ghost(k as int), Ghost(scores@));
    // bruteforce fills that extend an earlier cover
    let mut i: usize = 1;
    while i <= k
        invariant
            pw == password@,
            ms == matches@,
            ry == ref_year as int,
            all_wf(pw, ms),
            no_plain(ms),
            k < pw.len(),
            k < usize::MAX,
            scores@.len() == k,
            forall|kk: int| 0 <= kk < k ==> row_ok(pw, ms, ry, kk, (#[trigger] scores@[kk])@),
            1 <= i,
            i <= k + 1,
            row_ok(pw, ms, ry, k as int, row@),
            row_parents_ok(scores@, row@),
            row_has_cheap(row@, bf_cost),
        decreases k + 1 - i,
    {
        let prow_len = scores[i - 1].len();
        let mut pidx: usize = 0;
        while pidx < prow_len
            invariant
                pw == password@,
                ms == matches@,
                ry == ref_year as int,
                all_wf(pw, ms),
                no_plain(ms),
                k < pw.len(),
                k < usize::MAX,
                scores@.len() == k,
                forall|kk: int| 0 <= kk < k ==> row_ok(pw, ms, ry, kk, (#[trigger] scores@[kk])@),
                1 <= i <= k,
                prow_len == scores@[i - 1]@.len(),
                pidx <= prow_len,
                row_ok(pw, ms, ry, k as int, row@),
                row_parents_ok(scores@, row@),
                row_has_cheap(row@, bf_cost),
            decreases prow_len - pidx,
        {
            let ghost oldr = row@;
            extend_with_fill(&mut row, scores, i, k, pidx, password, matches, ref_year);
            proof {
                if row_has_cheap(oldr, bf_cost) {
                    let q = choose|q: int|
                        0 <= q < oldr.len() && ((#[trigger] oldr[q]).g) as int <= bf_cost;
                    assert(row@[q] == oldr[q]);
                    assert(row_has_cheap(row@, bf_cost));
                }
            }
            pidx = pidx + 1;
        }
        i = i + 1;
    }
    row
}

/// Offers the row one bruteforce fill that extends the given earlier entry,
/// unless that entry itself ends in a fill.
#[verifier::rlimit(100)]
fn extend_with_fill(
    row: &mut Vec<MatchScores>,
    scores: &Vec<Vec<MatchScores>>,
    i: usize,
    k: usize,
    pidx: usize,
    password: &str,
    matches: &Vec<BaseMatch>,
    ref_year: i32,
)
    requires
        all_wf(password@, matches@),
        no_plain(matches@),
        k < password@.len(),
        k < usize::MAX,
        scores@.len() == k,
        1 <= i <= k,
        pidx < scores@[i - 1]@.len(),
        forall|kk: int|
            0 <= kk < k ==> row_ok(password@, matches@, ref_year as int, kk, (
            #[trigger] scores@[kk])@),
        row_ok(password@, matches@, ref_year as int, k as int, old(row)@),
        row_parents_ok(scores@, old(row)@),
    ensures
        row_ok(password@, matches@, ref_year as int, k as int, final(row)@),
        row_parents_ok(scores@, final(row)@),
        final(row)@.len() >= old(row)@.len(),
        forall|q: int| 0 <= q < old(row)@.len() ==> final(row)@[q] == old(row)@[q],
{
    let ghost pw = password@;
    let ghost ms = matches@;
    let ghost ry = ref_year as int;
    proof {
        assert(entry_ok(pw, ms, ry, i - 1, scores@[i - 1]@[pidx as int]));
        lemma_chain_len(scores@[i - 1]@[pidx as int].cover@, i - 1);
    }
    let not_fill = match &scores[i - 1][pidx].m.data {
        MatchData::Plain => false,
        _ => true,
    };
    if not_fill {
        let bm = bruteforce_match(password, i, k);
        let pe = &scores[i - 1][pidx];
        let e = entry_extend(bm, pe, pidx, password, ref_year, Ghost(ms), Ghost(i - 1 as int));
        proof {
            assert(e.cover@.drop_last() =~= pe.cover@);
            assert(entry_parent_ok(scores@, e));
        }
        insert_entry(row, e, Ghost(pw), Ghost(ms), Ghost(ry), Ghost(k as int), Ghost(scores@));
    }
}

/// Builds the whole table, one row per password position.
#[verifier::rlimit(100)]
fn build_rows(password: &str, matches: &Vec<BaseMatch>, ref_year: i32) -> (scores: Vec<
    Vec<MatchScores>,
>)
    requires
        1 <= password@.len(),
        all_wf(password@, matches@),
        no_plain(matches@),
    ensures
        scores@.len() == password@.len(),
        table_ok(password@, matches@, ref_year as int, scores@),
        forall|kk: int|
            0 <= kk < scores@.len() ==> row_has_cheap(
                (#[trigger] scores@[kk])@,
                spec_bruteforce_guesses((kk + 1) as nat),
            ),
{
    let ghost pw = password@;
    let ghost ms = matches@;
    let ghost ry = ref_year as int;
    let n = password.unicode_len();
    let mut scores: Vec<Vec<MatchScores>> = Vec::new();
    let mut k: usize = 0;
    while k < n
        invariant
            pw == password@,
            ms == matches@,
            ry == ref_year as int,
            n == pw.len(),
            all_wf(pw, ms),
            no_plain(ms),
            k <= n,
            scores@.len() == k,
            forall|kk: int| 0 <= kk < k ==> row_ok(pw, ms, ry, kk, (#[trigger] scores@[kk])@),
            forall|kk: int| 0 <= kk < k ==> row_parents_ok(scores@, (#[trigger] scores@[kk])@),
            forall|kk: int|
                0 <= kk < k ==> row_has_cheap(
                    (#[trigger] scores@[kk])@,
                    spec_bruteforce_guesses((kk + 1) as nat),
                ),
        decreases n - k,
    {
        let row = build_row(&scores, k, password, matches, ref_year);
        let ghost old_scores = scores@;
        let ghost rowg = row@;
        scores.push(row);
        proof {
            assert(forall|kk: int| 0 <= kk < k ==> scores@[kk] == old_scores[kk]);
            assert(scores@[k as int]@ == rowg);
            assert forall|kk: int| 0 <= kk < k + 1 implies row_has_cheap(
                (#[trigger] scores@[kk])@,
                spec_bruteforce_guesses((kk + 1) as nat),
            ) by {
                if kk == k {
                    assert((scores@[kk])@ == rowg);
                } else {
                    assert((scores@[kk])@ == (old_scores[kk])@);
                }
            }
            assert forall|kk: int| 0 <= kk < k + 1 implies row_parents_ok(
                scores@,
                (#[trigger] scores@[kk])@,
            ) by {
                assert forall|q: int|
                    0 <= q < scores@[kk]@.len() implies entry_parent_ok(
                    scores@,
                    #[trigger] scores@[kk]@[q],
                ) by {
                    let e = scores@[kk]@[q];
                    if e.length >= 2 {
                        assert(entry_parent_ok(old_scores, e));
                        assert(scores@[e.m.start - 1] == old_scores[e.m.start - 1]);
                    }
                }
            }
        }
        k = k + 1;
    }
    scores
}

/// The index of a cheapest entry of the row.
fn select_best(row: &Vec<MatchScores>) -> (best: usize)
    requires
        row@.len() >= 1,
    ensures
        best < row@.len(),
        forall|q: int| 0 <= q < row@.len() ==> (row@[best as int]).g <= (#[trigger] row@[q]).g,
{
    let mut best: usize = 0;
    let mut bi: usize = 1;
    while bi < row.len()
        invariant
            best < row@.len(),
            bi <= row@.len(),
            forall|q: int| 0 <= q < bi ==> (row@[best as int]).g <= (#[trigger] row@[q]).g,
        decreases row@.len() - bi,
    {
        if row[bi].g < row[best].g {
            best = bi;
        }
        bi = bi + 1;
    }
    best
}

/// Walks the parent links back from the chosen entry and returns its cover,
/// front to back.
#[verifier::rlimit(100)]
fn unwind_cover(
    scores: &Vec<Vec<MatchScores>>,
    best: usize,
    password: &str,
    matches: &Vec<BaseMatch>,
    ref_year: i32,
) -> (sequence: Vec<BaseMatch>)
    requires
        1 <= password@.len(),
        scores@.len() == password@.len(),
        table_ok(password@, matches@, ref_year as int, scores@),
        best < scores@[password@.len() - 1]@.len(),
    ensures
        ({
            let bestc = scores@[password@.len() - 1]@[best as int].cover@;
            &&& sequence@.len() == bestc.len()
            &&& forall|q: int|
                0 <= q < sequence@.len() ==> match_eq(#[trigger] sequence@[q], bestc[q])
        }),
{
    let ghost pw = password@;
    let ghost ms = matches@;
    let ghost ry = ref_year as int;
    let n = password.unicode_len();
    let ghost bestc = scores@[pw.len() - 1]@[best as int].cover@;
    proof {
        assert(row_ok(pw, ms, ry, pw.len() - 1, scores@[pw.len() - 1]@));
        assert(entry_ok(pw, ms, ry, pw.len() - 1, scores@[pw.len() - 1]@[best as int]));
    }
    let mut rev_out: Vec<BaseMatch> = Vec::new();
    let mut ck: usize = n - 1;
    let mut ci: usize = best;
    proof {
        assert(bestc.subrange(0, bestc.len() as int) =~= bestc);
    }
    loop
        invariant_except_break
            pw == password@,
            ms == matches@,
            ry == ref_year as int,
            n == pw.len(),
            1 <= n,
            scores@.len() == n,
            table_ok(pw, ms, ry, scores@),
            bestc == scores@[n - 1]@[best as int].cover@,
            ck < scores@.len(),
            ci < scores@[ck as int]@.len(),
            rev_out@.len() < bestc.len(),
            scores@[ck as int]@[ci as int].cover@ == bestc.subrange(
                0,
                bestc.len() - rev_out@.len(),
            ),
            entry_ok(pw, ms, ry, ck as int, scores@[ck as int]@[ci as int]),
            forall|q: int|
                0 <= q < rev_out@.len() ==> match_eq(
                    #[trigger] rev_out@[q],
                    bestc[bestc.len() - 1 - q],
                ),
        ensures
            rev_out@.len() == bestc.len(),
            forall|q: int|
                0 <= q < rev_out@.len() ==> match_eq(
                    #[trigger] rev_out@[q],
                    bestc[bestc.len() - 1 - q],
                ),
        decreases scores@[ck as int]@[ci as int].length,
    {
        let e_len = scores[ck][ci].length;
        let cloned = scores[ck][ci].m.clone();
        proof {
            let e = scores@[ck as int]@[ci as int];
            assert(e.cover@.last() == e.m);
            assert(bestc.subrange(0, bestc.len() - rev_out@.len()).last() == bestc[bestc.len() - 1
                - rev_out@.len()]);
        }
        rev_out.push(cloned);
        if e_len == 1 {
            proof {
                assert(rev_out@.len() == bestc.len()) by {
                    let e = scores@[ck as int]@[ci as int];
                    assert(e.cover@.len() == 1);
                }
            }
            break ;
        }
        proof {
            assert(entry_parent_ok(scores@, scores@[ck as int]@[ci as int]));
        }
        let nk = scores[ck][ci].m.start - 1;
        let nci = scores[ck][ci].parent;
        proof {
            let e = scores@[ck as int]@[ci as int];
            let p = scores@[nk as int]@[nci as int];
            assert(p.cover@ == e.cover@.drop_last());
            assert(e.cover@.drop_last() =~= bestc.subrange(0, bestc.len() - (rev_out@.len())));
            assert(row_ok(pw, ms, ry, nk as int, scores@[nk as int]@));
            assert(entry_ok(pw, ms, ry, nk as int, p));
        }
        ck = nk;
        ci = nci;
    }
    // the cover was collected back to front
    let mut sequence: Vec<BaseMatch> = Vec::new();
    while rev_out.len() > 0
        invariant
            sequence@.len() + rev_out@.len() == bestc.len(),
            forall|q: int|
                0 <= q < rev_out@.len() ==> match_eq(
                    #[trigger] rev_out@[q],
                    bestc[bestc.len() - 1 - q],
                ),
            forall|q: int| 0 <= q < sequence@.len() ==> match_eq(#[trigger] sequence@[q], bestc[q]),
        decreases rev_out@.len(),
    {
        let x = rev_out.pop().unwrap();
        sequence.push(x);
    }
    sequence
}

/// Finds the cover of the whole password with the least cost, composing the
/// candidate matches with bruteforce fills; year-based estimates are
/// anchored at the given reference year.
#[allow(unused_variables)]
pub fn most_guessable_match_sequence_at(
    password: String,
    matches: Vec<BaseMatch>,
    exclude_additive: bool,
    ref_year: i32,
) -> (r: PasswordResult)
    requires
        all_wf(password@, matches@),
        no_plain(matches@),
    ensures
        r.password@ == password@,
        1 <= r.guesses,
        r.score is None,
        r.feedback is None,
        r.calculation_time == 0,
        password@.len() == 0 ==> r.sequence@.len() == 0 && r.guesses == 1,
        password@.len() >= 1 ==> {
            &&& is_chain(r.sequence@, password@.len() - 1)
            &&& forall|q: int|
                0 <= q < r.sequence@.len() ==> elem_ok(
                    password@,
                    matches@,
                    #[trigger] r.sequence@[q],
                )
            &&& all_wf(password@, r.sequence@)
            &&& no_adjacent_fill(r.sequence@)
            &&& r.guesses as int == chain_cost(r.sequence@, password@, ref_year as int)
            &&& r.guesses as int <= spec_bruteforce_guesses(password@.len())
        },
{
    let ghost pw = password@;
    let ghost ms = matches@;
    let ghost ry = ref_year as int;
    let n = password.as_str().unicode_len();
    if n == 0 {
        return PasswordResult {
            password,
            guesses: 1,
            score: Option::None,
            feedback: Option::None,
            sequence: Vec::new(),
            calculation_time: 0,
        };
    }
    let scores = build_rows(password.as_str(), &matches, ref_year);
    proof {
        assert(row_has_cheap((scores@[n - 1])@, spec_bruteforce_guesses(pw.len())));
    }
    let (guesses, sequence) = choose_and_unwind(&scores, password.as_str(), &matches, ref_year);
    PasswordResult {
        password,
        guesses,
        score: Option::None,
        feedback: Option::None,
        sequence,
        calculation_time: 0,
    }
}
/// Picks the cheapest recorded cover of the whole password and walks it
/// back out.
#[verifier::rlimit(100)]
fn choose_and_unwind(
    scores: &Vec<Vec<MatchScores>>,
    password: &str,
    matches: &Vec<BaseMatch>,
    ref_year: i32,
) -> (out: (u64, Vec<BaseMatch>))
    requires
        1 <= password@.len(),
        scores@.len() == password@.len(),
        table_ok(password@, matches@, ref_year as int, scores@),
        row_has_cheap((scores@[password@.len() - 1])@, spec_bruteforce_guesses(password@.len())),
    ensures
        1 <= out.0,
        is_chain(out.1@, password@.len() - 1),
        forall|q: int| 0 <= q < out.1@.len() ==> elem_ok(password@, matches@, #[trigger] out.1@[q]),
        all_wf(password@, matches@) ==> all_wf(password@, out.1@),
        no_adjacent_fill(out.1@),
        out.0 as int == chain_cost(out.1@, password@, ref_year as int),
        out.0 as int <= spec_bruteforce_guesses(password@.len()),
{
    let ghost pw = password@;
    let ghost ms = matches@;
    let ghost ry = ref_year as int;
    let n = password.unicode_len();
    let best = select_best(&scores[n - 1]);
    let guesses = scores[n - 1][best].g;
    let ghost bestc = scores@[n - 1]@[best as int].cover@;
    proof {
        assert(row_ok(pw, ms, ry, n - 1, scores@[n - 1]@));
        assert(entry_ok(pw, ms, ry, n - 1, scores@[n - 1]@[best as int]));
        lemma_chain_cost_bounds(bestc, pw, ry);
        let last_row = scores@[n - 1]@;
        assert(row_has_cheap(last_row, spec_bruteforce_guesses(pw.len())));
        let q0 = choose|q: int|
            0 <= q < last_row.len() && ((#[trigger] last_row[q]).g) as int
                <= spec_bruteforce_guesses(pw.len());
        assert(guesses <= last_row[q0].g);
    }
    let sequence = unwind_cover(scores, best, password, matches, ref_year);
    proof {
        // the rebuilt sequence has the chain's shape and cost
        assert(sequence@.len() == bestc.len());
        lemma_cost_match_eq(sequence@, bestc, pw, ry);
        assert(is_chain(sequence@, pw.len() - 1)) by {
            assert(sequence@[0].start == bestc[0].start);
            assert(sequence@.last().end == bestc.last().end);
        }
        assert forall|q: int| 0 <= q < sequence@.len() implies elem_ok(
            pw,
            ms,
            #[trigger] sequence@[q],
        ) by {
            assert(elem_ok(pw, ms, bestc[q]));
            if exists|j: int| 0 <= j < ms.len() && match_eq(bestc[q], #[trigger] ms[j]) {
                let j = choose|j: int| 0 <= j < ms.len() && match_eq(bestc[q], #[trigger] ms[j]);
                crate::matches::lemma_match_eq_trans(sequence@[q], bestc[q], ms[j]);
            }
        }
        if all_wf(pw, ms) {
            assert forall|q: int| 0 <= q < sequence@.len() implies wf_match(
                pw,
                #[trigger] sequence@[q],
            ) by {
                if exists|j: int| 0 <= j < ms.len() && match_eq(sequence@[q], #[trigger] ms[j]) {
                    let j = choose|j: int|
                        0 <= j < ms.len() && match_eq(sequence@[q], #[trigger] ms[j]);
                    assert(wf_match(pw, ms[j]));
                }
            }
        }
        assert(no_adjacent_fill(sequence@));
    }
    (guesses, sequence)
}

/// Finds the cover of the whole password with the least cost; the current
/// local year anchors the year-based estimators, so the cost clause holds
/// for some reference year.
pub fn most_guessable_match_sequence(
    password: String,
    matches: Vec<BaseMatch>,
    exclude_additive: bool,
) -> (r: PasswordResult)
    requires
        all_wf(password@, matches@),
        no_plain(matches@),
    ensures
        r.password@ == password@,
        1 <= r.guesses,
        r.score is None,
        r.feedback is None,
        r.calculation_time == 0,
        password@.len() == 0 ==> r.sequence@.len() == 0 && r.guesses == 1,
        password@.len() >= 1 ==> {
            &&& is_chain(r.sequence@, password@.len() - 1)
            &&& forall|q: int|
                0 <= q < r.sequence@.len() ==> elem_ok(password@, matches@, #[trigger] r.sequence@[q])
            &&& no_adjacent_fill(r.sequence@)
            &&& exists|y: int| r.guesses as int == chain_cost(r.sequence@, password@, y)
            &&& r.guesses as int <= spec_bruteforce_guesses(password@.len())
        },
{
    let ref_year = crate::dates::current_year();
    let r = most_guessable_match_sequence_at(password, matches, exclude_additive, ref_year);
    proof {
        if r.password@.len() >= 1 {
            assert(r.guesses as int == chain_cost(r.sequence@, r.password@, ref_year as int));
        }
    }
    r
}

} // verus!
