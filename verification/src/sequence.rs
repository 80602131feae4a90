//! The character-sequence matcher.
//!
//! A run is a maximal span over which consecutive characters keep the same
//! code difference; a run becomes a match when the difference is small and
//! the run is long enough.

use vstd::prelude::*;
use crate::matches::{BaseMatch, MatchData, wf_match, sorted_by_position, distinct_spans};
use crate::text::{spec_is_lower, spec_is_upper, spec_is_digit, is_lower_char, is_upper_char,
    is_digit_char};
use crate::scoring::abs_int;

verus! {

/// The code difference between a character and the one before it.
pub open spec fn pwdelta(pw: Seq<char>, t: int) -> int {
    pw[t] as int - pw[t - 1] as int
}

/// A maximal span of constant code difference.
pub open spec fn is_run(pw: Seq<char>, i: int, j: int) -> bool {
    &&& 0 <= i < j < pw.len()
    &&& forall|t: int| i + 1 <= t <= j ==> #[trigger] pwdelta(pw, t) == pwdelta(pw, i + 1)
    &&& (i == 0 || pwdelta(pw, i) != pwdelta(pw, i + 1))
    &&& (j == pw.len() - 1 || pwdelta(pw, j + 1) != pwdelta(pw, i + 1))
}

/// A run worth reporting: a small step, and a span of more than two
/// characters unless the step is one.
pub open spec fn run_emitted(pw: Seq<char>, i: int, j: int) -> bool {
    let d = pwdelta(pw, i + 1);
    &&& is_run(pw, i, j)
    &&& 1 <= abs_int(d) <= 5
    &&& (j - i > 1 || abs_int(d) == 1)
}

pub open spec fn all_lower_range(pw: Seq<char>, i: int, j: int) -> bool {
    forall|t: int| i <= t <= j ==> spec_is_lower(pw[t])
}

pub open spec fn all_upper_range(pw: Seq<char>, i: int, j: int) -> bool {
    forall|t: int| i <= t <= j ==> spec_is_upper(pw[t])
}

pub open spec fn all_digit_range(pw: Seq<char>, i: int, j: int) -> bool {
    forall|t: int| i <= t <= j ==> spec_is_digit(pw[t])
}

/// The name and alphabet size a run is classified under.
pub open spec fn seq_class_ok(pw: Seq<char>, i: int, j: int, name: Seq<char>, space: u32) -> bool {
    if all_lower_range(pw, i, j) {
        name == "lower"@ && space == 26
    } else if all_upper_range(pw, i, j) {
        name == "upper"@ && space == 26
    } else if all_digit_range(pw, i, j) {
        name == "digits"@ && space == 10
    } else {
        name == "unicode"@ && space == 26
    }
}

/// An exact description of one sequence match.
pub open spec fn seq_match_ok(pw: Seq<char>, m: BaseMatch) -> bool {
    &&& wf_match(pw, m)
    &&& m.pattern@ == "Sequence"@
    &&& run_emitted(pw, m.start as int, m.end as int)
    &&& match m.data {
        MatchData::Sequence { name, space, ascending } => {
            &&& ascending == (pwdelta(pw, m.start + 1) > 0)
            &&& seq_class_ok(pw, m.start as int, m.end as int, name@, space)
        },
        _ => false,
    }
}

/// Every reportable run of the password, each exactly once, in span order.
pub open spec fn is_sequence_output(pw: Seq<char>, r: Seq<BaseMatch>) -> bool {
    &&& sorted_by_position(r)
    &&& distinct_spans(r)
    &&& forall|q: int| 0 <= q < r.len() ==> seq_match_ok(pw, #[trigger] r[q])
    &&& forall|i: int, j: int|
        run_emitted(pw, i, j) ==> exists|q: int|
            0 <= q < r.len() && (#[trigger] r[q]).start == i && r[q].end == j
}

/// Names the alphabet of the covered span.
fn classify_range(password: &str, i: usize, j: usize) -> (r: (String, u32))
    requires
        i <= j < password@.len(),
        j < usize::MAX,
    ensures
        seq_class_ok(password@, i as int, j as int, r.0@, r.1),
{
    let mut lower = true;
    let mut upper = true;
    let mut digit = true;
    let mut t: usize = i;
    while t <= j
        invariant
            i <= t <= j + 1,
            j < password@.len(),
            j < usize::MAX,
            lower == all_lower_range(password@, i as int, t - 1),
            upper == all_upper_range(password@, i as int, t - 1),
            digit == all_digit_range(password@, i as int, t - 1),
        decreases j + 1 - t,
    {
        let c = password.get_char(t);
        if !is_lower_char(c) {
            lower = false;
        }
        if !is_upper_char(c) {
            upper = false;
        }
        if !is_digit_char(c) {
            digit = false;
        }
        t = t + 1;
    }
    if lower {
        ("lower".to_owned(), 26)
    } else if upper {
        ("upper".to_owned(), 26)
    } else if digit {
        ("digits".to_owned(), 10)
    } else {
        ("unicode".to_owned(), 26)
    }
}

/// Appends the run `[i, j]` when it is worth reporting.
fn push_run(r: &mut Vec<BaseMatch>, password: &str, i: usize, j: usize, d: i64)
    requires
        is_run(password@, i as int, j as int),
        j < usize::MAX,
        d == pwdelta(password@, i + 1),
        forall|q: int| 0 <= q < old(r)@.len() ==> seq_match_ok(password@, #[trigger] old(r)@[q]),
        forall|q: int| 0 <= q < old(r)@.len() ==> (#[trigger] old(r)@[q]).start < i,
        sorted_by_position(old(r)@),
        distinct_spans(old(r)@),
    ensures
        forall|q: int| 0 <= q < final(r)@.len() ==> seq_match_ok(password@, #[trigger] final(r)@[q]),
        forall|q: int| 0 <= q < final(r)@.len() ==> (#[trigger] final(r)@[q]).start <= i,
        sorted_by_position(final(r)@),
        distinct_spans(final(r)@),
        run_emitted(password@, i as int, j as int) ==> final(r)@ == old(r)@.push(
            final(r)@.last(),
        ) && final(r)@.last().start == i && final(r)@.last().end == j,
        !run_emitted(password@, i as int, j as int) ==> final(r)@ == old(r)@,
        final(r)@.len() >= old(r)@.len(),
        forall|q: int| 0 <= q < old(r)@.len() ==> final(r)@[q] == old(r)@[q],
{
    let emit = (1 <= d && d <= 5) || (-5 <= d && d <= -1);
    let emit = emit && (j - i > 1 || d == 1 || d == -1);
    if !emit {
        return ;
    }
    let (name, space) = classify_range(password, i, j);
    let token = password.substring_char(i, j + 1).to_owned();
    let m = BaseMatch {
        pattern: "Sequence".to_owned(),
        start: i,
        end: j,
        token,
        data: MatchData::Sequence { name, space, ascending: d > 0 },
    };
    proof {
        assert(seq_match_ok(password@, m));
    }
    let ghost before = r@;
    r.push(m);
    proof {
        assert(forall|q: int| 0 <= q < before.len() ==> r@[q] == before[q]);
        assert(r@.last() == m);
    }
}

/// Finds every maximal constant-step run of more than two characters (or
/// any length for steps of one), in span order.
pub fn sequence_match(password: &str) -> (r: Vec<BaseMatch>)
    ensures
        is_sequence_output(password@, r@),
{
    let ghost pw = password@;
    let n = password.unicode_len();
    let mut r: Vec<BaseMatch> = Vec::new();
    if n < 2 {
        return r;
    }
    let mut i: usize = 0;
    let mut last_delta: i64 = (password.get_char(1) as i64) - (password.get_char(0) as i64);
    let mut k: usize = 2;
    while k < n
        invariant
            pw == password@,
            n == pw.len(),
            2 <= n,
            2 <= k <= n,
            i <= k - 2,
            last_delta == pwdelta(pw, i + 1),
            forall|t: int| i + 1 <= t <= k - 1 ==> #[trigger] pwdelta(pw, t) == pwdelta(pw, i + 1),
            i == 0 || pwdelta(pw, i as int) != pwdelta(pw, i + 1),
            forall|q: int| 0 <= q < r@.len() ==> seq_match_ok(pw, #[trigger] r@[q]),
            forall|q: int| 0 <= q < r@.len() ==> (#[trigger] r@[q]).start < i,
            sorted_by_position(r@),
            distinct_spans(r@),
            forall|a: int, b: int|
                run_emitted(pw, a, b) && b <= i ==> exists|q: int|
                    0 <= q < r@.len() && (#[trigger] r@[q]).start == a && r@[q].end == b,
        decreases n - k,
    {
        let d = (password.get_char(k) as i64) - (password.get_char(k - 1) as i64);
        if d != last_delta {
            proof {
                assert(is_run(pw, i as int, (k - 1) as int));
            }
            let ghost oldr = r@;
            push_run(&mut r, password, i, k - 1, last_delta);
            proof {
                // the only reportable run ending in (i, k-1] ends exactly at k-1
                assert forall|a: int, b: int|
                    run_emitted(pw, a, b) && b <= k - 1 implies exists|q: int|
                    0 <= q < r@.len() && (#[trigger] r@[q]).start == a && r@[q].end == b by {
                    if b <= i {
                        let q = choose|q: int|
                            0 <= q < oldr.len() && (#[trigger] oldr[q]).start == a && oldr[q].end
                                == b;
                        assert(r@[q].start == a && r@[q].end == b);
                    } else if b < k - 1 {
                        assert(pwdelta(pw, b + 1) == pwdelta(pw, i + 1));
                        assert(pwdelta(pw, b) == pwdelta(pw, i + 1));
                        assert(false);
                    } else {
                        // b == k - 1: the run must start at i
                        if a > i {
                            assert(pwdelta(pw, a as int) == pwdelta(pw, i + 1));
                            assert(pwdelta(pw, a + 1) == pwdelta(pw, i + 1));
                            assert(false);
                        } else if a < i {
                            assert(pwdelta(pw, i as int) == pwdelta(pw, a + 1));
                            assert(pwdelta(pw, i + 1) == pwdelta(pw, a + 1));
                            assert(false);
                        }
                        assert(run_emitted(pw, i as int, (k - 1) as int));
                    }
                }
            }
            i = k - 1;
            last_delta = d;
        }
        k = k + 1;
    }
    proof {
        assert(is_run(pw, i as int, (n - 1) as int));
    }
    let ghost oldr = r@;
    push_run(&mut r, password, i, n - 1, last_delta);
    proof {
        assert forall|a: int, b: int| run_emitted(pw, a, b) implies exists|q: int|
            0 <= q < r@.len() && (#[trigger] r@[q]).start == a && r@[q].end == b by {
            if b <= i {
                let q = choose|q: int|
                    0 <= q < oldr.len() && (#[trigger] oldr[q]).start == a && oldr[q].end == b;
                assert(r@[q].start == a && r@[q].end == b);
            } else if b < n - 1 {
                assert(pwdelta(pw, b + 1) == pwdelta(pw, i + 1));
                assert(pwdelta(pw, b) == pwdelta(pw, i + 1));
                assert(false);
            } else {
                if a > i {
                    assert(pwdelta(pw, a as int) == pwdelta(pw, i + 1));
                    assert(pwdelta(pw, a + 1) == pwdelta(pw, i + 1));
                    assert(false);
                } else if a < i {
                    assert(pwdelta(pw, i as int) == pwdelta(pw, a + 1));
                    assert(pwdelta(pw, i + 1) == pwdelta(pw, a + 1));
                    assert(false);
                }
                assert(run_emitted(pw, i as int, (n - 1) as int));
            }
        }
    }
    r
}

} // verus!
