//! The named-pattern matcher.
//!
//! The default table holds one named pattern, "recent year": a four-digit
//! year of the form 19xx, 200x or 201x. The matcher reports the first place
//! the pattern occurs.

use vstd::prelude::*;
use crate::matches::{BaseMatch, MatchData, wf_match};
use crate::text::{spec_is_digit, is_digit_char};

verus! {

/// A recent year starts at position `p`.
pub open spec fn year_at(pw: Seq<char>, p: int) -> bool {
    &&& 0 <= p
    &&& p + 3 < pw.len()
    &&& ((pw[p] == '1' && pw[p + 1] == '9' && spec_is_digit(pw[p + 2]) && spec_is_digit(
        pw[p + 3],
    )) || (pw[p] == '2' && pw[p + 1] == '0' && (pw[p + 2] == '0' || pw[p + 2] == '1')
        && spec_is_digit(pw[p + 3])))
}

/// The first recent year of the password, if the password holds one.
pub open spec fn is_regex_output(pw: Seq<char>, r: Seq<BaseMatch>) -> bool {
    if exists|p: int| year_at(pw, p) {
        &&& r.len() == 1
        &&& wf_match(pw, r[0])
        &&& r[0].pattern@ == "Regex"@
        &&& year_at(pw, r[0].start as int)
        &&& forall|p: int| 0 <= p < r[0].start ==> !year_at(pw, p)
        &&& r[0].end == r[0].start + 3
        &&& match r[0].data {
            MatchData::Regex { name } => name@ == "recent year"@,
            _ => false,
        }
    } else {
        r.len() == 0
    }
}

fn year_at_exec(password: &str, p: usize) -> (r: bool)
    requires
        p + 3 < password@.len(),
        p + 3 < usize::MAX,
    ensures
        r == year_at(password@, p as int),
{
    let c0 = password.get_char(p);
    let c1 = password.get_char(p + 1);
    let c2 = password.get_char(p + 2);
    let c3 = password.get_char(p + 3);
    (c0 == '1' && c1 == '9' && is_digit_char(c2) && is_digit_char(c3)) || (c0 == '2' && c1 == '0'
        && (c2 == '0' || c2 == '1') && is_digit_char(c3))
}

/// Reports the first recent year inside the password, if any.
pub fn regex_match(password: &str) -> (r: Vec<BaseMatch>)
    ensures
        is_regex_output(password@, r@),
{
    let ghost pw = password@;
    let n = password.unicode_len();
    let mut r: Vec<BaseMatch> = Vec::new();
    if n < 4 {
        proof {
            assert(forall|p: int| !year_at(pw, p));
        }
        return r;
    }
    let mut p: usize = 0;
    while p <= n - 4
        invariant
            pw == password@,
            n == pw.len(),
            4 <= n,
            p <= n - 3,
            r@.len() == 0,
            forall|q: int| 0 <= q < p ==> !year_at(pw, q),
        decreases n - p,
    {
        if year_at_exec(password, p) {
            proof {
                assert(year_at(pw, p as int));
            }
            let token = password.substring_char(p, p + 4).to_owned();
            let m = BaseMatch {
                pattern: "Regex".to_owned(),
                start: p,
                end: p + 3,
                token,
                data: MatchData::Regex { name: "recent year".to_owned() },
            };
            proof {
                assert(r@.len() == 0);
            }
            r.push(m);
            proof {
                assert(r@[0] == m);
                assert(r@.len() == 1);
                assert(wf_match(pw, m));
                assert(year_at(pw, m.start as int));
                assert(exists|q: int| year_at(pw, q));
                assert(is_regex_output(pw, r@));
            }
            return r;
        }
        p = p + 1;
    }
    proof {
        assert(forall|q: int| year_at(pw, q) ==> 0 <= q <= pw.len() - 4);
        assert(!(exists|q: int| year_at(pw, q)));
        assert(is_regex_output(pw, r@));
    }
    r
}

} // verus!
