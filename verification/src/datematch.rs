//! The date matcher.
//!
//! A window of the password becomes a date candidate either as a bare run
//! of four to eight digits, split at fixed points into three numbers, or as
//! three digit groups joined by one repeated separator. Every candidate
//! triple is read by `spec_map_dmy`; of several readable splits the one
//! whose year lies closest to the reference year wins.

use vstd::prelude::*;
use crate::matches::{BaseMatch, MatchData, wf_match, sorted_by_position, distinct_spans};
use crate::dates::{Date, spec_map_dmy, map_ints_to_dmy, current_year};
use crate::text::{spec_is_digit, is_digit_char, digits_val, parse_digits};
use crate::scoring::abs_int;
use crate::sequence::all_digit_range;

verus! {

/// The fixed split points for a bare digit run of the given length.
pub open spec fn date_splits(len: int) -> Seq<(int, int)> {
    if len == 4 {
        seq![(1int, 2int), (2int, 3int)]
    } else if len == 5 {
        seq![(1int, 3int), (2int, 3int)]
    } else if len == 6 {
        seq![(1int, 2int), (2int, 4int), (4int, 5int)]
    } else if len == 7 {
        seq![(1int, 3int), (2int, 3int), (4int, 5int), (4int, 6int)]
    } else if len == 8 {
        seq![(2int, 4int), (4int, 6int)]
    } else {
        seq![]
    }
}

/// The date read from one split of the digit window `i..=j`.
pub open spec fn split_date(pw: Seq<char>, i: int, j: int, k: int, l: int) -> Option<Date> {
    spec_map_dmy(
        digits_val(pw.subrange(i, i + k)),
        digits_val(pw.subrange(i + k, i + l)),
        digits_val(pw.subrange(i + l, j + 1)),
    )
}

/// The readable dates of the digit window, in split order.
pub open spec fn dates_from_splits(pw: Seq<char>, i: int, j: int, splits: Seq<(int, int)>) -> Seq<
    Date,
>
    decreases splits.len(),
{
    if splits.len() == 0 {
        Seq::empty()
    } else {
        let rest = dates_from_splits(pw, i, j, splits.drop_last());
        match split_date(pw, i, j, splits.last().0, splits.last().1) {
            Option::Some(d) => rest.push(d),
            Option::None => rest,
        }
    }
}

/// The first date of the list whose year is closest to the reference year.
pub open spec fn best_date(c: Seq<Date>, ry: int) -> Date
    decreases c.len(),
{
    if c.len() <= 1 {
        c[0]
    } else {
        let b = best_date(c.drop_last(), ry);
        if abs_int(c.last().year - ry) < abs_int(b.year - ry) {
            c.last()
        } else {
            b
        }
    }
}

/// A separator character: whitespace, slash, backslash, underscore, dot or
/// dash.
pub open spec fn spec_is_sep(c: char) -> bool {
    c == ' ' || c == '\t' || c == '\n' || c == '\r' || c == '/' || c == '\\' || c == '_' || c == '.'
        || c == '-'
}

fn is_sep_char(c: char) -> (r: bool)
    ensures
        r == spec_is_sep(c),
{
    c == ' ' || c == '\t' || c == '\n' || c == '\r' || c == '/' || c == '\\' || c == '_' || c == '.'
        || c == '-'
}

/// The window `i..=j` is three digit groups of widths up to 4, 2 and 4,
/// joined by the same separator at positions `p1` and `p2`.
pub open spec fn sep_window(pw: Seq<char>, i: int, j: int, p1: int, p2: int) -> bool {
    &&& 0 <= i < p1 < p2 < j < pw.len()
    &&& spec_is_sep(pw[p1])
    &&& pw[p2] == pw[p1]
    &&& 1 <= p1 - i <= 4
    &&& 1 <= p2 - p1 - 1 <= 2
    &&& 1 <= j - p2 <= 4
    &&& forall|t: int| i <= t <= j && t != p1 && t != p2 ==> spec_is_digit(#[trigger] pw[t])
}

/// The date a window stands for, if any: a bare digit run read at its best
/// split, or a separated triple.
pub open spec fn spec_date_at(pw: Seq<char>, ry: int, i: int, j: int) -> Option<(char, Date)> {
    let len = j - i + 1;
    if 0 <= i && j < pw.len() && 4 <= len <= 8 && all_digit_range(pw, i, j) {
        let cands = dates_from_splits(pw, i, j, date_splits(len));
        if cands.len() > 0 {
            Option::Some(('\u{0}', best_date(cands, ry)))
        } else {
            Option::None
        }
    } else if 0 <= i && j < pw.len() && 6 <= len <= 10 && (exists|p1: int, p2: int|
        sep_window(pw, i, j, p1, p2)) {
        let (p1, p2) = choose|p1: int, p2: int| sep_window(pw, i, j, p1, p2);
        match spec_map_dmy(
            digits_val(pw.subrange(i, p1)),
            digits_val(pw.subrange(p1 + 1, p2)),
            digits_val(pw.subrange(p2 + 1, j + 1)),
        ) {
            Option::Some(d) => Option::Some((pw[p1], d)),
            Option::None => Option::None,
        }
    } else {
        Option::None
    }
}

/// An exact description of one date match.
pub open spec fn date_match_ok(pw: Seq<char>, ry: int, m: BaseMatch) -> bool {
    &&& wf_match(pw, m)
    &&& m.pattern@ == "Date"@
    &&& match m.data {
        MatchData::Date { separator, date } => spec_date_at(pw, ry, m.start as int, m.end as int)
            == Option::Some((separator, date)),
        _ => false,
    }
}

/// Every window that reads as a date, each exactly once, in span order.
pub open spec fn is_date_output(pw: Seq<char>, ry: int, r: Seq<BaseMatch>) -> bool {
    &&& sorted_by_position(r)
    &&& distinct_spans(r)
    &&& forall|q: int| 0 <= q < r.len() ==> date_match_ok(pw, ry, #[trigger] r[q])
    &&& forall|i: int, j: int|
        spec_date_at(pw, ry, i, j) is Some ==> exists|q: int|
            0 <= q < r.len() && (#[trigger] r[q]).start == i && r[q].end == j
}

/// Two separator placements in one window must be the same.
proof fn lemma_sep_window_unique(pw: Seq<char>, i: int, j: int, p1: int, p2: int, q1: int, q2: int)
    requires
        sep_window(pw, i, j, p1, p2),
        sep_window(pw, i, j, q1, q2),
    ensures
        p1 == q1,
        p2 == q2,
{
    assert(!spec_is_digit(pw[p1]));
    assert(!spec_is_digit(pw[p2]));
    assert(!spec_is_digit(pw[q1]));
    assert(!spec_is_digit(pw[q2]));
}

/// Finds the separator placement of the window, if it has one.
fn find_sep_structure(password: &str, i: usize, j: usize) -> (r: Option<(usize, usize)>)
    requires
        i < j < password@.len(),
        j < usize::MAX,
    ensures
        match r {
            Option::Some(p) => sep_window(password@, i as int, j as int, p.0 as int, p.1 as int),
            Option::None => forall|p1: int, p2: int|
                !sep_window(password@, i as int, j as int, p1, p2),
        },
{
    let ghost pw = password@;
    let mut first: usize = 0;
    let mut second: usize = 0;
    let mut count: usize = 0;
    let mut t: usize = i;
    while t <= j
        invariant
            pw == password@,
            i <= t <= j + 1,
            j < pw.len(),
            j < usize::MAX,
            count <= 2,
            forall|u: int|
                i <= u < t && u != first && u != second ==> spec_is_digit(#[trigger] pw[u]),
            count == 0 ==> forall|u: int| i <= u < t ==> spec_is_digit(#[trigger] pw[u]),
            count >= 1 ==> i <= first < t && !spec_is_digit(pw[first as int]),
            count >= 2 ==> first < second < t && !spec_is_digit(pw[second as int]),
            count == 1 ==> forall|u: int| i <= u < t && u != first ==> spec_is_digit(
                #[trigger] pw[u],
            ),
        decreases j + 1 - t,
    {
        let c = password.get_char(t);
        if !is_digit_char(c) {
            if count == 0 {
                first = t;
                count = 1;
            } else if count == 1 {
                second = t;
                count = 2;
            } else {
                // a third non-digit: no valid placement exists
                proof {
                    assert forall|p1: int, p2: int| !sep_window(pw, i as int, j as int, p1, p2) by {
                        if sep_window(pw, i as int, j as int, p1, p2) {
                            assert(!spec_is_digit(pw[first as int]));
                            assert(!spec_is_digit(pw[second as int]));
                            assert(!spec_is_digit(pw[t as int]));
                        }
                    }
                }
                return None;
            }
        }
        t = t + 1;
    }
    if count != 2 {
        proof {
            assert forall|p1: int, p2: int| !sep_window(pw, i as int, j as int, p1, p2) by {
                if sep_window(pw, i as int, j as int, p1, p2) {
                    assert(!spec_is_digit(pw[p1]));
                    assert(!spec_is_digit(pw[p2]));
                }
            }
        }
        return None;
    }
    let c1 = password.get_char(first);
    let c2 = password.get_char(second);
    let ok = first > i && second > first + 1 && second < j && is_sep_char(c1) && c2 == c1 && first
        - i <= 4 && second - first - 1 <= 2 && j - second <= 4;
    if ok {
        proof {
            assert(sep_window(pw, i as int, j as int, first as int, second as int));
        }
        Some((first, second))
    } else {
        proof {
            assert forall|p1: int, p2: int| !sep_window(pw, i as int, j as int, p1, p2) by {
                if sep_window(pw, i as int, j as int, p1, p2) {
                    assert(!spec_is_digit(pw[p1]));
                    assert(!spec_is_digit(pw[p2]));
                    assert(p1 == first && p2 == second);
                }
            }
        }
        None
    }
}

/// Reads the window as a date if it is one; `None` otherwise.
fn date_at_window(password: &str, ref_year: i32, i: usize, j: usize) -> (r: Option<(char, Date)>)
    requires
        i <= j < password@.len(),
        j < usize::MAX,
    ensures
        r == spec_date_at(password@, ref_year as int, i as int, j as int),
{
    let ghost pw = password@;
    let ghost ry = ref_year as int;
    let len = j - i + 1;
    // a bare digit run?
    let mut all_digits = true;
    let mut t: usize = i;
    while t <= j
        invariant
            pw == password@,
            i <= t <= j + 1,
            j < pw.len(),
            j < usize::MAX,
            all_digits == all_digit_range(pw, i as int, t - 1),
        decreases j + 1 - t,
    {
        if !is_digit_char(password.get_char(t)) {
            all_digits = false;
        }
        t = t + 1;
    }
    if 4 <= len && len <= 8 && all_digits {
        // collect the readable dates of every split
        let mut cands: Vec<Date> = Vec::new();
        let mut splits: Vec<(usize, usize)> = Vec::new();
        if len == 4 {
            splits.push((1, 2));
            splits.push((2, 3));
        } else if len == 5 {
            splits.push((1, 3));
            splits.push((2, 3));
        } else if len == 6 {
            splits.push((1, 2));
            splits.push((2, 4));
            splits.push((4, 5));
        } else if len == 7 {
            splits.push((1, 3));
            splits.push((2, 3));
            splits.push((4, 5));
            splits.push((4, 6));
        } else {
            splits.push((2, 4));
            splits.push((4, 6));
        }
        proof {
            assert forall|q: int| 0 <= q < splits@.len() implies (#[trigger] splits@[q]).0 as int
                == date_splits(len as int)[q].0 && splits@[q].1 as int == date_splits(
                len as int,
            )[q].1 && 1 <= splits@[q].0 && splits@[q].0 < splits@[q].1 && splits@[q].1 <= len - 1
                && splits@[q].0 <= 4 && splits@[q].1 - splits@[q].0 <= 2 && len - splits@[q].1
                <= 4 by {}
            assert(splits@.len() == date_splits(len as int).len());
        }
        let mut s: usize = 0;
        while s < splits.len()
            invariant
                pw == password@,
                ry == ref_year as int,
                i <= j < pw.len(),
                j < usize::MAX,
                len == j - i + 1,
                4 <= len <= 8,
                all_digit_range(pw, i as int, j as int),
                s <= splits@.len(),
                splits@.len() == date_splits(len as int).len(),
                forall|q: int|
                    0 <= q < splits@.len() ==> (#[trigger] splits@[q]).0 as int == date_splits(
                        len as int,
                    )[q].0 && splits@[q].1 as int == date_splits(len as int)[q].1 && 1
                        <= splits@[q].0 && splits@[q].0 < splits@[q].1 && splits@[q].1 <= len - 1
                        && splits@[q].0 <= 4 && splits@[q].1 - splits@[q].0 <= 2 && len
                        - splits@[q].1 <= 4,
                cands@ == dates_from_splits(
                    pw,
                    i as int,
                    j as int,
                    date_splits(len as int).subrange(0, s as int),
                ),
            decreases splits@.len() - s,
        {
            let (k, l) = (splits[s].0, splits[s].1);
            let a = parse_digits(password, i, i + k);
            let b = parse_digits(password, i + k, i + l);
            let c = parse_digits(password, i + l, j + 1);
            let d = map_ints_to_dmy(a, b, c);
            proof {
                let sp = date_splits(len as int);
                assert(sp.subrange(0, s + 1).drop_last() =~= sp.subrange(0, s as int));
                assert(sp.subrange(0, s + 1).last() == sp[s as int]);
            }
            match d {
                Option::Some(dd) => {
                    cands.push(dd);
                },
                Option::None => {},
            }
            s = s + 1;
        }
        proof {
            assert(date_splits(len as int).subrange(0, date_splits(len as int).len() as int)
                =~= date_splits(len as int));
        }
        if cands.len() == 0 {
            return None;
        }
        // pick the date whose year is closest to the reference year
        let mut best: Date = cands[0];
        let mut bi: usize = 1;
        while bi < cands.len()
            invariant
                ry == ref_year as int,
                1 <= bi <= cands@.len(),
                cands@.len() >= 1,
                best == best_date(cands@.subrange(0, bi as int), ry),
            decreases cands@.len() - bi,
        {
            proof {
                assert(cands@.subrange(0, bi + 1).drop_last() =~= cands@.subrange(0, bi as int));
                assert(cands@.subrange(0, bi + 1).last() == cands@[bi as int]);
            }
            let cd = cands[bi];
            let bd: i64 = if (best.year as i64) >= (ref_year as i64) {
                best.year as i64 - ref_year as i64
            } else {
                ref_year as i64 - best.year as i64
            };
            let nd: i64 = if (cd.year as i64) >= (ref_year as i64) {
                cd.year as i64 - ref_year as i64
            } else {
                ref_year as i64 - cd.year as i64
            };
            if nd < bd {
                best = cd;
            }
            bi = bi + 1;
        }
        proof {
            assert(cands@.subrange(0, cands@.len() as int) =~= cands@);
        }
        return Some(('\u{0}', best));
    }
    if len < 6 || len > 10 {
        return None;
    }
    match find_sep_structure(password, i, j) {
        Option::None => None,
        Option::Some((p1, p2)) => {
            proof {
                let (q1, q2) = choose|q1: int, q2: int|
                    sep_window(pw, i as int, j as int, q1, q2);
                lemma_sep_window_unique(pw, i as int, j as int, p1 as int, p2 as int, q1, q2);
            }
            let a = parse_digits(password, i, p1);
            let b = parse_digits(password, p1 + 1, p2);
            let c = parse_digits(password, p2 + 1, j + 1);
            let sep = password.get_char(p1);
            match map_ints_to_dmy(a, b, c) {
                Option::Some(d) => Some((sep, d)),
                Option::None => None,
            }
        },
    }
}

/// Finds every window of the password that reads as a date, in span order,
/// against the given reference year.
pub fn date_match_at(password: &str, ref_year: i32) -> (r: Vec<BaseMatch>)
    ensures
        is_date_output(password@, ref_year as int, r@),
{
    let ghost pw = password@;
    let ghost ry = ref_year as int;
    let n = password.unicode_len();
    let mut r: Vec<BaseMatch> = Vec::new();
    let mut i: usize = 0;
    while i < n
        invariant
            pw == password@,
            ry == ref_year as int,
            n == pw.len(),
            i <= n,
            sorted_by_position(r@),
            distinct_spans(r@),
            forall|q: int| 0 <= q < r@.len() ==> (#[trigger] r@[q]).start < i,
            forall|q: int| 0 <= q < r@.len() ==> date_match_ok(pw, ry, #[trigger] r@[q]),
            forall|a: int, b: int|
                spec_date_at(pw, ry, a, b) is Some && a < i ==> exists|q: int|
                    0 <= q < r@.len() && (#[trigger] r@[q]).start == a && r@[q].end == b,
        decreases n - i,
    {
        let mut j: usize = i;
        while j < n
            invariant
                pw == password@,
                ry == ref_year as int,
                n == pw.len(),
                i <= j <= n,
                i < n,
                sorted_by_position(r@),
                distinct_spans(r@),
                forall|q: int|
                    0 <= q < r@.len() ==> (#[trigger] r@[q]).start < i || ((#[trigger] r@[q]).start
                        == i && r@[q].end < j),
                forall|q: int| 0 <= q < r@.len() ==> date_match_ok(pw, ry, #[trigger] r@[q]),
                forall|a: int, b: int|
                    spec_date_at(pw, ry, a, b) is Some && a < i ==> exists|q: int|
                        0 <= q < r@.len() && (#[trigger] r@[q]).start == a && r@[q].end == b,
                forall|b: int|
                    spec_date_at(pw, ry, i as int, b) is Some && b < j ==> exists|q: int|
                        0 <= q < r@.len() && (#[trigger] r@[q]).start == i as int && r@[q].end == b,
            decreases n - j,
        {
            match date_at_window(password, ref_year, i, j) {
                Option::Some((sep, date)) => {
                    let token = password.substring_char(i, j + 1).to_owned();
                    let m = BaseMatch {
                        pattern: "Date".to_owned(),
                        start: i,
                        end: j,
                        token,
                        data: MatchData::Date { separator: sep, date },
                    };
                    let ghost old_r = r@;
                    r.push(m);
                    proof {
                        assert(date_match_ok(pw, ry, m));
                        assert(forall|q: int| 0 <= q < old_r.len() ==> r@[q] == old_r[q]);
                        assert(r@[old_r.len() as int] == m);
                        assert forall|a: int, b: int|
                            spec_date_at(pw, ry, a, b) is Some && a < i implies exists|q: int|
                            0 <= q < r@.len() && (#[trigger] r@[q]).start == a && r@[q].end
                                == b by {
                            let q = choose|q: int|
                                0 <= q < old_r.len() && (#[trigger] old_r[q]).start == a
                                    && old_r[q].end == b;
                            assert(r@[q].start == a && r@[q].end == b);
                        }
                        assert forall|b: int|
                            spec_date_at(pw, ry, i as int, b) is Some && b < j + 1 implies exists|
                            q: int,
                        |
                            0 <= q < r@.len() && (#[trigger] r@[q]).start == i as int && r@[q].end
                                == b by {
                            if b < j {
                                let q = choose|q: int|
                                    0 <= q < old_r.len() && (#[trigger] old_r[q]).start == i as int
                                        && old_r[q].end == b;
                                assert(r@[q].start == i as int && r@[q].end == b);
                            } else {
                                assert(r@[old_r.len() as int].start == i as int);
                            }
                        }
                    }
                },
                Option::None => {},
            }
            j = j + 1;
        }
        i = i + 1;
    }
    r
}

/// Finds every window of the password that reads as a date, the year
/// anchored at the clock's current year.
pub fn date_match(password: &str) -> (r: Vec<BaseMatch>)
    ensures
        exists|y: int| is_date_output(password@, y, r@),
{
    let ref_year = current_year();
    let r = date_match_at(password, ref_year);
    proof {
        assert(is_date_output(password@, ref_year as int, r@));
    }
    r
}

} // verus!
