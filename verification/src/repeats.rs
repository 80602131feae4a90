//! The repeat matcher.
//!
//! A repeat is a span tiled by consecutive copies of one base block. The
//! scan takes, from left to right, the longest block that repeats at the
//! first position where any block repeats, extends it as far as it goes,
//! and reports the span with the smallest block that tiles it exactly. The
//! base block is scored by the full pipeline, which is sound because the
//! base is strictly shorter than the password.

use vstd::prelude::*;
use crate::matches::{BaseMatch, MatchData, wf_match};
use crate::text::str_eq;

verus! {

/// The `u`-th block of width `b` from position `s`.
pub open spec fn block(pw: Seq<char>, s: int, b: int, u: int) -> Seq<char> {
    pw.subrange(s + u * b, s + u * b + b)
}

/// The first `k` blocks of width `b` from `s` are all the same.
pub open spec fn tiles(pw: Seq<char>, s: int, b: int, k: int) -> bool {
    forall|u: int| 1 <= u < k ==> #[trigger] block(pw, s, b, u) == block(pw, s, b, 0)
}

/// A block of width `b` repeats at least twice at `s`.
pub open spec fn rep_at(pw: Seq<char>, s: int, b: int) -> bool {
    &&& 0 <= s
    &&& 1 <= b
    &&& s + 2 * b <= pw.len()
    &&& pw.subrange(s + b, s + 2 * b) == pw.subrange(s, s + b)
}

/// An exact description of one repeat match: the span is tiled by the base
/// block, the base is the smallest block that tiles the span, and the span
/// itself is the longest run of copies of the widest block that repeats at
/// its start.
pub open spec fn repeat_match_ok(pw: Seq<char>, m: BaseMatch) -> bool {
    &&& wf_match(pw, m)
    &&& m.pattern@ == "Repeat"@
    &&& match m.data {
        MatchData::Repeat { base_token, base_guesses, repeat_count } => {
            let s = m.start as int;
            let span = m.end - m.start + 1int;
            let b = base_token@.len() as int;
            &&& base_guesses >= 1
            &&& repeat_count >= 2
            &&& 1 <= b
            &&& b * repeat_count == span
            &&& base_token@ == pw.subrange(s, s + b)
            &&& tiles(pw, s, b, repeat_count as int)
            &&& forall|b2: int|
                1 <= b2 < b ==> !(span % b2 == 0 && #[trigger] tiles(pw, s, b2, span / b2))
            &&& exists|bg: int, kg: int|
                {
                    &&& rep_at(pw, s, bg)
                    &&& kg >= 2
                    &&& bg * kg == span
                    &&& tiles(pw, s, bg, kg)
                    &&& forall|b3: int| bg < b3 && s + 2 * b3 <= pw.len() ==> !rep_at(pw, s, b3)
                    &&& (s + (kg + 1) * bg > pw.len() || block(pw, s, bg, kg) != block(
                        pw,
                        s,
                        bg,
                        0,
                    ))
                }
        },
        _ => false,
    }
}

/// What the repeat matcher promises: every match is an exact repeat span,
/// matches come in order without overlap, and every position where a block
/// repeats lies inside some reported span.
pub open spec fn is_repeat_output(pw: Seq<char>, r: Seq<BaseMatch>) -> bool {
    &&& forall|q: int| 0 <= q < r.len() ==> repeat_match_ok(pw, #[trigger] r[q])
    &&& forall|q: int| 0 < q < r.len() ==> (#[trigger] r[q]).start > r[q - 1].end
    &&& forall|s: int, b: int|
        #[trigger] rep_at(pw, s, b) ==> exists|q: int|
            0 <= q < r.len() && (#[trigger] r[q]).start <= s <= r[q].end
}

/// Compares two blocks of the password.
fn blocks_equal(password: &str, x: usize, y: usize, b: usize) -> (r: bool)
    requires
        x + b <= password@.len(),
        y + b <= password@.len(),
        x + b <= usize::MAX,
        y + b <= usize::MAX,
    ensures
        r == (password@.subrange(x as int, x + b) == password@.subrange(y as int, y + b)),
{
    let s1 = password.substring_char(x, x + b);
    let s2 = password.substring_char(y, y + b);
    str_eq(s1, s2)
}

/// The widest block that repeats at `s`, if any.
fn widest_rep_at(password: &str, s: usize) -> (r: Option<usize>)
    requires
        s < password@.len(),
        password@.len() < usize::MAX,
    ensures
        match r {
            Option::Some(b) => rep_at(password@, s as int, b as int) && forall|b3: int|
                b < b3 && s + 2 * b3 <= password@.len() ==> !rep_at(password@, s as int, b3),
            Option::None => forall|b3: int| !rep_at(password@, s as int, b3),
        },
{
    let ghost pw = password@;
    let n = password.unicode_len();
    let bmax = (n - s) / 2;
    let mut b: usize = bmax;
    while b >= 1
        invariant
            pw == password@,
            n == pw.len(),
            s < n,
            n < usize::MAX,
            bmax == (n - s) / 2,
            b <= bmax,
            forall|b3: int| b < b3 && s + 2 * b3 <= pw.len() ==> !rep_at(pw, s as int, b3),
        decreases b,
    {
        if blocks_equal(password, s, s + b, b) {
            proof {
                assert(rep_at(pw, s as int, b as int));
            }
            return Option::Some(b);
        }
        proof {
            assert(!rep_at(pw, s as int, b as int));
        }
        b = b - 1;
    }
    proof {
        assert forall|b3: int| !rep_at(pw, s as int, b3) by {
            if rep_at(pw, s as int, b3) {
                assert(s + 2 * b3 <= pw.len());
                assert(b3 <= (pw.len() - s) / 2);
            }
        }
    }
    Option::None
}

/// How many consecutive copies of the width-`b` block stand at `s`.
fn count_copies(password: &str, s: usize, b: usize) -> (k: usize)
    requires
        rep_at(password@, s as int, b as int),
        password@.len() < usize::MAX,
    ensures
        k >= 2,
        s + k * b <= password@.len(),
        tiles(password@, s as int, b as int, k as int),
        s + (k + 1) * b > password@.len() || block(password@, s as int, b as int, k as int)
            != block(password@, s as int, b as int, 0),
{
    let ghost pw = password@;
    let n = password.unicode_len();
    let mut k: usize = 2;
    let mut off: usize = s + b + b;
    proof {
        assert(block(pw, s as int, b as int, 1) =~= pw.subrange(s + b, s + b + b));
        assert(block(pw, s as int, b as int, 0) =~= pw.subrange(s as int, s + b));
        assert(tiles(pw, s as int, b as int, 2));
    }
    loop
        invariant_except_break
            pw == password@,
            n == pw.len(),
            n < usize::MAX,
            1 <= b,
            rep_at(pw, s as int, b as int),
            k >= 2,
            off == s + k * b,
            off <= n,
            tiles(pw, s as int, b as int, k as int),
        ensures
            k >= 2,
            off == s + k * b,
            off <= n,
            tiles(pw, s as int, b as int, k as int),
            off + b > n || block(pw, s as int, b as int, k as int) != block(
                pw,
                s as int,
                b as int,
                0,
            ),
        decreases n - off + 1,
    {
        if n - off < b {
            break ;
        }
        let same = blocks_equal(password, off, s, b);
        proof {
            assert(block(pw, s as int, b as int, k as int) =~= pw.subrange(off as int, off + b))
                by {
                assert(off == s + k * b);
            }
            assert(block(pw, s as int, b as int, 0) =~= pw.subrange(s as int, s + b));
        }
        if !same {
            break ;
        }
        proof {
            assert((k + 1) * b == k * b + b) by (nonlinear_arith);
            assert forall|u: int| 1 <= u < k + 1 implies #[trigger] block(pw, s as int, b as int, u)
                == block(pw, s as int, b as int, 0) by {
                if u == k {
                    assert(block(pw, s as int, b as int, k as int) =~= pw.subrange(
                        off as int,
                        off + b,
                    )) by {
                        assert(off == s + k * b);
                    }
                }
            }
        }
        proof {
            assert(k <= off) by (nonlinear_arith)
                requires off == s + k * b && b >= 1 && k >= 0 && s >= 0;
        }
        k = k + 1;
        off = off + b;
        proof {
            assert(off == s + k * b) by (nonlinear_arith)
                requires off - b == s + (k - 1) * b && k >= 1;
        }
    }
    proof {
        assert((k + 1) * b == k * b + b) by (nonlinear_arith);
    }
    k
}

/// Finds the smallest block width that tiles the span `[s, s + span)`.
fn smallest_tiler(password: &str, s: usize, span: usize, bg: usize) -> (r: (usize, usize))
    requires
        1 <= bg <= span,
        s + span <= password@.len(),
        password@.len() < usize::MAX,
        exists|kg: int| kg >= 2 && bg * kg == span && tiles(password@, s as int, bg as int, kg),
    ensures
        ({
            let b = r.0 as int;
            let k = r.1 as int;
            &&& 1 <= b <= bg
            &&& k >= 2
            &&& b * k == span
            &&& tiles(password@, s as int, b as int, k)
            &&& forall|b2: int|
                1 <= b2 < b ==> !(span as int % b2 == 0 && #[trigger] tiles(
                    password@,
                    s as int,
                    b2,
                    span as int / b2,
                ))
        }),
{
    let ghost pw = password@;
    let mut b: usize = 1;
    loop
        invariant_except_break
            pw == password@,
            s + span <= pw.len(),
            pw.len() < usize::MAX,
            1 <= b <= bg,
            1 <= bg,
            exists|kg: int| kg >= 2 && bg * kg == span && tiles(pw, s as int, bg as int, kg),
            forall|b2: int|
                1 <= b2 < b ==> !(span as int % b2 == 0 && #[trigger] tiles(
                    pw,
                    s as int,
                    b2,
                    span as int / b2,
                )),
        ensures
            ({
                let bb = b as int;
                &&& 1 <= bb <= bg
                &&& span as int % bb == 0
                &&& span as int / bb >= 2
                &&& tiles(pw, s as int, bb, span as int / bb)
                &&& forall|b2: int|
                    1 <= b2 < bb ==> !(span as int % b2 == 0 && #[trigger] tiles(
                        pw,
                        s as int,
                        b2,
                        span as int / b2,
                    ))
            }),
        decreases bg - b,
    {
        let mut tiled = false;
        if span % b == 0 && span / b >= 2 {
            proof {
                assert(b as int * (span as int / b as int) == span) by (nonlinear_arith)
                    requires span as int % b as int == 0 && 1 <= b;
            }
            if check_tiles(password, s, b, span / b) {
                break ;
            }
            proof {
                assert(!tiles(pw, s as int, b as int, span as int / b as int));
            }
        }
        proof {
            let kg = choose|kg: int|
                kg >= 2 && bg * kg == span && tiles(pw, s as int, bg as int, kg);
            assert(2 * bg <= span) by (nonlinear_arith)
                requires bg as int * kg == span as int && kg >= 2 && bg >= 1;
            if span as int % b as int == 0 {
                assert(span as int / b as int >= 2) by (nonlinear_arith)
                    requires span >= 2 * b && b >= 1 && span as int % b as int == 0;
            }
            if b == bg {
                assert(span as int % (bg as int) == 0 && span as int / (bg as int) == kg)
                    by (nonlinear_arith)
                    requires bg as int * kg == span as int && 1 <= bg as int && kg >= 2;
                assert(false);
            }
        }
        b = b + 1;
    }
    let k = span / b;
    proof {
        assert(b * k == span) by (nonlinear_arith)
            requires span as int % b as int == 0 && k == span as int / b as int && 1 <= b;
    }
    (b, k)
}

/// Whether `k` blocks of width `b` tile the range starting at `s`.
fn check_tiles(password: &str, s: usize, b: usize, k: usize) -> (r: bool)
    requires
        1 <= b,
        1 <= k,
        password@.len() < usize::MAX,
        s + b * k <= password@.len(),
    ensures
        r == tiles(password@, s as int, b as int, k as int),
{
    let ghost pw = password@;
    let n = password.unicode_len();
    proof {
        assert(b * k >= b * 1) by (nonlinear_arith)
            requires 1 <= k && 0 <= b;
        assert(b * 1 == b) by (nonlinear_arith);
    }
    let mut u: usize = 1;
    let mut off: usize = s + b;
    proof {
        assert(1 * b == b) by (nonlinear_arith);
    }
    while u < k
        invariant
            pw == password@,
            n == pw.len(),
            n < usize::MAX,
            1 <= b,
            1 <= u <= k,
            s + b * k <= n,
            off == s + u * b,
            forall|u2: int|
                1 <= u2 < u ==> #[trigger] block(pw, s as int, b as int, u2) == block(
                    pw,
                    s as int,
                    b as int,
                    0,
                ),
        decreases k - u,
    {
        proof {
            assert(off + b <= n) by (nonlinear_arith)
                requires off == s + u * b && u + 1 <= k && 1 <= b && s + b * k <= n && 0 <= s
                    && 0 <= u;
        }
        if !blocks_equal(password, off, s, b) {
            proof {
                assert(block(pw, s as int, b as int, u as int) =~= pw.subrange(
                    off as int,
                    off + b,
                )) by {
                    assert(off == s + u * b);
                }
                assert(block(pw, s as int, b as int, 0) =~= pw.subrange(s as int, s + b));
            }
            return false;
        }
        proof {
            assert(block(pw, s as int, b as int, u as int) =~= pw.subrange(off as int, off + b))
                by {
                assert(off == s + u * b);
            }
            assert(block(pw, s as int, b as int, 0) =~= pw.subrange(s as int, s + b));
        }
        u = u + 1;
        off = off + b;
        proof {
            assert(off == s + u * b) by (nonlinear_arith)
                requires off - b == s + (u - 1) * b && u >= 1;
        }
    }
    true
}

/// Finds every repeat span of the password, left to right; the base of
/// each is scored by the full pipeline.
pub fn repeat_match(password: &str) -> (r: Vec<BaseMatch>)
    requires
        password@.len() < usize::MAX,
    ensures
        is_repeat_output(password@, r@),
    decreases password@.len(), 0nat,
{
    let ghost pw = password@;
    let n = password.unicode_len();
    let mut r: Vec<BaseMatch> = Vec::new();
    let mut s: usize = 0;
    while s < n
        invariant
            pw == password@,
            n == pw.len(),
            n < usize::MAX,
            s <= n,
            forall|q: int| 0 <= q < r@.len() ==> repeat_match_ok(pw, #[trigger] r@[q]),
            forall|q: int| 0 < q < r@.len() ==> (#[trigger] r@[q]).start > r@[q - 1].end,
            forall|q: int| 0 <= q < r@.len() ==> (#[trigger] r@[q]).end < s,
            forall|s2: int, b: int|
                s2 < s && #[trigger] rep_at(pw, s2, b) ==> exists|q: int|
                    0 <= q < r@.len() && (#[trigger] r@[q]).start <= s2 <= r@[q].end,
        decreases n - s,
    {
        match widest_rep_at(password, s) {
            Option::None => {
                proof {
                    assert forall|b: int| !rep_at(pw, s as int, b) by {}
                }
                s = s + 1;
            },
            Option::Some(bg) => {
                let k = count_copies(password, s, bg);
                let ghost kg = k as int;
                proof {
                    assert(k * bg == bg * k) by (nonlinear_arith);
                    assert(bg * k <= n - s) by (nonlinear_arith)
                        requires s + k * bg <= n && k * bg == bg * k;
                }
                let span = k * bg;
                proof {
                    assert(span >= 2) by (nonlinear_arith)
                        requires span == k * bg && k >= 2 && bg >= 1;
                    assert(bg <= span && k * bg == bg * k) by (nonlinear_arith)
                        requires span == k * bg && k >= 2 && bg >= 1;
                }
                let (bm, count) = smallest_tiler(password, s, span, bg);
                let token = password.substring_char(s, s + span).to_owned();
                let base_token = password.substring_char(s, s + bm).to_owned();
                let base_copy = password.substring_char(s, s + bm).to_owned();
                proof {
                    assert(bm < n) by (nonlinear_arith)
                        requires bm as int * count as int == span as int && count >= 2 && bm >= 1
                            && span <= n && 0 <= s;
                }
                let base_matches = crate::matching::omnimatch(base_token.as_str());
                let analysis = crate::scoring::most_guessable_match_sequence(
                    base_copy,
                    base_matches,
                    false,
                );
                let m = BaseMatch {
                    pattern: "Repeat".to_owned(),
                    start: s,
                    end: s + span - 1,
                    token,
                    data: MatchData::Repeat {
                        base_token,
                        base_guesses: analysis.guesses,
                        repeat_count: count,
                    },
                };
                proof {
                    assert(repeat_match_ok(pw, m)) by {
                        assert(m.token@ == pw.subrange(s as int, s + span));
                        assert(m.end - m.start + 1 == span);
                        assert(bm as int * count as int == span as int);
                    }
                }
                let ghost old_r = r@;
                r.push(m);
                proof {
                    assert(forall|q: int| 0 <= q < old_r.len() ==> r@[q] == old_r[q]);
                    assert(r@[old_r.len() as int] == m);
                    assert forall|s2: int, b2: int|
                        s2 < s + span && #[trigger] rep_at(pw, s2, b2) implies exists|q: int|
                        0 <= q < r@.len() && (#[trigger] r@[q]).start <= s2 <= r@[q].end by {
                        if s2 < s {
                            let q = choose|q: int|
                                0 <= q < old_r.len() && (#[trigger] old_r[q]).start <= s2
                                    <= old_r[q].end;
                            assert(r@[q].start <= s2 <= r@[q].end);
                        } else {
                            assert(r@[old_r.len() as int].start <= s2 <= r@[old_r.len() as int].end);
                        }
                    }
                }
                s = s + span;
            },
        }
    }
    proof {
        assert forall|s2: int, b: int| #[trigger] rep_at(pw, s2, b) implies exists|q: int|
            0 <= q < r@.len() && (#[trigger] r@[q]).start <= s2 <= r@[q].end by {
            assert(s2 + 2 * b <= pw.len() && b >= 1);
            assert(s2 < n);
        }
    }
    r
}

} // verus!
