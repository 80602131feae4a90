//! Aggregation of all matchers.
//!
//! `omnimatch` runs every matcher over the password and returns one sorted
//! bag of candidates; its contract states that the bag is exactly the union
//! of the matchers' outputs, each output pinned by its own predicate.

use vstd::prelude::*;
use crate::matches::{BaseMatch, MatchData, wf_match, all_wf, sorted_by_position, sort_matches,
    lemma_multiset_members, match_eq};
use crate::dictionary::{views, is_dictionary_output, is_reverse_output, dictionary_match,
    reverse_dictionary_match, dict_match_ok, rev_match_ok};
use crate::l33t::{is_l33t_output, l33t_match, l33t_match_sound, l33t_sub_match_ok,
    l33t_source_ok};
use crate::sequence::{is_sequence_output, sequence_match, seq_match_ok};
use crate::regexes::{is_regex_output, regex_match, year_at};
use crate::datematch::{is_date_output, date_match, date_match_ok};
use crate::repeats::{is_repeat_output, repeat_match, repeat_match_ok};
use crate::keyboard::{is_spatial_output, spatial_match, is_spatial_graph_output, spatial_match_at};
use crate::wordlists::{default_dictionaries, default_list_views};
use crate::scoring::no_plain;

verus! {

/// The name of the `k`-th built-in dictionary.
pub open spec fn dict_name_of(k: int) -> Seq<char> {
    if k == 0 {
        "Female names"@
    } else if k == 1 {
        "Male names"@
    } else if k == 2 {
        "Surnames"@
    } else if k == 3 {
        "Passwords"@
    } else if k == 4 {
        "Wikipedia"@
    } else {
        "TV and Film"@
    }
}

/// Six matcher outputs, one per built-in dictionary, each related to its
/// dictionary by `rel`.
pub open spec fn all_dicts_rel(
    pw: Seq<char>,
    parts: Seq<Seq<BaseMatch>>,
    rel: spec_fn(Seq<char>, Seq<char>, Seq<Seq<char>>, Seq<BaseMatch>) -> bool,
) -> bool {
    &&& parts.len() == 6
    &&& forall|k: int| 0 <= k < 6 ==> rel(pw, dict_name_of(k), default_list_views(k), #[trigger] parts[k])
}

/// Runs one dictionary-style matcher over every built-in list and
/// concatenates the results.
pub fn matches_from_all_dicts<F: Fn(&str, &str, &[String]) -> Vec<BaseMatch>>(
    password: &str,
    matcher: F,
    Ghost(rel): Ghost<spec_fn(Seq<char>, Seq<char>, Seq<Seq<char>>, Seq<BaseMatch>) -> bool>,
) -> (r: Vec<BaseMatch>)
    requires
        forall|nm: &str, dd: &[String]| call_requires(matcher, (password, nm, dd)),
        forall|nm: &str, dd: &[String], out: Vec<BaseMatch>|
            call_ensures(matcher, (password, nm, dd), out) ==> #[trigger] rel(
                password@,
                nm@,
                views(dd@),
                out@,
            ),
    ensures
        exists|parts: Seq<Seq<BaseMatch>>|
            {
                &&& all_dicts_rel(password@, parts, rel)
                &&& r@ == parts[0] + parts[1] + parts[2] + parts[3] + parts[4] + parts[5]
            },
{
    let ghost pw = password@;
    let dicts = default_dictionaries();
    let mut r: Vec<BaseMatch> = Vec::new();
    let mut o0 = matcher(password, dicts[0].0.as_str(), dicts[0].1.as_slice());
    let ghost p0 = o0@;
    let mut o1 = matcher(password, dicts[1].0.as_str(), dicts[1].1.as_slice());
    let ghost p1 = o1@;
    let mut o2 = matcher(password, dicts[2].0.as_str(), dicts[2].1.as_slice());
    let ghost p2 = o2@;
    let mut o3 = matcher(password, dicts[3].0.as_str(), dicts[3].1.as_slice());
    let ghost p3 = o3@;
    let mut o4 = matcher(password, dicts[4].0.as_str(), dicts[4].1.as_slice());
    let ghost p4 = o4@;
    let mut o5 = matcher(password, dicts[5].0.as_str(), dicts[5].1.as_slice());
    let ghost p5 = o5@;
    r.append(&mut o0);
    r.append(&mut o1);
    r.append(&mut o2);
    r.append(&mut o3);
    r.append(&mut o4);
    r.append(&mut o5);
    proof {
        let parts = seq![p0, p1, p2, p3, p4, p5];
        assert(rel(pw, dict_name_of(0), default_list_views(0), p0));
        assert(rel(pw, dict_name_of(1), default_list_views(1), p1));
        assert(rel(pw, dict_name_of(2), default_list_views(2), p2));
        assert(rel(pw, dict_name_of(3), default_list_views(3), p3));
        assert(rel(pw, dict_name_of(4), default_list_views(4), p4));
        assert(rel(pw, dict_name_of(5), default_list_views(5), p5));
        assert(all_dicts_rel(pw, parts, rel));
        assert(r@ == parts[0] + parts[1] + parts[2] + parts[3] + parts[4] + parts[5]);
    }
    r
}


/// The aggregate bag of candidates: sorted by span, every candidate well
/// formed and never a bruteforce fill, and the bag exactly the union of the
/// matchers' outputs.
pub open spec fn is_omnimatch_output(pw: Seq<char>, r: Seq<BaseMatch>) -> bool {
    &&& sorted_by_position(r)
    &&& all_wf(pw, r)
    &&& no_plain(r)
    &&& exists|
        dp: Seq<Seq<BaseMatch>>,
        rp: Seq<Seq<BaseMatch>>,
        lp: Seq<Seq<BaseMatch>>,
        rest: Seq<Seq<BaseMatch>>,
    |
        {
            &&& all_dicts_rel(
                pw,
                dp,
                |a: Seq<char>, b: Seq<char>, c: Seq<Seq<char>>, d: Seq<BaseMatch>|
                    is_dictionary_output(a, b, c, d),
            )
            &&& all_dicts_rel(
                pw,
                rp,
                |a: Seq<char>, b: Seq<char>, c: Seq<Seq<char>>, d: Seq<BaseMatch>|
                    is_reverse_output(a, b, c, d),
            )
            &&& all_dicts_rel(
                pw,
                lp,
                |a: Seq<char>, b: Seq<char>, c: Seq<Seq<char>>, d: Seq<BaseMatch>|
                    is_l33t_output(a, b, c, d),
            )
            &&& rest.len() == 5
            &&& is_sequence_output(pw, rest[0])
            &&& is_regex_output(pw, rest[1])
            &&& (exists|y: int| is_date_output(pw, y, rest[2]))
            &&& is_repeat_output(pw, rest[3])
            &&& is_spatial_output(pw, rest[4])
            &&& r.to_multiset() == (dp[0] + dp[1] + dp[2] + dp[3] + dp[4] + dp[5] + rp[0] + rp[1]
                + rp[2] + rp[3] + rp[4] + rp[5] + lp[0] + lp[1] + lp[2] + lp[3] + lp[4] + lp[5]
                + rest[0] + rest[1] + rest[2] + rest[3] + rest[4]).to_multiset()
        }
}

/// Every element of the union of the matchers' outputs is a well-formed,
/// non-fill match.
proof fn lemma_parts_wf(
    pw: Seq<char>,
    dp: Seq<Seq<BaseMatch>>,
    rp: Seq<Seq<BaseMatch>>,
    lp: Seq<Seq<BaseMatch>>,
    rest: Seq<Seq<BaseMatch>>,
    y: int,
    pre: Seq<BaseMatch>,
)
    requires
        all_dicts_rel(
            pw,
            dp,
            |a: Seq<char>, b: Seq<char>, c: Seq<Seq<char>>, d: Seq<BaseMatch>|
                is_dictionary_output(a, b, c, d),
        ),
        all_dicts_rel(
            pw,
            rp,
            |a: Seq<char>, b: Seq<char>, c: Seq<Seq<char>>, d: Seq<BaseMatch>|
                is_reverse_output(a, b, c, d),
        ),
        all_dicts_rel(
            pw,
            lp,
            |a: Seq<char>, b: Seq<char>, c: Seq<Seq<char>>, d: Seq<BaseMatch>|
                is_l33t_output(a, b, c, d),
        ),
        rest.len() == 5,
        is_sequence_output(pw, rest[0]),
        is_regex_output(pw, rest[1]),
        is_date_output(pw, y, rest[2]),
        is_repeat_output(pw, rest[3]),
        is_spatial_output(pw, rest[4]),
        pre == dp[0] + dp[1] + dp[2] + dp[3] + dp[4] + dp[5] + rp[0] + rp[1] + rp[2] + rp[3]
            + rp[4] + rp[5] + lp[0] + lp[1] + lp[2] + lp[3] + lp[4] + lp[5] + rest[0] + rest[1]
            + rest[2] + rest[3] + rest[4],
    ensures
        all_wf(pw, pre),
        no_plain(pre),
{
    broadcast use vstd::seq_lib::group_to_multiset_ensures;
    broadcast use vstd::multiset::group_multiset_axioms;

    assert forall|q: int| 0 <= q < pre.len() implies wf_match(pw, #[trigger] pre[q]) && !(pre[q].data
        is Plain) by {
        let m = pre[q];
        if exists|k: int, i: int| 0 <= k < 6 && 0 <= i < dp[k].len() && dp[k][i] == m {
            let (k, i) = choose|k: int, i: int|
                0 <= k < 6 && 0 <= i < dp[k].len() && #[trigger] dp[k][i] == m;
            assert(dict_match_ok(pw, dict_name_of(k), default_list_views(k), m));
        } else if exists|k: int, i: int| 0 <= k < 6 && 0 <= i < rp[k].len() && rp[k][i] == m {
            let (k, i) = choose|k: int, i: int|
                0 <= k < 6 && 0 <= i < rp[k].len() && #[trigger] rp[k][i] == m;
            assert(rev_match_ok(pw, dict_name_of(k), default_list_views(k), m));
        } else if exists|k: int, i: int| 0 <= k < 6 && 0 <= i < lp[k].len() && lp[k][i] == m {
            let (k, i) = choose|k: int, i: int|
                0 <= k < 6 && 0 <= i < lp[k].len() && #[trigger] lp[k][i] == m;
            assert(l33t_match_sound(pw, dict_name_of(k), default_list_views(k), m));
            let sub = choose|sub: Seq<char>|
                l33t_source_ok(pw, sub) && l33t_sub_match_ok(
                    pw,
                    sub,
                    dict_name_of(k),
                    default_list_views(k),
                    m,
                );
            assert(l33t_sub_match_ok(pw, sub, dict_name_of(k), default_list_views(k), m));
        } else if exists|i: int| 0 <= i < rest[0].len() && rest[0][i] == m {
            let i = choose|i: int| 0 <= i < rest[0].len() && #[trigger] rest[0][i] == m;
            assert(seq_match_ok(pw, m));
        } else if exists|i: int| 0 <= i < rest[1].len() && rest[1][i] == m {
            let i = choose|i: int| 0 <= i < rest[1].len() && #[trigger] rest[1][i] == m;
            assert(i == 0 && wf_match(pw, m) && m.data is Regex) by {
                if exists|p: int| year_at(pw, p) {
                } else {
                    assert(rest[1].len() == 0);
                }
            }
        } else if exists|i: int| 0 <= i < rest[2].len() && rest[2][i] == m {
            let i = choose|i: int| 0 <= i < rest[2].len() && #[trigger] rest[2][i] == m;
            assert(date_match_ok(pw, y, m));
        } else if exists|i: int| 0 <= i < rest[3].len() && rest[3][i] == m {
            let i = choose|i: int| 0 <= i < rest[3].len() && #[trigger] rest[3][i] == m;
            assert(repeat_match_ok(pw, m));
        } else {
            // the spatial part: walk the multiset union back to one layout
            let d6 = dp[0] + dp[1] + dp[2] + dp[3] + dp[4] + dp[5];
            let r6 = rp[0] + rp[1] + rp[2] + rp[3] + rp[4] + rp[5];
            let l6 = lp[0] + lp[1] + lp[2] + lp[3] + lp[4] + lp[5];
            let head = d6 + r6 + l6 + rest[0] + rest[1] + rest[2] + rest[3];
            assert(q >= head.len()) by {
                if q < head.len() {
                    assert(false);
                }
            }
            let i = q - head.len();
            assert(0 <= i < rest[4].len() && rest[4][i] == m);
            let (r1, r2, r3, r4) = choose|
                r1: Seq<BaseMatch>,
                r2: Seq<BaseMatch>,
                r3: Seq<BaseMatch>,
                r4: Seq<BaseMatch>,
            |
                {
                    &&& is_spatial_graph_output(0, "qwerty"@, pw, r1)
                    &&& is_spatial_graph_output(1, "dvorak"@, pw, r2)
                    &&& is_spatial_graph_output(2, "Keypad"@, pw, r3)
                    &&& is_spatial_graph_output(3, "Mac keypad"@, pw, r4)
                    &&& rest[4].to_multiset() == r1.to_multiset().add(r2.to_multiset()).add(
                        r3.to_multiset(),
                    ).add(r4.to_multiset())
                };
            assert(rest[4].contains(m));
            assert(rest[4].to_multiset().count(m) > 0);
            assert(r1.to_multiset().count(m) > 0 || r2.to_multiset().count(m) > 0
                || r3.to_multiset().count(m) > 0 || r4.to_multiset().count(m) > 0);
            if r1.to_multiset().count(m) > 0 {
                assert(r1.contains(m));
                let w = choose|w: int| 0 <= w < r1.len() && r1[w] == m;
                assert(spatial_match_at(
                    0,
                    "qwerty"@,
                    pw,
                    crate::keyboard::scan_walks(0, pw, 0)[w].0,
                    crate::keyboard::scan_walks(0, pw, 0)[w].1,
                    m,
                ));
            } else if r2.to_multiset().count(m) > 0 {
                assert(r2.contains(m));
                let w = choose|w: int| 0 <= w < r2.len() && r2[w] == m;
                assert(spatial_match_at(
                    1,
                    "dvorak"@,
                    pw,
                    crate::keyboard::scan_walks(1, pw, 0)[w].0,
                    crate::keyboard::scan_walks(1, pw, 0)[w].1,
                    m,
                ));
            } else if r3.to_multiset().count(m) > 0 {
                assert(r3.contains(m));
                let w = choose|w: int| 0 <= w < r3.len() && r3[w] == m;
                assert(spatial_match_at(
                    2,
                    "Keypad"@,
                    pw,
                    crate::keyboard::scan_walks(2, pw, 0)[w].0,
                    crate::keyboard::scan_walks(2, pw, 0)[w].1,
                    m,
                ));
            } else {
                assert(r4.contains(m));
                let w = choose|w: int| 0 <= w < r4.len() && r4[w] == m;
                assert(spatial_match_at(
                    3,
                    "Mac keypad"@,
                    pw,
                    crate::keyboard::scan_walks(3, pw, 0)[w].0,
                    crate::keyboard::scan_walks(3, pw, 0)[w].1,
                    m,
                ));
            }
        }
    }
}

/// Matches the password against every matcher, returning the aggregated,
/// sorted bag of candidate matches.
pub fn omnimatch(password: &str) -> (r: Vec<BaseMatch>)
    requires
        password@.len() < usize::MAX,
    ensures
        is_omnimatch_output(password@, r@),
    decreases password@.len(), 1nat,
{
    let ghost pw = password@;
    let mut result: Vec<BaseMatch> = Vec::new();
    let dict_closure = |p: &str, nm: &str, dd: &[String]| -> (out: Vec<BaseMatch>)
        ensures
            is_dictionary_output(p@, nm@, views(dd@), out@),
        { dictionary_match(p, nm, dd) };
    let mut d_all = matches_from_all_dicts(
        password,
        dict_closure,
        Ghost(
            |a: Seq<char>, b: Seq<char>, c: Seq<Seq<char>>, d: Seq<BaseMatch>|
                is_dictionary_output(a, b, c, d),
        ),
    );
    let ghost da = d_all@;
    let rev_closure = |p: &str, nm: &str, dd: &[String]| -> (out: Vec<BaseMatch>)
        ensures
            is_reverse_output(p@, nm@, views(dd@), out@),
        { reverse_dictionary_match(p, nm, dd) };
    let mut r_all = matches_from_all_dicts(
        password,
        rev_closure,
        Ghost(
            |a: Seq<char>, b: Seq<char>, c: Seq<Seq<char>>, d: Seq<BaseMatch>|
                is_reverse_output(a, b, c, d),
        ),
    );
    let ghost ra = r_all@;
    let l33t_closure = |p: &str, nm: &str, dd: &[String]| -> (out: Vec<BaseMatch>)
        requires
            p@.len() < usize::MAX,
        ensures
            is_l33t_output(p@, nm@, views(dd@), out@),
        { l33t_match(p, nm, dd) };
    let mut l_all = matches_from_all_dicts(
        password,
        l33t_closure,
        Ghost(
            |a: Seq<char>, b: Seq<char>, c: Seq<Seq<char>>, d: Seq<BaseMatch>|
                is_l33t_output(a, b, c, d),
        ),
    );
    let ghost la = l_all@;
    let mut sm = sequence_match(password);
    let ghost smg = sm@;
    let mut xm = regex_match(password);
    let ghost xmg = xm@;
    let mut dm = date_match(password);
    let ghost dmg = dm@;
    let mut pm = repeat_match(password);
    let ghost pmg = pm@;
    let mut km = spatial_match(password);
    let ghost kmg = km@;
    result.append(&mut d_all);
    result.append(&mut r_all);
    result.append(&mut l_all);
    result.append(&mut sm);
    result.append(&mut xm);
    result.append(&mut dm);
    result.append(&mut pm);
    result.append(&mut km);
    let ghost pre = result@;
    proof {
        let dp = choose|parts: Seq<Seq<BaseMatch>>|
            {
                &&& all_dicts_rel(
                    pw,
                    parts,
                    |a: Seq<char>, b: Seq<char>, c: Seq<Seq<char>>, d: Seq<BaseMatch>|
                        is_dictionary_output(a, b, c, d),
                )
                &&& da == parts[0] + parts[1] + parts[2] + parts[3] + parts[4] + parts[5]
            };
        let rp = choose|parts: Seq<Seq<BaseMatch>>|
            {
                &&& all_dicts_rel(
                    pw,
                    parts,
                    |a: Seq<char>, b: Seq<char>, c: Seq<Seq<char>>, d: Seq<BaseMatch>|
                        is_reverse_output(a, b, c, d),
                )
                &&& ra == parts[0] + parts[1] + parts[2] + parts[3] + parts[4] + parts[5]
            };
        let lp = choose|parts: Seq<Seq<BaseMatch>>|
            {
                &&& all_dicts_rel(
                    pw,
                    parts,
                    |a: Seq<char>, b: Seq<char>, c: Seq<Seq<char>>, d: Seq<BaseMatch>|
                        is_l33t_output(a, b, c, d),
                )
                &&& la == parts[0] + parts[1] + parts[2] + parts[3] + parts[4] + parts[5]
            };
        let rest = seq![smg, xmg, dmg, pmg, kmg];
        let y = choose|y: int| is_date_output(pw, y, dmg);
        let big = dp[0] + dp[1] + dp[2] + dp[3] + dp[4] + dp[5] + rp[0] + rp[1] + rp[2] + rp[3]
            + rp[4] + rp[5] + lp[0] + lp[1] + lp[2] + lp[3] + lp[4] + lp[5] + rest[0] + rest[1]
            + rest[2] + rest[3] + rest[4];
        assert(pre =~= big);
        lemma_parts_wf(pw, dp, rp, lp, rest, y, pre);
    }
    sort_matches(&mut result);
    proof {
        lemma_multiset_members(pre, result@);
        assert forall|q: int| 0 <= q < result@.len() implies wf_match(
            pw,
            #[trigger] result@[q],
        ) && !(result@[q].data is Plain) by {
            assert(result@.contains(result@[q]));
            assert(pre.contains(result@[q]));
            let k0 = choose|k0: int| 0 <= k0 < pre.len() && pre[k0] == result@[q];
            assert(wf_match(pw, pre[k0]));
        }
    }
    result
}

} // verus!
