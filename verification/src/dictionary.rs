//! Dictionary and reverse-dictionary matching.
//!
//! A dictionary hit is a span of the password whose ASCII-lowered substring
//! is a word of a ranked list; the rank of a word is one more than its
//! position in the list.

use vstd::prelude::*;
use crate::matches::{
    BaseMatch, MatchData, wf_match, sorted_by_position, distinct_spans, match_le, sort_matches,
    lemma_multiset_members, lemma_multiset_distinct_spans,
};
use crate::text::{lower_seq, rev_seq, to_lowercase_str, reverse_str, str_eq};

verus! {

/// The character sequences of a list of words.
pub open spec fn views(d: Seq<String>) -> Seq<Seq<char>> {
    d.map_values(|s: String| s@)
}

/// The position of the first occurrence of `w` in `dict`, if any.
pub open spec fn dict_pos(dict: Seq<Seq<char>>, w: Seq<char>) -> Option<int>
    decreases dict.len(),
{
    if dict.len() == 0 {
        Option::None
    } else if dict[0] == w {
        Option::Some(0)
    } else {
        match dict_pos(dict.drop_first(), w) {
            Option::None => Option::None,
            Option::Some(p) => Option::Some(p + 1),
        }
    }
}

pub proof fn lemma_dict_pos_props(dict: Seq<Seq<char>>, w: Seq<char>)
    ensures
        match dict_pos(dict, w) {
            Option::None => forall|k: int| 0 <= k < dict.len() ==> dict[k] != w,
            Option::Some(p) => 0 <= p < dict.len() && dict[p] == w && forall|k: int|
                0 <= k < p ==> dict[k] != w,
        },
    decreases dict.len(),
{
    if dict.len() > 0 && dict[0] != w {
        let rest = dict.drop_first();
        lemma_dict_pos_props(rest, w);
        match dict_pos(rest, w) {
            Option::None => {
                assert forall|k: int| 0 <= k < dict.len() implies dict[k] != w by {
                    if k > 0 {
                        assert(rest[k - 1] == dict[k]);
                    }
                }
            },
            Option::Some(p) => {
                assert(rest[p] == dict[p + 1]);
                assert forall|k: int| 0 <= k < p + 1 implies dict[k] != w by {
                    if k > 0 {
                        assert(rest[k - 1] == dict[k]);
                    }
                }
            },
        }
    }
}

pub proof fn lemma_dict_pos_of_first_hit(dict: Seq<Seq<char>>, w: Seq<char>, p: int)
    requires
        0 <= p < dict.len(),
        dict[p] == w,
        forall|k: int| 0 <= k < p ==> dict[k] != w,
    ensures
        dict_pos(dict, w) == Option::Some(p),
    decreases dict.len(),
{
    if p > 0 {
        assert(forall|k: int|
            0 <= k < dict.drop_first().len() ==> dict.drop_first()[k] == dict[k + 1]);
        lemma_dict_pos_of_first_hit(dict.drop_first(), w, p - 1);
    }
}

/// The span `i..=j` of the lowered password is a word of `dict`.
pub open spec fn dict_hit(pw: Seq<char>, dict: Seq<Seq<char>>, i: int, j: int) -> bool {
    &&& 0 <= i <= j < pw.len()
    &&& dict_pos(dict, lower_seq(pw).subrange(i, j + 1)) is Some
}

/// An exact description of one plain dictionary match.
pub open spec fn dict_match_ok(
    pw: Seq<char>,
    dname: Seq<char>,
    dict: Seq<Seq<char>>,
    m: BaseMatch,
) -> bool {
    &&& wf_match(pw, m)
    &&& m.pattern@ == "Dictionary"@
    &&& match m.data {
        MatchData::Dictionary { matched_word, rank, dictionary_name, reversed, l33t } => {
            &&& matched_word@ == lower_seq(pw).subrange(m.start as int, m.end as int + 1)
            &&& rank >= 1
            &&& dict_pos(dict, matched_word@) == Option::Some(rank - 1)
            &&& dictionary_name@ == dname
            &&& reversed == false
            &&& l33t is None
        },
        _ => false,
    }
}

/// Every dictionary hit of the password, each exactly once, in span order.
pub open spec fn is_dictionary_output(
    pw: Seq<char>,
    dname: Seq<char>,
    dict: Seq<Seq<char>>,
    r: Seq<BaseMatch>,
) -> bool {
    &&& sorted_by_position(r)
    &&& distinct_spans(r)
    &&& forall|k: int| 0 <= k < r.len() ==> dict_match_ok(pw, dname, dict, #[trigger] r[k])
    &&& forall|i: int, j: int|
        dict_hit(pw, dict, i, j) ==> exists|k: int|
            0 <= k < r.len() && (#[trigger] r[k]).start == i && r[k].end == j
}

/// Finds the first entry of `dict` that equals `w`.
pub(crate) fn find_word(dict: &[String], w: &str) -> (r: Option<usize>)
    ensures
        match r {
            Option::Some(p) => p < dict@.len() && p < usize::MAX && dict_pos(views(dict@), w@)
                == Option::Some(p as int),
            Option::None => dict_pos(views(dict@), w@) is None,
        },
{
    let n = dict.len();
    let mut p: usize = 0;
    while p < n
        invariant
            n == dict@.len(),
            p <= n,
            forall|k: int| 0 <= k < p ==> views(dict@)[k] != w@,
        decreases n - p,
    {
        if str_eq(dict[p].as_str(), w) {
            proof {
                lemma_dict_pos_of_first_hit(views(dict@), w@, p as int);
            }
            return Option::Some(p);
        }
        p = p + 1;
    }
    proof {
        lemma_dict_pos_props(views(dict@), w@);
        if dict_pos(views(dict@), w@) is Some {
            let q = dict_pos(views(dict@), w@)->Some_0;
            assert(views(dict@)[q] == w@);
        }
    }
    Option::None
}

/// Emits one match for every span of the password whose lowered substring
/// is a word of the dictionary, in `(start, end)` order.
pub fn dictionary_match(password: &str, dictionary_name: &str, dictionary: &[String]) -> (r: Vec<
    BaseMatch,
>)
    ensures
        is_dictionary_output(password@, dictionary_name@, views(dictionary@), r@),
{
    let ghost pw = password@;
    let ghost dict = views(dictionary@);
    let ghost dname = dictionary_name@;
    let n = password.unicode_len();
    let lower = to_lowercase_str(password);
    let mut r: Vec<BaseMatch> = Vec::new();
    let mut i: usize = 0;
    while i < n
        invariant
            n == pw.len(),
            pw == password@,
            dict == views(dictionary@),
            dname == dictionary_name@,
            lower@ == lower_seq(pw),
            i <= n,
            sorted_by_position(r@),
            forall|k: int| 0 <= k < r@.len() ==> (#[trigger] r@[k]).start < i,
            forall|k: int| 0 <= k < r@.len() ==> dict_match_ok(pw, dname, dict, #[trigger] r@[k]),
            distinct_spans(r@),
            forall|a: int, b: int|
                dict_hit(pw, dict, a, b) && a < i ==> exists|k: int|
                    0 <= k < r@.len() && (#[trigger] r@[k]).start == a && r@[k].end == b,
        decreases n - i,
    {
        let mut j: usize = i;
        while j < n
            invariant
                n == pw.len(),
                pw == password@,
                dict == views(dictionary@),
                dname == dictionary_name@,
                lower@ == lower_seq(pw),
                i <= j <= n,
                i < n,
                sorted_by_position(r@),
                forall|k: int|
                    0 <= k < r@.len() ==> (#[trigger] r@[k]).start < i || ((#[trigger] r@[k]).start
                        == i && r@[k].end < j),
                forall|k: int| 0 <= k < r@.len() ==> dict_match_ok(
                    pw,
                    dname,
                    dict,
                    #[trigger] r@[k],
                ),
                distinct_spans(r@),
                forall|a: int, b: int|
                    dict_hit(pw, dict, a, b) && a < i ==> exists|k: int|
                        0 <= k < r@.len() && (#[trigger] r@[k]).start == a && r@[k].end == b,
                forall|b: int|
                    dict_hit(pw, dict, i as int, b) && b < j ==> exists|k: int|
                        0 <= k < r@.len() && (#[trigger] r@[k]).start == i as int && r@[k].end == b,
            decreases n - j,
        {
            let word = lower.as_str().substring_char(i, j + 1);
            proof {
                assert(word@ =~= lower_seq(pw).subrange(i as int, j + 1));
            }
            match find_word(dictionary, word) {
                Option::Some(p) => {
                    let token = password.substring_char(i, j + 1).to_owned();
                    let matched = word.to_owned();
                    let m = BaseMatch {
                        pattern: "Dictionary".to_owned(),
                        start: i,
                        end: j,
                        token,
                        data: MatchData::Dictionary {
                            matched_word: matched,
                            rank: p + 1,
                            dictionary_name: dictionary_name.to_owned(),
                            reversed: false,
                            l33t: Option::None,
                        },
                    };
                    let ghost old_r = r@;
                    r.push(m);
                    proof {
                        assert(dict_match_ok(pw, dname, dict, m));
                        assert(forall|k: int| 0 <= k < old_r.len() ==> r@[k] == old_r[k]);
                        assert(r@[old_r.len() as int] == m);
                        assert forall|a: int, b: int|
                            dict_hit(pw, dict, a, b) && a < i implies exists|k: int|
                            0 <= k < r@.len() && (#[trigger] r@[k]).start == a && r@[k].end
                                == b by {
                            let k = choose|k: int|
                                0 <= k < old_r.len() && (#[trigger] old_r[k]).start == a
                                    && old_r[k].end == b;
                            assert(r@[k].start == a && r@[k].end == b);
                        }
                        assert forall|b: int|
                            dict_hit(pw, dict, i as int, b) && b < j + 1 implies exists|k: int|
                            0 <= k < r@.len() && (#[trigger] r@[k]).start == i as int && r@[k].end
                                == b by {
                            if b < j {
                                let k = choose|k: int|
                                    0 <= k < old_r.len() && (#[trigger] old_r[k]).start == i as int
                                        && old_r[k].end == b;
                                assert(r@[k].start == i as int && r@[k].end == b);
                            } else {
                                assert(r@[old_r.len() as int].start == i as int);
                            }
                        }
                    }
                },
                Option::None => {},
            }
            j = j + 1;
        }
        i = i + 1;
    }
    r
}

/// An exact description of one reversed dictionary match: the span
/// `start..=end` of the password reads as a dictionary word from right to
/// left.
pub open spec fn rev_match_ok(
    pw: Seq<char>,
    dname: Seq<char>,
    dict: Seq<Seq<char>>,
    m: BaseMatch,
) -> bool {
    let n = pw.len() as int;
    &&& wf_match(pw, m)
    &&& m.pattern@ == "Dictionary"@
    &&& match m.data {
        MatchData::Dictionary { matched_word, rank, dictionary_name, reversed, l33t } => {
            &&& matched_word@ == lower_seq(rev_seq(pw)).subrange(n - 1 - m.end, n - m.start)
            &&& rank >= 1
            &&& dict_pos(dict, matched_word@) == Option::Some(rank - 1)
            &&& dictionary_name@ == dname
            &&& reversed == true
            &&& l33t is None
        },
        _ => false,
    }
}

/// Every dictionary hit of the reversed password, mapped back onto the
/// original positions, each exactly once, in span order.
pub open spec fn is_reverse_output(
    pw: Seq<char>,
    dname: Seq<char>,
    dict: Seq<Seq<char>>,
    r: Seq<BaseMatch>,
) -> bool {
    let n = pw.len() as int;
    &&& sorted_by_position(r)
    &&& distinct_spans(r)
    &&& forall|k: int| 0 <= k < r.len() ==> rev_match_ok(pw, dname, dict, #[trigger] r[k])
    &&& forall|a: int, b: int|
        dict_hit(rev_seq(pw), dict, a, b) ==> exists|k: int|
            0 <= k < r.len() && (#[trigger] r[k]).start == n - 1 - b && r[k].end == n - 1 - a
}

/// Reading a sequence back to front twice gives it back.
pub proof fn lemma_rev_rev(s: Seq<char>)
    ensures
        rev_seq(rev_seq(s)) == s,
{
    assert(rev_seq(rev_seq(s)) =~= s);
}

/// A password that holds a dictionary word keeps it when written backwards:
/// the reverse matcher, run on the reversed password, reports a match over
/// the mirrored span, and every match it reports is marked as reversed.
pub proof fn lemma_reversed_password_keeps_word(
    pw: Seq<char>,
    dname: Seq<char>,
    dict: Seq<Seq<char>>,
    r: Seq<BaseMatch>,
    i: int,
    j: int,
)
    requires
        is_reverse_output(rev_seq(pw), dname, dict, r),
        dict_hit(pw, dict, i, j),
    ensures
        exists|q: int|
            0 <= q < r.len() && (#[trigger] r[q]).start == pw.len() - 1 - j && r[q].end == pw.len()
                - 1 - i,
        forall|q: int|
            0 <= q < r.len() ==> match (#[trigger] r[q]).data {
                MatchData::Dictionary { reversed, .. } => reversed == true,
                _ => false,
            },
{
    lemma_rev_rev(pw);
    assert(dict_hit(rev_seq(rev_seq(pw)), dict, i, j));
    assert(rev_seq(pw).len() == pw.len());
    assert forall|q: int| 0 <= q < r.len() implies match (#[trigger] r[q]).data {
        MatchData::Dictionary { reversed, .. } => reversed == true,
        _ => false,
    } by {
        assert(rev_match_ok(rev_seq(pw), dname, dict, r[q]));
    }
}

/// Runs the dictionary matcher on the reversed password and maps each hit
/// back onto the original positions, marking it as reversed.
pub fn reverse_dictionary_match(password: &str, dictionary_name: &str, dictionary: &[String]) -> (r:
    Vec<BaseMatch>)
    ensures
        is_reverse_output(password@, dictionary_name@, views(dictionary@), r@),
{
    let ghost pw = password@;
    let ghost dict = views(dictionary@);
    let ghost dname = dictionary_name@;
    let n = password.unicode_len();
    let rev_pw = reverse_str(password);
    let mut src = dictionary_match(rev_pw.as_str(), dictionary_name, dictionary);
    let ghost src0 = src@;
    let mut out: Vec<BaseMatch> = Vec::new();
    while src.len() > 0
        invariant
            n == pw.len(),
            pw == password@,
            dict == views(dictionary@),
            dname == dictionary_name@,
            rev_pw@ == rev_seq(pw),
            is_dictionary_output(rev_seq(pw), dname, dict, src0),
            out@.len() + src@.len() == src0.len(),
            src@ == src0.subrange(out@.len() as int, src0.len() as int),
            forall|k: int|
                0 <= k < out@.len() ==> rev_match_ok(pw, dname, dict, #[trigger] out@[k])
                    && out@[k].start == n - 1 - src0[k].end && out@[k].end == n - 1 - src0[k].start,
        decreases src@.len(),
    {
        let ghost k0 = out@.len() as int;
        let m = src.remove(0);
        proof {
            assert(m == src0[k0]);
            assert(dict_match_ok(rev_seq(pw), dname, dict, src0[k0]));
            assert(src@ =~= src0.subrange(k0 + 1, src0.len() as int));
        }
        let new_start = n - 1 - m.end;
        let new_end = n - 1 - m.start;
        let new_token = reverse_str(m.token.as_str());
        let data = match m.data {
            MatchData::Dictionary { matched_word, rank, dictionary_name: dn, l33t, .. } => {
                MatchData::Dictionary {
                    matched_word,
                    rank,
                    dictionary_name: dn,
                    reversed: true,
                    l33t,
                }
            },
            other => other,
        };
        let t = BaseMatch {
            pattern: m.pattern,
            start: new_start,
            end: new_end,
            token: new_token,
            data,
        };
        proof {
            assert(t.token@ =~= pw.subrange(t.start as int, t.end as int + 1)) by {
                assert(m.token@ == rev_seq(pw).subrange(m.start as int, m.end as int + 1));
                assert forall|q: int| 0 <= q < t.token@.len() implies t.token@[q] == pw.subrange(
                    t.start as int,
                    t.end as int + 1,
                )[q] by {
                    assert(t.token@[q] == m.token@[m.token@.len() - 1 - q]);
                    assert(m.token@[m.token@.len() - 1 - q] == rev_seq(pw)[m.start + m.token@.len()
                        - 1 - q]);
                    assert(rev_seq(pw)[m.start + m.token@.len() - 1 - q] == pw[pw.len() - 1
                        - (m.start + m.token@.len() - 1 - q)]);
                }
            }
            assert(rev_match_ok(pw, dname, dict, t));
        }
        out.push(t);
    }
    let ghost pre = out@;
    proof {
        assert(pre.len() == src0.len());
        assert(distinct_spans(pre)) by {
            assert forall|k1: int, k2: int| 0 <= k1 < k2 < pre.len() implies !((
            #[trigger] pre[k1]).start == (#[trigger] pre[k2]).start && pre[k1].end
                == pre[k2].end) by {
                assert(dict_match_ok(rev_seq(pw), dname, dict, src0[k1]));
                assert(dict_match_ok(rev_seq(pw), dname, dict, src0[k2]));
                assert(!(src0[k1].start == src0[k2].start && src0[k1].end == src0[k2].end));
            }
        }
    }
    sort_matches(&mut out);
    proof {
        lemma_multiset_members(pre, out@);
        lemma_multiset_distinct_spans(pre, out@);
        assert forall|k: int| 0 <= k < out@.len() implies rev_match_ok(
            pw,
            dname,
            dict,
            #[trigger] out@[k],
        ) by {
            assert(out@.contains(out@[k]));
            assert(pre.contains(out@[k]));
            let k0 = choose|k0: int| 0 <= k0 < pre.len() && pre[k0] == out@[k];
            assert(rev_match_ok(pw, dname, dict, pre[k0]));
        }
        assert forall|a: int, b: int| dict_hit(rev_seq(pw), dict, a, b) implies exists|k: int|
            0 <= k < out@.len() && (#[trigger] out@[k]).start == pw.len() - 1 - b && out@[k].end
                == pw.len() - 1 - a by {
            let ks = choose|ks: int|
                0 <= ks < src0.len() && (#[trigger] src0[ks]).start == a && src0[ks].end == b;
            assert(pre[ks].start == pw.len() - 1 - b && pre[ks].end == pw.len() - 1 - a);
            assert(pre.contains(pre[ks]));
            assert(out@.contains(pre[ks]));
            let k2 = choose|k2: int| 0 <= k2 < out@.len() && out@[k2] == pre[ks];
            assert(out@[k2].start == pw.len() - 1 - b && out@[k2].end == pw.len() - 1 - a);
        }
    }
    out
}

} // verus!
