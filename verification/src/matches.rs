//! The match record shared by every matcher.
//!
//! A match covers the characters `start..=end` of the password, carries the
//! covered substring as `token`, and pattern-specific metadata in `data`.

use vstd::prelude::*;
use crate::dates::Date;

verus! {

/// The l33t substitutions seen inside one dictionary match: each entry maps
/// a symbol of the token to the letters it stood for in the matched word.
#[derive(Debug)]
pub struct L33tData {
    pub l33t_subs: Vec<(char, String)>,
}

/// Pattern-specific metadata of a match.
#[derive(Debug)]
pub enum MatchData {
    /// Used for matches which don't require metadata (bruteforce fill).
    Plain,
    Dictionary {
        matched_word: String,
        rank: usize,
        dictionary_name: String,
        reversed: bool,
        l33t: Option<L33tData>,
    },
    Spatial {
        graph: String,
        turns: usize,
        shifted_count: usize,
    },
    Repeat {
        base_token: String,
        base_guesses: u64,
        repeat_count: usize,
    },
    Sequence {
        name: String,
        space: u32,
        ascending: bool,
    },
    Regex {
        name: String,
    },
    Date {
        separator: char,
        date: Date,
    },
}

/// One candidate weakness: a tagged span of the password.
#[derive(Debug)]
pub struct BaseMatch {
    pub pattern: String,
    pub start: usize,
    pub end: usize,
    pub token: String,
    pub data: MatchData,
}

/// Content equality of two substitution tables.
pub open spec fn subs_eq(a: Seq<(char, String)>, b: Seq<(char, String)>) -> bool {
    &&& a.len() == b.len()
    &&& forall|i: int| 0 <= i < a.len() ==> a[i].0 == b[i].0 && a[i].1@ == b[i].1@
}

/// Content equality of match metadata: the same variant with the same
/// values, strings compared by their characters.
pub open spec fn data_eq(a: MatchData, b: MatchData) -> bool {
    match (a, b) {
        (MatchData::Plain, MatchData::Plain) => true,
        (
            MatchData::Dictionary { matched_word: w1, rank: r1, dictionary_name: n1, reversed: v1, l33t: l1 },
            MatchData::Dictionary { matched_word: w2, rank: r2, dictionary_name: n2, reversed: v2, l33t: l2 },
        ) => {
            &&& w1@ == w2@
            &&& r1 == r2
            &&& n1@ == n2@
            &&& v1 == v2
            &&& match (l1, l2) {
                (Option::None, Option::None) => true,
                (Option::Some(s1), Option::Some(s2)) => subs_eq(s1.l33t_subs@, s2.l33t_subs@),
                _ => false,
            }
        },
        (
            MatchData::Spatial { graph: g1, turns: t1, shifted_count: s1 },
            MatchData::Spatial { graph: g2, turns: t2, shifted_count: s2 },
        ) => g1@ == g2@ && t1 == t2 && s1 == s2,
        (
            MatchData::Repeat { base_token: b1, base_guesses: g1, repeat_count: c1 },
            MatchData::Repeat { base_token: b2, base_guesses: g2, repeat_count: c2 },
        ) => b1@ == b2@ && g1 == g2 && c1 == c2,
        (
            MatchData::Sequence { name: n1, space: s1, ascending: a1 },
            MatchData::Sequence { name: n2, space: s2, ascending: a2 },
        ) => n1@ == n2@ && s1 == s2 && a1 == a2,
        (MatchData::Regex { name: n1 }, MatchData::Regex { name: n2 }) => n1@ == n2@,
        (
            MatchData::Date { separator: s1, date: d1 },
            MatchData::Date { separator: s2, date: d2 },
        ) => s1 == s2 && d1 == d2,
        _ => false,
    }
}

/// Content equality of two matches.
pub open spec fn match_eq(a: BaseMatch, b: BaseMatch) -> bool {
    &&& a.pattern@ == b.pattern@
    &&& a.start == b.start
    &&& a.end == b.end
    &&& a.token@ == b.token@
    &&& data_eq(a.data, b.data)
}

impl Clone for L33tData {
    fn clone(&self) -> (r: Self)
        ensures
            subs_eq(r.l33t_subs@, self.l33t_subs@),
    {
        let mut subs: Vec<(char, String)> = Vec::new();
        let mut i: usize = 0;
        while i < self.l33t_subs.len()
            invariant
                i <= self.l33t_subs.len(),
                subs.len() == i,
                forall|k: int|
                    0 <= k < i ==> subs@[k].0 == self.l33t_subs@[k].0 && subs@[k].1@
                        == self.l33t_subs@[k].1@,
            decreases self.l33t_subs.len() - i,
        {
            let c = self.l33t_subs[i].0;
            let s = self.l33t_subs[i].1.clone();
            subs.push((c, s));
            i = i + 1;
        }
        L33tData { l33t_subs: subs }
    }
}

impl Clone for MatchData {
    fn clone(&self) -> (r: Self)
        ensures
            data_eq(r, *self),
    {
        match self {
            MatchData::Plain => MatchData::Plain,
            MatchData::Dictionary { matched_word, rank, dictionary_name, reversed, l33t } => {
                let l = match l33t {
                    Option::None => Option::None,
                    Option::Some(s) => Option::Some(s.clone()),
                };
                MatchData::Dictionary {
                    matched_word: matched_word.clone(),
                    rank: *rank,
                    dictionary_name: dictionary_name.clone(),
                    reversed: *reversed,
                    l33t: l,
                }
            },
            MatchData::Spatial { graph, turns, shifted_count } => MatchData::Spatial {
                graph: graph.clone(),
                turns: *turns,
                shifted_count: *shifted_count,
            },
            MatchData::Repeat { base_token, base_guesses, repeat_count } => MatchData::Repeat {
                base_token: base_token.clone(),
                base_guesses: *base_guesses,
                repeat_count: *repeat_count,
            },
            MatchData::Sequence { name, space, ascending } => MatchData::Sequence {
                name: name.clone(),
                space: *space,
                ascending: *ascending,
            },
            MatchData::Regex { name } => MatchData::Regex { name: name.clone() },
            MatchData::Date { separator, date } => MatchData::Date {
                separator: *separator,
                date: *date,
            },
        }
    }
}

impl Clone for BaseMatch {
    fn clone(&self) -> (r: Self)
        ensures
            match_eq(r, *self),
    {
        BaseMatch {
            pattern: self.pattern.clone(),
            start: self.start,
            end: self.end,
            token: self.token.clone(),
            data: self.data.clone(),
        }
    }
}

/// Content equality of matches carries over a middle match.
pub proof fn lemma_match_eq_trans(a: BaseMatch, b: BaseMatch, c: BaseMatch)
    requires
        match_eq(a, b),
        match_eq(b, c),
    ensures
        match_eq(a, c),
{
    match (a.data, b.data, c.data) {
        (MatchData::Plain, MatchData::Plain, MatchData::Plain) => {},
        (MatchData::Dictionary { .. }, MatchData::Dictionary { .. }, MatchData::Dictionary {
            ..
        }) => {},
        (MatchData::Spatial { .. }, MatchData::Spatial { .. }, MatchData::Spatial { .. }) => {},
        (MatchData::Repeat { .. }, MatchData::Repeat { .. }, MatchData::Repeat { .. }) => {},
        (MatchData::Sequence { .. }, MatchData::Sequence { .. }, MatchData::Sequence { .. }) => {},
        (MatchData::Regex { .. }, MatchData::Regex { .. }, MatchData::Regex { .. }) => {},
        (MatchData::Date { .. }, MatchData::Date { .. }, MatchData::Date { .. }) => {},
        _ => {},
    }
}

/// A match is well formed for a password when it covers a real span and its
/// token is exactly the covered substring.
pub open spec fn wf_match(pw: Seq<char>, m: BaseMatch) -> bool {
    &&& m.start <= m.end
    &&& m.end < pw.len()
    &&& m.token@ == pw.subrange(m.start as int, m.end as int + 1)
}

pub open spec fn all_wf(pw: Seq<char>, s: Seq<BaseMatch>) -> bool {
    forall|i: int| 0 <= i < s.len() ==> wf_match(pw, #[trigger] s[i])
}

/// No two matches cover exactly the same span.
pub open spec fn distinct_spans(s: Seq<BaseMatch>) -> bool {
    forall|i: int, j: int|
        0 <= i < j < s.len() ==> !((#[trigger] s[i]).start == (#[trigger] s[j]).start && s[i].end
            == s[j].end)
}

/// Two sequences with the same multiset have the same members.
pub proof fn lemma_multiset_members(a: Seq<BaseMatch>, b: Seq<BaseMatch>)
    requires
        a.to_multiset() == b.to_multiset(),
    ensures
        forall|m: BaseMatch| a.contains(m) <==> b.contains(m),
{
    broadcast use vstd::seq_lib::group_to_multiset_ensures;

    assert forall|m: BaseMatch| a.contains(m) <==> b.contains(m) by {
        assert(a.contains(m) <==> a.to_multiset().count(m) > 0);
        assert(b.contains(m) <==> b.to_multiset().count(m) > 0);
    }
}

/// Reordering a sequence of matches keeps its spans pairwise distinct.
pub proof fn lemma_multiset_distinct_spans(a: Seq<BaseMatch>, b: Seq<BaseMatch>)
    requires
        a.to_multiset() == b.to_multiset(),
        distinct_spans(a),
    ensures
        distinct_spans(b),
{
    broadcast use vstd::seq_lib::group_to_multiset_ensures;

    assert forall|i: int, j: int|
        0 <= i < a.len() && 0 <= j < a.len() && i != j implies a[i] != a[j] by {
        if i < j {
            assert(!(a[i].start == a[j].start && a[i].end == a[j].end));
        } else {
            assert(!(a[j].start == a[i].start && a[j].end == a[i].end));
        }
    }
    assert(a.no_duplicates());
    a.lemma_multiset_has_no_duplicates();
    b.lemma_multiset_has_no_duplicates_conv();
    assert forall|i: int, j: int| 0 <= i < j < b.len() implies !((#[trigger] b[i]).start
        == (#[trigger] b[j]).start && b[i].end == b[j].end) by {
        let m1 = b[i];
        let m2 = b[j];
        if m1.start == m2.start && m1.end == m2.end {
            assert(m1 != m2);
            assert(b.contains(m1));
            assert(b.contains(m2));
            lemma_multiset_members(a, b);
            let i1 = choose|k: int| 0 <= k < a.len() && a[k] == m1;
            let i2 = choose|k: int| 0 <= k < a.len() && a[k] == m2;
            assert(a[i1] == m1 && a[i2] == m2);
            assert(false);
        }
    }
}

/// Order of matches: by start position, then by end position.
pub open spec fn match_le(a: BaseMatch, b: BaseMatch) -> bool {
    a.start < b.start || (a.start == b.start && a.end <= b.end)
}

pub open spec fn sorted_by_position(s: Seq<BaseMatch>) -> bool {
    forall|i: int, j: int| 0 <= i < j < s.len() ==> match_le(#[trigger] s[i], #[trigger] s[j])
}

fn le(a: &BaseMatch, b: &BaseMatch) -> (r: bool)
    ensures
        r == match_le(*a, *b),
{
    a.start < b.start || (a.start == b.start && a.end <= b.end)
}

/// Sorts matches in place by `(start, end)`; the multiset of matches is
/// unchanged.
pub fn sort_matches(v: &mut Vec<BaseMatch>)
    ensures
        sorted_by_position(final(v)@),
        final(v)@.to_multiset() == old(v)@.to_multiset(),
        final(v)@.len() == old(v)@.len(),
{
    broadcast use vstd::seq_lib::group_to_multiset_ensures;

    if v.len() == 0 {
        return ;
    }
    let mut i: usize = 1;
    while i < v.len()
        invariant
            1 <= i <= v@.len(),
            v@.len() == old(v)@.len(),
            v@.to_multiset() == old(v)@.to_multiset(),
            sorted_by_position(v@.subrange(0, i as int)),
        decreases v@.len() - i,
    {
        let ghost prev = v@;
        let x = v.remove(i);
        let mut j: usize = 0;
        while j < i && le(&v[j], &x)
            invariant
                j <= i < prev.len(),
                v@ == prev.remove(i as int),
                forall|k: int| 0 <= k < j ==> match_le(#[trigger] v@[k], x),
            decreases i - j,
        {
            j = j + 1;
        }
        proof {
            // everything at or past the insertion point is at least x
            let pre = prev.subrange(0, i as int);
            assert forall|k: int| j <= k < i implies match_le(x, #[trigger] v@[k]) by {
                assert(!match_le(v@[j as int], x));
                if k > j {
                    assert(pre[j as int] == prev[j as int]);
                    assert(pre[k] == prev[k]);
                    assert(match_le(pre[j as int], pre[k]));
                }
                assert(v@[j as int] == prev[j as int]);
                assert(v@[k] == prev[k]);
            }
        }
        v.insert(j, x);
        proof {
            broadcast use vstd::seq_lib::group_to_multiset_ensures;

            assert(v@.to_multiset() == old(v)@.to_multiset()) by {
                assert(prev.remove(i as int).to_multiset() == prev.to_multiset().remove(
                    prev[i as int],
                ));
                assert(prev.remove(i as int).insert(j as int, x).to_multiset() == prev.remove(
                    i as int,
                ).to_multiset().insert(x));
                assert(prev.contains(prev[i as int]));
                assert(prev.to_multiset().remove(x).insert(x) =~= prev.to_multiset());
            }
            assert(sorted_by_position(v@.subrange(0, i + 1))) by {
                let cur = v@.subrange(0, i + 1);
                assert forall|p: int, q: int| 0 <= p < q < cur.len() implies match_le(
                    #[trigger] cur[p],
                    #[trigger] cur[q],
                ) by {
                    let old_pre = prev.subrange(0, i as int);
                    assert(forall|k: int|
                        0 <= k < j ==> cur[k] == old_pre[k] && match_le(#[trigger] cur[k], x));
                    assert(cur[j as int] == x);
                    assert(forall|k: int|
                        j < k <= i ==> cur[k] == old_pre[k - 1] && match_le(x, #[trigger] cur[k]));
                }
            }
        }
        i = i + 1;
    }
    proof {
        assert(v@.subrange(0, v@.len() as int) =~= v@);
    }
}

} // verus!
