//! The l33t-substitution matcher.
//!
//! Symbols that stand for exactly one letter are substituted outright; the
//! remaining ambiguous symbols are tried in every combination of their
//! candidate letters that maps no two symbols to the same letter. Each
//! substituted string is run through the dictionary matcher, and every hit
//! is mapped back onto the original characters.

use vstd::prelude::*;
use crate::matches::{BaseMatch, MatchData, L33tData, wf_match, sorted_by_position, sort_matches,
    lemma_multiset_members};
use crate::dictionary::{views, dict_pos, dict_hit, is_dictionary_output, dictionary_match};
use crate::text::{lower_seq, push_char, str_eq};

verus! {

/// The candidate letters a l33t symbol may stand for; empty for ordinary
/// characters.
pub open spec fn l33t_table(c: char) -> Seq<char> {
    if c == '4' || c == '@' {
        "a"@
    } else if c == '8' {
        "b"@
    } else if c == '(' || c == '{' || c == '[' || c == '<' {
        "c"@
    } else if c == '3' {
        "e"@
    } else if c == '6' || c == '9' {
        "g"@
    } else if c == '1' || c == '!' {
        "il"@
    } else if c == '|' {
        "i"@
    } else if c == '7' {
        "lt"@
    } else if c == '0' {
        "o"@
    } else if c == '$' || c == '5' {
        "s"@
    } else if c == '+' {
        "t"@
    } else if c == '%' {
        "x"@
    } else if c == '2' {
        "z"@
    } else {
        Seq::empty()
    }
}

/// The candidate letters of a symbol, as a string slice.
fn l33t_targets(c: char) -> (r: &'static str)
    ensures
        r@ == l33t_table(c),
{
    proof {
        reveal_strlit("a");
        reveal_strlit("b");
        reveal_strlit("c");
        reveal_strlit("e");
        reveal_strlit("g");
        reveal_strlit("il");
        reveal_strlit("i");
        reveal_strlit("lt");
        reveal_strlit("o");
        reveal_strlit("s");
        reveal_strlit("t");
        reveal_strlit("x");
        reveal_strlit("z");
        reveal_strlit("");
    }
    if c == '4' || c == '@' {
        "a"
    } else if c == '8' {
        "b"
    } else if c == '(' || c == '{' || c == '[' || c == '<' {
        "c"
    } else if c == '3' {
        "e"
    } else if c == '6' || c == '9' {
        "g"
    } else if c == '1' || c == '!' {
        "il"
    } else if c == '|' {
        "i"
    } else if c == '7' {
        "lt"
    } else if c == '0' {
        "o"
    } else if c == '$' || c == '5' {
        "s"
    } else if c == '+' {
        "t"
    } else if c == '%' {
        "x"
    } else if c == '2' {
        "z"
    } else {
        ""
    }
}

/// No symbol stands for more than two letters.
pub proof fn lemma_table_small(c: char)
    ensures
        l33t_table(c).len() <= 2,
{
    reveal_strlit("a");
    reveal_strlit("b");
    reveal_strlit("c");
    reveal_strlit("e");
    reveal_strlit("g");
    reveal_strlit("il");
    reveal_strlit("i");
    reveal_strlit("lt");
    reveal_strlit("o");
    reveal_strlit("s");
    reveal_strlit("t");
    reveal_strlit("x");
    reveal_strlit("z");
    reveal_strlit("");
}

/// The unambiguous substitution of one character.
pub open spec fn spec_partial_char(c: char) -> char {
    if l33t_table(c).len() == 1 {
        l33t_table(c)[0]
    } else {
        c
    }
}

/// The password with every unambiguous symbol substituted.
pub open spec fn partial_sub(pw: Seq<char>) -> Seq<char> {
    pw.map_values(|c: char| spec_partial_char(c))
}

/// The password still holds a symbol with several candidate letters.
pub open spec fn has_ambiguous(pw: Seq<char>) -> bool {
    exists|t: int| 0 <= t < pw.len() && (#[trigger] l33t_table(pw[t])).len() >= 2
}

/// The password holds this character somewhere.
pub open spec fn sym_present(pw: Seq<char>, c: char) -> bool {
    exists|w: int| 0 <= w < pw.len() && pw[w] == c
}

/// The letter an assignment gives to a symbol.
pub open spec fn asg_lookup(asg: Seq<(char, char)>, c: char) -> Option<char>
    decreases asg.len(),
{
    if asg.len() == 0 {
        Option::None
    } else if asg[0].0 == c {
        Option::Some(asg[0].1)
    } else {
        asg_lookup(asg.drop_first(), c)
    }
}

/// A choice of one letter per ambiguous symbol of the password, no two
/// symbols getting the same letter.
pub open spec fn valid_asg(pw: Seq<char>, asg: Seq<(char, char)>) -> bool {
    &&& forall|q: int|
        0 <= q < asg.len() ==> l33t_table((#[trigger] asg[q]).0).contains(asg[q].1)
    &&& forall|q: int|
        0 <= q < asg.len() ==> sym_present(pw, (#[trigger] asg[q]).0) && l33t_table(asg[q].0).len()
            >= 2
    &&& forall|q1: int, q2: int|
        0 <= q1 < q2 < asg.len() ==> (#[trigger] asg[q1]).0 != (#[trigger] asg[q2]).0 && asg[q1].1
            != asg[q2].1
    &&& forall|t: int|
        0 <= t < pw.len() && (#[trigger] l33t_table(pw[t])).len() >= 2 ==> asg_lookup(asg, pw[t])
            is Some
}

/// The password with an assignment applied on top of the unambiguous
/// substitutions.
pub open spec fn full_sub(pw: Seq<char>, asg: Seq<(char, char)>) -> Seq<char> {
    partial_sub(pw).map_values(
        |c: char|
            match asg_lookup(asg, c) {
                Option::Some(l) => l,
                Option::None => c,
            },
    )
}

/// A string the l33t matcher may have run the dictionary matcher on.
pub open spec fn l33t_source_ok(pw: Seq<char>, sub: Seq<char>) -> bool {
    ||| (!has_ambiguous(pw) && sub == partial_sub(pw) && sub != pw)
    ||| (exists|asg: Seq<(char, char)>| valid_asg(pw, asg) && sub == full_sub(pw, asg))
}


/// The ambiguous symbols of the password, in order of first sight.
pub open spec fn ambig_syms(pw: Seq<char>) -> Seq<char>
    decreases pw.len(),
{
    if pw.len() == 0 {
        Seq::empty()
    } else {
        let rest = ambig_syms(pw.drop_last());
        let c = pw.last();
        if l33t_table(c).len() >= 2 && !rest.contains(c) {
            rest.push(c)
        } else {
            rest
        }
    }
}

/// Pairs each symbol with its chosen letter.
pub open spec fn pair_asg(syms: Seq<char>, choice: Seq<char>) -> Seq<(char, char)> {
    Seq::new(syms.len(), |u: int| (syms[u], choice[u]))
}

/// One letter per ambiguous symbol of the password, each among the
/// symbol's candidates, no letter chosen twice.
pub open spec fn valid_choice(pw: Seq<char>, choice: Seq<char>) -> bool {
    let syms = ambig_syms(pw);
    &&& choice.len() == syms.len()
    &&& forall|u: int|
        0 <= u < choice.len() ==> l33t_table(syms[u]).contains(#[trigger] choice[u])
    &&& forall|u1: int, u2: int|
        0 <= u1 < u2 < choice.len() ==> #[trigger] choice[u1] != #[trigger] choice[u2]
}

/// Every dictionary hit of the string substituted under this choice has a
/// match in `r` over the same span.
pub open spec fn covers_assignment(
    pw: Seq<char>,
    dict: Seq<Seq<char>>,
    r: Seq<BaseMatch>,
    choice: Seq<char>,
) -> bool {
    forall|i: int, j: int|
        dict_hit(full_sub(pw, pair_asg(ambig_syms(pw), choice)), dict, i, j) ==> exists|q: int|
            0 <= q < r.len() && (#[trigger] r[q]).start == i && r[q].end == j
}

/// The choice a combination number stands for: digit by digit in mixed
/// radix, least significant symbol first.
pub open spec fn decode_choice(syms: Seq<char>, idx: int) -> Seq<char>
    decreases syms.len(),
{
    if syms.len() == 0 {
        Seq::empty()
    } else {
        let sz = l33t_table(syms[0]).len() as int;
        seq![l33t_table(syms[0])[idx % sz]] + decode_choice(syms.drop_first(), idx / sz)
    }
}

/// How many combination numbers there are.
pub open spec fn spec_combos(syms: Seq<char>) -> int
    decreases syms.len(),
{
    if syms.len() == 0 {
        1
    } else {
        l33t_table(syms[0]).len() * spec_combos(syms.drop_first())
    }
}

proof fn lemma_decode_len(syms: Seq<char>, idx: int)
    ensures
        decode_choice(syms, idx).len() == syms.len(),
    decreases syms.len(),
{
    if syms.len() > 0 {
        let sz = l33t_table(syms[0]).len() as int;
        lemma_decode_len(syms.drop_first(), idx / sz);
    }
}

/// Every valid letter assignment is the decoding of some combination
/// number below the count.
proof fn lemma_decode_surjective(syms: Seq<char>, choice: Seq<char>)
    requires
        choice.len() == syms.len(),
        forall|u: int|
            0 <= u < choice.len() ==> l33t_table(syms[u]).contains(#[trigger] choice[u]),
    ensures
        exists|idx: int|
            0 <= idx < spec_combos(syms) && decode_choice(syms, idx) == choice,
    decreases syms.len(),
{
    if syms.len() == 0 {
        assert(decode_choice(syms, 0) =~= choice);
        assert(0 <= 0 < spec_combos(syms) && decode_choice(syms, 0) == choice);
    } else {
        let sz = l33t_table(syms[0]).len() as int;
        assert(l33t_table(syms[0]).contains(choice[0]));
        let d0 = choose|d0: int| 0 <= d0 < sz && l33t_table(syms[0])[d0] == choice[0];
        let syms2 = syms.drop_first();
        let choice2 = choice.drop_first();
        assert(forall|u: int| 0 <= u < choice2.len() ==> #[trigger] choice2[u] == choice[u + 1]);
        assert forall|u: int|
            0 <= u < choice2.len() implies l33t_table(syms2[u]).contains(
            #[trigger] choice2[u],
        ) by {
            assert(syms2[u] == syms[u + 1]);
            assert(choice2[u] == choice[u + 1]);
        }
        lemma_decode_surjective(syms2, choice2);
        let idx2 = choose|idx2: int|
            0 <= idx2 < spec_combos(syms2) && decode_choice(syms2, idx2) == choice2;
        let idx = d0 + sz * idx2;
        assert(idx == idx2 * sz + d0) by (nonlinear_arith)
            requires idx == d0 + sz * idx2;
        vstd::arithmetic::div_mod::lemma_fundamental_div_mod_converse(idx, sz, idx2, d0);
        assert(decode_choice(syms, idx) == seq![choice[0]] + choice2);
        assert(seq![choice[0]] + choice2 =~= choice);
        assert(idx < sz * spec_combos(syms2)) by (nonlinear_arith)
            requires idx == d0 + sz * idx2 && 0 <= d0 < sz && 0 <= idx2 && idx2 + 1
                <= spec_combos(syms2);
        assert(0 <= idx < spec_combos(syms) && decode_choice(syms, idx) == choice);
    }
}

/// Only three symbols of the table are ambiguous.
proof fn lemma_ambiguous_symbols(c: char)
    requires
        l33t_table(c).len() >= 2,
    ensures
        c == '1' || c == '!' || c == '7',
{
    reveal_strlit("a");
    reveal_strlit("b");
    reveal_strlit("c");
    reveal_strlit("e");
    reveal_strlit("g");
    reveal_strlit("il");
    reveal_strlit("i");
    reveal_strlit("lt");
    reveal_strlit("o");
    reveal_strlit("s");
    reveal_strlit("t");
    reveal_strlit("x");
    reveal_strlit("z");
    reveal_strlit("");
}

/// Two to the `n`-th power, as a combination bound.
pub open spec fn two_pow(n: int) -> int
    decreases n,
{
    if n <= 0 {
        1
    } else {
        2 * two_pow(n - 1)
    }
}

proof fn lemma_combos_bound(syms: Seq<char>)
    requires
        forall|u: int| 0 <= u < syms.len() ==> 1 <= (#[trigger] l33t_table(syms[u])).len() <= 2,
    ensures
        1 <= spec_combos(syms) <= two_pow(syms.len() as int),
    decreases syms.len(),
{
    if syms.len() > 0 {
        let syms2 = syms.drop_first();
        assert(forall|u: int| 0 <= u < syms2.len() ==> #[trigger] syms2[u] == syms[u + 1]);
        lemma_combos_bound(syms2);
        let t0 = l33t_table(syms[0]).len() as int;
        assert(1 <= t0 * spec_combos(syms2) <= 2 * two_pow(syms2.len() as int))
            by (nonlinear_arith)
            requires 1 <= t0 <= 2 && 1 <= spec_combos(syms2) <= two_pow(syms2.len() as int);
    }
}

proof fn lemma_combos_tail_bounds(syms: Seq<char>, q: int)
    requires
        0 <= q <= syms.len(),
        forall|u: int| 0 <= u < syms.len() ==> 1 <= (#[trigger] l33t_table(syms[u])).len() <= 2,
    ensures
        1 <= spec_combos(syms.skip(q)),
{
    let tail = syms.skip(q);
    assert forall|u: int|
        0 <= u < tail.len() implies 1 <= (#[trigger] l33t_table(tail[u])).len() <= 2 by {
        assert(tail[u] == syms[u + q]);
    }
    lemma_combos_bound(tail);
}

/// The matches collected so far settle combination number `idx2`: either
/// its letters collide, or every hit under it is present.
pub open spec fn enumerated_ok(
    pw: Seq<char>,
    dict: Seq<Seq<char>>,
    r: Seq<BaseMatch>,
    idx2: int,
) -> bool {
    let choice = decode_choice(ambig_syms(pw), idx2);
    (forall|u1: int, u2: int|
        0 <= u1 < u2 < choice.len() ==> choice[u1] != choice[u2]) ==> covers_assignment(
        pw,
        dict,
        r,
        choice,
    )
}

/// Pairwise distinct symbols drawn from three candidates are at most three.
proof fn lemma_few_ambig_syms(syms: Seq<char>)
    requires
        forall|u: int| 0 <= u < syms.len() ==> (#[trigger] l33t_table(syms[u])).len() >= 2,
        forall|u1: int, u2: int|
            0 <= u1 < u2 < syms.len() ==> #[trigger] syms[u1] != #[trigger] syms[u2],
    ensures
        syms.len() <= 3,
{
    if syms.len() >= 4 {
        lemma_ambiguous_symbols(syms[0]);
        lemma_ambiguous_symbols(syms[1]);
        lemma_ambiguous_symbols(syms[2]);
        lemma_ambiguous_symbols(syms[3]);
        assert(false);
    }
}

/// The substitution table read off one aligned match: each symbol of the
/// token maps to the letters it stood for, in order of first sight.
pub open spec fn align_step(acc: Seq<(char, Seq<char>)>, k: char, v: char) -> Seq<
    (char, Seq<char>),
>
    decreases acc.len(),
{
    if k == v {
        acc
    } else if acc.len() == 0 {
        seq![(k, seq![v])]
    } else if acc[0].0 == k {
        if acc[0].1.contains(v) {
            acc
        } else {
            seq![(k, acc[0].1.push(v))] + acc.drop_first()
        }
    } else {
        seq![acc[0]] + align_step(acc.drop_first(), k, v)
    }
}

pub open spec fn align_subs(tok: Seq<char>, w: Seq<char>, t: int) -> Seq<(char, Seq<char>)>
    decreases t,
{
    if t <= 0 {
        Seq::empty()
    } else {
        align_step(align_subs(tok, w, t - 1), tok[t - 1], w[t - 1])
    }
}

/// The character sequences of a substitution table.
pub open spec fn subs_view(v: Seq<(char, String)>) -> Seq<(char, Seq<char>)> {
    v.map_values(|p: (char, String)| (p.0, p.1@))
}

/// An exact description of one l33t match found through the substituted
/// string `sub`.
pub open spec fn l33t_sub_match_ok(
    pw: Seq<char>,
    sub: Seq<char>,
    dname: Seq<char>,
    dict: Seq<Seq<char>>,
    m: BaseMatch,
) -> bool {
    &&& wf_match(pw, m)
    &&& m.pattern@ == "Dictionary"@
    &&& sub.len() == pw.len()
    &&& match m.data {
        MatchData::Dictionary { matched_word, rank, dictionary_name, reversed, l33t } => {
            &&& matched_word@ == lower_seq(sub).subrange(m.start as int, m.end as int + 1)
            &&& rank >= 1
            &&& dict_pos(dict, matched_word@) == Option::Some(rank - 1)
            &&& dictionary_name@ == dname
            &&& reversed == false
            &&& match l33t {
                Option::Some(l) => subs_view(l.l33t_subs@) == align_subs(
                    m.token@,
                    matched_word@,
                    m.token@.len() as int,
                ),
                Option::None => false,
            }
        },
        _ => false,
    }
}

/// The match comes from some legitimate substituted string, exactly.
pub open spec fn l33t_match_sound(
    pw: Seq<char>,
    dname: Seq<char>,
    dict: Seq<Seq<char>>,
    m: BaseMatch,
) -> bool {
    exists|sub: Seq<char>| l33t_source_ok(pw, sub) && l33t_sub_match_ok(pw, sub, dname, dict, m)
}

/// What the l33t matcher promises: every match comes from a legitimate
/// substitution, exactly; and when the password needs no ambiguous choices,
/// the single substituted string is matched completely.
pub open spec fn is_l33t_output(
    pw: Seq<char>,
    dname: Seq<char>,
    dict: Seq<Seq<char>>,
    r: Seq<BaseMatch>,
) -> bool {
    &&& sorted_by_position(r)
    &&& forall|q: int| 0 <= q < r.len() ==> l33t_match_sound(pw, dname, dict, #[trigger] r[q])
    &&& (!has_ambiguous(pw) && partial_sub(pw) != pw ==> forall|i: int, j: int|
        dict_hit(partial_sub(pw), dict, i, j) ==> exists|q: int|
            0 <= q < r.len() && (#[trigger] r[q]).start == i && r[q].end == j)
    &&& (!has_ambiguous(pw) && partial_sub(pw) == pw ==> r.len() == 0)
    &&& (has_ambiguous(pw) ==> forall|choice: Seq<char>|
        valid_choice(pw, choice) ==> #[trigger] covers_assignment(pw, dict, r, choice))
}

/// One alignment step with the key at a known first position: the entry
/// grows unless it already holds the letter.
proof fn lemma_align_step_at(acc: Seq<(char, Seq<char>)>, k: char, v: char, ix: int)
    requires
        k != v,
        0 <= ix < acc.len(),
        acc[ix].0 == k,
        forall|q: int| 0 <= q < ix ==> (#[trigger] acc[q]).0 != k,
    ensures
        align_step(acc, k, v) == if acc[ix].1.contains(v) {
            acc
        } else {
            acc.update(ix, (k, acc[ix].1.push(v)))
        },
    decreases acc.len(),
{
    if ix == 0 {
        if !acc[0].1.contains(v) {
            assert(seq![(k, acc[0].1.push(v))] + acc.drop_first() =~= acc.update(
                0,
                (k, acc[0].1.push(v)),
            ));
        }
    } else {
        let rest = acc.drop_first();
        assert(forall|q: int| 0 <= q < ix - 1 ==> (#[trigger] rest[q]).0 == acc[q + 1].0);
        lemma_align_step_at(rest, k, v, ix - 1);
        if rest[ix - 1].1.contains(v) {
            assert(seq![acc[0]] + rest =~= acc);
        } else {
            assert(seq![acc[0]] + rest.update(ix - 1, (k, rest[ix - 1].1.push(v))) =~= acc.update(
                ix,
                (k, acc[ix].1.push(v)),
            ));
        }
    }
}

/// One alignment step with a fresh key: a new entry at the back.
proof fn lemma_align_step_absent(acc: Seq<(char, Seq<char>)>, k: char, v: char)
    requires
        k != v,
        forall|q: int| 0 <= q < acc.len() ==> (#[trigger] acc[q]).0 != k,
    ensures
        align_step(acc, k, v) == acc.push((k, seq![v])),
    decreases acc.len(),
{
    if acc.len() == 0 {
        assert(align_step(acc, k, v) =~= acc.push((k, seq![v])));
    } else {
        let rest = acc.drop_first();
        assert(forall|q: int| 0 <= q < rest.len() ==> (#[trigger] rest[q]).0 == acc[q + 1].0);
        lemma_align_step_absent(rest, k, v);
        assert(seq![acc[0]] + rest.push((k, seq![v])) =~= acc.push((k, seq![v])));
    }
}

/// Builds the substitution table of one aligned match.
fn build_align_subs(token: &str, word: &str) -> (r: Vec<(char, String)>)
    requires
        token@.len() == word@.len(),
    ensures
        subs_view(r@) == align_subs(token@, word@, token@.len() as int),
{
    let n = token.unicode_len();
    let mut r: Vec<(char, String)> = Vec::new();
    let mut t: usize = 0;
    proof {
        assert(subs_view(r@) =~= align_subs(token@, word@, 0));
    }
    while t < n
        invariant
            n == token@.len() == word@.len(),
            t <= n,
            subs_view(r@) == align_subs(token@, word@, t as int),
        decreases n - t,
    {
        let k = token.get_char(t);
        let v = word.get_char(t);
        let ghost before = subs_view(r@);
        if k != v {
            // find the entry of k
            let mut ix: usize = 0;
            let mut found = false;
            while ix < r.len() && !found
                invariant
                    ix <= r@.len(),
                    !found ==> forall|q: int| 0 <= q < ix ==> (#[trigger] r@[q]).0 != k,
                    found ==> ix < r@.len() && r@[ix as int].0 == k && forall|q: int|
                        0 <= q < ix ==> (#[trigger] r@[q]).0 != k,
                decreases r@.len() - ix + (if found {
                    0int
                } else {
                    1int
                }),
            {
                if r[ix].0 == k {
                    found = true;
                } else {
                    ix = ix + 1;
                }
            }
            if found {
                // append v if it is new for this symbol
                let ghost entry = r@[ix as int].1@;
                let mut seen = false;
                let mut w: usize = 0;
                let entry_len = r[ix].1.as_str().unicode_len();
                while w < entry_len
                    invariant
                        ix < r@.len(),
                        entry == r@[ix as int].1@,
                        entry_len == entry.len(),
                        w <= entry.len(),
                        seen == exists|u: int| 0 <= u < w && entry[u] == v,
                    decreases entry.len() - w,
                {
                    if r[ix].1.as_str().get_char(w) == v {
                        seen = true;
                    }
                    w = w + 1;
                }
                proof {
                    assert(seen == before[ix as int].1.contains(v));
                    lemma_align_step_at(before, k, v, ix as int);
                }
                if !seen {
                    let mut entry_s = r[ix].1.clone();
                    push_char(&mut entry_s, v);
                    let ghost old_view = r@;
                    let _ = r.remove(ix);
                    r.insert(ix, (k, entry_s));
                    proof {
                        assert(r@ =~= old_view.update(ix as int, (k, entry_s)));
                        assert(subs_view(r@) =~= before.update(
                            ix as int,
                            (k, before[ix as int].1.push(v)),
                        ));
                    }
                }
            } else {
                proof {
                    lemma_align_step_absent(before, k, v);
                }
                let mut s = String::new();
                push_char(&mut s, v);
                r.push((k, s));
                proof {
                    assert(subs_view(r@) =~= before.push((k, seq![v])));
                }
            }
        }
        t = t + 1;
    }
    r
}

/// Reruns the dictionary matcher on a substituted string and maps every hit
/// back onto the original characters, recording which symbols stood for
/// which letters.
pub fn check_l33t_sub(
    password: &str,
    sub: &str,
    dictionary_name: &str,
    dictionary: &[String],
) -> (r: Vec<BaseMatch>)
    requires
        sub@.len() == password@.len(),
        password@.len() < usize::MAX,
    ensures
        sorted_by_position(r@),
        crate::matches::distinct_spans(r@),
        forall|q: int|
            0 <= q < r@.len() ==> l33t_sub_match_ok(
                password@,
                sub@,
                dictionary_name@,
                views(dictionary@),
                #[trigger] r@[q],
            ),
        forall|i: int, j: int|
            dict_hit(sub@, views(dictionary@), i, j) ==> exists|q: int|
                0 <= q < r@.len() && (#[trigger] r@[q]).start == i && r@[q].end == j,
{
    let ghost pw = password@;
    let ghost dict = views(dictionary@);
    let ghost dname = dictionary_name@;
    let mut src = dictionary_match(sub, dictionary_name, dictionary);
    let ghost src0 = src@;
    let mut out: Vec<BaseMatch> = Vec::new();
    while src.len() > 0
        invariant
            pw == password@,
            dict == views(dictionary@),
            dname == dictionary_name@,
            sub@.len() == pw.len(),
            pw.len() < usize::MAX,
            is_dictionary_output(sub@, dname, dict, src0),
            out@.len() + src@.len() == src0.len(),
            src@ == src0.subrange(out@.len() as int, src0.len() as int),
            forall|q: int|
                0 <= q < out@.len() ==> l33t_sub_match_ok(pw, sub@, dname, dict, #[trigger] out@[q])
                    && out@[q].start == src0[q].start && out@[q].end == src0[q].end,
        decreases src@.len(),
    {
        let ghost k0 = out@.len() as int;
        let m = src.remove(0);
        proof {
            assert(m == src0[k0]);
            assert(crate::dictionary::dict_match_ok(sub@, dname, dict, src0[k0]));
            assert(src@ =~= src0.subrange(k0 + 1, src0.len() as int));
        }
        let token = password.substring_char(m.start, m.end + 1).to_owned();
        let data = match m.data {
            MatchData::Dictionary { matched_word, rank, dictionary_name: dn, reversed, .. } => {
                let subs = build_align_subs(token.as_str(), matched_word.as_str());
                MatchData::Dictionary {
                    matched_word,
                    rank,
                    dictionary_name: dn,
                    reversed,
                    l33t: Option::Some(L33tData { l33t_subs: subs }),
                }
            },
            other => other,
        };
        let t = BaseMatch { pattern: m.pattern, start: m.start, end: m.end, token, data };
        proof {
            assert(l33t_sub_match_ok(pw, sub@, dname, dict, t));
        }
        out.push(t);
    }
    proof {
        assert forall|i: int, j: int| dict_hit(sub@, dict, i, j) implies exists|q: int|
            0 <= q < out@.len() && (#[trigger] out@[q]).start == i && out@[q].end == j by {
            let ks = choose|ks: int|
                0 <= ks < src0.len() && (#[trigger] src0[ks]).start == i && src0[ks].end == j;
            assert(out@[ks].start == i && out@[ks].end == j);
        }
        assert forall|q1: int, q2: int| 0 <= q1 < q2 < out@.len() implies !((
        #[trigger] out@[q1]).start == (#[trigger] out@[q2]).start && out@[q1].end
            == out@[q2].end) by {
            assert(!(src0[q1].start == src0[q2].start && src0[q1].end == src0[q2].end));
        }
    }
    out
}

/// Finds dictionary words written with l33t substitutions: the unambiguous
/// substitutions are applied outright; if ambiguous symbols remain, every
/// choice of letters that keeps symbols apart is tried.
pub fn l33t_match(password: &str, dictionary_name: &str, dictionary: &[String]) -> (r: Vec<BaseMatch>)
    requires
        password@.len() < usize::MAX,
    ensures
        is_l33t_output(password@, dictionary_name@, views(dictionary@), r@),
{
    let ghost pw = password@;
    let ghost dict = views(dictionary@);
    let ghost dname = dictionary_name@;
    let n = password.unicode_len();
    // the unambiguous substitutions
    let mut partial = String::new();
    let mut t: usize = 0;
    proof {
        assert(partial@ =~= partial_sub(pw).subrange(0, 0));
    }
    while t < n
        invariant
            pw == password@,
            n == pw.len(),
            t <= n,
            partial@ == partial_sub(pw).subrange(0, t as int),
        decreases n - t,
    {
        let c = password.get_char(t);
        let targets = l33t_targets(c);
        let rc = if targets.unicode_len() == 1 {
            targets.get_char(0)
        } else {
            c
        };
        push_char(&mut partial, rc);
        proof {
            assert(partial@ =~= partial_sub(pw).subrange(0, t + 1));
        }
        t = t + 1;
    }
    proof {
        assert(partial_sub(pw).subrange(0, n as int) =~= partial_sub(pw));
        assert(partial@ == partial_sub(pw));
    }
    // the ambiguous symbols present
    let mut syms: Vec<char> = Vec::new();
    let mut t: usize = 0;
    proof {
        assert(syms@ =~= ambig_syms(pw.subrange(0, 0)));
    }
    while t < n
        invariant
            pw == password@,
            n == pw.len(),
            t <= n,
            syms@ == ambig_syms(pw.subrange(0, t as int)),
            forall|q: int| 0 <= q < syms@.len() ==> l33t_table(#[trigger] syms@[q]).len() >= 2,
            forall|q: int| 0 <= q < syms@.len() ==> sym_present(pw, #[trigger] syms@[q]),
            forall|q1: int, q2: int|
                0 <= q1 < q2 < syms@.len() ==> #[trigger] syms@[q1] != #[trigger] syms@[q2],
            forall|u: int|
                0 <= u < t && l33t_table(#[trigger] pw[u]).len() >= 2 ==> syms@.contains(pw[u]),
        decreases n - t,
    {
        let c = password.get_char(t);
        proof {
            assert(pw.subrange(0, t + 1).drop_last() =~= pw.subrange(0, t as int));
            assert(pw.subrange(0, t + 1).last() == pw[t as int]);
        }
        if l33t_targets(c).unicode_len() >= 2 {
            let mut present = false;
            let mut q: usize = 0;
            while q < syms.len() && !present
                invariant
                    q <= syms@.len(),
                    !present ==> forall|u: int| 0 <= u < q ==> #[trigger] syms@[u] != c,
                    present ==> syms@.contains(c),
                decreases syms@.len() - q + (if present {
                    0int
                } else {
                    1int
                }),
            {
                if syms[q] == c {
                    present = true;
                } else {
                    q = q + 1;
                }
            }
            if !present {
                let ghost old_syms = syms@;
                syms.push(c);
                proof {
                    assert(!old_syms.contains(c));
                    assert(syms@[old_syms.len() as int] == c);
                    assert(syms@.contains(c));
                    assert forall|u: int|
                        0 <= u < t && l33t_table(#[trigger] pw[u]).len() >= 2 implies syms@.contains(
                        pw[u],
                    ) by {
                        let w = choose|w: int| 0 <= w < old_syms.len() && old_syms[w] == pw[u];
                        assert(syms@[w] == pw[u]);
                    }
                }
            }
        }
        t = t + 1;
    }
    proof {
        assert(pw.subrange(0, n as int) =~= pw);
        assert(syms@ == ambig_syms(pw));
    }
    let mut matches: Vec<BaseMatch> = Vec::new();
    if syms.len() == 0 {
        proof {
            assert(!has_ambiguous(pw));
        }
        if !str_eq(partial.as_str(), password) {
            let tm = check_l33t_sub(password, partial.as_str(), dictionary_name, dictionary);
            proof {
                assert(l33t_source_ok(pw, partial_sub(pw)));
            }
            return tm;
        } else {
            return matches;
        }
    } else {
        // every combination of candidate letters, one per symbol; the
        // symbols are pairwise distinct and only three are ambiguous, so
        // the count stays small
        proof {
            lemma_few_ambig_syms(syms@);
            assert forall|u: int|
                0 <= u < syms@.len() implies 1 <= (#[trigger] l33t_table(syms@[u])).len()
                <= 2 by {
                lemma_table_small(syms@[u]);
            }
            lemma_combos_bound(syms@);
            assert(two_pow(3) == 8) by {
                assert(two_pow(0) == 1);
                assert(two_pow(1) == 2);
                assert(two_pow(2) == 4);
            }
            assert(spec_combos(syms@) <= 8);
        }
        let mut total: u64 = 1;
        let mut q: usize = 0;
        proof {
            assert(syms@.skip(0) =~= syms@);
        }
        while q < syms.len()
            invariant
                q <= syms@.len(),
                forall|u: int|
                    0 <= u < syms@.len() ==> 1 <= (#[trigger] l33t_table(syms@[u])).len() <= 2,
                1 <= spec_combos(syms@) <= 8,
                total as int * spec_combos(syms@.skip(q as int)) == spec_combos(syms@),
                1 <= total <= 8,
            decreases syms@.len() - q,
        {
            let sz = l33t_targets(syms[q]).unicode_len() as u64;
            proof {
                let tail = syms@.skip(q as int);
                assert(tail[0] == syms@[q as int]);
                assert(tail.drop_first() =~= syms@.skip(q + 1));
                assert(spec_combos(tail) == sz * spec_combos(syms@.skip(q + 1)));
                lemma_combos_tail_bounds(syms@, q + 1);
                assert(total as int * (sz as int * spec_combos(syms@.skip(q + 1))) == spec_combos(
                    syms@,
                ));
                assert((total * sz) as int * spec_combos(syms@.skip(q + 1)) == spec_combos(
                    syms@,
                )) by (nonlinear_arith)
                    requires total as int * (sz as int * spec_combos(syms@.skip(q + 1)))
                        == spec_combos(syms@);
                assert(1 <= total as int * sz <= spec_combos(syms@)) by (nonlinear_arith)
                    requires total as int * (sz as int * spec_combos(syms@.skip(q + 1)))
                        == spec_combos(syms@) && 1 <= spec_combos(syms@.skip(q + 1)) && 1 <= sz
                        && 1 <= total;
            }
            total = total * sz;
            q = q + 1;
        }
        let combos = total;
        proof {
            assert(syms@.skip(syms@.len() as int) =~= Seq::<char>::empty());
            assert(combos as int == spec_combos(syms@));
        }
        proof {
            assert(syms@.len() > 0);
            assert(sym_present(pw, syms@[0]));
            let w = choose|w: int| 0 <= w < pw.len() && pw[w] == syms@[0];
            assert(l33t_table(pw[w]).len() >= 2);
            assert(has_ambiguous(pw));
        }
        let mut idx: u64 = 0;
        while idx < combos
            invariant
                pw == password@,
                dict == views(dictionary@),
                dname == dictionary_name@,
                n == pw.len(),
                pw.len() < usize::MAX,
                has_ambiguous(pw),
                partial@ == partial_sub(pw),
                forall|u: int| 0 <= u < syms@.len() ==> l33t_table(#[trigger] syms@[u]).len() >= 2,
                forall|u: int| 0 <= u < syms@.len() ==> sym_present(pw, #[trigger] syms@[u]),
                forall|q1: int, q2: int|
                    0 <= q1 < q2 < syms@.len() ==> #[trigger] syms@[q1] != #[trigger] syms@[q2],
                forall|u: int|
                    0 <= u < pw.len() && l33t_table(#[trigger] pw[u]).len() >= 2 ==> syms@.contains(
                        pw[u],
                    ),
                forall|q: int|
                    0 <= q < matches@.len() ==> l33t_match_sound(
                        pw,
                        dname,
                        dict,
                        #[trigger] matches@[q],
                    ),
                syms@ == ambig_syms(pw),
                combos as int == spec_combos(syms@),
                forall|idx2: int|
                    0 <= idx2 < idx ==> #[trigger] enumerated_ok(pw, dict, matches@, idx2),
            decreases combos - idx,
        {
            // decode one choice of letters
            let mut choice: Vec<char> = Vec::new();
            let mut rem = idx;
            let mut q: usize = 0;
            proof {
                assert(syms@.skip(0) =~= syms@);
                assert(choice@ =~= decode_choice(syms@, idx as int).take(0));
                lemma_decode_len(syms@, idx as int);
            }
            while q < syms.len()
                invariant
                    q <= syms@.len(),
                    choice@.len() == q,
                    forall|u: int| 0 <= u < syms@.len() ==> l33t_table(
                        #[trigger] syms@[u],
                    ).len() >= 2,
                    forall|u: int|
                        0 <= u < q ==> l33t_table(syms@[u]).contains(#[trigger] choice@[u]),
                    decode_choice(syms@, idx as int).len() == syms@.len(),
                    choice@ == decode_choice(syms@, idx as int).take(q as int),
                    decode_choice(syms@.skip(q as int), rem as int) == decode_choice(
                        syms@,
                        idx as int,
                    ).skip(q as int),
                decreases syms@.len() - q,
            {
                let targets = l33t_targets(syms[q]);
                let sz = targets.unicode_len();
                let ghost tail = syms@.skip(q as int);
                let ghost dc = decode_choice(syms@, idx as int);
                proof {
                    assert(tail[0] == syms@[q as int]);
                    assert(tail.drop_first() =~= syms@.skip(q + 1));
                    assert(dc.skip(q as int)[0] == dc[q as int]);
                    assert(decode_choice(tail, rem as int) == seq![
                        l33t_table(tail[0])[rem as int % (sz as int)],
                    ] + decode_choice(tail.drop_first(), rem as int / (sz as int)));
                }
                let pick = (rem % (sz as u64)) as usize;
                rem = rem / (sz as u64);
                let letter = targets.get_char(pick);
                proof {
                    assert(letter == dc[q as int]);
                    assert(choice@.push(letter) =~= dc.take(q + 1));
                    assert(seq![letter] + decode_choice(syms@.skip(q + 1), rem as int) == dc.skip(
                        q as int,
                    ));
                    assert(decode_choice(syms@.skip(q + 1), rem as int) =~= dc.skip(q + 1)) by {
                        let rest = decode_choice(syms@.skip(q + 1), rem as int);
                        assert((seq![letter] + rest).drop_first() =~= rest);
                        assert(dc.skip(q as int).drop_first() =~= dc.skip(q + 1));
                    }
                }
                choice.push(letter);
                q = q + 1;
            }
            proof {
                assert(choice@ == decode_choice(syms@, idx as int)) by {
                    assert(decode_choice(syms@, idx as int).take(syms@.len() as int)
                        =~= decode_choice(syms@, idx as int));
                }
            }
            // keep the choice only if no two symbols share a letter
            let mut injective = true;
            let mut a: usize = 0;
            while a < choice.len()
                invariant
                    a <= choice@.len(),
                    injective ==> forall|u1: int, u2: int|
                        0 <= u1 < u2 < choice@.len() && u1 < a ==> #[trigger] choice@[u1]
                            != #[trigger] choice@[u2],
                    !injective ==> exists|u1: int, u2: int|
                        0 <= u1 < u2 < choice@.len() && #[trigger] choice@[u1] == #[trigger] choice@[u2],
                decreases choice@.len() - a,
            {
                let mut b: usize = a + 1;
                while b < choice.len()
                    invariant
                        a < choice@.len(),
                        a + 1 <= b <= choice@.len() + 1,
                        injective ==> (forall|u1: int, u2: int|
                            0 <= u1 < u2 < choice@.len() && u1 < a ==> #[trigger] choice@[u1]
                                != #[trigger] choice@[u2]),
                        injective ==> (forall|u2: int|
                            a < u2 < b ==> #[trigger] choice@[u2] != choice@[a as int]),
                        !injective ==> exists|u1: int, u2: int|
                            0 <= u1 < u2 < choice@.len() && #[trigger] choice@[u1]
                                == #[trigger] choice@[u2],
                    decreases choice@.len() - b,
                {
                    if choice[b] == choice[a] {
                        injective = false;
                        proof {
                            let bb = b as int;
                            assert(0 <= a < bb < choice@.len() && choice@[a as int]
                                == choice@[bb]);
                        }
                    }
                    b = b + 1;
                }
                a = a + 1;
            }
            if injective {
                // apply the assignment on top of the unambiguous pass
                let ghost asg = Seq::new(syms@.len(), |u: int| (syms@[u], choice@[u]));
                let mut subbed = String::new();
                let mut t: usize = 0;
                while t < n
                    invariant
                        pw == password@,
                        n == pw.len(),
                        partial@ == partial_sub(pw),
                        t <= n,
                        choice@.len() == syms@.len(),
                        asg == Seq::new(syms@.len(), |u: int| (syms@[u], choice@[u])),
                        subbed@ == full_sub(pw, asg).subrange(0, t as int),
                    decreases n - t,
                {
                    let pc = partial.as_str().get_char(t);
                    // the letter this symbol was assigned, if any
                    let mut rc = pc;
                    let mut q: usize = 0;
                    let mut hit = false;
                    while q < syms.len() && !hit
                        invariant
                            q <= syms@.len(),
                            choice@.len() == syms@.len(),
                            asg == Seq::new(syms@.len(), |u: int| (syms@[u], choice@[u])),
                            !hit ==> rc == pc && forall|u: int|
                                0 <= u < q ==> #[trigger] syms@[u] != pc,
                            hit ==> asg_lookup(asg, pc) == Option::Some(rc),
                        decreases syms@.len() - q + (if hit {
                            0int
                        } else {
                            1int
                        }),
                    {
                        if syms[q] == pc {
                            rc = choice[q];
                            hit = true;
                            proof {
                                lemma_asg_lookup_at(asg, syms@, choice@, q as int);
                            }
                        } else {
                            q = q + 1;
                        }
                    }
                    proof {
                        if !hit {
                            lemma_asg_lookup_absent(asg, syms@, choice@, pc);
                        }
                        assert(subbed@.push(rc) =~= full_sub(pw, asg).subrange(0, t + 1));
                    }
                    push_char(&mut subbed, rc);
                    t = t + 1;
                }
                proof {
                    assert(full_sub(pw, asg).subrange(0, n as int) =~= full_sub(pw, asg));
                    assert(valid_asg(pw, asg)) by {
                        assert(forall|q: int|
                            0 <= q < asg.len() ==> (#[trigger] asg[q]).0 == syms@[q]
                                && asg[q].1 == choice@[q]);
                        assert forall|u: int|
                            0 <= u < pw.len() && (#[trigger] l33t_table(pw[u])).len()
                                >= 2 implies asg_lookup(asg, pw[u]) is Some by {
                            assert(syms@.contains(pw[u]));
                            let w = choose|w: int| 0 <= w < syms@.len() && syms@[w] == pw[u];
                            assert forall|w1: int| 0 <= w1 < w implies #[trigger] syms@[w1]
                                != syms@[w] by {}
                            lemma_asg_lookup_at(asg, syms@, choice@, w);
                        }
                    }
                    assert(l33t_source_ok(pw, subbed@));
                }
                let mut tm = check_l33t_sub(password, subbed.as_str(), dictionary_name, dictionary);
                let ghost tm0 = tm@;
                let ghost before = matches@;
                matches.append(&mut tm);
                proof {
                    assert(matches@ == before + tm0);
                    assert forall|q: int| 0 <= q < matches@.len() implies l33t_match_sound(
                        pw,
                        dname,
                        dict,
                        #[trigger] matches@[q],
                    ) by {
                        if q < before.len() {
                            assert(matches@[q] == before[q]);
                            assert(l33t_match_sound(pw, dname, dict, before[q]));
                        } else {
                            assert(matches@[q] == tm0[q - before.len()]);
                            assert(l33t_source_ok(pw, subbed@) && l33t_sub_match_ok(
                                pw,
                                subbed@,
                                dname,
                                dict,
                                matches@[q],
                            ));
                        }
                    }
                    // earlier combinations stay settled; this one is now
                    // settled by the hits just appended
                    assert forall|idx2: int| 0 <= idx2 < idx + 1 implies #[trigger] enumerated_ok(
                        pw,
                        dict,
                        matches@,
                        idx2,
                    ) by {
                        if idx2 < idx {
                            assert(enumerated_ok(pw, dict, before, idx2));
                            let ch2 = decode_choice(ambig_syms(pw), idx2);
                            if forall|u1: int, u2: int|
                                0 <= u1 < u2 < ch2.len() ==> ch2[u1] != ch2[u2] {
                                assert(covers_assignment(pw, dict, before, ch2));
                                assert forall|i: int, j: int|
                                    dict_hit(
                                        full_sub(pw, pair_asg(ambig_syms(pw), ch2)),
                                        dict,
                                        i,
                                        j,
                                    ) implies exists|q3: int|
                                    0 <= q3 < matches@.len() && (#[trigger] matches@[q3]).start
                                        == i && matches@[q3].end == j by {
                                    let q3 = choose|q3: int|
                                        0 <= q3 < before.len() && (#[trigger] before[q3]).start
                                            == i && before[q3].end == j;
                                    assert(matches@[q3] == before[q3]);
                                }
                            }
                        } else {
                            assert(decode_choice(ambig_syms(pw), idx as int) == choice@);
                            assert(pair_asg(syms@, choice@) =~= asg);
                            assert forall|i: int, j: int|
                                dict_hit(
                                    full_sub(pw, pair_asg(ambig_syms(pw), choice@)),
                                    dict,
                                    i,
                                    j,
                                ) implies exists|q3: int|
                                0 <= q3 < matches@.len() && (#[trigger] matches@[q3]).start == i
                                    && matches@[q3].end == j by {
                                assert(dict_hit(subbed@, dict, i, j));
                                let ks = choose|ks: int|
                                    0 <= ks < tm0.len() && (#[trigger] tm0[ks]).start == i
                                        && tm0[ks].end == j;
                                assert(matches@[before.len() + ks] == tm0[ks]);
                            }
                            assert(covers_assignment(pw, dict, matches@, choice@));
                        }
                    }
                }
            } else {
                proof {
                    // the decoded letters collide: nothing is owed for this
                    // combination
                    assert forall|idx2: int| 0 <= idx2 < idx + 1 implies #[trigger] enumerated_ok(
                        pw,
                        dict,
                        matches@,
                        idx2,
                    ) by {
                        if idx2 == idx {
                            assert(decode_choice(ambig_syms(pw), idx as int) == choice@);
                            let (u1, u2) = choose|u1: int, u2: int|
                                0 <= u1 < u2 < choice@.len() && #[trigger] choice@[u1]
                                    == #[trigger] choice@[u2];
                            assert(!(forall|v1: int, v2: int|
                                0 <= v1 < v2 < choice@.len() ==> choice@[v1] != choice@[v2]));
                        }
                    }
                }
            }
            idx = idx + 1;
        }
    }
    proof {
        assert(syms@.len() > 0);
        assert(sym_present(pw, syms@[0]));
        let w = choose|w: int| 0 <= w < pw.len() && pw[w] == syms@[0];
        assert(l33t_table(pw[w]).len() >= 2);
        assert(has_ambiguous(pw));
    }
    let ghost pre = matches@;
    sort_matches(&mut matches);
    proof {
        lemma_multiset_members(pre, matches@);
        assert forall|q: int| 0 <= q < matches@.len() implies l33t_match_sound(
            pw,
            dname,
            dict,
            #[trigger] matches@[q],
        ) by {
            assert(matches@.contains(matches@[q]));
            assert(pre.contains(matches@[q]));
            let k0 = choose|k0: int| 0 <= k0 < pre.len() && pre[k0] == matches@[q];
            assert(l33t_match_sound(pw, dname, dict, pre[k0]));
        }
        // every valid letter assignment was enumerated, so its hits are in
        assert forall|choicex: Seq<char>| valid_choice(pw, choicex) implies #[trigger] covers_assignment(
            pw,
            dict,
            matches@,
            choicex,
        ) by {
            lemma_decode_surjective(syms@, choicex);
            let idx0 = choose|idx0: int|
                0 <= idx0 < spec_combos(syms@) && decode_choice(syms@, idx0) == choicex;
            assert(enumerated_ok(pw, dict, pre, idx0));
            assert(covers_assignment(pw, dict, pre, choicex));
            assert forall|i: int, j: int|
                dict_hit(full_sub(pw, pair_asg(ambig_syms(pw), choicex)), dict, i, j) implies exists|
                q2: int,
            |
                0 <= q2 < matches@.len() && (#[trigger] matches@[q2]).start == i && matches@[q2].end
                    == j by {
                let ks = choose|ks: int|
                    0 <= ks < pre.len() && (#[trigger] pre[ks]).start == i && pre[ks].end == j;
                assert(pre.contains(pre[ks]));
                assert(matches@.contains(pre[ks]));
                let k2 = choose|k2: int| 0 <= k2 < matches@.len() && matches@[k2] == pre[ks];
                assert(matches@[k2].start == i && matches@[k2].end == j);
            }
        }
    }
    matches
}

/// Looking a symbol up in the assignment built from parallel lists gives
/// the letter at its first position.
proof fn lemma_asg_lookup_at(asg: Seq<(char, char)>, syms: Seq<char>, choice: Seq<char>, w: int)
    requires
        syms.len() == choice.len(),
        asg == Seq::new(syms.len(), |u: int| (syms[u], choice[u])),
        0 <= w < syms.len(),
        forall|u: int| 0 <= u < w ==> #[trigger] syms[u] != syms[w],
    ensures
        asg_lookup(asg, syms[w]) == Option::Some(choice[w]),
    decreases w,
{
    if w == 0 {
        assert(asg[0] == (syms[0], choice[0]));
    } else {
        let asg2 = asg.drop_first();
        let syms2 = syms.drop_first();
        let choice2 = choice.drop_first();
        assert(asg2 =~= Seq::new(syms2.len(), |u: int| (syms2[u], choice2[u])));
        assert(forall|u: int| 0 <= u < w - 1 ==> #[trigger] syms2[u] == syms[u + 1]);
        lemma_asg_lookup_at(asg2, syms2, choice2, w - 1);
        assert(asg[0].0 == syms[0]);
        assert(syms[0] != syms[w]);
    }
}

/// A character that is no symbol of the assignment is left alone.
proof fn lemma_asg_lookup_absent(asg: Seq<(char, char)>, syms: Seq<char>, choice: Seq<char>, c: char)
    requires
        syms.len() == choice.len(),
        asg == Seq::new(syms.len(), |u: int| (syms[u], choice[u])),
        forall|u: int| 0 <= u < syms.len() ==> #[trigger] syms[u] != c,
    ensures
        asg_lookup(asg, c) is None,
    decreases syms.len(),
{
    if syms.len() > 0 {
        let asg2 = asg.drop_first();
        let syms2 = syms.drop_first();
        let choice2 = choice.drop_first();
        assert(asg2 =~= Seq::new(syms2.len(), |u: int| (syms2[u], choice2[u])));
        assert(forall|u: int| 0 <= u < syms2.len() ==> #[trigger] syms2[u] == syms[u + 1]);
        lemma_asg_lookup_absent(asg2, syms2, choice2, c);
    }
}

} // verus!
