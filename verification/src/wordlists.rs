//! The built-in ranked word lists and their deduplication.
//!
//! A word may occur in several raw lists; the deduplication pass gives each
//! word to the single list where it has its best (lowest) rank, ties going
//! to the earlier list, so that no word appears in more than one of the
//! final lists. The built-in lists carry the head of each reference
//! frequency list and stay far below the reference size limits, so no
//! truncation step is needed.

use vstd::prelude::*;
use crate::dictionary::{views, dict_pos};

verus! {

/// Whether list `li` owns the word `w`: `w` occurs in `li`, and every other
/// list that holds `w` holds it at a worse rank (or at the same rank but
/// later in the build order).
pub open spec fn owns(lv: Seq<Seq<Seq<char>>>, li: int, w: Seq<char>) -> bool {
    &&& 0 <= li < lv.len()
    &&& match dict_pos(lv[li], w) {
        Option::None => false,
        Option::Some(wi) => forall|lj: int|
            0 <= lj < lv.len() && lj != li ==> match dict_pos(#[trigger] lv[lj], w) {
                Option::None => true,
                Option::Some(p) => p > wi || (p == wi && lj > li),
            },
    }
}

/// At most one list owns any given word.
pub proof fn lemma_owner_unique(lv: Seq<Seq<Seq<char>>>, i: int, j: int, w: Seq<char>)
    requires
        0 <= i < lv.len(),
        0 <= j < lv.len(),
        i != j,
        owns(lv, i, w),
    ensures
        !owns(lv, j, w),
{
}

/// The views of the name and words of each list.
pub open spec fn list_views(d: Seq<(String, Vec<String>)>) -> Seq<Seq<Seq<char>>> {
    d.map_values(|p: (String, Vec<String>)| views(p.1@))
}

proof fn lemma_filter_push(s: Seq<Seq<char>>, x: Seq<char>, pred: spec_fn(Seq<char>) -> bool)
    ensures
        s.push(x).filter(pred) == if pred(x) {
            s.filter(pred).push(x)
        } else {
            s.filter(pred)
        },
{
    reveal_with_fuel(Seq::<_>::filter, 2);
    assert(s.push(x).drop_last() =~= s);
    assert(s.push(x).last() == x);
}

/// Tests whether list `li` owns the word `w` among the given lists.
fn owner_is(lists: &Vec<(String, Vec<String>)>, li: usize, w: &str) -> (r: bool)
    requires
        li < lists@.len(),
    ensures
        r == owns(list_views(lists@), li as int, w@),
{
    let ghost lv = list_views(lists@);
    proof {
        assert forall|k: int| 0 <= k < lists@.len() implies #[trigger] lv[k] == views(
            lists@[k].1@,
        ) by {}
    }
    let my_pos = match crate::dictionary::find_word(lists[li].1.as_slice(), w) {
        Option::Some(p) => p,
        Option::None => {
            return false;
        },
    };
    let n = lists.len();
    let mut lj: usize = 0;
    while lj < n
        invariant
            n == lists@.len(),
            li < n,
            lj <= n,
            lv == list_views(lists@),
            dict_pos(lv[li as int], w@) == Option::Some(my_pos as int),
            forall|k: int|
                0 <= k < lj && k != li ==> match dict_pos(#[trigger] lv[k], w@) {
                    Option::None => true,
                    Option::Some(p) => p > my_pos || (p == my_pos && k > li),
                },
        decreases n - lj,
    {
        if lj != li {
            match crate::dictionary::find_word(lists[lj].1.as_slice(), w) {
                Option::None => {},
                Option::Some(p) => {
                    if p < my_pos || (p == my_pos && lj < li) {
                        proof {
                            if owns(lv, li as int, w@) {
                                assert(match dict_pos(lv[lj as int], w@) {
                                    Option::None => true,
                                    Option::Some(q) => q > my_pos || (q == my_pos && lj > li),
                                });
                            }
                        }
                        return false;
                    }
                },
            }
        }
        lj = lj + 1;
    }
    true
}

/// Keeps, in every list, exactly the words that the list owns: afterwards
/// no word stands in two lists, and each surviving word keeps its relative
/// order.
pub fn dedup_word_lists(lists: Vec<(String, Vec<String>)>) -> (r: Vec<(String, Vec<String>)>)
    ensures
        r@.len() == lists@.len(),
        forall|li: int| 0 <= li < r@.len() ==> (#[trigger] r@[li]).0@ == lists@[li].0@,
        forall|li: int|
            0 <= li < r@.len() ==> views((#[trigger] r@[li]).1@) == views(lists@[li].1@).filter(
                |w: Seq<char>| owns(list_views(lists@), li, w),
            ),
{
    let ghost lv = list_views(lists@);
    let n = lists.len();
    let mut r: Vec<(String, Vec<String>)> = Vec::new();
    let mut li: usize = 0;
    while li < n
        invariant
            n == lists@.len(),
            li <= n,
            lv == list_views(lists@),
            r@.len() == li,
            forall|k: int| 0 <= k < li ==> (#[trigger] r@[k]).0@ == lists@[k].0@,
            forall|k: int|
                0 <= k < li ==> views((#[trigger] r@[k]).1@) == views(lists@[k].1@).filter(
                    |w: Seq<char>| owns(lv, k, w),
                ),
        decreases n - li,
    {
        let ghost pred = |w: Seq<char>| owns(lv, li as int, w);
        let name = lists[li].0.clone();
        let mut kept: Vec<String> = Vec::new();
        let wn = lists[li].1.len();
        let mut wi: usize = 0;
        proof {
            assert(views(lists@[li as int].1@).subrange(0, 0) =~= Seq::<Seq<char>>::empty());
            reveal_with_fuel(Seq::<_>::filter, 1);
        }
        while wi < wn
            invariant
                li < n,
                n == lists@.len(),
                lv == list_views(lists@),
                wn == lists@[li as int].1@.len(),
                wi <= wn,
                pred == (|w: Seq<char>| owns(lv, li as int, w)),
                views(kept@) == views(lists@[li as int].1@).subrange(0, wi as int).filter(pred),
            decreases wn - wi,
        {
            let ghost all = views(lists@[li as int].1@);
            let w = &lists[li].1[wi];
            let keep = owner_is(&lists, li, w.as_str());
            let ghost before = views(kept@);
            if keep {
                kept.push(w.clone());
            }
            proof {
                assert(all.subrange(0, wi + 1) =~= all.subrange(0, wi as int).push(w@));
                lemma_filter_push(all.subrange(0, wi as int), w@, pred);
                if keep {
                    assert(views(kept@) =~= before.push(w@));
                }
            }
            wi = wi + 1;
        }
        proof {
            assert(views(lists@[li as int].1@).subrange(
                0,
                lists@[li as int].1@.len() as int,
            ) =~= views(lists@[li as int].1@));
        }
        r.push((name, kept));
        li = li + 1;
    }
    r
}

/// Head of the female-name frequency list, most common first.
pub open spec fn raw_female_names() -> Seq<Seq<char>> {
    seq![
        "mary"@,
        "patricia"@,
        "linda"@,
        "barbara"@,
        "elizabeth"@,
        "jennifer"@,
        "maria"@,
        "susan"@,
        "margaret"@,
        "dorothy"@,
    ]
}

/// Head of the male-name frequency list, most common first.
pub open spec fn raw_male_names() -> Seq<Seq<char>> {
    seq![
        "james"@,
        "john"@,
        "robert"@,
        "michael"@,
        "william"@,
        "david"@,
        "richard"@,
        "charles"@,
        "joseph"@,
        "thomas"@,
    ]
}

/// Head of the surname frequency list, most common first; its tail repeats
/// two common male names, which the deduplication pass hands to the
/// male-name list.
pub open spec fn raw_surnames() -> Seq<Seq<char>> {
    seq![
        "smith"@,
        "johnson"@,
        "williams"@,
        "jones"@,
        "brown"@,
        "davis"@,
        "miller"@,
        "wilson"@,
        "moore"@,
        "taylor"@,
        "thomas"@,
        "james"@,
    ]
}

/// Head of the leaked-password frequency list, most common first.
pub open spec fn raw_passwords() -> Seq<Seq<char>> {
    seq![
        "password"@,
        "123456"@,
        "12345678"@,
        "1234"@,
        "qwerty"@,
        "12345"@,
        "dragon"@,
        "baseball"@,
        "football"@,
        "letmein"@,
        "monkey"@,
        "abc123"@,
    ]
}

/// Head of the English Wikipedia word frequency list.
pub open spec fn raw_wikipedia() -> Seq<Seq<char>> {
    seq!["the"@, "of"@, "and"@, "in"@, "was"@, "is"@, "for"@, "as"@, "on"@, "with"@]
}

/// Head of the US television and film word frequency list.
pub open spec fn raw_tv_film() -> Seq<Seq<char>> {
    seq![
        "you"@,
        "that"@,
        "what"@,
        "this"@,
        "know"@,
        "like"@,
        "just"@,
        "time"@,
        "right"@,
        "think"@,
    ]
}

/// The six raw lists in build order.
pub open spec fn raw_list_views() -> Seq<Seq<Seq<char>>> {
    seq![
        raw_female_names(),
        raw_male_names(),
        raw_surnames(),
        raw_passwords(),
        raw_wikipedia(),
        raw_tv_film(),
    ]
}

/// The words that built-in list `li` keeps after deduplication.
pub open spec fn default_list_views(li: int) -> Seq<Seq<char>> {
    raw_list_views()[li].filter(|w: Seq<char>| owns(raw_list_views(), li, w))
}

/// No word appears in more than one of the six built-in lists.
pub proof fn lemma_builtin_lists_disjoint(i: int, j: int, w: Seq<char>)
    requires
        0 <= i < 6,
        0 <= j < 6,
        i != j,
    ensures
        !(default_list_views(i).contains(w) && default_list_views(j).contains(w)),
{
    if default_list_views(i).contains(w) && default_list_views(j).contains(w) {
        let fi = default_list_views(i);
        let fj = default_list_views(j);
        let ki = choose|k: int| 0 <= k < fi.len() && fi[k] == w;
        let kj = choose|k: int| 0 <= k < fj.len() && fj[k] == w;
        raw_list_views()[i].lemma_filter_pred(
            |x: Seq<char>| owns(raw_list_views(), i, x),
            ki,
        );
        raw_list_views()[j].lemma_filter_pred(
            |x: Seq<char>| owns(raw_list_views(), j, x),
            kj,
        );
        lemma_owner_unique(raw_list_views(), i, j, w);
    }
}

fn female_names_list() -> (r: Vec<String>)
    ensures
        views(r@) == raw_female_names(),
{
    let mut v: Vec<String> = Vec::new();
    v.push("mary".to_owned());
    v.push("patricia".to_owned());
    v.push("linda".to_owned());
    v.push("barbara".to_owned());
    v.push("elizabeth".to_owned());
    v.push("jennifer".to_owned());
    v.push("maria".to_owned());
    v.push("susan".to_owned());
    v.push("margaret".to_owned());
    v.push("dorothy".to_owned());
    proof {
        assert(views(v@) =~= raw_female_names());
    }
    v
}

fn male_names_list() -> (r: Vec<String>)
    ensures
        views(r@) == raw_male_names(),
{
    let mut v: Vec<String> = Vec::new();
    v.push("james".to_owned());
    v.push("john".to_owned());
    v.push("robert".to_owned());
    v.push("michael".to_owned());
    v.push("william".to_owned());
    v.push("david".to_owned());
    v.push("richard".to_owned());
    v.push("charles".to_owned());
    v.push("joseph".to_owned());
    v.push("thomas".to_owned());
    proof {
        assert(views(v@) =~= raw_male_names());
    }
    v
}

fn surnames_list() -> (r: Vec<String>)
    ensures
        views(r@) == raw_surnames(),
{
    let mut v: Vec<String> = Vec::new();
    v.push("smith".to_owned());
    v.push("johnson".to_owned());
    v.push("williams".to_owned());
    v.push("jones".to_owned());
    v.push("brown".to_owned());
    v.push("davis".to_owned());
    v.push("miller".to_owned());
    v.push("wilson".to_owned());
    v.push("moore".to_owned());
    v.push("taylor".to_owned());
    v.push("thomas".to_owned());
    v.push("james".to_owned());
    proof {
        assert(views(v@) =~= raw_surnames());
    }
    v
}

fn passwords_list() -> (r: Vec<String>)
    ensures
        views(r@) == raw_passwords(),
{
    let mut v: Vec<String> = Vec::new();
    v.push("password".to_owned());
    v.push("123456".to_owned());
    v.push("12345678".to_owned());
    v.push("1234".to_owned());
    v.push("qwerty".to_owned());
    v.push("12345".to_owned());
    v.push("dragon".to_owned());
    v.push("baseball".to_owned());
    v.push("football".to_owned());
    v.push("letmein".to_owned());
    v.push("monkey".to_owned());
    v.push("abc123".to_owned());
    proof {
        assert(views(v@) =~= raw_passwords());
    }
    v
}

fn wikipedia_list() -> (r: Vec<String>)
    ensures
        views(r@) == raw_wikipedia(),
{
    let mut v: Vec<String> = Vec::new();
    v.push("the".to_owned());
    v.push("of".to_owned());
    v.push("and".to_owned());
    v.push("in".to_owned());
    v.push("was".to_owned());
    v.push("is".to_owned());
    v.push("for".to_owned());
    v.push("as".to_owned());
    v.push("on".to_owned());
    v.push("with".to_owned());
    proof {
        assert(views(v@) =~= raw_wikipedia());
    }
    v
}

fn tv_film_list() -> (r: Vec<String>)
    ensures
        views(r@) == raw_tv_film(),
{
    let mut v: Vec<String> = Vec::new();
    v.push("you".to_owned());
    v.push("that".to_owned());
    v.push("what".to_owned());
    v.push("this".to_owned());
    v.push("know".to_owned());
    v.push("like".to_owned());
    v.push("just".to_owned());
    v.push("time".to_owned());
    v.push("right".to_owned());
    v.push("think".to_owned());
    proof {
        assert(views(v@) =~= raw_tv_film());
    }
    v
}

/// The six built-in dictionaries, deduplicated: each is the corresponding
/// raw list restricted to the words it owns.
pub fn default_dictionaries() -> (r: Vec<(String, Vec<String>)>)
    ensures
        r@.len() == 6,
        r@[0].0@ == "Female names"@,
        r@[1].0@ == "Male names"@,
        r@[2].0@ == "Surnames"@,
        r@[3].0@ == "Passwords"@,
        r@[4].0@ == "Wikipedia"@,
        r@[5].0@ == "TV and Film"@,
        forall|li: int| 0 <= li < 6 ==> views((#[trigger] r@[li]).1@) == default_list_views(li),
{
    let mut lists: Vec<(String, Vec<String>)> = Vec::new();
    lists.push(("Female names".to_owned(), female_names_list()));
    lists.push(("Male names".to_owned(), male_names_list()));
    lists.push(("Surnames".to_owned(), surnames_list()));
    lists.push(("Passwords".to_owned(), passwords_list()));
    lists.push(("Wikipedia".to_owned(), wikipedia_list()));
    lists.push(("TV and Film".to_owned(), tv_film_list()));
    proof {
        assert(list_views(lists@) =~= raw_list_views());
    }
    let r = dedup_word_lists(lists);
    r
}

} // verus!
