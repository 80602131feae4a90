//! The spatial (keyboard-walk) matcher.
//!
//! The four keyboard adjacency graphs come from the keygraph crate; the
//! library reads them only through two wrappers whose results are named by
//! uninterpreted functions, since a layout is static data and a lookup is a
//! function of the layout and the characters alone. The walk logic itself
//! is verified against those names.

use vstd::prelude::*;
use crate::matches::{BaseMatch, MatchData, wf_match, sorted_by_position, sort_matches};
use keygraph_rs::{Key, KeySearch, QWERTY_US, DVORAK, STANDARD_NUMPAD, MAC_NUMPAD};

verus! {

/// Which of the built-in keyboard layouts a walk is traced on.
#[derive(Clone, Copy, PartialEq, Eq, Structural, Debug)]
pub enum KeyboardLayout {
    QwertyUs,
    Dvorak,
    StandardNumpad,
    MacNumpad,
}

pub open spec fn layout_index(g: KeyboardLayout) -> int {
    match g {
        KeyboardLayout::QwertyUs => 0,
        KeyboardLayout::Dvorak => 1,
        KeyboardLayout::StandardNumpad => 2,
        KeyboardLayout::MacNumpad => 3,
    }
}

/// The key of layout `g` that carries character `c`, as its unshifted and
/// shifted characters; a layout is fixed data, so this is a function.
pub uninterp spec fn kb_key(g: int, c: char) -> Option<(char, char)>;

/// The relative position of key `b` seen from key `a` on layout `g`, as
/// horizontal and vertical steps, when the keys are neighbours.
pub uninterp spec fn kb_edge(g: int, a: (char, char), b: (char, char)) -> Option<(i32, i32)>;

/// Relies on keygraph's `find_key`: the key of the layout whose unshifted
/// or shifted character is `c`.
#[verifier::external_body]
fn find_key_in(g: KeyboardLayout, c: char) -> (r: Option<(char, char)>)
    ensures
        r == kb_key(layout_index(g), c),
{
    let graph = match g {
        KeyboardLayout::QwertyUs => &*QWERTY_US,
        KeyboardLayout::Dvorak => &*DVORAK,
        KeyboardLayout::StandardNumpad => &*STANDARD_NUMPAD,
        KeyboardLayout::MacNumpad => &*MAC_NUMPAD,
    };
    graph.find_key(c).map(|k| (k.value, k.shifted))
}

/// Relies on petgraph's `edge_weight`, reached through keygraph's keyboard
/// graphs: the direction between two neighbouring keys.
#[verifier::external_body]
fn edge_between(g: KeyboardLayout, a: (char, char), b: (char, char)) -> (r: Option<(i32, i32)>)
    ensures
        r == kb_edge(layout_index(g), a, b),
{
    let graph = match g {
        KeyboardLayout::QwertyUs => &*QWERTY_US,
        KeyboardLayout::Dvorak => &*DVORAK,
        KeyboardLayout::StandardNumpad => &*STANDARD_NUMPAD,
        KeyboardLayout::MacNumpad => &*MAC_NUMPAD,
    };
    let ka = Key { value: a.0, shifted: a.1 };
    let kb = Key { value: b.0, shifted: b.1 };
    graph.edge_weight(ka, kb).map(|e| (e.horizontal as i32, e.vertical as i32))
}

/// The direction walked when moving onto character `t`, when both
/// characters sit on neighbouring keys.
pub open spec fn step_edge(g: int, pw: Seq<char>, t: int) -> Option<(i32, i32)> {
    match (kb_key(g, pw[t - 1]), kb_key(g, pw[t])) {
        (Option::Some(a), Option::Some(b)) => kb_edge(g, a, b),
        _ => Option::None,
    }
}

/// Where the walk that stands at position `p` ends.
pub open spec fn walk_end_from(g: int, pw: Seq<char>, p: int) -> int
    decreases pw.len() - p,
{
    if p + 1 >= pw.len() || p < 0 {
        p
    } else if step_edge(g, pw, p + 1) is Some {
        walk_end_from(g, pw, p + 1)
    } else {
        p
    }
}

/// The character at `t` is typed with shift on layout `g`.
pub open spec fn char_shifted(g: int, pw: Seq<char>, t: int) -> bool {
    match kb_key(g, pw[t]) {
        Option::Some(k) => k.1 == pw[t] && pw[t] != '\u{0}',
        Option::None => false,
    }
}

/// How many characters of the walk `[i, e]` are shifted.
pub open spec fn walk_shifts(g: int, pw: Seq<char>, i: int, e: int) -> int
    decreases e - i,
{
    if e < i {
        0
    } else if e == i {
        if char_shifted(g, pw, i) {
            1
        } else {
            0
        }
    } else {
        walk_shifts(g, pw, i, e - 1) + if char_shifted(g, pw, e) {
            1int
        } else {
            0int
        }
    }
}

/// How many direction changes the walk `[i, e]` makes; the first step
/// always counts as one.
pub open spec fn walk_turns(g: int, pw: Seq<char>, i: int, e: int) -> int
    decreases e - i,
{
    if e <= i {
        0
    } else if e == i + 1 {
        1
    } else {
        walk_turns(g, pw, i, e - 1) + if step_edge(g, pw, e) != step_edge(g, pw, e - 1) {
            1int
        } else {
            0int
        }
    }
}

/// The walks the scan reports, front to back: from each position, the walk
/// standing there is taken when it covers at least three characters, and
/// scanning resumes after it.
pub open spec fn scan_walks(g: int, pw: Seq<char>, i: int) -> Seq<(int, int)>
    decreases pw.len() - i,
{
    if i < 0 || i >= pw.len() {
        Seq::empty()
    } else {
        let e = walk_end_from(g, pw, i);
        if e >= i + 2 && e < pw.len() {
            seq![(i, e)] + scan_walks(g, pw, e + 1)
        } else {
            scan_walks(g, pw, i + 1)
        }
    }
}

/// An exact description of one spatial match for the walk `[i, e]`.
pub open spec fn spatial_match_at(
    g: int,
    gname: Seq<char>,
    pw: Seq<char>,
    i: int,
    e: int,
    m: BaseMatch,
) -> bool {
    &&& wf_match(pw, m)
    &&& m.pattern@ == "Spatial"@
    &&& m.start == i
    &&& m.end == e
    &&& match m.data {
        MatchData::Spatial { graph, turns, shifted_count } => {
            &&& graph@ == gname
            &&& turns == walk_turns(g, pw, i, e)
            &&& shifted_count == walk_shifts(g, pw, i, e)
        },
        _ => false,
    }
}

/// The matches of one layout: one per reported walk, in scan order.
pub open spec fn is_spatial_graph_output(
    g: int,
    gname: Seq<char>,
    pw: Seq<char>,
    r: Seq<BaseMatch>,
) -> bool {
    let walks = scan_walks(g, pw, 0);
    &&& r.len() == walks.len()
    &&& forall|q: int|
        0 <= q < r.len() ==> spatial_match_at(
            g,
            gname,
            pw,
            walks[q].0,
            walks[q].1,
            #[trigger] r[q],
        )
}

/// Walks as far as the keys stay adjacent, counting turns and shifted keys.
fn walk_from(password: &str, g: KeyboardLayout, i: usize) -> (r: (usize, usize, usize))
    requires
        i < password@.len(),
        password@.len() < usize::MAX,
    ensures
        r.0 == walk_end_from(layout_index(g), password@, i as int),
        i <= r.0 < password@.len(),
        r.1 == walk_turns(layout_index(g), password@, i as int, r.0 as int),
        r.2 == walk_shifts(layout_index(g), password@, i as int, r.0 as int),
{
    let ghost pw = password@;
    let ghost gi = layout_index(g);
    let n = password.unicode_len();
    let c0 = password.get_char(i);
    let key0 = find_key_in(g, c0);
    let mut shifts: usize = 0;
    match key0 {
        Option::Some(k) => {
            if k.1 == c0 && c0 != '\u{0}' {
                shifts = 1;
            }
        },
        Option::None => {},
    }
    proof {
        assert(shifts == walk_shifts(gi, pw, i as int, i as int));
    }
    let mut e: usize = i;
    let mut turns: usize = 0;
    let mut prev_key = key0;
    loop
        invariant_except_break
            pw == password@,
            gi == layout_index(g),
            n == pw.len(),
            n < usize::MAX,
            i <= e < n,
            prev_key == kb_key(gi, pw[e as int]),
            walk_end_from(gi, pw, i as int) == walk_end_from(gi, pw, e as int),
            turns == walk_turns(gi, pw, i as int, e as int),
            shifts == walk_shifts(gi, pw, i as int, e as int),
            turns <= e - i + 1,
            shifts <= e - i + 1,
        ensures
            e == walk_end_from(gi, pw, i as int),
            i <= e < n,
            turns == walk_turns(gi, pw, i as int, e as int),
            shifts == walk_shifts(gi, pw, i as int, e as int),
        decreases n - e,
    {
        if e + 1 >= n {
            proof {
                assert(walk_end_from(gi, pw, e as int) == e);
            }
            break ;
        }
        let c = password.get_char(e + 1);
        let cur_key = find_key_in(g, c);
        let step = match (prev_key, cur_key) {
            (Option::Some(a), Option::Some(b)) => edge_between(g, a, b),
            _ => Option::None,
        };
        proof {
            assert(step == step_edge(gi, pw, e + 1));
        }
        match step {
            Option::None => {
                proof {
                    assert(walk_end_from(gi, pw, e as int) == e);
                }
                break ;
            },
            Option::Some(dir) => {
                // direction change?
                let changed = if e == i {
                    true
                } else {
                    let prev_step = match (
                        find_key_in(g, password.get_char(e - 1)),
                        prev_key,
                    ) {
                        (Option::Some(a), Option::Some(b)) => edge_between(g, a, b),
                        _ => Option::None,
                    };
                    proof {
                        assert(prev_step == step_edge(gi, pw, e as int));
                    }
                    match prev_step {
                        Option::Some(pd) => pd.0 != dir.0 || pd.1 != dir.1,
                        Option::None => true,
                    }
                };
                if changed {
                    turns = turns + 1;
                }
                let shifted = match cur_key {
                    Option::Some(k) => k.1 == c && c != '\u{0}',
                    Option::None => false,
                };
                if shifted {
                    shifts = shifts + 1;
                }
                e = e + 1;
                prev_key = cur_key;
                proof {
                    assert(turns == walk_turns(gi, pw, i as int, e as int));
                    assert(shifts == walk_shifts(gi, pw, i as int, e as int));
                }
            },
        }
    }
    (e, turns, shifts)
}

/// Scans the password for walks on one layout, in span order.
fn spatial_helper(password: &str, graph_name: &str, g: KeyboardLayout) -> (r: Vec<BaseMatch>)
    requires
        password@.len() < usize::MAX,
    ensures
        is_spatial_graph_output(layout_index(g), graph_name@, password@, r@),
{
    let ghost pw = password@;
    let ghost gi = layout_index(g);
    let ghost walks0 = scan_walks(gi, pw, 0);
    let n = password.unicode_len();
    let mut r: Vec<BaseMatch> = Vec::new();
    let mut i: usize = 0;
    while i < n
        invariant
            pw == password@,
            gi == layout_index(g),
            walks0 == scan_walks(gi, pw, 0),
            n == pw.len(),
            n < usize::MAX,
            i <= n,
            r@.len() <= walks0.len(),
            forall|q: int|
                0 <= q < r@.len() ==> spatial_match_at(
                    gi,
                    graph_name@,
                    pw,
                    walks0[q].0,
                    walks0[q].1,
                    #[trigger] r@[q],
                ),
            walks0.subrange(r@.len() as int, walks0.len() as int) == scan_walks(gi, pw, i as int),
        decreases n - i,
    {
        let (e, turns, shifts) = walk_from(password, g, i);
        if e >= i + 2 {
            let token = password.substring_char(i, e + 1).to_owned();
            let m = BaseMatch {
                pattern: "Spatial".to_owned(),
                start: i,
                end: e,
                token,
                data: MatchData::Spatial {
                    graph: graph_name.to_owned(),
                    turns,
                    shifted_count: shifts,
                },
            };
            proof {
                let rest = walks0.subrange(r@.len() as int, walks0.len() as int);
                assert(rest == seq![(i as int, e as int)] + scan_walks(gi, pw, e + 1));
                assert(rest[0] == (i as int, e as int));
                assert(walks0[r@.len() as int] == (i as int, e as int));
                assert(spatial_match_at(gi, graph_name@, pw, i as int, e as int, m));
            }
            let ghost old_r = r@;
            r.push(m);
            proof {
                assert(forall|q: int| 0 <= q < old_r.len() ==> r@[q] == old_r[q]);
                assert(r@[old_r.len() as int] == m);
                assert(r@.len() <= walks0.len()) by {
                    let rest = walks0.subrange(old_r.len() as int, walks0.len() as int);
                    assert(rest.len() >= 1);
                }
                assert(walks0.subrange(r@.len() as int, walks0.len() as int) =~= scan_walks(
                    gi,
                    pw,
                    e + 1,
                )) by {
                    let rest = walks0.subrange(old_r.len() as int, walks0.len() as int);
                    assert(rest =~= seq![(i as int, e as int)] + scan_walks(gi, pw, e + 1));
                    assert(forall|q: int|
                        0 <= q < scan_walks(gi, pw, e + 1).len() ==> rest[q + 1] == #[trigger]
                        scan_walks(gi, pw, e + 1)[q]);
                }
            }
            i = e + 1;
        } else {
            proof {
                assert(scan_walks(gi, pw, i as int) == scan_walks(gi, pw, i + 1));
            }
            i = i + 1;
        }
    }
    proof {
        assert(scan_walks(gi, pw, n as int) =~= Seq::<(int, int)>::empty());
        assert(walks0.subrange(r@.len() as int, walks0.len() as int).len() == 0);
        assert(r@.len() == walks0.len());
    }
    r
}

/// The spatial matcher's full promise: matches sorted by span, their
/// multiset exactly the union of the four per-layout scans.
pub open spec fn is_spatial_output(pw: Seq<char>, r: Seq<BaseMatch>) -> bool {
    &&& sorted_by_position(r)
    &&& exists|r1: Seq<BaseMatch>, r2: Seq<BaseMatch>, r3: Seq<BaseMatch>, r4: Seq<BaseMatch>|
        {
            &&& is_spatial_graph_output(0, "qwerty"@, pw, r1)
            &&& is_spatial_graph_output(1, "dvorak"@, pw, r2)
            &&& is_spatial_graph_output(2, "Keypad"@, pw, r3)
            &&& is_spatial_graph_output(3, "Mac keypad"@, pw, r4)
            &&& r.to_multiset() == r1.to_multiset().add(r2.to_multiset()).add(
                r3.to_multiset(),
            ).add(r4.to_multiset())
        }
}

/// The walks of the password over all four built-in layouts, sorted by
/// span; the multiset of matches is exactly the union of the per-layout
/// scans.
pub fn spatial_match(password: &str) -> (r: Vec<BaseMatch>)
    requires
        password@.len() < usize::MAX,
    ensures
        is_spatial_output(password@, r@),
{
    broadcast use vstd::seq_lib::group_to_multiset_ensures;

    let mut out: Vec<BaseMatch> = Vec::new();
    let mut p1 = spatial_helper(password, "qwerty", KeyboardLayout::QwertyUs);
    let ghost g1 = p1@;
    let mut p2 = spatial_helper(password, "dvorak", KeyboardLayout::Dvorak);
    let ghost g2 = p2@;
    let mut p3 = spatial_helper(password, "Keypad", KeyboardLayout::StandardNumpad);
    let ghost g3 = p3@;
    let mut p4 = spatial_helper(password, "Mac keypad", KeyboardLayout::MacNumpad);
    let ghost g4 = p4@;
    out.append(&mut p1);
    out.append(&mut p2);
    out.append(&mut p3);
    out.append(&mut p4);
    proof {
        assert(out@ == g1 + g2 + g3 + g4);
        vstd::seq_lib::lemma_multiset_commutative(g1, g2);
        vstd::seq_lib::lemma_multiset_commutative(g1 + g2, g3);
        vstd::seq_lib::lemma_multiset_commutative(g1 + g2 + g3, g4);
        assert((g1 + g2 + g3 + g4).to_multiset() == g1.to_multiset().add(g2.to_multiset()).add(
            g3.to_multiset(),
        ).add(g4.to_multiset()));
    }
    sort_matches(&mut out);
    out
}

} // verus!
