//! Scores, feedback and the result record.
//!
//! The score bucket and the advice strings are derived from the guess count
//! and the optimal match sequence. Crack-time estimates are plain quotients
//! of the guess count and live with the callers that print them.

use vstd::prelude::*;
use crate::matches::{BaseMatch, MatchData};

verus! {

/// Indicator of password quality.
#[derive(Clone, Copy, PartialEq, Eq, Structural, Debug)]
pub enum PasswordScore {
    VeryWeak,
    Weak,
    Medium,
    Strong,
    VeryStrong,
}

/// The score bucket of a guess count: the thresholds are one thousand, one
/// million, a hundred million and ten billion, each with a small delta that
/// absorbs the minimum-guess floor.
pub open spec fn spec_score(g: int) -> PasswordScore {
    if g < 1005 {
        PasswordScore::VeryWeak
    } else if g < 1000005 {
        PasswordScore::Weak
    } else if g < 100000005 {
        PasswordScore::Medium
    } else if g < 10000000005 {
        PasswordScore::Strong
    } else {
        PasswordScore::VeryStrong
    }
}

/// Buckets a guess count into a score.
pub fn get_feedback(guesses: u64) -> (r: PasswordScore)
    ensures
        r == spec_score(guesses as int),
{
    if guesses < 1005 {
        PasswordScore::VeryWeak
    } else if guesses < 1000005 {
        PasswordScore::Weak
    } else if guesses < 100000005 {
        PasswordScore::Medium
    } else if guesses < 10000000005 {
        PasswordScore::Strong
    } else {
        PasswordScore::VeryStrong
    }
}

/// Feedback message for the user. Not necessarily required for users with
/// strong passwords.
#[derive(Debug)]
pub struct Feedback {
    /// Advice for creating stronger passwords.
    pub advice: String,
    /// Suggests how the password can be modified, e.g. add another word.
    pub suggestions: String,
}

impl Default for Feedback {
    /// An empty advice line and the generic suggestion.
    fn default() -> (r: Feedback)
        ensures
            r.advice@ == Seq::<char>::empty(),
            r.suggestions@ == (
            "Use a few words, avoid common phrases.\nNo need for symbols, digits, or uppercase letters.")@,
    {
        Feedback {
            advice: String::new(),
            suggestions:
                "Use a few words, avoid common phrases.\nNo need for symbols, digits, or uppercase letters.".to_owned(),
        }
    }
}

/// The outcome of scoring one password.
#[derive(Debug)]
pub struct PasswordResult {
    /// The password in question.
    pub password: String,
    /// Estimated guesses to crack the password.
    pub guesses: u64,
    /// Indicator of password quality.
    pub score: Option<PasswordScore>,
    /// Feedback for the user based on the password.
    pub feedback: Option<Feedback>,
    /// The optimal sequence of matches the guess count is based on.
    pub sequence: Vec<BaseMatch>,
    /// Time taken to calculate the result.
    pub calculation_time: u32,
}

/// The generic suggestion line.
pub open spec fn default_suggestions() -> Seq<char> {
    "Use a few words, avoid common phrases.\nNo need for symbols, digits, or uppercase letters."@
}

/// The advice and suggestion chosen for one dictionary match.
pub open spec fn spec_dictionary_feedback(m: BaseMatch, only_match: bool, guesses: int) -> (
    Seq<char>,
    Seq<char>,
) {
    match m.data {
        crate::matches::MatchData::Dictionary { rank, dictionary_name, reversed, l33t, .. } => {
            let advice: Seq<char> = if dictionary_name@ == "Passwords"@ {
                if only_match && l33t is None && !reversed {
                    if rank <= 10 {
                        "This is a top-10 common password"@
                    } else if rank <= 100 {
                        "This is a top-100 common password"@
                    } else {
                        "This is a very common password"@
                    }
                } else if guesses <= 10000 {
                    "This is similar to a commonly used password"@
                } else {
                    Seq::empty()
                }
            } else if dictionary_name@ == "Wikipedia"@ {
                if only_match {
                    "A word by itself is easy to guess"@
                } else {
                    Seq::empty()
                }
            } else if dictionary_name@ == "Male names"@ || dictionary_name@ == "Female names"@
                || dictionary_name@ == "Surnames"@ {
                if only_match {
                    "Names and surnames by themselves are easy to guess"@
                } else {
                    "Common names and surnames are easy to guess"@
                }
            } else {
                Seq::empty()
            };
            let suggestions: Seq<char> = if reversed {
                "Reversed words aren't mcuh harder to guess"@
            } else if l33t is Some {
                "Predictable substitutions like '@' instead of 'a' don't help much"@
            } else {
                Seq::empty()
            };
            (advice, suggestions)
        },
        _ => (Seq::empty(), default_suggestions()),
    }
}

/// The advice and suggestion chosen for one match of any pattern.
pub open spec fn spec_match_feedback(m: BaseMatch, only_match: bool, guesses: int) -> (
    Seq<char>,
    Seq<char>,
) {
    match m.data {
        crate::matches::MatchData::Dictionary { .. } => spec_dictionary_feedback(
            m,
            only_match,
            guesses,
        ),
        crate::matches::MatchData::Spatial { turns, .. } => (
            if turns == 1 {
                "Straight rows of keys are easier to guess"@
            } else {
                "Short keyboard patterns are easy to guess"@
            },
            "Use a longer keyboard pattern with more turns"@,
        ),
        crate::matches::MatchData::Repeat { base_token, .. } => (
            if base_token@.len() == 1 {
                "Repeats like aaaa are easy to guess"@
            } else {
                "Repeats like abcabc are only slightly harder to guess than abc"@
            },
            "Avoid repeated words and characters"@,
        ),
        crate::matches::MatchData::Sequence { .. } => (
            "Sequences like abc or 7654 are easy to guess"@,
            "Avoid sequences"@,
        ),
        crate::matches::MatchData::Regex { name } => if name@ == "recent year"@ {
            (
                "Recent years are easy to guess"@,
                "Avoid recent years or years associated with you"@,
            )
        } else {
            (Seq::empty(), default_suggestions())
        },
        crate::matches::MatchData::Date { .. } => (
            "Dates are often easy to guess"@,
            "Avoid dates and years associated with you"@,
        ),
        crate::matches::MatchData::Plain => (Seq::empty(), default_suggestions()),
    }
}

/// The last of the longest matches of the sequence.
pub open spec fn is_last_longest(s: Seq<BaseMatch>, idx: int) -> bool {
    &&& 0 <= idx < s.len()
    &&& forall|q: int| 0 <= q < s.len() ==> (#[trigger] s[q]).token@.len() <= s[idx].token@.len()
    &&& forall|q: int| idx < q < s.len() ==> (#[trigger] s[q]).token@.len() < s[idx].token@.len()
}

/// The feedback the result should carry, given its score and sequence.
pub open spec fn feedback_ok(
    sequence: Seq<BaseMatch>,
    guesses: int,
    score: PasswordScore,
    f: Feedback,
) -> bool {
    if sequence.len() == 0 {
        f.advice@ == Seq::<char>::empty() && f.suggestions@ == default_suggestions()
    } else if score == PasswordScore::Strong || score == PasswordScore::VeryStrong {
        f.advice@ == Seq::<char>::empty() && f.suggestions@ == Seq::<char>::empty()
    } else {
        exists|idx: int|
            is_last_longest(sequence, idx) && (f.advice@, f.suggestions@) == spec_match_feedback(
                sequence[idx],
                sequence.len() == 1,
                guesses,
            )
    }
}

impl PasswordResult {
    /// Chooses the advice for one match.
    fn get_match_feedback(&self, matched: &BaseMatch, only_match: bool) -> (r: Feedback)
        ensures
            (r.advice@, r.suggestions@) == spec_match_feedback(
                *matched,
                only_match,
                self.guesses as int,
            ),
    {
        match &matched.data {
            MatchData::Dictionary { .. } => self.get_dictionary_match_feedback(
                matched,
                only_match,
            ),
            MatchData::Spatial { turns, .. } => Feedback {
                advice: if *turns == 1 {
                    "Straight rows of keys are easier to guess".to_owned()
                } else {
                    "Short keyboard patterns are easy to guess".to_owned()
                },
                suggestions: "Use a longer keyboard pattern with more turns".to_owned(),
            },
            MatchData::Repeat { base_token, .. } => Feedback {
                advice: if base_token.as_str().unicode_len() == 1 {
                    "Repeats like aaaa are easy to guess".to_owned()
                } else {
                    "Repeats like abcabc are only slightly harder to guess than abc".to_owned()
                },
                suggestions: "Avoid repeated words and characters".to_owned(),
            },
            MatchData::Sequence { .. } => Feedback {
                advice: "Sequences like abc or 7654 are easy to guess".to_owned(),
                suggestions: "Avoid sequences".to_owned(),
            },
            MatchData::Regex { name } => {
                if crate::text::str_eq(name.as_str(), "recent year") {
                    Feedback {
                        advice: "Recent years are easy to guess".to_owned(),
                        suggestions: "Avoid recent years or years associated with you".to_owned(),
                    }
                } else {
                    Feedback::default()
                }
            },
            MatchData::Date { .. } => Feedback {
                advice: "Dates are often easy to guess".to_owned(),
                suggestions: "Avoid dates and years associated with you".to_owned(),
            },
            MatchData::Plain => Feedback::default(),
        }
    }

    /// Chooses the advice for a dictionary match, by list, rank and the
    /// substitutions seen.
    fn get_dictionary_match_feedback(&self, m: &BaseMatch, only_match: bool) -> (r: Feedback)
        requires
            m.data is Dictionary,
        ensures
            (r.advice@, r.suggestions@) == spec_dictionary_feedback(
                *m,
                only_match,
                self.guesses as int,
            ),
    {
        match &m.data {
            MatchData::Dictionary { rank, dictionary_name, reversed, l33t, .. } => {
                let advice: &str = if crate::text::str_eq(dictionary_name.as_str(), "Passwords") {
                    if only_match && l33t.is_none() && !*reversed {
                        if *rank <= 10 {
                            "This is a top-10 common password"
                        } else if *rank <= 100 {
                            "This is a top-100 common password"
                        } else {
                            "This is a very common password"
                        }
                    } else if self.guesses <= 10000 {
                        "This is similar to a commonly used password"
                    } else {
                        ""
                    }
                } else if crate::text::str_eq(dictionary_name.as_str(), "Wikipedia") {
                    if only_match {
                        "A word by itself is easy to guess"
                    } else {
                        ""
                    }
                } else if crate::text::str_eq(dictionary_name.as_str(), "Male names")
                    || crate::text::str_eq(dictionary_name.as_str(), "Female names")
                    || crate::text::str_eq(dictionary_name.as_str(), "Surnames") {
                    if only_match {
                        "Names and surnames by themselves are easy to guess"
                    } else {
                        "Common names and surnames are easy to guess"
                    }
                } else {
                    ""
                };
                let suggestions: &str = if *reversed {
                    "Reversed words aren't mcuh harder to guess"
                } else if l33t.is_some() {
                    "Predictable substitutions like '@' instead of 'a' don't help much"
                } else {
                    ""
                };
                proof {
                    reveal_strlit("");
                }
                Feedback { advice: advice.to_owned(), suggestions: suggestions.to_owned() }
            },
            _ => Feedback::default(),
        }
    }

    /// Buckets the guess count into a score and derives the feedback from
    /// the longest match of the optimal sequence.
    pub fn get_feedback(&mut self)
        ensures
            final(self).password == old(self).password,
            final(self).guesses == old(self).guesses,
            final(self).sequence == old(self).sequence,
            final(self).calculation_time == old(self).calculation_time,
            final(self).score == Option::Some(spec_score(old(self).guesses as int)),
            match final(self).feedback {
                Option::Some(f) => feedback_ok(
                    old(self).sequence@,
                    old(self).guesses as int,
                    spec_score(old(self).guesses as int),
                    f,
                ),
                Option::None => false,
            },
    {
        let score = get_feedback(self.guesses);
        self.score = Option::Some(score);
        if self.sequence.len() == 0 {
            self.feedback = Option::Some(Feedback::default());
            return ;
        }
        if score == PasswordScore::Strong || score == PasswordScore::VeryStrong {
            self.feedback = Option::Some(
                Feedback { advice: String::new(), suggestions: String::new() },
            );
            return ;
        }
        // the last of the longest matches
        let mut idx: usize = 0;
        let mut q: usize = 1;
        while q < self.sequence.len()
            invariant
                self.sequence@.len() >= 1,
                idx < self.sequence@.len(),
                q <= self.sequence@.len(),
                forall|u: int|
                    0 <= u < q ==> (#[trigger] self.sequence@[u]).token@.len()
                        <= self.sequence@[idx as int].token@.len(),
                forall|u: int|
                    idx < u < q ==> (#[trigger] self.sequence@[u]).token@.len()
                        < self.sequence@[idx as int].token@.len(),
            decreases self.sequence@.len() - q,
        {
            if self.sequence[q].token.as_str().unicode_len()
                >= self.sequence[idx].token.as_str().unicode_len() {
                idx = q;
            }
            q = q + 1;
        }
        proof {
            assert(is_last_longest(self.sequence@, idx as int));
        }
        let only = self.sequence.len() == 1;
        let f = self.get_match_feedback(&self.sequence[idx], only);
        self.feedback = Option::Some(f);
    }
}

} // verus!
