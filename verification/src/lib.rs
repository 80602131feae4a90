//! A password-strength estimator in the zxcvbn style.
//!
//! Given a candidate password, the matchers discover weak structures inside
//! it — dictionary words ([`dictionary`]), l33t substitutions ([`l33t`]),
//! keyboard walks ([`keyboard`]), repeats ([`repeats`]), character runs
//! ([`sequence`]), dates ([`datematch`]) and recent years ([`regexes`]) —
//! and [`matching`] aggregates them. The optimizer in [`scoring`] finds the
//! non-overlapping cover of the password that minimizes an attacker's
//! expected guess count, and [`result`] turns that count into a score
//! bucket and advice for the user.

pub mod datematch;
pub mod dates;
pub mod dictionary;
pub mod keyboard;
pub mod l33t;
pub mod matching;
pub mod matches;
pub mod repeats;
pub mod regexes;
pub mod result;
pub mod scoring;
pub mod sequence;
pub mod text;
pub mod wordlists;
