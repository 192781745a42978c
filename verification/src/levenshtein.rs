//! Edit distance and the edit-distance budget used by autocorrect
//! expansion.

use vstd::prelude::*;

verus! {

/// The Levenshtein distance between two character sequences: the minimum
/// number of single-character insertions, deletions, or substitutions that
/// turn one into the other.
pub open spec fn lev(a: Seq<char>, b: Seq<char>) -> nat
    decreases a.len() + b.len(),
{
    if a.len() == 0 {
        b.len()
    } else if b.len() == 0 {
        a.len()
    } else {
        let del = lev(a.drop_last(), b) + 1;
        let ins = lev(a, b.drop_last()) + 1;
        let sub = lev(a.drop_last(), b.drop_last()) + if a.last() == b.last() {
            0nat
        } else {
            1nat
        };
        if del <= ins && del <= sub {
            del
        } else if ins <= sub {
            ins
        } else {
            sub
        }
    }
}

/// Relies on distance::levenshtein: the character-level dynamic program
/// whose cell (i, j) is the edit distance of the first i characters of `s`
/// and the first j characters of `t`.
pub assume_specification [ distance::levenshtein ](s: &str, t: &str) -> (r: usize)
    ensures
        r == lev(s@, t@),
;

/// The edit-distance budget allowed for a query token of the given length:
/// longer tokens tolerate more spelling variation.
pub open spec fn budget_of(word_length: nat) -> nat {
    if word_length <= 3 {
        0
    } else if word_length <= 5 {
        1
    } else if word_length <= 7 {
        2
    } else if word_length <= 10 {
        3
    } else {
        4
    }
}

/// The exact budget staircase over token length.
pub fn levenshtein_distance_rule(word_length: usize) -> (r: usize)
    ensures
        r == budget_of(word_length as nat),
        word_length <= 3 ==> r == 0,
        4 <= word_length <= 5 ==> r == 1,
        6 <= word_length <= 7 ==> r == 2,
        8 <= word_length <= 10 ==> r == 3,
        word_length >= 11 ==> r == 4,
{
    if word_length <= 3 {
        0
    } else if word_length <= 5 {
        1
    } else if word_length <= 7 {
        2
    } else if word_length <= 10 {
        3
    } else {
        4
    }
}

/// How the edit-distance budget of autocorrect expansion is chosen: no
/// numeric budget (every vocabulary word is a candidate), a budget from
/// each token's length, or one fixed budget for all tokens.
pub enum LimitOption {
    Unlimited,
    WordLengthBased,
    Limit(usize),
}

/// The numeric budget a policy grants a token, if it grants one.
pub open spec fn spec_budget(limit: LimitOption, token: Seq<char>) -> Option<nat> {
    match limit {
        LimitOption::Unlimited => Option::None,
        LimitOption::WordLengthBased => Some(budget_of(token.len())),
        LimitOption::Limit(l) => Some(l as nat),
    }
}

impl LimitOption {
    /// The numeric edit-distance budget for the token `s`, or none when
    /// every vocabulary word qualifies.
    pub fn into_option(&self, s: &str) -> (r: Option<usize>)
        ensures
            r matches Some(b) ==> spec_budget(*self, s@) == Some(b as nat),
            r is None <==> spec_budget(*self, s@) is None,
    {
        match self {
            LimitOption::Unlimited => Option::None,
            LimitOption::WordLengthBased => Some(levenshtein_distance_rule(s.unicode_len())),
            LimitOption::Limit(limit) => Some(*limit),
        }
    }
}

} // verus!
