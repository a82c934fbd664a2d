//! Severity levels for detected secrets: a closed, totally ordered
//! classification with a case-insensitive conversion from string labels.

use vstd::prelude::*;

verus! {

/// Severity of a detected secret leak.
#[derive(Debug, Clone, Copy, PartialEq, Eq, PartialOrd, Ord, Structural)]
pub enum Severity {
    Low,
    Medium,
    High,
    Critical,
    Unknown,
}

/// Numeric rank of a severity, used for sorting: `Critical` ranks highest,
/// `Unknown` lowest.
pub open spec fn rank_of(s: Severity) -> u8 {
    match s {
        Severity::Critical => 5,
        Severity::High => 4,
        Severity::Medium => 3,
        Severity::Low => 2,
        Severity::Unknown => 1,
    }
}

/// One character of a label equals, up to ASCII lower-casing, a reference
/// character: either they are identical, or the first is an ASCII capital
/// whose lower-case form is the second.
pub open spec fn lower_eq_char(a: char, b: char) -> bool {
    a == b || (65 <= a as u32 && a as u32 <= 90 && a as u32 + 32 == b as u32)
}

/// A label equals a reference string up to ASCII lower-casing of the label.
pub open spec fn lower_eq(s: Seq<char>, t: Seq<char>) -> bool {
    s.len() == t.len() && forall|i: int| 0 <= i < s.len() ==> lower_eq_char(s[i], t[i])
}

/// The severity a string label denotes: one of the four recognized names,
/// compared without regard to ASCII case, and `Unknown` for anything else.
pub open spec fn label_severity(s: Seq<char>) -> Severity {
    if lower_eq(s, "critical"@) {
        Severity::Critical
    } else if lower_eq(s, "high"@) {
        Severity::High
    } else if lower_eq(s, "medium"@) {
        Severity::Medium
    } else if lower_eq(s, "low"@) {
        Severity::Low
    } else {
        Severity::Unknown
    }
}

/// The canonical string form of a severity.
pub open spec fn severity_label(s: Severity) -> Seq<char> {
    match s {
        Severity::Critical => "critical"@,
        Severity::High => "high"@,
        Severity::Medium => "medium"@,
        Severity::Low => "low"@,
        Severity::Unknown => "unknown"@,
    }
}

/// Compares a string against a reference label up to ASCII lower-casing of
/// the first argument.
fn str_lower_eq(s: &str, t: &str) -> (b: bool)
    ensures
        b == lower_eq(s@, t@),
{
    let n = s.unicode_len();
    if n != t.unicode_len() {
        return false;
    }
    let mut i: usize = 0;
    while i < n
        invariant
            i <= n,
            n == s@.len(),
            n == t@.len(),
            forall|j: int| 0 <= j < i ==> lower_eq_char(s@[j], t@[j]),
        decreases n - i,
    {
        let a = s.get_char(i);
        let b = t.get_char(i);
        let au = a as u32;
        let bu = b as u32;
        if !(a == b || (65 <= au && au <= 90 && au + 32 == bu)) {
            assert(!lower_eq_char(s@[i as int], t@[i as int]));
            return false;
        }
        i += 1;
    }
    true
}

/// Two characters are the same letter up to ASCII case: identical, or one is
/// the ASCII capital of the other.
pub open spec fn case_eq_char(a: char, b: char) -> bool {
    a == b || (65 <= a as u32 && a as u32 <= 90 && a as u32 + 32 == b as u32) || (65 <= b as u32
        && b as u32 <= 90 && b as u32 + 32 == a as u32)
}

/// Two strings are the same up to ASCII case, character by character.
pub open spec fn case_eq(s: Seq<char>, t: Seq<char>) -> bool {
    s.len() == t.len() && forall|i: int| 0 <= i < s.len() ==> case_eq_char(s[i], t[i])
}

proof fn lemma_lower_eq_char_case_insensitive(a: char, b: char, c: char)
    requires
        case_eq_char(a, b),
        97 <= c as u32 <= 122,
    ensures
        lower_eq_char(a, c) == lower_eq_char(b, c),
{
}

proof fn lemma_lower_eq_case_insensitive(s: Seq<char>, t: Seq<char>, l: Seq<char>)
    requires
        case_eq(s, t),
        forall|i: int| 0 <= i < l.len() ==> 97 <= #[trigger] (l[i] as u32) <= 122,
    ensures
        lower_eq(s, l) == lower_eq(t, l),
{
    if lower_eq(s, l) {
        assert forall|i: int| 0 <= i < t.len() implies lower_eq_char(t[i], l[i]) by {
            assert(case_eq_char(s[i], t[i]));
            assert(lower_eq_char(s[i], l[i]));
            assert(97 <= l[i] as u32 <= 122);
            lemma_lower_eq_char_case_insensitive(s[i], t[i], l[i]);
        }
    }
    if lower_eq(t, l) {
        assert forall|i: int| 0 <= i < s.len() implies lower_eq_char(s[i], l[i]) by {
            assert(case_eq_char(s[i], t[i]));
            assert(lower_eq_char(t[i], l[i]));
            assert(97 <= l[i] as u32 <= 122);
            lemma_lower_eq_char_case_insensitive(s[i], t[i], l[i]);
        }
    }
}

/// Law: the severity denoted by a label does not depend on the ASCII case of
/// the label, and every label denotes exactly one of the five severities.
pub proof fn lemma_label_severity_case_insensitive(s: Seq<char>, t: Seq<char>)
    requires
        case_eq(s, t),
    ensures
        label_severity(s) == label_severity(t),
{
    reveal_strlit("critical");
    reveal_strlit("high");
    reveal_strlit("medium");
    reveal_strlit("low");
    lemma_lower_eq_case_insensitive(s, t, "critical"@);
    lemma_lower_eq_case_insensitive(s, t, "high"@);
    lemma_lower_eq_case_insensitive(s, t, "medium"@);
    lemma_lower_eq_case_insensitive(s, t, "low"@);
}

/// Law: the ranking function is a total order on severities that is
/// consistent with equality, and it orders the five severities as
/// `Critical > High > Medium > Low > Unknown`.
pub proof fn lemma_severity_rank_total_order()
    ensures
        forall|a: Severity, b: Severity| rank_of(a) == rank_of(b) <==> a == b,
        forall|a: Severity, b: Severity| rank_of(a) <= rank_of(b) || rank_of(b) <= rank_of(a),
        forall|a: Severity, b: Severity, c: Severity|
            rank_of(a) <= rank_of(b) && rank_of(b) <= rank_of(c) ==> rank_of(a) <= rank_of(c),
        rank_of(Severity::Critical) > rank_of(Severity::High),
        rank_of(Severity::High) > rank_of(Severity::Medium),
        rank_of(Severity::Medium) > rank_of(Severity::Low),
        rank_of(Severity::Low) > rank_of(Severity::Unknown),
{
}

impl Severity {
    /// Numeric rank used for sorting matches: `Critical` first, `Unknown` last.
    pub fn rank(&self) -> (r: u8)
        ensures
            r == rank_of(*self),
    {
        match self {
            Severity::Critical => 5,
            Severity::High => 4,
            Severity::Medium => 3,
            Severity::Low => 2,
            Severity::Unknown => 1,
        }
    }

    /// Converts a string label to a severity, ignoring ASCII case; any
    /// unrecognized label yields `Unknown`.
    pub fn from_str(s: &str) -> (r: Self)
        ensures
            r == label_severity(s@),
    {
        if str_lower_eq(s, "critical") {
            Severity::Critical
        } else if str_lower_eq(s, "high") {
            Severity::High
        } else if str_lower_eq(s, "medium") {
            Severity::Medium
        } else if str_lower_eq(s, "low") {
            Severity::Low
        } else {
            Severity::Unknown
        }
    }

    /// The canonical lower-case name of this severity.
    pub fn as_str(&self) -> (r: &'static str)
        ensures
            r@ == severity_label(*self),
    {
        match self {
            Severity::Critical => "critical",
            Severity::High => "high",
            Severity::Medium => "medium",
            Severity::Low => "low",
            Severity::Unknown => "unknown",
        }
    }
}

} // verus!
