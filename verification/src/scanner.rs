//! Log scanning: evaluates every rule against every line and returns the
//! matches sorted by severity rank descending, then line number ascending.

use vstd::prelude::*;

use crate::rules::Rule;
use crate::rules::RuleV;
use crate::severity::Severity;
use crate::severity::rank_of;

verus! {

/// One rule firing on one line of the scanned log.
#[derive(Clone)]
pub struct Match {
    /// 1-based position of the line in the scanned file.
    pub line_num: usize,
    pub description: String,
    pub severity: Severity,
    /// The full original line content.
    pub line: String,
}

/// The mathematical value of a [`Match`].
#[verifier::ext_equal]
pub struct MatchV {
    pub line_num: int,
    pub description: Seq<char>,
    pub severity: Severity,
    pub line: Seq<char>,
}

impl View for Match {
    type V = MatchV;

    open spec fn view(&self) -> MatchV {
        MatchV {
            line_num: self.line_num as int,
            description: self.description@,
            severity: self.severity,
            line: self.line@,
        }
    }
}

impl DeepView for Match {
    type V = MatchV;

    open spec fn deep_view(&self) -> MatchV {
        self.view()
    }
}

/// Whether the regular-expression engine finds a pattern anywhere in a
/// text. The outcome depends on the pattern and the text alone.
pub uninterp spec fn regex_match_of(pat: Seq<char>, text: Seq<char>) -> bool;

/// Relies on fancy_regex::Regex::new and fancy_regex::Regex::is_match:
/// whether a pattern is found in a text depends on the two alone. A pattern
/// the engine rejects, or a search that the engine gives up on, finds
/// nothing.
#[verifier::external_body]
fn regex_match(pat: &str, text: &str) -> (b: bool)
    ensures
        b == regex_match_of(pat@, text@),
{
    match fancy_regex::Regex::new(pat) {
        Ok(re) => matches!(re.is_match(text), Ok(true)),
        Err(_) => false,
    }
}

/// Whether a rule's pattern is found in a line.
pub fn rule_fires(rule: &Rule, line: &str) -> (b: bool)
    ensures
        b == regex_match_of(rule@.pattern, line@),
{
    regex_match(rule.pattern.as_str(), line)
}

/// The match one rule contributes on one line, numbered `n`.
pub open spec fn match_for(n: int, line: Seq<char>, rule: RuleV) -> MatchV {
    MatchV { line_num: n, description: rule.description, severity: rule.severity, line }
}

/// The matches one line contributes, numbered `n`: one per rule whose
/// pattern is found in the line, in rule-set order.
pub open spec fn line_matches(n: int, line: Seq<char>, rules: Seq<RuleV>) -> Seq<MatchV>
    decreases rules.len(),
{
    if rules.len() == 0 {
        Seq::empty()
    } else {
        line_matches(n, line, rules.drop_last()) + (if regex_match_of(
            rules.last().pattern,
            line,
        ) {
            seq![match_for(n, line, rules.last())]
        } else {
            Seq::<MatchV>::empty()
        })
    }
}

/// The matches a whole file contributes, in file order then rule-set order:
/// one per (line, rule) pair where the rule's pattern is found in the line.
pub open spec fn matches_of(lines: Seq<Seq<char>>, rules: Seq<RuleV>) -> Seq<MatchV>
    decreases lines.len(),
{
    if lines.len() == 0 {
        Seq::empty()
    } else {
        matches_of(lines.drop_last(), rules) + line_matches(
            lines.len() as int,
            lines.last(),
            rules,
        )
    }
}

proof fn lemma_line_matches_membership(n: int, line: Seq<char>, rules: Seq<RuleV>, m: MatchV)
    ensures
        line_matches(n, line, rules).contains(m) <==> exists|j: int|
            0 <= j < rules.len() && regex_match_of(#[trigger] rules[j].pattern, line) && m
                == match_for(n, line, rules[j]),
    decreases rules.len(),
{
    if rules.len() > 0 {
        let prefix = rules.drop_last();
        lemma_line_matches_membership(n, line, prefix, m);
        let own = if regex_match_of(rules.last().pattern, line) {
            seq![match_for(n, line, rules.last())]
        } else {
            Seq::<MatchV>::empty()
        };
        vstd::seq_lib::lemma_seq_concat_contains_all_elements(
            line_matches(n, line, prefix),
            own,
            m,
        );
        if own.contains(m) {
            assert(own[0] == m);
            assert(regex_match_of(rules[rules.len() - 1].pattern, line) && m == match_for(
                n,
                line,
                rules[rules.len() - 1],
            ));
        }
        if exists|j: int|
            0 <= j < prefix.len() && regex_match_of(#[trigger] prefix[j].pattern, line) && m
                == match_for(n, line, prefix[j]) {
            let j = choose|j: int|
                0 <= j < prefix.len() && regex_match_of(#[trigger] prefix[j].pattern, line) && m
                    == match_for(n, line, prefix[j]);
            assert(rules[j] == prefix[j]);
        }
        if exists|j: int|
            0 <= j < rules.len() && regex_match_of(#[trigger] rules[j].pattern, line) && m
                == match_for(n, line, rules[j]) {
            let j = choose|j: int|
                0 <= j < rules.len() && regex_match_of(#[trigger] rules[j].pattern, line) && m
                    == match_for(n, line, rules[j]);
            if j < rules.len() - 1 {
                assert(prefix[j] == rules[j]);
            } else {
                assert(own.contains(m)) by {
                    assert(own[0] == m);
                }
            }
        }
    }
}

/// Law: the scan result holds a match exactly for each (line, rule) pair
/// where the rule's pattern is found in the line; a line no rule matches
/// contributes nothing.
pub proof fn lemma_matches_of_membership(lines: Seq<Seq<char>>, rules: Seq<RuleV>, m: MatchV)
    ensures
        matches_of(lines, rules).contains(m) <==> exists|i: int, j: int|
            0 <= i < lines.len() && 0 <= j < rules.len() && regex_match_of(
                #[trigger] rules[j].pattern,
                #[trigger] lines[i],
            ) && m == match_for(i + 1, lines[i], rules[j]),
    decreases lines.len(),
{
    if lines.len() > 0 {
        let prefix = lines.drop_last();
        lemma_matches_of_membership(prefix, rules, m);
        let last_n = lines.len() as int;
        let own = line_matches(last_n, lines.last(), rules);
        lemma_line_matches_membership(last_n, lines.last(), rules, m);
        vstd::seq_lib::lemma_seq_concat_contains_all_elements(
            matches_of(prefix, rules),
            own,
            m,
        );
        if exists|i: int, j: int|
            0 <= i < prefix.len() && 0 <= j < rules.len() && regex_match_of(
                #[trigger] rules[j].pattern,
                #[trigger] prefix[i],
            ) && m == match_for(i + 1, prefix[i], rules[j]) {
            let (i, j) = choose|i: int, j: int|
                0 <= i < prefix.len() && 0 <= j < rules.len() && regex_match_of(
                    #[trigger] rules[j].pattern,
                    #[trigger] prefix[i],
                ) && m == match_for(i + 1, prefix[i], rules[j]);
            assert(lines[i] == prefix[i]);
        }
        if exists|i: int, j: int|
            0 <= i < lines.len() && 0 <= j < rules.len() && regex_match_of(
                #[trigger] rules[j].pattern,
                #[trigger] lines[i],
            ) && m == match_for(i + 1, lines[i], rules[j]) {
            let (i, j) = choose|i: int, j: int|
                0 <= i < lines.len() && 0 <= j < rules.len() && regex_match_of(
                    #[trigger] rules[j].pattern,
                    #[trigger] lines[i],
                ) && m == match_for(i + 1, lines[i], rules[j]);
            if i < lines.len() - 1 {
                assert(prefix[i] == lines[i]);
            } else {
                assert(lines[i] == lines.last());
                assert(own.contains(m)) by {
                    lemma_line_matches_membership(last_n, lines.last(), rules, m);
                }
            }
        }
    }
}

/// The order the scanner reports matches in: severity rank descending,
/// then line number ascending.
pub open spec fn match_le(a: MatchV, b: MatchV) -> bool {
    rank_of(a.severity) > rank_of(b.severity) || (rank_of(a.severity) == rank_of(b.severity)
        && a.line_num <= b.line_num)
}

/// Whether a sequence of matches is sorted in reporting order.
pub open spec fn sorted_matches(s: Seq<MatchV>) -> bool {
    forall|i: int, j: int| 0 <= i < j < s.len() ==> match_le(s[i], s[j])
}

fn match_le_exec(a: &Match, b: &Match) -> (r: bool)
    ensures
        r == match_le(a@, b@),
{
    let ra = a.severity.rank();
    let rb = b.severity.rank();
    ra > rb || (ra == rb && a.line_num <= b.line_num)
}

/// Collects the matches of every rule on every line, in file order then
/// rule-set order.
fn collect_matches(lines: &Vec<String>, rules: &Vec<Rule>) -> (ms: Vec<Match>)
    ensures
        ms.deep_view() == matches_of(lines.deep_view(), rules.deep_view()),
{
    let mut ms: Vec<Match> = Vec::new();
    let n = lines.len();
    let mut i: usize = 0;
    assert(lines.deep_view().take(0) =~= Seq::<Seq<char>>::empty());
    assert(ms.deep_view() =~= Seq::<MatchV>::empty());
    while i < n
        invariant
            i <= n,
            n == lines@.len(),
            ms.deep_view() == matches_of(lines.deep_view().take(i as int), rules.deep_view()),
        decreases n - i,
    {
        let ghost line_prefix = lines.deep_view().take(i as int);
        let line = &lines[i];
        proof {
            assert(line@ == lines.deep_view()[i as int]);
        }
        let m = rules.len();
        let mut j: usize = 0;
        assert(rules.deep_view().take(0) =~= Seq::<RuleV>::empty());
        while j < m
            invariant
                j <= m,
                m == rules@.len(),
                i < n,
                n == lines@.len(),
                line@ == lines.deep_view()[i as int],
                ms.deep_view() == matches_of(line_prefix, rules.deep_view()) + line_matches(
                    i + 1,
                    line@,
                    rules.deep_view().take(j as int),
                ),
            decreases m - j,
        {
            let ghost rule_prefix = rules.deep_view().take(j as int);
            let ghost prev = ms.deep_view();
            let rule = &rules[j];
            proof {
                assert(rule@ == rules.deep_view()[j as int]);
            }
            if rule_fires(rule, line.as_str()) {
                let found = Match {
                    line_num: i + 1,
                    description: rule.description.clone(),
                    severity: rule.severity,
                    line: line.clone(),
                };
                ms.push(found);
                proof {
                    assert(ms.deep_view() =~= prev.push(found@));
                }
            }
            proof {
                assert(rules.deep_view().take(j + 1).drop_last() =~= rule_prefix);
                assert(rules.deep_view().take(j + 1).last() == rules.deep_view()[j as int]);
                assert(ms.deep_view() =~= matches_of(line_prefix, rules.deep_view())
                    + line_matches(i + 1, line@, rules.deep_view().take(j + 1)));
            }
            j += 1;
        }
        proof {
            assert(rules.deep_view().take(m as int) =~= rules.deep_view());
            assert(lines.deep_view().take(i + 1).drop_last() =~= line_prefix);
            assert(lines.deep_view().take(i + 1).last() == lines.deep_view()[i as int]);
            assert(lines.deep_view().take(i + 1).len() == i + 1);
            assert(ms.deep_view() =~= matches_of(lines.deep_view().take(i + 1), rules.deep_view()));
        }
        i += 1;
    }
    proof {
        assert(lines.deep_view().take(n as int) =~= lines.deep_view());
    }
    ms
}

/// Inserts a match into a sorted sequence, keeping it sorted.
fn insert_sorted(out: &mut Vec<Match>, m: Match)
    requires
        sorted_matches(old(out).deep_view()),
    ensures
        sorted_matches(final(out).deep_view()),
        final(out).deep_view().to_multiset() == old(out).deep_view().to_multiset().insert(m@),
{
    broadcast use vstd::seq_lib::group_to_multiset_ensures;
    broadcast use vstd::multiset::group_multiset_axioms;

    let n = out.len();
    let mut idx: usize = 0;
    while idx < n && match_le_exec(&out[idx], &m)
        invariant
            idx <= n,
            n == out@.len(),
            out == old(out),
            forall|j: int| 0 <= j < idx ==> match_le(out.deep_view()[j], m@),
        decreases n - idx,
    {
        idx += 1;
    }
    let ghost prev = out.deep_view();
    out.insert(idx, m);
    proof {
        assert(out.deep_view() =~= prev.insert(idx as int, m@));
        assert(prev.insert(idx as int, m@).to_multiset() =~= prev.to_multiset().insert(m@));
        assert forall|i: int, j: int|
            0 <= i < j < out.deep_view().len() implies match_le(
            out.deep_view()[i],
            out.deep_view()[j],
        ) by {
            let dv = out.deep_view();
            if j < idx {
                assert(dv[i] == prev[i] && dv[j] == prev[j]);
            } else if idx < i {
                assert(dv[i] == prev[i - 1] && dv[j] == prev[j - 1]);
            } else if i < idx && j == idx {
                assert(dv[i] == prev[i] && dv[j] == m@);
            } else if i == idx && idx < j {
                // everything at or past the insertion point is at least m:
                // the first entry not below m is above it, and the rest
                // follow by the order among the old entries
                assert(dv[i] == m@ && dv[j] == prev[j - 1]);
                assert(idx as int <= j - 1 < prev.len());
                assert(!match_le(prev[idx as int], m@));
                assert(match_le(m@, prev[idx as int]));
                if (idx as int) < j - 1 {
                    assert(match_le(prev[idx as int], prev[j - 1]));
                }
                assert(match_le(m@, prev[j - 1]));
            } else {
                assert(i < idx && idx < j);
                assert(dv[i] == prev[i] && dv[j] == prev[j - 1]);
                assert(match_le(prev[i], m@));
                assert(!match_le(prev[idx as int], m@));
                assert(match_le(m@, prev[idx as int]));
                if (idx as int) < j - 1 {
                    assert(match_le(prev[idx as int], prev[j - 1]));
                }
                assert(match_le(m@, prev[j - 1]));
                assert(match_le(prev[i], prev[j - 1]));
            }
        }
    }
}

/// Sorts matches into reporting order: severity rank descending, then line
/// number ascending; the result holds exactly the matches given, and ties
/// stand in an order this contract leaves open.
pub fn sort_matches(ms: Vec<Match>) -> (r: Vec<Match>)
    ensures
        sorted_matches(r.deep_view()),
        r.deep_view().to_multiset() == ms.deep_view().to_multiset(),
{
    broadcast use vstd::seq_lib::group_to_multiset_ensures;
    broadcast use vstd::multiset::group_multiset_axioms;

    let ghost orig = ms.deep_view();
    let mut src = ms;
    let mut out: Vec<Match> = Vec::new();
    proof {
        assert(out.deep_view() =~= Seq::<MatchV>::empty());
        assert(out.deep_view().to_multiset().add(src.deep_view().to_multiset())
            =~= orig.to_multiset());
    }
    while src.len() > 0
        invariant
            sorted_matches(out.deep_view()),
            out.deep_view().to_multiset().add(src.deep_view().to_multiset())
                == orig.to_multiset(),
        decreases src.len(),
    {
        let ghost src_prev = src.deep_view();
        let ghost out_prev = out.deep_view();
        let m = src.remove(0);
        proof {
            assert(src.deep_view() =~= src_prev.remove(0));
            assert(m@ == src_prev[0]);
            vstd::seq_lib::to_multiset_remove(src_prev, 0);
            assert(src_prev.contains(m@));
            vstd::seq_lib::to_multiset_contains(src_prev, m@);
            assert(src_prev.to_multiset().count(m@) > 0);
            assert(src_prev.to_multiset() =~= src.deep_view().to_multiset().insert(m@));
        }
        insert_sorted(&mut out, m);
        proof {
            assert(out.deep_view().to_multiset().add(src.deep_view().to_multiset())
                =~= out_prev.to_multiset().add(src_prev.to_multiset()));
        }
    }
    proof {
        assert(src.deep_view() =~= Seq::<MatchV>::empty());
        assert(src.deep_view().to_multiset().len() == 0);
        assert(out.deep_view().to_multiset() =~= orig.to_multiset());
    }
    out
}

/// Scans log lines against a rule set: the result holds exactly one match
/// per (line, rule) pair where the rule's pattern is found in the line, and
/// stands sorted by severity rank descending, then line number ascending.
pub fn scan_lines(lines: &Vec<String>, rules: &Vec<Rule>) -> (r: Vec<Match>)
    ensures
        sorted_matches(r.deep_view()),
        r.deep_view().to_multiset() == matches_of(
            lines.deep_view(),
            rules.deep_view(),
        ).to_multiset(),
{
    sort_matches(collect_matches(lines, rules))
}

} // verus!
