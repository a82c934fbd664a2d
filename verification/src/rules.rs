//! Rule definitions and the rule-set loader: extracts validated rules from
//! parsed configuration documents and resolves `includes` recursively,
//! detecting circular inclusion over canonical paths.

use vstd::prelude::*;

use crate::config::ConfVal;
use crate::config::conf_get;
use crate::config::list_texts;
use crate::config::parse_config;
use crate::config::tab_get;
use crate::config::text_items;
use crate::config::toml_doc_of;
use crate::severity::Severity;
use crate::severity::label_severity;

verus! {

/// A secret detection rule: a description, a regular-expression pattern
/// matched as a substring search, and a severity.
#[derive(Debug)]
pub struct Rule {
    pub description: String,
    pub pattern: String,
    pub severity: Severity,
}

/// The mathematical value of a [`Rule`].
#[verifier::ext_equal]
pub struct RuleV {
    pub description: Seq<char>,
    pub pattern: Seq<char>,
    pub severity: Severity,
}

impl View for Rule {
    type V = RuleV;

    open spec fn view(&self) -> RuleV {
        RuleV { description: self.description@, pattern: self.pattern@, severity: self.severity }
    }
}

impl DeepView for Rule {
    type V = RuleV;

    open spec fn deep_view(&self) -> RuleV {
        self.view()
    }
}

/// Whether a pattern is accepted by the regular-expression engine. The
/// outcome depends on the pattern alone.
pub uninterp spec fn regex_ok(pat: Seq<char>) -> bool;

/// Relies on fancy_regex::Regex::new: whether a pattern compiles depends on
/// the pattern text alone.
#[verifier::external_body]
fn regex_compiles(pat: &str) -> (b: bool)
    ensures
        b == regex_ok(pat@),
{
    fancy_regex::Regex::new(pat).is_ok()
}

/// The severity named by a rule entry's `severity` field: `Unknown` where
/// the field is absent or not a string.
pub open spec fn entry_severity(pairs: Seq<(String, ConfVal)>) -> Severity {
    match tab_get(pairs, "severity"@) {
        Option::Some(ConfVal::Text(s)) => label_severity(s@),
        _ => Severity::Unknown,
    }
}

/// The rule an entry of the `rules` list yields: `None` where the entry is
/// not a table, lacks a string `description` or `regex` field, or carries a
/// pattern the regular-expression engine rejects.
pub open spec fn entry_rule(item: ConfVal) -> Option<RuleV> {
    match item {
        ConfVal::Table(pairs) => match tab_get(pairs@, "description"@) {
            Option::Some(ConfVal::Text(d)) => match tab_get(pairs@, "regex"@) {
                Option::Some(ConfVal::Text(p)) => if regex_ok(p@) {
                    Option::Some(
                        RuleV {
                            description: d@,
                            pattern: p@,
                            severity: entry_severity(pairs@),
                        },
                    )
                } else {
                    Option::None
                },
                _ => Option::None,
            },
            _ => Option::None,
        },
        _ => Option::None,
    }
}

/// The well-formed rules among a sequence of entries, in order.
pub open spec fn rule_items(items: Seq<ConfVal>) -> Seq<RuleV>
    decreases items.len(),
{
    if items.len() == 0 {
        Seq::empty()
    } else {
        rule_items(items.drop_last()) + (match entry_rule(items.last()) {
            Option::Some(r) => seq![r],
            Option::None => Seq::<RuleV>::empty(),
        })
    }
}

/// The include paths a document lists, in order: the strings of its
/// top-level `includes` list, or none where that list is absent.
pub open spec fn doc_includes(d: ConfVal) -> Seq<Seq<char>> {
    match d {
        ConfVal::Table(pairs) => match tab_get(pairs@, "includes"@) {
            Option::Some(ConfVal::List(items)) => text_items(items@),
            _ => Seq::empty(),
        },
        _ => Seq::empty(),
    }
}

/// The well-formed rules a document defines directly, in order: those of its
/// top-level `rules` list.
pub open spec fn doc_rules(d: ConfVal) -> Seq<RuleV> {
    match d {
        ConfVal::Table(pairs) => match tab_get(pairs@, "rules"@) {
            Option::Some(ConfVal::List(items)) => rule_items(items@),
            _ => Seq::empty(),
        },
        _ => Seq::empty(),
    }
}

/// Law: every rule extracted from a document carries a pattern the
/// regular-expression engine accepts; an entry with an invalid pattern is
/// never turned into a rule.
pub proof fn lemma_rule_items_patterns_compile(items: Seq<ConfVal>)
    ensures
        forall|k: int|
            0 <= k < rule_items(items).len() ==> regex_ok(#[trigger] rule_items(items)[k].pattern),
    decreases items.len(),
{
    if items.len() > 0 {
        lemma_rule_items_patterns_compile(items.drop_last());
        assert forall|k: int|
            0 <= k < rule_items(items).len() implies regex_ok(
            #[trigger] rule_items(items)[k].pattern,
        ) by {
            let prefix = rule_items(items.drop_last());
            if k < prefix.len() {
                assert(rule_items(items)[k] == prefix[k]);
            }
        }
    }
}

/// Builds the rule an entry yields, or `None` for a malformed entry or one
/// whose pattern does not compile.
fn extract_entry(item: &ConfVal) -> (r: Option<Rule>)
    ensures
        match r {
            Option::Some(rule) => entry_rule(*item) == Option::Some(rule@),
            Option::None => entry_rule(*item) is None,
        },
{
    match item {
        ConfVal::Table(pairs) => {
            let d = match conf_get(pairs, "description") {
                Option::Some(ConfVal::Text(s)) => s,
                _ => {
                    return Option::None;
                },
            };
            let p = match conf_get(pairs, "regex") {
                Option::Some(ConfVal::Text(s)) => s,
                _ => {
                    return Option::None;
                },
            };
            if !regex_compiles(p.as_str()) {
                return Option::None;
            }
            let severity = match conf_get(pairs, "severity") {
                Option::Some(ConfVal::Text(s)) => Severity::from_str(s.as_str()),
                _ => Severity::Unknown,
            };
            Option::Some(Rule { description: d.clone(), pattern: p.clone(), severity })
        },
        _ => Option::None,
    }
}

/// Collects the well-formed rules among a list of entries, in order.
fn extract_rule_items(items: &Vec<ConfVal>) -> (r: Vec<Rule>)
    ensures
        r.deep_view() == rule_items(items@),
{
    let mut r: Vec<Rule> = Vec::new();
    let n = items.len();
    let mut i: usize = 0;
    assert(items@.take(0) =~= Seq::<ConfVal>::empty());
    while i < n
        invariant
            i <= n,
            n == items@.len(),
            r.deep_view() == rule_items(items@.take(i as int)),
        decreases n - i,
    {
        let ghost prefix = items@.take(i as int);
        match extract_entry(&items[i]) {
            Option::Some(rule) => {
                r.push(rule);
            },
            Option::None => {},
        }
        proof {
            assert(items@.take(i + 1).drop_last() =~= prefix);
            assert(items@.take(i + 1).last() == items@[i as int]);
            assert(r.deep_view() =~= rule_items(items@.take(i + 1)));
        }
        i += 1;
    }
    proof {
        assert(items@.take(n as int) =~= items@);
    }
    r
}

/// The include paths of a document, in order.
fn extract_includes(d: &ConfVal) -> (r: Vec<String>)
    ensures
        r.deep_view() == doc_includes(*d),
{
    let empty: Vec<String> = Vec::new();
    assert(empty.deep_view() =~= Seq::<Seq<char>>::empty());
    match d {
        ConfVal::Table(pairs) => match conf_get(pairs, "includes") {
            Option::Some(ConfVal::List(items)) => list_texts(items),
            _ => empty,
        },
        _ => empty,
    }
}

/// The well-formed rules a document defines directly, in order.
fn extract_rules(d: &ConfVal) -> (r: Vec<Rule>)
    ensures
        r.deep_view() == doc_rules(*d),
{
    let empty: Vec<Rule> = Vec::new();
    assert(empty.deep_view() =~= Seq::<RuleV>::empty());
    match d {
        ConfVal::Table(pairs) => match conf_get(pairs, "rules") {
            Option::Some(ConfVal::List(items)) => extract_rule_items(items),
            _ => empty,
        },
        _ => empty,
    }
}

/// The directory prefix of a path: everything through the last `/`, or the
/// empty sequence where the path has none.
pub open spec fn dir_of(p: Seq<char>) -> Seq<char>
    decreases p.len(),
{
    if p.len() == 0 {
        p
    } else if p.last() == '/' {
        p
    } else {
        dir_of(p.drop_last())
    }
}

/// An include path resolved against the directory of the including file:
/// taken as it stands where absolute, prefixed with the directory otherwise.
pub open spec fn join_path(dir: Seq<char>, inc: Seq<char>) -> Seq<char> {
    if inc.len() > 0 && inc[0] == '/' {
        inc
    } else {
        dir + inc
    }
}

proof fn lemma_dir_of_take(p: Seq<char>, i: int)
    requires
        0 <= i <= p.len(),
        forall|j: int| i <= j < p.len() ==> p[j] != '/',
        i > 0 ==> p[i - 1] == '/',
    ensures
        dir_of(p) == p.take(i),
    decreases p.len(),
{
    if p.len() == i {
        if i == 0 {
            assert(p.take(0) =~= p);
        } else {
            assert(p.last() == '/');
            assert(p.take(i) =~= p);
        }
    } else {
        assert(p[p.len() - 1] != '/');
        lemma_dir_of_take(p.drop_last(), i);
        assert(p.drop_last().take(i) =~= p.take(i));
    }
}

/// The directory prefix of a path.
fn dir_of_exec(p: &str) -> (r: String)
    ensures
        r@ == dir_of(p@),
{
    let n = p.unicode_len();
    let mut i: usize = n;
    while i > 0 && p.get_char(i - 1) != '/'
        invariant
            i <= n,
            n == p@.len(),
            forall|j: int| i <= j < n ==> p@[j] != '/',
        decreases i,
    {
        i -= 1;
    }
    let s = p.substring_char(0, i);
    proof {
        lemma_dir_of_take(p@, i as int);
    }
    String::from_str(s)
}

/// Resolves an include path against a directory prefix.
fn join_path_exec(dir: &str, inc: &str) -> (r: String)
    ensures
        r@ == join_path(dir@, inc@),
{
    if inc.unicode_len() > 0 && inc.get_char(0) == '/' {
        String::from_str(inc)
    } else {
        let mut r = String::from_str(dir);
        r.append(inc);
        r
    }
}

/// A load-time failure; each variant carries the path of the file on which
/// the load failed, as it was asked for.
#[derive(Debug)]
pub enum LoadError {
    /// The file could not be read.
    IoError(String),
    /// The file is not well-formed TOML.
    ConfigParseError(String),
    /// The file was reached twice in one load.
    CircularInclude(String),
}

/// The mathematical value of a [`LoadError`].
#[verifier::ext_equal]
pub enum LoadErrorV {
    IoError(Seq<char>),
    ConfigParseError(Seq<char>),
    CircularInclude(Seq<char>),
}

impl View for LoadError {
    type V = LoadErrorV;

    open spec fn view(&self) -> LoadErrorV {
        match self {
            LoadError::IoError(p) => LoadErrorV::IoError(p@),
            LoadError::ConfigParseError(p) => LoadErrorV::ConfigParseError(p@),
            LoadError::CircularInclude(p) => LoadErrorV::CircularInclude(p@),
        }
    }
}

/// What the loader asks of its caller next: read a file and hand its content
/// back, or accept the finished rule set, or give the failure up.
#[derive(Debug)]
pub enum LoadAction {
    Read(String),
    Done(Vec<Rule>),
    Fail(LoadError),
}

/// The mathematical value of a [`LoadAction`].
#[verifier::ext_equal]
pub enum ActionV {
    Read(Seq<char>),
    Done(Seq<RuleV>),
    Fail(LoadErrorV),
}

impl View for LoadAction {
    type V = ActionV;

    open spec fn view(&self) -> ActionV {
        match self {
            LoadAction::Read(p) => ActionV::Read(p@),
            LoadAction::Done(rules) => ActionV::Done(rules.deep_view()),
            LoadAction::Fail(e) => ActionV::Fail(e@),
        }
    }
}

struct Frame {
    pending: Vec<String>,
    own: Vec<Rule>,
}

/// One file in flight: the includes of it not yet loaded, and the rules it
/// defines directly, held back until its includes are done.
#[verifier::ext_equal]
pub struct FrameV {
    pub pending: Seq<Seq<char>>,
    pub own: Seq<RuleV>,
}

impl DeepView for Frame {
    type V = FrameV;

    closed spec fn deep_view(&self) -> FrameV {
        FrameV { pending: self.pending.deep_view(), own: self.own.deep_view() }
    }
}

/// The mathematical state of a [`Loader`]: the canonical paths visited so
/// far in this load, the stack of files whose includes are being resolved,
/// the rules accumulated in their final order, and the path most recently
/// asked for.
#[verifier::ext_equal]
pub struct LoaderV {
    pub visited: Seq<Seq<char>>,
    pub stack: Seq<FrameV>,
    pub acc: Seq<RuleV>,
    pub cur: Seq<char>,
}

/// The loading of one rule set, driven by its caller: the caller reads each
/// file the loader asks for (resolving the path to its canonical form) and
/// hands the content back, until the loader answers with the finished rule
/// set or a failure. The set of visited canonical paths is cumulative over
/// the whole load, so reaching a file twice on any two paths of the include
/// graph fails, a diamond as well as a cycle.
pub struct Loader {
    visited: Vec<String>,
    stack: Vec<Frame>,
    acc: Vec<Rule>,
    cur: String,
}

impl View for Loader {
    type V = LoaderV;

    closed spec fn view(&self) -> LoaderV {
        LoaderV {
            visited: self.visited.deep_view(),
            stack: self.stack.deep_view(),
            acc: self.acc.deep_view(),
            cur: self.cur@,
        }
    }
}

/// The initial loader state for a root path, and the first request.
pub open spec fn begin_spec(root: Seq<char>) -> (LoaderV, ActionV) {
    (
        LoaderV { visited: Seq::empty(), stack: Seq::empty(), acc: Seq::empty(), cur: root },
        ActionV::Read(root),
    )
}

/// Unwinds finished files and issues the next request: a file whose
/// includes are all loaded contributes its own rules, after those of its
/// includes; when no file is left the accumulated rules are the result.
pub open spec fn advance_spec(l: LoaderV) -> (LoaderV, ActionV)
    decreases l.stack.len(),
{
    if l.stack.len() == 0 {
        (
            LoaderV { visited: l.visited, stack: l.stack, acc: Seq::empty(), cur: l.cur },
            ActionV::Done(l.acc),
        )
    } else {
        let fr = l.stack.last();
        if fr.pending.len() == 0 {
            advance_spec(
                LoaderV {
                    visited: l.visited,
                    stack: l.stack.drop_last(),
                    acc: l.acc + fr.own,
                    cur: l.cur,
                },
            )
        } else {
            let p = fr.pending.first();
            (
                LoaderV {
                    visited: l.visited,
                    stack: l.stack.drop_last().push(
                        FrameV { pending: fr.pending.drop_first(), own: fr.own },
                    ),
                    acc: l.acc,
                    cur: p,
                },
                ActionV::Read(p),
            )
        }
    }
}

/// One step of the load, on the content of the file last asked for: fails
/// on a canonical path already visited and on a parse error; otherwise
/// records the path, queues the file's includes resolved against its
/// directory, holds its own rules back, and advances.
pub open spec fn on_file_spec(l: LoaderV, canonical: Seq<char>, content: Seq<char>) -> (
    LoaderV,
    ActionV,
) {
    if l.visited.contains(canonical) {
        (l, ActionV::Fail(LoadErrorV::CircularInclude(l.cur)))
    } else {
        let visited = l.visited.push(canonical);
        match toml_doc_of(content) {
            Option::None => (
                LoaderV { visited, stack: l.stack, acc: l.acc, cur: l.cur },
                ActionV::Fail(LoadErrorV::ConfigParseError(l.cur)),
            ),
            Option::Some(d) => {
                let pending = doc_includes(d).map_values(
                    |inc: Seq<char>| join_path(dir_of(l.cur), inc),
                );
                advance_spec(
                    LoaderV {
                        visited,
                        stack: l.stack.push(FrameV { pending, own: doc_rules(d) }),
                        acc: l.acc,
                        cur: l.cur,
                    },
                )
            },
        }
    }
}

/// Whether a path is among the visited ones.
fn contains_str(v: &Vec<String>, s: &str) -> (b: bool)
    ensures
        b == v.deep_view().contains(s@),
{
    let key = String::from_str(s);
    let n = v.len();
    let mut i: usize = 0;
    while i < n
        invariant
            i <= n,
            n == v@.len(),
            key@ == s@,
            forall|j: int| 0 <= j < i ==> v.deep_view()[j] != s@,
        decreases n - i,
    {
        if v[i] == key {
            assert(v.deep_view()[i as int] == s@);
            return true;
        }
        i += 1;
    }
    assert(!v.deep_view().contains(s@));
    false
}

impl Loader {
    /// Starts a load at a root path; the first request asks for that path.
    pub fn begin(root: &str) -> (r: (Loader, LoadAction))
        ensures
            r.0@ == begin_spec(root@).0,
            r.1@ == begin_spec(root@).1,
    {
        let l = Loader {
            visited: Vec::new(),
            stack: Vec::new(),
            acc: Vec::new(),
            cur: String::from_str(root),
        };
        let a = LoadAction::Read(String::from_str(root));
        proof {
            assert(l@ =~= begin_spec(root@).0);
            assert(a@ =~= begin_spec(root@).1);
        }
        (l, a)
    }

    fn advance(&mut self) -> (r: LoadAction)
        ensures
            final(self)@ == advance_spec(old(self)@).0,
            r@ == advance_spec(old(self)@).1,
    {
        loop
            invariant
                advance_spec(self@) == advance_spec(old(self)@),
            decreases self@.stack.len(),
        {
            let ghost pre = self@;
            if self.stack.len() == 0 {
                let mut out: Vec<Rule> = Vec::new();
                out.append(&mut self.acc);
                proof {
                    assert(out.deep_view() =~= pre.acc);
                    assert(self@ =~= advance_spec(pre).0);
                }
                return LoadAction::Done(out);
            }
            let fr_opt = self.stack.pop();
            let mut fr = fr_opt.unwrap();
            proof {
                assert(fr.deep_view() == pre.stack.last());
                assert(self@.stack =~= pre.stack.drop_last());
            }
            if fr.pending.len() == 0 {
                let ghost mid = self@;
                self.acc.append(&mut fr.own);
                proof {
                    assert(self@.acc =~= pre.acc + pre.stack.last().own);
                    assert(self@ =~= LoaderV {
                        visited: pre.visited,
                        stack: pre.stack.drop_last(),
                        acc: pre.acc + pre.stack.last().own,
                        cur: pre.cur,
                    });
                }
            } else {
                let p = fr.pending.remove(0);
                self.cur = p.clone();
                self.stack.push(fr);
                proof {
                    assert(fr.deep_view().pending =~= pre.stack.last().pending.drop_first());
                    assert(self@ =~= advance_spec(pre).0);
                    assert(ActionV::Read(p@) =~= advance_spec(pre).1);
                }
                return LoadAction::Read(p);
            }
        }
    }

    /// Feeds the loader the content of the file it last asked for, with the
    /// canonical form of that file's path, and returns the next request.
    pub fn on_file(&mut self, canonical: &str, content: &str) -> (r: LoadAction)
        ensures
            final(self)@ == on_file_spec(old(self)@, canonical@, content@).0,
            r@ == on_file_spec(old(self)@, canonical@, content@).1,
    {
        let ghost pre = self@;
        if contains_str(&self.visited, canonical) {
            return LoadAction::Fail(LoadError::CircularInclude(self.cur.clone()));
        }
        self.visited.push(String::from_str(canonical));
        proof {
            assert(self@.visited =~= pre.visited.push(canonical@));
        }
        let doc = match parse_config(content) {
            Option::Some(d) => d,
            Option::None => {
                return LoadAction::Fail(LoadError::ConfigParseError(self.cur.clone()));
            },
        };
        let dir = dir_of_exec(self.cur.as_str());
        let incs = extract_includes(&doc);
        let mut pending: Vec<String> = Vec::new();
        let n = incs.len();
        let mut i: usize = 0;
        while i < n
            invariant
                i <= n,
                n == incs@.len(),
                dir@ == dir_of(pre.cur),
                incs.deep_view() == doc_includes(doc),
                pending.deep_view().len() == i,
                forall|j: int|
                    0 <= j < i ==> pending.deep_view()[j] == join_path(
                        dir_of(pre.cur),
                        incs.deep_view()[j],
                    ),
            decreases n - i,
        {
            let ghost prev = pending.deep_view();
            let joined = join_path_exec(dir.as_str(), incs[i].as_str());
            proof {
                assert(incs[i as int].deep_view() == incs.deep_view()[i as int]);
                assert(joined@ == join_path(dir_of(pre.cur), incs.deep_view()[i as int]));
            }
            pending.push(joined);
            proof {
                assert(pending.deep_view() =~= prev.push(joined@));
            }
            i += 1;
        }
        proof {
            assert(pending.deep_view() =~= doc_includes(doc).map_values(
                |inc: Seq<char>| join_path(dir_of(pre.cur), inc),
            ));
        }
        let own = extract_rules(&doc);
        self.stack.push(Frame { pending, own });
        proof {
            assert(self@ =~= LoaderV {
                visited: pre.visited.push(canonical@),
                stack: pre.stack.push(
                    FrameV {
                        pending: doc_includes(doc).map_values(
                            |inc: Seq<char>| join_path(dir_of(pre.cur), inc),
                        ),
                        own: doc_rules(doc),
                    },
                ),
                acc: pre.acc,
                cur: pre.cur,
            });
        }
        self.advance()
    }

    /// Gives the load up after the file last asked for could not be read:
    /// the failure names that file.
    pub fn on_read_error(&self) -> (r: LoadAction)
        ensures
            r@ == ActionV::Fail(LoadErrorV::IoError(self@.cur)),
    {
        LoadAction::Fail(LoadError::IoError(self.cur.clone()))
    }
}

/// Whether a load step answered with a circular-include failure.
pub open spec fn is_circular_failure(a: ActionV) -> bool {
    match a {
        ActionV::Fail(LoadErrorV::CircularInclude(_)) => true,
        _ => false,
    }
}

proof fn lemma_push_not_contains(s: Seq<Seq<char>>, x: Seq<char>, y: Seq<char>)
    requires
        !s.contains(y),
        x != y,
    ensures
        !s.push(x).contains(y),
        s.push(x).contains(x),
{
    assert forall|i: int| 0 <= i < s.push(x).len() implies s.push(x)[i] != y by {
        if i < s.len() {
            assert(s.push(x)[i] == s[i]);
            assert(!s.contains(y));
        }
    }
    assert(s.push(x)[s.len() as int] == x);
}

/// Law: loading a file with no includes yields exactly the file's own
/// well-formed rules, in file order; malformed entries contribute nothing.
pub proof fn lemma_load_no_includes(
    root: Seq<char>,
    canonical: Seq<char>,
    content: Seq<char>,
    d: ConfVal,
)
    requires
        toml_doc_of(content) == Option::Some(d),
        doc_includes(d).len() == 0,
    ensures
        begin_spec(root).1 == ActionV::Read(root),
        on_file_spec(begin_spec(root).0, canonical, content).1 == ActionV::Done(doc_rules(d)),
{
    let l0 = begin_spec(root).0;
    assert(l0.visited.len() == 0);
    assert(!l0.visited.contains(canonical));
    let pending = doc_includes(d).map_values(|inc: Seq<char>| join_path(dir_of(l0.cur), inc));
    assert(pending.len() == 0);
    let l1 = LoaderV {
        visited: l0.visited.push(canonical),
        stack: l0.stack.push(FrameV { pending, own: doc_rules(d) }),
        acc: l0.acc,
        cur: l0.cur,
    };
    assert(on_file_spec(l0, canonical, content) == advance_spec(l1));
    assert(l1.stack.last() == FrameV { pending, own: doc_rules(d) });
    let l2 = LoaderV {
        visited: l1.visited,
        stack: l1.stack.drop_last(),
        acc: l1.acc + doc_rules(d),
        cur: l1.cur,
    };
    assert(advance_spec(l1) == advance_spec(l2));
    assert(l2.stack.len() == 0);
    assert(l2.acc =~= doc_rules(d));
}

/// Law: loading a file that includes one other file yields the included
/// file's rules, in its internal order, immediately followed by the
/// including file's own rules.
pub proof fn lemma_load_include_before_own(
    root: Seq<char>,
    can_a: Seq<char>,
    cont_a: Seq<char>,
    d_a: ConfVal,
    can_b: Seq<char>,
    cont_b: Seq<char>,
    d_b: ConfVal,
)
    requires
        toml_doc_of(cont_a) == Option::Some(d_a),
        doc_includes(d_a).len() == 1,
        toml_doc_of(cont_b) == Option::Some(d_b),
        doc_includes(d_b).len() == 0,
        can_b != can_a,
    ensures
        on_file_spec(begin_spec(root).0, can_a, cont_a).1 == ActionV::Read(
            join_path(dir_of(root), doc_includes(d_a)[0]),
        ),
        on_file_spec(on_file_spec(begin_spec(root).0, can_a, cont_a).0, can_b, cont_b).1
            == ActionV::Done(doc_rules(d_b) + doc_rules(d_a)),
{
    let l0 = begin_spec(root).0;
    assert(l0.visited.len() == 0);
    assert(!l0.visited.contains(can_a));
    let pend_a = doc_includes(d_a).map_values(|inc: Seq<char>| join_path(dir_of(root), inc));
    assert(pend_a.len() == 1);
    let path_b = join_path(dir_of(root), doc_includes(d_a)[0]);
    assert(pend_a[0] == path_b);
    let l1 = LoaderV {
        visited: l0.visited.push(can_a),
        stack: l0.stack.push(FrameV { pending: pend_a, own: doc_rules(d_a) }),
        acc: l0.acc,
        cur: root,
    };
    assert(on_file_spec(l0, can_a, cont_a) == advance_spec(l1));
    assert(l1.stack.last() == FrameV { pending: pend_a, own: doc_rules(d_a) });
    assert(pend_a.first() == path_b);
    let l2 = LoaderV {
        visited: l1.visited,
        stack: l1.stack.drop_last().push(
            FrameV { pending: pend_a.drop_first(), own: doc_rules(d_a) },
        ),
        acc: l1.acc,
        cur: path_b,
    };
    assert(advance_spec(l1) == (l2, ActionV::Read(path_b)));
    lemma_push_not_contains(l0.visited, can_a, can_b);
    assert(!l2.visited.contains(can_b));
    let pend_b = doc_includes(d_b).map_values(|inc: Seq<char>| join_path(dir_of(path_b), inc));
    assert(pend_b.len() == 0);
    let frame_b = FrameV { pending: pend_b, own: doc_rules(d_b) };
    let l3 = LoaderV {
        visited: l2.visited.push(can_b),
        stack: l2.stack.push(frame_b),
        acc: l2.acc,
        cur: path_b,
    };
    assert(on_file_spec(l2, can_b, cont_b) == advance_spec(l3));
    assert(l3.stack.last() == frame_b);
    let l4 = LoaderV {
        visited: l3.visited,
        stack: l3.stack.drop_last(),
        acc: l3.acc + doc_rules(d_b),
        cur: l3.cur,
    };
    assert(advance_spec(l3) == advance_spec(l4));
    assert(l3.stack.drop_last() =~= l2.stack);
    assert(l4.stack.len() == 1);
    assert(l4.stack.last() == FrameV { pending: pend_a.drop_first(), own: doc_rules(d_a) });
    assert(pend_a.drop_first().len() == 0);
    let l5 = LoaderV {
        visited: l4.visited,
        stack: l4.stack.drop_last(),
        acc: l4.acc + doc_rules(d_a),
        cur: l4.cur,
    };
    assert(advance_spec(l4) == advance_spec(l5));
    assert(l5.stack.len() == 0);
    assert(advance_spec(l5).1 == ActionV::Done(l5.acc));
    assert(l5.acc =~= doc_rules(d_b) + doc_rules(d_a));
}

/// Law: a load step on a canonical path already visited in the same load
/// fails with a circular-include failure naming the path asked for, and
/// leaves the state as it was: no rule set, partial or whole, comes out.
pub proof fn lemma_revisit_fails(l: LoaderV, canonical: Seq<char>, content: Seq<char>)
    requires
        l.visited.contains(canonical),
    ensures
        on_file_spec(l, canonical, content).0 == l,
        on_file_spec(l, canonical, content).1 == ActionV::Fail(
            LoadErrorV::CircularInclude(l.cur),
        ),
{
}

/// Law: two files that include each other — a direct cycle — drive the load
/// into a circular-include failure on the second arrival at the first file,
/// whatever rules the two files define.
pub proof fn lemma_cycle_fails(
    root: Seq<char>,
    can_a: Seq<char>,
    cont_a: Seq<char>,
    d_a: ConfVal,
    can_b: Seq<char>,
    cont_b: Seq<char>,
    d_b: ConfVal,
    cont_a2: Seq<char>,
)
    requires
        toml_doc_of(cont_a) == Option::Some(d_a),
        doc_includes(d_a).len() >= 1,
        toml_doc_of(cont_b) == Option::Some(d_b),
        doc_includes(d_b).len() >= 1,
        can_b != can_a,
    ensures
        ({
            let s1 = on_file_spec(begin_spec(root).0, can_a, cont_a);
            let s2 = on_file_spec(s1.0, can_b, cont_b);
            s1.1 is Read && s2.1 is Read && is_circular_failure(
                on_file_spec(s2.0, can_a, cont_a2).1,
            )
        }),
{
    let l0 = begin_spec(root).0;
    assert(l0.visited.len() == 0);
    assert(!l0.visited.contains(can_a));
    let pend_a = doc_includes(d_a).map_values(|inc: Seq<char>| join_path(dir_of(root), inc));
    assert(pend_a.len() >= 1);
    let l1 = LoaderV {
        visited: l0.visited.push(can_a),
        stack: l0.stack.push(FrameV { pending: pend_a, own: doc_rules(d_a) }),
        acc: l0.acc,
        cur: root,
    };
    assert(on_file_spec(l0, can_a, cont_a) == advance_spec(l1));
    assert(l1.stack.last() == FrameV { pending: pend_a, own: doc_rules(d_a) });
    let s1 = advance_spec(l1);
    assert(s1.1 == ActionV::Read(pend_a.first()));
    assert(s1.0.visited == l1.visited);
    lemma_push_not_contains(l0.visited, can_a, can_b);
    assert(!s1.0.visited.contains(can_b));
    let pend_b = doc_includes(d_b).map_values(
        |inc: Seq<char>| join_path(dir_of(s1.0.cur), inc),
    );
    assert(pend_b.len() >= 1);
    let l2 = LoaderV {
        visited: s1.0.visited.push(can_b),
        stack: s1.0.stack.push(FrameV { pending: pend_b, own: doc_rules(d_b) }),
        acc: s1.0.acc,
        cur: s1.0.cur,
    };
    assert(on_file_spec(s1.0, can_b, cont_b) == advance_spec(l2));
    assert(l2.stack.last() == FrameV { pending: pend_b, own: doc_rules(d_b) });
    let s2 = advance_spec(l2);
    assert(s2.1 == ActionV::Read(pend_b.first()));
    assert(s2.0.visited == l2.visited);
    assert(l1.visited.contains(can_a)) by {
        assert(l1.visited[0] == can_a);
    }
    assert(s2.0.visited.contains(can_a)) by {
        assert(s2.0.visited[0] == can_a);
    }
    lemma_revisit_fails(s2.0, can_a, cont_a2);
}

/// Law: a diamond inclusion — a root file includes two files, each of which
/// includes the same fourth file — fails with a circular-include failure on
/// the second arrival at the shared file, under the cumulative visited set,
/// rather than loading that file twice.
pub proof fn lemma_diamond_fails(
    root: Seq<char>,
    can_a: Seq<char>,
    cont_a: Seq<char>,
    d_a: ConfVal,
    can_b: Seq<char>,
    cont_b: Seq<char>,
    d_b: ConfVal,
    can_d: Seq<char>,
    cont_d: Seq<char>,
    d_d: ConfVal,
    can_c: Seq<char>,
    cont_c: Seq<char>,
    d_c: ConfVal,
    cont_d2: Seq<char>,
)
    requires
        toml_doc_of(cont_a) == Option::Some(d_a),
        doc_includes(d_a).len() == 2,
        toml_doc_of(cont_b) == Option::Some(d_b),
        doc_includes(d_b).len() == 1,
        toml_doc_of(cont_d) == Option::Some(d_d),
        doc_includes(d_d).len() == 0,
        toml_doc_of(cont_c) == Option::Some(d_c),
        doc_includes(d_c).len() == 1,
        can_b != can_a,
        can_d != can_a && can_d != can_b,
        can_c != can_a && can_c != can_b && can_c != can_d,
    ensures
        ({
            let s1 = on_file_spec(begin_spec(root).0, can_a, cont_a);
            let s2 = on_file_spec(s1.0, can_b, cont_b);
            let s3 = on_file_spec(s2.0, can_d, cont_d);
            let s4 = on_file_spec(s3.0, can_c, cont_c);
            s1.1 is Read && s2.1 is Read && s3.1 is Read && s4.1 is Read && is_circular_failure(
                on_file_spec(s4.0, can_d, cont_d2).1,
            )
        }),
{
    let l0 = begin_spec(root).0;
    assert(l0.visited.len() == 0);
    assert(!l0.visited.contains(can_a));
    let pend_a = doc_includes(d_a).map_values(|inc: Seq<char>| join_path(dir_of(root), inc));
    assert(pend_a.len() == 2);
    let fr_a = FrameV { pending: pend_a, own: doc_rules(d_a) };
    let l1 = LoaderV {
        visited: l0.visited.push(can_a),
        stack: l0.stack.push(fr_a),
        acc: l0.acc,
        cur: root,
    };
    assert(on_file_spec(l0, can_a, cont_a) == advance_spec(l1));
    assert(l1.stack.last() == fr_a);
    let s1 = advance_spec(l1);
    assert(s1.1 == ActionV::Read(pend_a.first()));
    assert(s1.0.stack =~= l1.stack.drop_last().push(
        FrameV { pending: pend_a.drop_first(), own: doc_rules(d_a) },
    ));
    lemma_push_not_contains(l0.visited, can_a, can_b);
    assert(!s1.0.visited.contains(can_b));
    let pend_b = doc_includes(d_b).map_values(
        |inc: Seq<char>| join_path(dir_of(s1.0.cur), inc),
    );
    assert(pend_b.len() == 1);
    let fr_b = FrameV { pending: pend_b, own: doc_rules(d_b) };
    let l2 = LoaderV {
        visited: s1.0.visited.push(can_b),
        stack: s1.0.stack.push(fr_b),
        acc: s1.0.acc,
        cur: s1.0.cur,
    };
    assert(on_file_spec(s1.0, can_b, cont_b) == advance_spec(l2));
    assert(l2.stack.last() == fr_b);
    let s2 = advance_spec(l2);
    assert(s2.1 == ActionV::Read(pend_b.first()));
    assert(s2.0.stack =~= l2.stack.drop_last().push(
        FrameV { pending: pend_b.drop_first(), own: doc_rules(d_b) },
    ));
    assert(l0.visited.push(can_a).contains(can_a)) by {
        assert(l0.visited.push(can_a)[0] == can_a);
    }
    lemma_push_not_contains(l0.visited, can_a, can_d);
    lemma_push_not_contains(s1.0.visited, can_b, can_d);
    assert(!s2.0.visited.contains(can_d));
    let pend_d = doc_includes(d_d).map_values(
        |inc: Seq<char>| join_path(dir_of(s2.0.cur), inc),
    );
    assert(pend_d.len() == 0);
    let fr_d = FrameV { pending: pend_d, own: doc_rules(d_d) };
    let l3 = LoaderV {
        visited: s2.0.visited.push(can_d),
        stack: s2.0.stack.push(fr_d),
        acc: s2.0.acc,
        cur: s2.0.cur,
    };
    assert(on_file_spec(s2.0, can_d, cont_d) == advance_spec(l3));
    // the frame of the shared file is finished and contributes its rules
    assert(l3.stack.last() == fr_d);
    let l3b = LoaderV {
        visited: l3.visited,
        stack: l3.stack.drop_last(),
        acc: l3.acc + doc_rules(d_d),
        cur: l3.cur,
    };
    assert(advance_spec(l3) == advance_spec(l3b));
    assert(l3b.stack =~= s2.0.stack);
    // so is the frame of the first including file
    assert(l3b.stack.last() == FrameV { pending: pend_b.drop_first(), own: doc_rules(d_b) });
    assert(pend_b.drop_first().len() == 0);
    let l3c = LoaderV {
        visited: l3b.visited,
        stack: l3b.stack.drop_last(),
        acc: l3b.acc + doc_rules(d_b),
        cur: l3b.cur,
    };
    assert(advance_spec(l3b) == advance_spec(l3c));
    assert(l3c.stack =~= l1.stack.drop_last().push(
        FrameV { pending: pend_a.drop_first(), own: doc_rules(d_a) },
    ));
    // the root file still has its second include to resolve
    assert(l3c.stack.last() == FrameV { pending: pend_a.drop_first(), own: doc_rules(d_a) });
    assert(pend_a.drop_first().len() == 1);
    let s3 = advance_spec(l3c);
    assert(s3.1 == ActionV::Read(pend_a.drop_first().first()));
    assert(s3.0.visited == l3.visited);
    lemma_push_not_contains(s2.0.visited, can_d, can_c);
    assert(!s3.0.visited.contains(can_c));
    let pend_c = doc_includes(d_c).map_values(
        |inc: Seq<char>| join_path(dir_of(s3.0.cur), inc),
    );
    assert(pend_c.len() == 1);
    let fr_c = FrameV { pending: pend_c, own: doc_rules(d_c) };
    let l4 = LoaderV {
        visited: s3.0.visited.push(can_c),
        stack: s3.0.stack.push(fr_c),
        acc: s3.0.acc,
        cur: s3.0.cur,
    };
    assert(on_file_spec(s3.0, can_c, cont_c) == advance_spec(l4));
    assert(l4.stack.last() == fr_c);
    let s4 = advance_spec(l4);
    assert(s4.1 == ActionV::Read(pend_c.first()));
    assert(s3.0.visited.contains(can_d)) by {
        assert(s3.0.visited[2] == can_d);
    }
    assert(s4.0.visited.contains(can_d)) by {
        assert(s4.0.visited[2] == can_d);
    }
    lemma_revisit_fails(s4.0, can_d, cont_d2);
}

} // verus!
