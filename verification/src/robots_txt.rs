//! The robots policy engine: parses a robots rules document into per-agent
//! allow/disallow path-prefix lists and answers whether a path is permitted
//! for an agent.
//!
//! The parser mirrors a permissive convention: `user-agent` lines accumulate
//! into the set of currently active agents and are never cleared by a later
//! directive, and an `allow` or `disallow` line applies to every currently
//! active agent. Evaluation is fail-open: an agent with no rule entry falls
//! back to the wildcard agent `*`, and with neither entry the path is
//! permitted. An allow prefix match wins over any disallow match.

use vstd::prelude::*;

use crate::text::{
    is_space, lemma_scan_to, lemma_scan_to_is, lemma_scan_to_shift, lemma_trim_clean, lower,
    lower_str, scan_char, scan_to, str_eq, str_starts_with, trim_spec, trim_str,
};

verus! {

/// The mathematical content of one agent's rules: the allow and disallow
/// path prefixes, each in document order.
pub ghost struct RulesView {
    pub allowed: Seq<Seq<char>>,
    pub disallowed: Seq<Seq<char>>,
}

/// The mathematical content of a parsed rules document: one entry per
/// user-agent token, in order of first appearance.
pub type TableView = Seq<(Seq<char>, RulesView)>;

/// The rule lists for one user-agent token.
#[derive(Debug, PartialEq)]
pub struct CrawlerRules {
    pub disallowed: Vec<String>,
    pub allowed: Vec<String>,
}

impl View for CrawlerRules {
    type V = RulesView;

    open spec fn view(&self) -> RulesView {
        RulesView { allowed: self.allowed.deep_view(), disallowed: self.disallowed.deep_view() }
    }
}

impl CrawlerRules {
    /// An empty pair of rule lists.
    pub fn empty() -> (r: CrawlerRules)
        ensures
            r@.allowed.len() == 0,
            r@.disallowed.len() == 0,
    {
        CrawlerRules { disallowed: Vec::new(), allowed: Vec::new() }
    }
}

impl Default for CrawlerRules {
    /// An empty pair of rule lists.
    fn default() -> (r: CrawlerRules)
        ensures
            r@.allowed.len() == 0,
            r@.disallowed.len() == 0,
    {
        CrawlerRules::empty()
    }
}

/// A parsed robots rules document.
#[derive(Debug, PartialEq)]
pub struct RobotsTxt {
    /// One entry per user-agent token, in order of first appearance.
    pub user_agents: Vec<(String, CrawlerRules)>,
}

impl View for RobotsTxt {
    type V = TableView;

    open spec fn view(&self) -> TableView {
        self.user_agents@.map_values(|e: (String, CrawlerRules)| (e.0@, e.1@))
    }
}

impl Default for RobotsTxt {
    /// An empty rules document: no agents at all.
    fn default() -> (r: RobotsTxt)
        ensures
            r@.len() == 0,
    {
        RobotsTxt { user_agents: Vec::new() }
    }
}

/// The rules of the first entry for `name`, if any.
pub open spec fn lookup(t: TableView, name: Seq<char>) -> Option<RulesView>
    decreases t.len(),
{
    if t.len() == 0 {
        None
    } else if t[0].0 == name {
        Some(t[0].1)
    } else {
        lookup(t.drop_first(), name)
    }
}

/// Whether the table has an entry for `name`.
pub open spec fn has_agent(t: TableView, name: Seq<char>) -> bool {
    lookup(t, name) is Some
}

/// The table with an entry for `name` added at the end if none exists.
pub open spec fn ensure_agent(t: TableView, name: Seq<char>) -> TableView {
    if has_agent(t, name) {
        t
    } else {
        t.push((name, RulesView { allowed: Seq::empty(), disallowed: Seq::empty() }))
    }
}

/// The table with `value` appended to the allow (or disallow) list of every
/// entry named `name`.
pub open spec fn add_rule_for(t: TableView, name: Seq<char>, value: Seq<char>, allow: bool) -> TableView {
    t.map_values(
        |e: (Seq<char>, RulesView)|
            if e.0 == name {
                if allow {
                    (e.0, RulesView { allowed: e.1.allowed.push(value), disallowed: e.1.disallowed })
                } else {
                    (e.0, RulesView { allowed: e.1.allowed, disallowed: e.1.disallowed.push(value) })
                }
            } else {
                e
            },
    )
}

/// `add_rule_for` applied once per agent occurrence, left to right.
pub open spec fn add_rule_all(t: TableView, agents: Seq<Seq<char>>, value: Seq<char>, allow: bool) -> TableView
    decreases agents.len(),
{
    if agents.len() == 0 {
        t
    } else {
        add_rule_all(add_rule_for(t, agents[0], value, allow), agents.drop_first(), value, allow)
    }
}

/// The parser's running state: the currently active agents (with repeats)
/// and the table built so far.
pub ghost struct ParseState {
    pub agents: Seq<Seq<char>>,
    pub table: TableView,
}

/// The prefix of `line` before its first `#`, or all of it.
pub open spec fn cut_comment(line: Seq<char>) -> Seq<char> {
    line.subrange(0, scan_to(line, '#', 0))
}

/// The effect of one document line on the parser state: strip the comment,
/// trim, skip empty and colon-free lines, then dispatch on the lower-cased
/// field name; unknown fields are ignored.
pub open spec fn parse_line(st: ParseState, line: Seq<char>) -> ParseState {
    let body = trim_spec(cut_comment(line));
    if body.len() == 0 {
        st
    } else {
        let ci = scan_to(body, ':', 0);
        if ci >= body.len() {
            st
        } else {
            let field = lower(trim_spec(body.subrange(0, ci)));
            let value = trim_spec(body.subrange(ci + 1, body.len() as int));
            if field == "user-agent"@ {
                let name = lower(value);
                ParseState { agents: st.agents.push(name), table: ensure_agent(st.table, name) }
            } else if field == "disallow"@ {
                ParseState { agents: st.agents, table: add_rule_all(st.table, st.agents, value, false) }
            } else if field == "allow"@ {
                ParseState { agents: st.agents, table: add_rule_all(st.table, st.agents, value, true) }
            } else {
                st
            }
        }
    }
}

/// The parser state after folding a sequence of lines, left to right.
pub open spec fn parse_lines(st: ParseState, ls: Seq<Seq<char>>) -> ParseState
    decreases ls.len(),
{
    if ls.len() == 0 {
        st
    } else {
        parse_lines(parse_line(st, ls[0]), ls.drop_first())
    }
}

/// The document split at every newline; a trailing newline yields a final
/// empty line, which the parser skips.
pub open spec fn lines_of(s: Seq<char>) -> Seq<Seq<char>>
    decreases s.len(),
    via lines_of_decreases
{
    let e = scan_to(s, '\n', 0);
    if e >= s.len() {
        seq![s]
    } else {
        seq![s.subrange(0, e)] + lines_of(s.subrange(e + 1, s.len() as int))
    }
}

#[via_fn]
proof fn lines_of_decreases(s: Seq<char>) {
    lemma_scan_to(s, '\n', 0);
}

/// The table that parsing `content` on top of `t` produces.
pub open spec fn parse_spec(t: TableView, content: Seq<char>) -> TableView {
    parse_lines(ParseState { agents: Seq::empty(), table: t }, lines_of(content)).table
}

/// Whether some entry of `rules` is a literal prefix of `path`.
pub open spec fn some_prefix_matches(rules: Seq<Seq<char>>, path: Seq<char>) -> bool {
    exists|i: int| 0 <= i < rules.len() && rules[i].is_prefix_of(path)
}

/// The rule set consulted for `agent`: its own entry, else the wildcard's.
pub open spec fn rules_for(t: TableView, agent: Seq<char>) -> Option<RulesView> {
    match lookup(t, lower(agent)) {
        Some(r) => Some(r),
        None => lookup(t, "*"@),
    }
}

/// Whether `path` is permitted for `agent`: fail-open when no rule set
/// applies; otherwise any allow-prefix match permits, else any
/// disallow-prefix match denies, else the path is permitted.
pub open spec fn is_allowed_spec(t: TableView, agent: Seq<char>, path: Seq<char>) -> bool {
    match rules_for(t, agent) {
        None => true,
        Some(r) =>
            if some_prefix_matches(r.allowed, path) {
                true
            } else if some_prefix_matches(r.disallowed, path) {
                false
            } else {
                true
            },
    }
}

/// The given lines joined into one document, each line closed by a
/// newline.
pub open spec fn join_lines(ls: Seq<Seq<char>>) -> Seq<char>
    decreases ls.len(),
{
    if ls.len() == 0 {
        Seq::empty()
    } else {
        ls[0] + "\n"@ + join_lines(ls.drop_first())
    }
}

/// One directive line per value: the keyword (with its colon), then the
/// value.
pub open spec fn dir_lines(kw: Seq<char>, vals: Seq<Seq<char>>) -> Seq<Seq<char>> {
    vals.map_values(|v: Seq<char>| kw + v)
}

/// The lines that one agent's entry serializes to: its user-agent line,
/// then its allow lines, then its disallow lines.
pub open spec fn rule_lines(name: Seq<char>, rv: RulesView) -> Seq<Seq<char>> {
    seq!["user-agent:"@ + name] + dir_lines("allow:"@, rv.allowed) + dir_lines(
        "disallow:"@,
        rv.disallowed,
    )
}

/// The document one agent's entry serializes to.
pub open spec fn serialize_rules(name: Seq<char>, rv: RulesView) -> Seq<char> {
    join_lines(rule_lines(name, rv))
}

/// The document a whole rule table serializes to, entry by entry.
pub open spec fn serialize_table(t: TableView) -> Seq<char>
    decreases t.len(),
{
    if t.len() == 0 {
        Seq::empty()
    } else {
        serialize_rules(t[0].0, t[0].1) + serialize_table(t.drop_first())
    }
}

/// Joining distributes over concatenation of line sequences.
proof fn lemma_join_lines_app(a: Seq<Seq<char>>, b: Seq<Seq<char>>)
    ensures
        join_lines(a + b) == join_lines(a) + join_lines(b),
    decreases a.len(),
{
    if a.len() == 0 {
        assert(a + b =~= b);
        assert(join_lines(a) + join_lines(b) =~= join_lines(b));
    } else {
        lemma_join_lines_app(a.drop_first(), b);
        assert((a + b).drop_first() =~= a.drop_first() + b);
        assert((a + b)[0] == a[0]);
        assert(a[0] + "\n"@ + (join_lines(a.drop_first()) + join_lines(b)) =~= (a[0] + "\n"@
            + join_lines(a.drop_first())) + join_lines(b));
    }
}

/// Appends one directive line per value to `out`.
fn append_dir_lines(out: &mut String, kw: &str, vals: &Vec<String>)
    ensures
        final(out)@ == old(out)@ + join_lines(dir_lines(kw@, vals.deep_view())),
{
    let ghost dvs = vals.deep_view();
    let ghost r0 = out@;
    let m = vals.len();
    let mut k: usize = 0;
    proof {
        assert(dvs.skip(0) =~= dvs);
    }
    while k < m
        invariant
            0 <= k <= m,
            m == vals@.len(),
            dvs == vals.deep_view(),
            r0 + join_lines(dir_lines(kw@, dvs)) == out@ + join_lines(
                dir_lines(kw@, dvs.skip(k as int)),
            ),
        decreases m - k,
    {
        let ghost rpre = out@;
        out.append(kw);
        out.append(vals[k].as_str());
        out.append("\n");
        proof {
            let line = kw@ + dvs[k as int];
            assert(dvs.skip(k as int)[0] == dvs[k as int]);
            assert(dir_lines(kw@, dvs.skip(k as int))[0] == line);
            assert(dir_lines(kw@, dvs.skip(k as int)).drop_first() =~= dir_lines(
                kw@,
                dvs.skip(k as int + 1),
            ));
            assert(vals@[k as int]@ == dvs[k as int]);
            assert(out@ =~= rpre + (line + "\n"@));
            assert(rpre + ((line + "\n"@) + join_lines(dir_lines(kw@, dvs.skip(k as int + 1))))
                =~= (rpre + (line + "\n"@)) + join_lines(dir_lines(kw@, dvs.skip(k as int + 1))));
            assert((line + "\n"@) + join_lines(dir_lines(kw@, dvs.skip(k as int + 1)))
                =~= join_lines(dir_lines(kw@, dvs.skip(k as int))));
        }
        k = k + 1;
    }
    proof {
        assert(dvs.skip(m as int) =~= Seq::<Seq<char>>::empty());
        assert(dir_lines(kw@, dvs.skip(m as int)) =~= Seq::<Seq<char>>::empty());
        assert(out@ + join_lines(dir_lines(kw@, dvs.skip(m as int))) =~= out@);
    }
}

/// If the first `i` entries are not named `name`, `lookup` is decided by
/// what stands at or after `i`.
proof fn lemma_lookup_at(t: TableView, name: Seq<char>, i: int)
    requires
        0 <= i <= t.len(),
        forall|j: int| 0 <= j < i ==> t[j].0 != name,
    ensures
        i < t.len() && t[i].0 == name ==> lookup(t, name) == Some(t[i].1),
        i == t.len() ==> lookup(t, name) is None,
    decreases i,
{
    if i > 0 {
        lemma_lookup_at(t.drop_first(), name, i - 1);
    }
}

/// Folding a line sequence starts with its first line.
proof fn lemma_parse_lines_cons(st: ParseState, l: Seq<char>, rest: Seq<Seq<char>>)
    ensures
        parse_lines(st, seq![l] + rest) == parse_lines(parse_line(st, l), rest),
{
    let ls = seq![l] + rest;
    assert(ls[0] == l);
    assert(ls.drop_first() =~= rest);
}

impl RobotsTxt {
    /// An empty rules document: no agents at all.
    pub fn new() -> (r: RobotsTxt)
        ensures
            r@.len() == 0,
    {
        RobotsTxt { user_agents: Vec::new() }
    }

    /// Index of the first entry named `name`, or `None`.
    fn find_agent(&self, name: &str) -> (r: Option<usize>)
        ensures
            match r {
                Some(i) => i < self.user_agents@.len() && self@[i as int].0 == name@ && lookup(
                    self@,
                    name@,
                ) == Some(self@[i as int].1),
                None => lookup(self@, name@) is None,
            },
    {
        let n = self.user_agents.len();
        let mut i: usize = 0;
        while i < n
            invariant
                0 <= i <= n,
                n == self.user_agents@.len(),
                forall|j: int| 0 <= j < i ==> self@[j].0 != name@,
            decreases n - i,
        {
            if str_eq(self.user_agents[i].0.as_str(), name) {
                proof {
                    lemma_lookup_at(self@, name@, i as int);
                }
                return Some(i);
            }
            i = i + 1;
        }
        proof {
            lemma_lookup_at(self@, name@, n as int);
        }
        None
    }

    /// Adds an empty entry for `name` unless one exists.
    fn ensure_agent_exec(&mut self, name: &String)
        ensures
            final(self)@ == ensure_agent(old(self)@, name@),
    {
        match self.find_agent(name.as_str()) {
            Some(_) => {},
            None => {
                self.user_agents.push((name.clone(), CrawlerRules::empty()));
                proof {
                    let empty_rules = RulesView {
                        allowed: Seq::empty(),
                        disallowed: Seq::empty(),
                    };
                    assert(self.user_agents@.last().1@.allowed =~= empty_rules.allowed);
                    assert(self.user_agents@.last().1@.disallowed =~= empty_rules.disallowed);
                    assert(self@ =~= old(self)@.push((name@, empty_rules)));
                }
            },
        }
    }

    /// Appends `value` to the allow (or disallow) list of every entry
    /// named `name`.
    fn add_rule_for_exec(&mut self, name: &String, value: &str, allow: bool)
        ensures
            final(self)@ == add_rule_for(old(self)@, name@, value@, allow),
    {
        let ghost t0 = self@;
        let n = self.user_agents.len();
        let mut j: usize = 0;
        while j < n
            invariant
                0 <= j <= n,
                self.user_agents@.len() == n,
                t0.len() == n,
                forall|i: int| j <= i < n ==> self@[i] == t0[i],
                forall|i: int| 0 <= i < j ==> self@[i] == add_rule_for(t0, name@, value@, allow)[i],
            decreases n - j,
        {
            let ghost vpre = self.user_agents@;
            let ghost tpre = self@;
            if str_eq(self.user_agents[j].0.as_str(), name.as_str()) {
                let mut entry = self.user_agents.remove(j);
                let ghost epre = (entry.0@, entry.1@);
                if allow {
                    entry.1.allowed.push(value.to_owned());
                } else {
                    entry.1.disallowed.push(value.to_owned());
                }
                let ghost epost = (entry.0@, entry.1@);
                self.user_agents.insert(j, entry);
                proof {
                    assert(self.user_agents@ =~= vpre.update(j as int, self.user_agents@[j as int]));
                    if allow {
                        assert(epost.1.allowed =~= epre.1.allowed.push(value@));
                        assert(epost.1.disallowed =~= epre.1.disallowed);
                    } else {
                        assert(epost.1.allowed =~= epre.1.allowed);
                        assert(epost.1.disallowed =~= epre.1.disallowed.push(value@));
                    }
                    assert(self@ =~= tpre.update(j as int, epost));
                }
            }
            j = j + 1;
        }
        assert(self@ =~= add_rule_for(t0, name@, value@, allow));
    }

    /// Applies `add_rule_for_exec` once per listed agent, left to right.
    fn add_rule_all_exec(&mut self, agents: &Vec<String>, value: &str, allow: bool)
        ensures
            final(self)@ == add_rule_all(old(self)@, agents.deep_view(), value@, allow),
    {
        let ghost t0 = self@;
        let ghost avs = agents.deep_view();
        let m = agents.len();
        let mut k: usize = 0;
        assert(avs.skip(0) =~= avs);
        while k < m
            invariant
                0 <= k <= m,
                m == agents@.len(),
                avs == agents.deep_view(),
                add_rule_all(self@, avs.skip(k as int), value@, allow) == add_rule_all(
                    t0,
                    avs,
                    value@,
                    allow,
                ),
            decreases m - k,
        {
            let ghost tpre = self@;
            self.add_rule_for_exec(&agents[k], value, allow);
            proof {
                assert(avs.skip(k as int)[0] == avs[k as int]);
                assert(avs[k as int] == agents@[k as int]@);
                assert(avs.skip(k as int).drop_first() =~= avs.skip(k as int + 1));
                assert(add_rule_all(tpre, avs.skip(k as int), value@, allow) == add_rule_all(
                    add_rule_for(tpre, avs[k as int], value@, allow),
                    avs.skip(k as int + 1),
                    value@,
                    allow,
                ));
            }
            k = k + 1;
        }
        assert(avs.skip(0) =~= avs);
        assert(avs.skip(m as int) =~= Seq::<Seq<char>>::empty());
    }

    /// Applies one document line to the parser state.
    fn handle_line(&mut self, current: &mut Vec<String>, line: &str)
        ensures
            ({
                let st1 = parse_line(
                    ParseState { agents: old(current).deep_view(), table: old(self)@ },
                    line@,
                );
                final(current).deep_view() == st1.agents && final(self)@ == st1.table
            }),
    {
        let h = scan_char(line, '#', 0);
        let cut = line.substring_char(0, h);
        let body = trim_str(cut);
        let blen = body.unicode_len();
        if blen == 0 {
            return ;
        }
        let ci = scan_char(body, ':', 0);
        if ci >= blen {
            return ;
        }
        let field_raw = trim_str(body.substring_char(0, ci));
        let field = lower_str(field_raw);
        let value = trim_str(body.substring_char(ci + 1, blen));
        if str_eq(field.as_str(), "user-agent") {
            let name = lower_str(value);
            let ghost cpre = current.deep_view();
            current.push(name.clone());
            assert(current.deep_view() =~= cpre.push(name@));
            self.ensure_agent_exec(&name);
        } else if str_eq(field.as_str(), "disallow") {
            self.add_rule_all_exec(current, value, false);
        } else if str_eq(field.as_str(), "allow") {
            self.add_rule_all_exec(current, value, true);
        }
    }

    /// Parses the content of a robots rules document, adding its directives
    /// to this rule table. Malformed lines are silently skipped; comments
    /// and surrounding whitespace are stripped from each line.
    pub fn parse(&mut self, content: &str)
        ensures
            final(self)@ == parse_spec(old(self)@, content@),
    {
        let ghost t0 = self@;
        let ghost goal = parse_lines(
            ParseState { agents: Seq::empty(), table: t0 },
            lines_of(content@),
        );
        let mut current: Vec<String> = Vec::new();
        let n = content.unicode_len();
        let mut pos: usize = 0;
        let mut done = false;
        proof {
            assert(current.deep_view() =~= Seq::<Seq<char>>::empty());
            assert(content@.subrange(0, n as int) =~= content@);
        }
        while !done
            invariant
                0 <= pos <= n,
                n == content@.len(),
                !done ==> parse_lines(
                    ParseState { agents: current.deep_view(), table: self@ },
                    lines_of(content@.subrange(pos as int, n as int)),
                ) == goal,
                done ==> self@ == goal.table,
            decreases n - pos + (if done { 0int } else { 1int }),
        {
            let e = scan_char(content, '\n', pos);
            let line = content.substring_char(pos, e);
            let ghost st_pre = ParseState { agents: current.deep_view(), table: self@ };
            let ghost suf = content@.subrange(pos as int, n as int);
            self.handle_line(&mut current, line);
            proof {
                lemma_scan_to_shift(content@, '\n', pos as int);
                lemma_scan_to(suf, '\n', 0);
                let erel = e - pos;
                assert(erel == scan_to(suf, '\n', 0));
                if e < n {
                    assert(line@ =~= suf.subrange(0, erel));
                    assert(content@.subrange(e + 1 as int, n as int) =~= suf.subrange(
                        erel + 1,
                        suf.len() as int,
                    ));
                    assert(lines_of(suf) == seq![line@] + lines_of(
                        content@.subrange(e + 1 as int, n as int),
                    ));
                    lemma_parse_lines_cons(
                        st_pre,
                        line@,
                        lines_of(content@.subrange(e + 1 as int, n as int)),
                    );
                } else {
                    assert(line@ =~= suf);
                    assert(lines_of(suf) == seq![line@]);
                    lemma_parse_lines_cons(st_pre, line@, Seq::<Seq<char>>::empty());
                    assert(seq![line@] + Seq::<Seq<char>>::empty() =~= seq![line@]);
                }
            }
            if e < n {
                pos = e + 1;
            } else {
                done = true;
            }
        }
    }

    /// Determines whether `path` is permitted for `user_agent`: the agent's
    /// own rule set is consulted, else the wildcard's, else the path is
    /// permitted; an allow-prefix match wins over any disallow match.
    pub fn is_allowed(&self, user_agent: &str, path: &str) -> (r: bool)
        ensures
            r == is_allowed_spec(self@, user_agent@, path@),
    {
        let key = lower_str(user_agent);
        let idx = match self.find_agent(key.as_str()) {
            Some(i) => Some(i),
            None => self.find_agent("*"),
        };
        match idx {
            None => true,
            Some(i) => {
                let rules = &self.user_agents[i].1;
                let ghost rv = self@[i as int].1;
                let na = rules.allowed.len();
                let mut k: usize = 0;
                while k < na
                    invariant
                        0 <= k <= na,
                        na == rv.allowed.len(),
                        rules@ == rv,
                        rules_for(self@, user_agent@) == Some(rv),
                        forall|j: int| 0 <= j < k ==> !rv.allowed[j].is_prefix_of(path@),
                    decreases na - k,
                {
                    if str_starts_with(path, rules.allowed[k].as_str()) {
                        assert(rv.allowed[k as int].is_prefix_of(path@));
                        return true;
                    }
                    k = k + 1;
                }
                let nd = rules.disallowed.len();
                let mut k: usize = 0;
                while k < nd
                    invariant
                        0 <= k <= nd,
                        nd == rv.disallowed.len(),
                        rules@ == rv,
                        rules_for(self@, user_agent@) == Some(rv),
                        !some_prefix_matches(rv.allowed, path@),
                        forall|j: int| 0 <= j < k ==> !rv.disallowed[j].is_prefix_of(path@),
                    decreases nd - k,
                {
                    if str_starts_with(path, rules.disallowed[k].as_str()) {
                        assert(rv.disallowed[k as int].is_prefix_of(path@));
                        return false;
                    }
                    k = k + 1;
                }
                true
            },
        }
    }

    /// Serializes the rule table back into a robots rules document: for
    /// each agent in order, its user-agent line, then its allow lines,
    /// then its disallow lines, each line closed by a newline.
    pub fn serialize(&self) -> (r: String)
        ensures
            r@ == serialize_table(self@),
    {
        let mut out = String::new();
        let n = self.user_agents.len();
        let mut i: usize = 0;
        proof {
            assert(self@.skip(0) =~= self@);
        }
        while i < n
            invariant
                0 <= i <= n,
                n == self.user_agents@.len(),
                serialize_table(self@) == out@ + serialize_table(self@.skip(i as int)),
            decreases n - i,
        {
            let ghost tsuf = self@.skip(i as int);
            let ghost r0 = out@;
            let entry = &self.user_agents[i];
            let ghost name = entry.0@;
            let ghost rv = entry.1@;
            out.append("user-agent:");
            out.append(entry.0.as_str());
            out.append("\n");
            let ghost r1 = out@;
            append_dir_lines(&mut out, "allow:", &entry.1.allowed);
            let ghost r2 = out@;
            append_dir_lines(&mut out, "disallow:", &entry.1.disallowed);
            proof {
                assert(tsuf[0] == self@[i as int]);
                assert(self@[i as int] == (name, rv));
                assert(tsuf.drop_first() =~= self@.skip(i as int + 1));
                let ua = "user-agent:"@ + name;
                let da = dir_lines("allow:"@, rv.allowed);
                let dd = dir_lines("disallow:"@, rv.disallowed);
                lemma_join_lines_app(seq![ua] + da, dd);
                lemma_join_lines_app(seq![ua], da);
                assert((seq![ua] + da) + dd =~= rule_lines(name, rv));
                assert(seq![ua].drop_first() =~= Seq::<Seq<char>>::empty());
                assert(join_lines(Seq::<Seq<char>>::empty()) == Seq::<char>::empty());
                assert(seq![ua].len() == 1 && seq![ua][0] == ua);
                assert(join_lines(seq![ua]) == (ua + "\n"@) + join_lines(
                    Seq::<Seq<char>>::empty(),
                ));
                assert(join_lines(seq![ua]) =~= ua + "\n"@);
                assert(r1 =~= r0 + (ua + "\n"@));
                assert(r2 == r1 + join_lines(da));
                assert(out@ == r2 + join_lines(dd));
                assert(serialize_rules(name, rv) =~= (ua + "\n"@) + join_lines(da) + join_lines(
                    dd,
                ));
                assert(out@ =~= r0 + serialize_rules(name, rv));
            }
            i = i + 1;
        }
        proof {
            assert(self@.skip(n as int) =~= Seq::<(Seq<char>, RulesView)>::empty());
            assert(out@ + serialize_table(self@.skip(n as int)) =~= out@);
        }
        out
    }
}

/// A value that survives one serialize-and-parse pass unchanged: it holds
/// no newline and no comment mark, and neither starts nor ends with
/// whitespace, so comment stripping, line splitting and trimming leave it
/// as it is.
pub open spec fn token_clean(s: Seq<char>) -> bool {
    (forall|j: int| 0 <= j < s.len() ==> s[j] != '\n' && s[j] != '#') && (s.len() > 0
        ==> !is_space(s[0]) && !is_space(s[s.len() - 1]))
}

/// A clean agent name: clean as a token and already lower-cased, as the
/// parser stores every agent name.
pub open spec fn agent_clean(s: Seq<char>) -> bool {
    token_clean(s) && lower(s) == s
}

/// An empty line leaves the parser state unchanged.
proof fn lemma_parse_empty_line(st: ParseState)
    ensures
        parse_line(st, Seq::empty()) == st,
{
    let line = Seq::<char>::empty();
    assert(scan_to(line, '#', 0) == 0);
    assert(cut_comment(line) =~= line);
    assert(trim_spec(line).len() == 0);
}

/// Splitting peels a newline-free first line off the document.
proof fn lemma_lines_peel(l: Seq<char>, rest: Seq<char>)
    requires
        forall|j: int| 0 <= j < l.len() ==> l[j] != '\n',
    ensures
        lines_of(l + "\n"@ + rest) == seq![l] + lines_of(rest),
{
    reveal_strlit("\n");
    let s = l + "\n"@ + rest;
    assert(s.len() == l.len() + 1 + rest.len());
    assert(s[l.len() as int] == '\n');
    assert(forall|j: int| 0 <= j < l.len() ==> s[j] == l[j] && s[j] != '\n');
    lemma_scan_to_is(s, '\n', 0, l.len() as int);
    assert(s.subrange(0, l.len() as int) =~= l);
    assert(s.subrange(l.len() as int + 1, s.len() as int) =~= rest);
}

/// A document of newline-free lines, each closed by a newline, splits back
/// into those lines followed by one final empty line.
proof fn lemma_lines_of_join(ls: Seq<Seq<char>>)
    requires
        forall|i: int, j: int| 0 <= i < ls.len() && 0 <= j < ls[i].len() ==> ls[i][j] != '\n',
    ensures
        lines_of(join_lines(ls)) == ls + seq![Seq::<char>::empty()],
    decreases ls.len(),
{
    if ls.len() == 0 {
        let e = Seq::<char>::empty();
        assert(scan_to(e, '\n', 0) == 0);
        assert(lines_of(join_lines(ls)) == seq![e]);
        assert(ls + seq![e] =~= seq![e]);
    } else {
        assert(forall|i: int, j: int|
            0 <= i < ls.drop_first().len() && 0 <= j < ls.drop_first()[i].len()
                ==> ls.drop_first()[i] == ls[i + 1] && ls.drop_first()[i][j] != '\n');
        lemma_lines_of_join(ls.drop_first());
        lemma_lines_peel(ls[0], join_lines(ls.drop_first()));
        assert(join_lines(ls) == ls[0] + "\n"@ + join_lines(ls.drop_first()));
        assert(seq![ls[0]] + (ls.drop_first() + seq![Seq::<char>::empty()]) =~= ls + seq![
            Seq::<char>::empty(),
        ]);
    }
}

/// Folding lines splits at any concatenation point.
proof fn lemma_parse_lines_app(st: ParseState, a: Seq<Seq<char>>, b: Seq<Seq<char>>)
    ensures
        parse_lines(st, a + b) == parse_lines(parse_lines(st, a), b),
    decreases a.len(),
{
    if a.len() == 0 {
        assert(a + b =~= b);
    } else {
        assert((a + b)[0] == a[0]);
        assert((a + b).drop_first() =~= a.drop_first() + b);
        lemma_parse_lines_app(parse_line(st, a[0]), a.drop_first(), b);
    }
}

/// How the parser decomposes a directive line built from a clean keyword
/// (ending in its colon) and a clean value: nothing is cut or trimmed, the
/// split is at the keyword's colon, and the value comes back as it is.
proof fn lemma_parse_line_parts(kw: Seq<char>, v: Seq<char>)
    requires
        kw.len() >= 1,
        kw[kw.len() - 1] == ':',
        forall|j: int| 0 <= j < kw.len() - 1 ==> kw[j] != ':',
        forall|j: int| 0 <= j < kw.len() ==> kw[j] != '#' && kw[j] != '\n' && !is_space(kw[j]),
        token_clean(v),
    ensures
        ({
            let line = kw + v;
            let p = kw.len() - 1;
            trim_spec(cut_comment(line)) == line && scan_to(line, ':', 0) == p && trim_spec(
                line.subrange(0, p),
            ) == kw.subrange(0, p) && trim_spec(line.subrange(p + 1, line.len() as int)) == v
        }),
{
    let line = kw + v;
    let p = kw.len() - 1;
    assert forall|j: int| 0 <= j < line.len() implies line[j] != '#' by {
        if j >= kw.len() {
            assert(line[j] == v[j - kw.len()]);
        }
    }
    lemma_scan_to_is(line, '#', 0, line.len() as int);
    assert(line.subrange(0, line.len() as int) =~= line);
    assert(cut_comment(line) == line);
    assert(!is_space(line[0]));
    if v.len() > 0 {
        assert(line[line.len() - 1] == v[v.len() - 1]);
    } else {
        assert(line[line.len() - 1] == kw[kw.len() - 1]);
    }
    lemma_trim_clean(line);
    assert(forall|j: int| 0 <= j < p ==> line[j] == kw[j] && line[j] != ':');
    assert(line[p] == ':');
    lemma_scan_to_is(line, ':', 0, p);
    assert(line.subrange(0, p) =~= kw.subrange(0, p));
    if p > 0 {
        assert(!is_space(line.subrange(0, p)[0]));
        assert(!is_space(line.subrange(0, p)[p - 1]));
    }
    lemma_trim_clean(line.subrange(0, p));
    assert(line.subrange(p + 1, line.len() as int) =~= v);
    lemma_trim_clean(v);
}

/// The effect of one serialized user-agent line on the parser state.
proof fn lemma_parse_ua_line(st: ParseState, name: Seq<char>)
    requires
        agent_clean(name),
    ensures
        parse_line(st, "user-agent:"@ + name) == (ParseState {
            agents: st.agents.push(name),
            table: ensure_agent(st.table, name),
        }),
{
    reveal_strlit("user-agent:");
    reveal_strlit("user-agent");
    let kw = "user-agent:"@;
    assert(kw.len() == 11);
    lemma_parse_line_parts(kw, name);
    let line = kw + name;
    assert(kw.subrange(0, 10) =~= "user-agent"@);
    assert(lower("user-agent"@) =~= "user-agent"@);
    assert(lower(name) == name);
}

/// The effect of one serialized allow line on the parser state.
proof fn lemma_parse_allow_line(st: ParseState, v: Seq<char>)
    requires
        token_clean(v),
    ensures
        parse_line(st, "allow:"@ + v) == (ParseState {
            agents: st.agents,
            table: add_rule_all(st.table, st.agents, v, true),
        }),
{
    reveal_strlit("allow:");
    reveal_strlit("allow");
    reveal_strlit("user-agent");
    reveal_strlit("disallow");
    let kw = "allow:"@;
    assert(kw.len() == 6);
    lemma_parse_line_parts(kw, v);
    assert(kw.subrange(0, 5) =~= "allow"@);
    assert(lower("allow"@) =~= "allow"@);
    assert("allow"@.len() != "user-agent"@.len());
    assert("allow"@.len() != "disallow"@.len());
}

/// The effect of one serialized disallow line on the parser state.
proof fn lemma_parse_disallow_line(st: ParseState, v: Seq<char>)
    requires
        token_clean(v),
    ensures
        parse_line(st, "disallow:"@ + v) == (ParseState {
            agents: st.agents,
            table: add_rule_all(st.table, st.agents, v, false),
        }),
{
    reveal_strlit("disallow:");
    reveal_strlit("disallow");
    reveal_strlit("user-agent");
    let kw = "disallow:"@;
    assert(kw.len() == 9);
    lemma_parse_line_parts(kw, v);
    assert(kw.subrange(0, 8) =~= "disallow"@);
    assert(lower("disallow"@) =~= "disallow"@);
    assert("disallow"@.len() != "user-agent"@.len());
}

/// Folding a block of allow (or disallow) lines over a one-agent table
/// appends exactly those values to that agent's list.
proof fn lemma_parse_dir_block(
    name: Seq<char>,
    acc_a: Seq<Seq<char>>,
    acc_d: Seq<Seq<char>>,
    vals: Seq<Seq<char>>,
    allow: bool,
)
    requires
        forall|i: int| 0 <= i < vals.len() ==> token_clean(#[trigger] vals[i]),
    ensures
        parse_lines(
            ParseState {
                agents: seq![name],
                table: seq![(name, RulesView { allowed: acc_a, disallowed: acc_d })],
            },
            dir_lines(if allow { "allow:"@ } else { "disallow:"@ }, vals),
        ) == (ParseState {
            agents: seq![name],
            table: seq![
                (
                    name,
                    RulesView {
                        allowed: if allow { acc_a + vals } else { acc_a },
                        disallowed: if allow { acc_d } else { acc_d + vals },
                    },
                ),
            ],
        }),
    decreases vals.len(),
{
    let kw = if allow { "allow:"@ } else { "disallow:"@ };
    let st = ParseState {
        agents: seq![name],
        table: seq![(name, RulesView { allowed: acc_a, disallowed: acc_d })],
    };
    let ls = dir_lines(kw, vals);
    if vals.len() == 0 {
        assert(ls =~= Seq::<Seq<char>>::empty());
        assert(acc_a + vals =~= acc_a);
        assert(acc_d + vals =~= acc_d);
    } else {
        let v0 = vals[0];
        assert(ls[0] == kw + v0);
        if allow {
            lemma_parse_allow_line(st, v0);
        } else {
            lemma_parse_disallow_line(st, v0);
        }
        let t1 = add_rule_for(st.table, name, v0, allow);
        let no_agents: Seq<Seq<char>> = Seq::empty();
        assert(seq![name].len() == 1 && seq![name][0] == name);
        assert(seq![name].drop_first() =~= no_agents);
        assert(add_rule_all(st.table, seq![name], v0, allow) == add_rule_all(
            t1,
            no_agents,
            v0,
            allow,
        ));
        assert(add_rule_all(t1, no_agents, v0, allow) == t1);
        let acc_a1 = if allow {
            acc_a.push(v0)
        } else {
            acc_a
        };
        let acc_d1 = if allow {
            acc_d
        } else {
            acc_d.push(v0)
        };
        assert(t1 =~= seq![(name, RulesView { allowed: acc_a1, disallowed: acc_d1 })]);
        assert(forall|i: int|
            0 <= i < vals.drop_first().len() ==> vals.drop_first()[i] == vals[i + 1]
                && token_clean(#[trigger] vals.drop_first()[i]));
        lemma_parse_dir_block(name, acc_a1, acc_d1, vals.drop_first(), allow);
        assert(ls.drop_first() =~= dir_lines(kw, vals.drop_first()));
        lemma_parse_lines_cons(
            st,
            ls[0],
            dir_lines(kw, vals.drop_first()),
        );
        assert(seq![ls[0]] + dir_lines(kw, vals.drop_first()) =~= ls);
        if allow {
            assert(acc_a.push(v0) + vals.drop_first() =~= acc_a + vals);
        } else {
            assert(acc_d.push(v0) + vals.drop_first() =~= acc_d + vals);
        }
    }
}

/// Round trip for the empty rule table: it serializes to the empty
/// document, which parses back to the empty table.
pub proof fn lemma_round_trip_empty()
    ensures
        parse_spec(Seq::empty(), serialize_table(Seq::empty())) == Seq::<(
            Seq<char>,
            RulesView,
        )>::empty(),
{
    let t0: TableView = Seq::empty();
    let doc = serialize_table(t0);
    assert(doc =~= Seq::<char>::empty());
    assert(scan_to(doc, '\n', 0) == 0);
    assert(lines_of(doc) == seq![doc]);
    let st0 = ParseState { agents: Seq::empty(), table: t0 };
    lemma_parse_empty_line(st0);
    assert(seq![doc].drop_first() =~= Seq::<Seq<char>>::empty());
    assert(parse_lines(st0, seq![doc]) == parse_lines(st0, seq![doc].drop_first()));
    assert(parse_lines(st0, Seq::<Seq<char>>::empty()) == st0);
}

/// Round trip for a one-agent rule table: serializing it and parsing the
/// document back from an empty table rebuilds exactly the same table —
/// the same agent with the same allow and disallow lists, in order —
/// provided the agent name and every path value are clean tokens (no
/// newline, no comment mark, no surrounding whitespace, and the agent
/// name already lower-cased, as parsing always stores it).
pub proof fn lemma_round_trip_single_agent(name: Seq<char>, rv: RulesView)
    requires
        agent_clean(name),
        forall|i: int| 0 <= i < rv.allowed.len() ==> token_clean(#[trigger] rv.allowed[i]),
        forall|i: int| 0 <= i < rv.disallowed.len() ==> token_clean(#[trigger] rv.disallowed[i]),
    ensures
        parse_spec(Seq::empty(), serialize_table(seq![(name, rv)])) == seq![(name, rv)],
{
    reveal_strlit("user-agent:");
    reveal_strlit("allow:");
    reveal_strlit("disallow:");
    let t = seq![(name, rv)];
    assert(t.drop_first() =~= Seq::<(Seq<char>, RulesView)>::empty());
    assert(serialize_table(t) == serialize_rules(name, rv) + serialize_table(t.drop_first()));
    assert(serialize_rules(name, rv) + Seq::<char>::empty() =~= serialize_rules(name, rv));
    let rl = rule_lines(name, rv);
    let ua = "user-agent:"@ + name;
    let da = dir_lines("allow:"@, rv.allowed);
    let dd = dir_lines("disallow:"@, rv.disallowed);
    assert(da.len() == rv.allowed.len());
    assert(dd.len() == rv.disallowed.len());
    assert forall|i: int, j: int| 0 <= i < rl.len() && 0 <= j < rl[i].len() implies rl[i][j]
        != '\n' by {
        if i == 0 {
            assert(rl[0] == ua);
            if j >= "user-agent:"@.len() {
                assert(ua[j] == name[j - "user-agent:"@.len()]);
            }
        } else if i < 1 + da.len() {
            assert(rl[i] == da[i - 1]);
            assert(da[i - 1] == "allow:"@ + rv.allowed[i - 1]);
            if j >= "allow:"@.len() {
                assert(rl[i][j] == rv.allowed[i - 1][j - "allow:"@.len()]);
            }
        } else {
            assert(rl[i] == dd[i - 1 - da.len()]);
            assert(dd[i - 1 - da.len()] == "disallow:"@ + rv.disallowed[i - 1 - da.len()]);
            if j >= "disallow:"@.len() {
                assert(rl[i][j] == rv.disallowed[i - 1 - da.len()][j - "disallow:"@.len()]);
            }
        }
    }
    lemma_lines_of_join(rl);
    let empty_line = Seq::<char>::empty();
    let st0 = ParseState { agents: Seq::empty(), table: Seq::empty() };
    let all_lines = rl + seq![empty_line];
    assert(all_lines =~= seq![ua] + (da + (dd + seq![empty_line])));
    lemma_parse_lines_app(st0, seq![ua], da + (dd + seq![empty_line]));
    lemma_parse_lines_cons(st0, ua, Seq::<Seq<char>>::empty());
    assert(seq![ua] + Seq::<Seq<char>>::empty() =~= seq![ua]);
    lemma_parse_ua_line(st0, name);
    let st1 = parse_lines(st0, seq![ua]);
    assert(st1.agents =~= seq![name]);
    assert(st1.table =~= seq![
        (name, RulesView { allowed: Seq::empty(), disallowed: Seq::empty() }),
    ]);
    lemma_parse_lines_app(st1, da, dd + seq![empty_line]);
    lemma_parse_dir_block(name, Seq::empty(), Seq::empty(), rv.allowed, true);
    let st2 = parse_lines(st1, da);
    assert(Seq::<Seq<char>>::empty() + rv.allowed =~= rv.allowed);
    assert(st2.agents == seq![name]);
    assert(st2.table == seq![(name, RulesView { allowed: rv.allowed, disallowed: Seq::empty() })]);
    lemma_parse_lines_app(st2, dd, seq![empty_line]);
    lemma_parse_dir_block(name, rv.allowed, Seq::empty(), rv.disallowed, false);
    let st3 = parse_lines(st2, dd);
    assert(Seq::<Seq<char>>::empty() + rv.disallowed =~= rv.disallowed);
    assert(st3.table == seq![(name, RulesView { allowed: rv.allowed, disallowed: rv.disallowed })]);
    lemma_parse_lines_cons(st3, empty_line, Seq::<Seq<char>>::empty());
    assert(seq![empty_line] + Seq::<Seq<char>>::empty() =~= seq![empty_line]);
    lemma_parse_empty_line(st3);
    assert(RulesView { allowed: rv.allowed, disallowed: rv.disallowed } == rv);
}

/// A table with no entries permits every path for every agent.
pub proof fn lemma_empty_table_permits_all(t: TableView, agent: Seq<char>, path: Seq<char>)
    requires
        t.len() == 0,
    ensures
        is_allowed_spec(t, agent, path),
{
}

} // verus!
