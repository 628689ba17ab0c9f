use webcrawler::robots_txt::RobotsTxt;

#[test]
fn empty_document_permits_everything() {
    let mut robots = RobotsTxt::new();
    robots.parse("");
    assert!(robots.is_allowed("anybot", "/"));
    assert!(robots.is_allowed("anybot", "/private/x"));
    assert!(robots.is_allowed("*", "/admin"));
    assert_eq!(robots.user_agents.len(), 0);
}

#[test]
fn allow_overrides_disallow() {
    let mut robots = RobotsTxt::new();
    robots.parse("User-agent: *\nDisallow: /private\nAllow: /private/public");
    assert!(robots.is_allowed("*", "/private/public/x"));
    assert!(!robots.is_allowed("*", "/private/x"));
    assert!(robots.is_allowed("*", "/other"));
}

#[test]
fn unknown_agent_falls_back_to_wildcard() {
    let mut robots = RobotsTxt::new();
    robots.parse("User-agent: *\nDisallow: /admin");
    assert!(!robots.is_allowed("somebot", "/admin/panel"));
    assert!(robots.is_allowed("somebot", "/public"));
}

#[test]
fn exact_agent_wins_over_wildcard() {
    let mut robots = RobotsTxt::new();
    robots.parse("User-agent: goodbot\nAllow: /\nUser-agent: *\nDisallow: /");
    // goodbot's own allow rule wins for it; others fall to the wildcard,
    // which only disallows.
    assert!(robots.is_allowed("goodbot", "/x"));
    assert!(!robots.is_allowed("otherbot", "/x"));
}

#[test]
fn agent_lookup_is_case_insensitive() {
    let mut robots = RobotsTxt::new();
    robots.parse("User-Agent: BotX\nDisallow: /secret");
    // The agent name is stored lower-cased, and the query is lower-cased too.
    assert_eq!(robots.user_agents[0].0, "botx");
    assert!(!robots.is_allowed("BOTX", "/secret/file"));
    assert!(robots.is_allowed("BOTX", "/open"));
}

#[test]
fn field_names_are_case_insensitive_and_comments_stripped() {
    let mut robots = RobotsTxt::new();
    robots.parse("USER-AGENT: a # the agent\n  DISALLOW:   /x   # keep out\nALLOW: /x/y");
    assert!(!robots.is_allowed("a", "/x/z"));
    assert!(robots.is_allowed("a", "/x/y/z"));
    assert_eq!(robots.user_agents[0].1.disallowed, vec!["/x".to_string()]);
    assert_eq!(robots.user_agents[0].1.allowed, vec!["/x/y".to_string()]);
}

#[test]
fn malformed_lines_are_skipped() {
    let mut robots = RobotsTxt::new();
    robots.parse("just some words\n\n# only a comment\nUser-agent: a\nDisallow: /x\nnocolonhere");
    assert_eq!(robots.user_agents.len(), 1);
    assert!(!robots.is_allowed("a", "/x"));
}

#[test]
fn rules_before_any_agent_are_dropped() {
    let mut robots = RobotsTxt::new();
    robots.parse("Disallow: /x\nUser-agent: a\nDisallow: /y");
    // The leading disallow had no active agent, so only /y is recorded.
    assert_eq!(robots.user_agents[0].1.disallowed, vec!["/y".to_string()]);
    assert!(robots.is_allowed("a", "/x"));
    assert!(!robots.is_allowed("a", "/y"));
}

#[test]
fn agents_accumulate_across_blocks() {
    let mut robots = RobotsTxt::new();
    // The active-agent list is never cleared: after the second user-agent
    // line, rules apply to both agents.
    robots.parse("User-agent: a\nDisallow: /x\nUser-agent: b\nDisallow: /y");
    assert_eq!(robots.user_agents[0].1.disallowed, vec!["/x".to_string(), "/y".to_string()]);
    assert_eq!(robots.user_agents[1].1.disallowed, vec!["/y".to_string()]);
    assert!(!robots.is_allowed("a", "/y"));
    assert!(robots.is_allowed("b", "/x"));
}

#[test]
fn empty_disallow_value_blocks_every_path() {
    let mut robots = RobotsTxt::new();
    robots.parse("User-agent: a\nDisallow:");
    // The empty string is a literal prefix of every path.
    assert!(!robots.is_allowed("a", "/anything"));
}

#[test]
fn unknown_fields_are_ignored() {
    let mut robots = RobotsTxt::new();
    robots.parse("User-agent: a\nCrawl-delay: 10\nSitemap: /map.xml\nDisallow: /x");
    assert_eq!(robots.user_agents.len(), 1);
    assert!(!robots.is_allowed("a", "/x"));
    assert!(robots.is_allowed("a", "/map.xml"));
}

#[test]
fn serialize_then_reparse_single_agent() {
    let mut robots = RobotsTxt::new();
    robots.parse("User-agent: mybot\nAllow: /open\nAllow: /shared\nDisallow: /secret");
    let document = robots.serialize();
    let mut reparsed = RobotsTxt::new();
    reparsed.parse(document.as_str());
    assert_eq!(robots, reparsed);
}

#[test]
fn serialize_layout_is_one_directive_per_line() {
    let mut robots = RobotsTxt::new();
    robots.parse("User-agent: a\nDisallow: /x");
    assert_eq!(robots.serialize(), "user-agent:a\ndisallow:/x\n");
}

#[test]
fn parse_accumulates_onto_existing_table() {
    let mut robots = RobotsTxt::default();
    robots.parse("User-agent: a\nDisallow: /x");
    robots.parse("User-agent: a\nDisallow: /y");
    // A second parse finds the existing entry and appends to it.
    assert_eq!(robots.user_agents.len(), 1);
    assert_eq!(robots.user_agents[0].1.disallowed, vec!["/x".to_string(), "/y".to_string()]);
}

#[test]
fn repeated_user_agent_line_applies_rules_twice() {
    let mut robots = RobotsTxt::new();
    // The same agent active twice receives each later rule twice.
    robots.parse("User-agent: a\nUser-agent: a\nDisallow: /x");
    assert_eq!(robots.user_agents[0].1.disallowed, vec!["/x".to_string(), "/x".to_string()]);
}

#[test]
fn windows_line_endings_are_trimmed() {
    let mut robots = RobotsTxt::new();
    robots.parse("User-agent: a\r\nDisallow: /x\r\n");
    assert_eq!(robots.user_agents[0].0, "a");
    assert_eq!(robots.user_agents[0].1.disallowed, vec!["/x".to_string()]);
}

#[test]
fn value_keeps_inner_colon() {
    let mut robots = RobotsTxt::new();
    robots.parse("User-agent: a\nDisallow: /x:y");
    assert_eq!(robots.user_agents[0].1.disallowed, vec!["/x:y".to_string()]);
}
