use webcrawler::crawler::{select_children, same_host, CrawlDecision, Crawler, PageUrl};
use webcrawler::permits::PermitPool;
use webcrawler::robots_txt::RobotsTxt;
use webcrawler::visited::VisitedSet;

fn page(canonical: &str, host: Option<&str>, path: &str) -> PageUrl {
    PageUrl {
        canonical: canonical.to_string(),
        host: host.map(|h| h.to_string()),
        path: path.to_string(),
    }
}

#[test]
fn try_visit_claims_once() {
    let mut visited = VisitedSet::new();
    assert!(visited.try_visit("https://example.com/"));
    assert!(!visited.try_visit("https://example.com/"));
    assert!(visited.try_visit("https://example.com/a"));
    assert!(!visited.try_visit("https://example.com/"));
    assert_eq!(visited.len(), 2);
    assert!(visited.contains("https://example.com/a"));
    assert!(!visited.contains("https://example.com/b"));
}

#[test]
fn permit_pool_never_exceeds_limit() {
    let mut pool = PermitPool::new(2);
    assert!(pool.try_acquire());
    assert!(pool.try_acquire());
    assert!(!pool.try_acquire());
    assert_eq!(pool.in_flight, 2);
    pool.release();
    assert!(pool.try_acquire());
    assert!(!pool.try_acquire());
    pool.release();
    pool.release();
    assert_eq!(pool.in_flight, 0);
}

#[test]
fn permit_pool_of_zero_admits_nothing() {
    let mut pool = PermitPool::new(0);
    assert!(!pool.try_acquire());
    assert_eq!(pool.in_flight, 0);
}

#[test]
fn gate_refuses_excessive_depth_without_recording() {
    let mut robots = RobotsTxt::new();
    robots.parse("");
    let mut crawler = Crawler::new(robots, 3, 10, "mybot".to_string());
    let url = page("https://example.com/", Some("example.com"), "/");
    assert_eq!(crawler.gate(&url, 4), CrawlDecision::TooDeep);
    assert_eq!(crawler.visited.len(), 0);
    // At the boundary depth the unit still passes.
    assert_eq!(crawler.gate(&url, 3), CrawlDecision::Fetch);
}

#[test]
fn gate_orders_its_checks() {
    let mut robots = RobotsTxt::new();
    robots.parse("User-agent: *\nDisallow: /admin");
    let mut crawler = Crawler::new(robots, 3, 10, "mybot".to_string());
    let open_url = page("https://example.com/", Some("example.com"), "/");
    let admin_url = page("https://example.com/admin/x", Some("example.com"), "/admin/x");
    assert_eq!(crawler.gate(&open_url, 0), CrawlDecision::Fetch);
    assert_eq!(crawler.gate(&open_url, 1), CrawlDecision::AlreadyVisited);
    assert_eq!(crawler.gate(&admin_url, 1), CrawlDecision::Disallowed);
    // The policy-denied URL was still claimed before the policy check.
    assert!(crawler.visited.contains("https://example.com/admin/x"));
    assert_eq!(crawler.gate(&admin_url, 1), CrawlDecision::AlreadyVisited);
}

#[test]
fn same_host_matches_exactly() {
    let a = page("https://example.com/", Some("example.com"), "/");
    let b = page("https://example.com/x", Some("example.com"), "/x");
    let sub = page("https://sub.example.com/", Some("sub.example.com"), "/");
    let other = page("https://other.com/y", Some("other.com"), "/y");
    let hostless = page("mailto:someone", None, "someone");
    let hostless2 = page("mailto:other", None, "other");
    assert!(same_host(&a, &b));
    assert!(!same_host(&a, &sub));
    assert!(!same_host(&a, &other));
    assert!(!same_host(&a, &hostless));
    assert!(same_host(&hostless, &hostless2));
}

#[test]
fn select_children_keeps_same_host_links_in_order() {
    let parent = page("https://example.com/", Some("example.com"), "/");
    let links = vec![
        page("https://example.com/a", Some("example.com"), "/a"),
        page("https://other.com/y", Some("other.com"), "/y"),
        page("https://example.com/b", Some("example.com"), "/b"),
        page("mailto:someone", None, "someone"),
    ];
    let children = select_children(&parent, links);
    let canonicals: Vec<&str> = children.iter().map(|u| u.canonical.as_str()).collect();
    assert_eq!(canonicals, vec!["https://example.com/a", "https://example.com/b"]);
}

fn links_for(canonical: &str) -> Vec<PageUrl> {
    if canonical == "https://example.com/" {
        vec![
            page("https://example.com/a", Some("example.com"), "/a"),
            page("https://example.com/admin/x", Some("example.com"), "/admin/x"),
            page("https://other.com/y", Some("other.com"), "/y"),
        ]
    } else {
        Vec::new()
    }
}

fn crawl_sim(crawler: &mut Crawler, url: PageUrl, depth: usize, fetched: &mut Vec<String>) {
    match crawler.gate(&url, depth) {
        CrawlDecision::Fetch => {
            assert!(crawler.begin_fetch());
            fetched.push(url.canonical.clone());
            let children = select_children(&url, links_for(url.canonical.as_str()));
            crawler.end_fetch();
            for child in children {
                crawl_sim(crawler, child, depth + 1, fetched);
            }
        },
        _ => {},
    }
}

#[test]
fn end_to_end_seed_crawl() {
    let mut robots = RobotsTxt::new();
    robots.parse("User-agent: *\nDisallow: /admin");
    let mut crawler = Crawler::new(robots, 3, 10, "mybot".to_string());
    let seed = page("https://example.com/", Some("example.com"), "/");
    let mut fetched: Vec<String> = Vec::new();
    crawl_sim(&mut crawler, seed, 0, &mut fetched);
    // The admin page is excluded by policy, other.com by the domain filter.
    assert_eq!(fetched, vec!["https://example.com/".to_string(), "https://example.com/a".to_string()]);
    assert!(!crawler.visited.contains("https://other.com/y"));
    // The policy-denied link was still claimed: the visited set is
    // consulted (and updated) before the policy.
    assert!(crawler.visited.contains("https://example.com/admin/x"));
    // Every fetch gave its permit back.
    assert_eq!(crawler.permits.in_flight, 0);
}

#[test]
fn crawler_permit_accounting() {
    let mut robots = RobotsTxt::new();
    robots.parse("");
    let mut crawler = Crawler::new(robots, 3, 1, "mybot".to_string());
    assert!(crawler.begin_fetch());
    // The single permit is taken: a second fetch may not start.
    assert!(!crawler.begin_fetch());
    crawler.end_fetch();
    assert!(crawler.begin_fetch());
    crawler.end_fetch();
    assert_eq!(crawler.permits.in_flight, 0);
}

fn chain_links(canonical: &str) -> Vec<PageUrl> {
    match canonical {
        "https://e.com/0" => vec![page("https://e.com/1", Some("e.com"), "/1")],
        "https://e.com/1" => vec![page("https://e.com/2", Some("e.com"), "/2")],
        _ => Vec::new(),
    }
}

fn chain_run(crawler: &mut Crawler, url: PageUrl, depth: usize, fetched: &mut Vec<String>) {
    if crawler.gate(&url, depth) == CrawlDecision::Fetch {
        fetched.push(url.canonical.clone());
        for child in select_children(&url, chain_links(url.canonical.as_str())) {
            chain_run(crawler, child, depth + 1, fetched);
        }
    }
}

#[test]
fn deep_chain_stops_at_max_depth() {
    let mut robots = RobotsTxt::new();
    robots.parse("");
    let mut crawler = Crawler::new(robots, 1, 10, "mybot".to_string());
    let mut fetched: Vec<String> = Vec::new();
    chain_run(&mut crawler, page("https://e.com/0", Some("e.com"), "/0"), 0, &mut fetched);
    // Depth 2 exceeds the maximum of 1: page /2 is never fetched.
    assert_eq!(fetched, vec!["https://e.com/0".to_string(), "https://e.com/1".to_string()]);
    assert!(!crawler.visited.contains("https://e.com/2"));
}
