//! The crawl scheduler's decisions. One traversal unit is a (URL, depth)
//! pair; `gate` performs its gate checks in order — depth cutoff,
//! claim-once check on the canonical URL, robots policy check — and says
//! whether the page is to be fetched. `select_children` keeps exactly the
//! discovered links on the parent's host, which are rescheduled one level
//! deeper. The fetch itself, link extraction and the task spawning are the
//! surrounding program's; it consults this scheduler for every decision.

use vstd::prelude::*;

use crate::permits::PermitPool;
use crate::robots_txt::{is_allowed_spec, RobotsTxt};
use crate::text::str_eq;
use crate::visited::VisitedSet;

verus! {

/// The mathematical content of a crawler's image of a URL.
pub ghost struct PageUrlView {
    pub canonical: Seq<char>,
    pub host: Option<Seq<char>>,
    pub path: Seq<char>,
}

/// The crawler's image of a URL: the canonical string used as the
/// deduplication key, the host (absent for URLs without one), and the
/// path consulted against the robots policy.
pub struct PageUrl {
    pub canonical: String,
    pub host: Option<String>,
    pub path: String,
}

impl View for PageUrl {
    type V = PageUrlView;

    open spec fn view(&self) -> PageUrlView {
        PageUrlView {
            canonical: self.canonical@,
            host: match self.host {
                Some(h) => Some(h@),
                None => None,
            },
            path: self.path@,
        }
    }
}

/// What `gate` decided about one traversal unit.
#[derive(PartialEq, Eq, Structural, Clone, Copy, Debug)]
pub enum CrawlDecision {
    /// The unit's depth exceeds the maximum: stop, nothing recorded.
    TooDeep,
    /// The canonical URL was already claimed: stop.
    AlreadyVisited,
    /// The robots policy denies the path: stop; the URL stays claimed.
    Disallowed,
    /// All gates passed: fetch the page.
    Fetch,
}

/// A site crawler's shared state: the claimed-URL set, the parsed robots
/// policy, the fetch permit pool, the depth limit and the agent name under
/// which the policy is consulted.
pub struct Crawler {
    pub visited: VisitedSet,
    pub parser: RobotsTxt,
    pub permits: PermitPool,
    pub max_depth: usize,
    pub user_agent: String,
}

/// The views of a sequence of URLs.
pub open spec fn url_views(s: Seq<PageUrl>) -> Seq<PageUrlView> {
    s.map_values(|u: PageUrl| u@)
}

/// The links on the parent's host, in order: exactly these are
/// rescheduled, one level deeper than their parent.
pub open spec fn same_host_filter(parent: PageUrlView, links: Seq<PageUrlView>) -> Seq<PageUrlView>
    decreases links.len(),
{
    if links.len() == 0 {
        Seq::empty()
    } else {
        let rest = same_host_filter(parent, links.drop_first());
        if links[0].host == parent.host {
            seq![links[0]] + rest
        } else {
            rest
        }
    }
}

impl Crawler {
    /// A crawler over a parsed robots policy: nothing visited yet, no
    /// fetch in flight.
    pub fn new(parser: RobotsTxt, max_depth: usize, concurrency: usize, user_agent: String) -> (r:
        Crawler)
        ensures
            r.parser == parser,
            r.max_depth == max_depth,
            r.user_agent == user_agent,
            r.visited@ == Set::<Seq<char>>::empty(),
            r.permits.limit == concurrency,
            r.permits.in_flight == 0,
            r.permits.wf(),
    {
        Crawler {
            visited: VisitedSet::new(),
            parser,
            permits: PermitPool::new(concurrency),
            max_depth,
            user_agent,
        }
    }

    /// One traversal unit's admission checks, in order. Past the depth
    /// cutoff the canonical URL is claimed whatever the policy then says;
    /// the page is fetched exactly when the depth is within bounds, the
    /// URL was not yet claimed, and the robots policy permits its path
    /// for the configured agent.
    pub fn gate(&mut self, url: &PageUrl, depth: usize) -> (d: CrawlDecision)
        ensures
            final(self).parser == old(self).parser,
            final(self).permits == old(self).permits,
            final(self).max_depth == old(self).max_depth,
            final(self).user_agent == old(self).user_agent,
            depth > old(self).max_depth ==> *final(self) == *old(self) && d
                == CrawlDecision::TooDeep,
            depth <= old(self).max_depth ==> final(self).visited@ == old(self).visited@.insert(
                url@.canonical,
            ),
            depth <= old(self).max_depth ==> (d == CrawlDecision::AlreadyVisited <==> old(
                self,
            ).visited@.contains(url@.canonical)),
            depth <= old(self).max_depth && !old(self).visited@.contains(url@.canonical) ==> (d
                == CrawlDecision::Fetch <==> is_allowed_spec(
                old(self).parser@,
                old(self).user_agent@,
                url@.path,
            )),
            depth <= old(self).max_depth && !old(self).visited@.contains(url@.canonical) ==> (d
                == CrawlDecision::Disallowed <==> !is_allowed_spec(
                old(self).parser@,
                old(self).user_agent@,
                url@.path,
            )),
    {
        if depth > self.max_depth {
            return CrawlDecision::TooDeep;
        }
        let fresh = self.visited.try_visit(url.canonical.as_str());
        if !fresh {
            return CrawlDecision::AlreadyVisited;
        }
        if !self.parser.is_allowed(self.user_agent.as_str(), url.path.as_str()) {
            return CrawlDecision::Disallowed;
        }
        CrawlDecision::Fetch
    }

    /// Takes one fetch permit if any is free: a fetch may start only
    /// after this succeeds, so never more than the configured limit run
    /// at once. A caller that is answered `false` waits and asks again.
    pub fn begin_fetch(&mut self) -> (ok: bool)
        requires
            old(self).permits.wf(),
        ensures
            final(self).visited == old(self).visited,
            final(self).parser == old(self).parser,
            final(self).max_depth == old(self).max_depth,
            final(self).user_agent == old(self).user_agent,
            final(self).permits.wf(),
            final(self).permits.limit == old(self).permits.limit,
            ok == (old(self).permits.in_flight < old(self).permits.limit),
            ok ==> final(self).permits.in_flight == old(self).permits.in_flight + 1,
            !ok ==> final(self).permits.in_flight == old(self).permits.in_flight,
    {
        self.permits.try_acquire()
    }

    /// Gives the fetch permit back once the fetch and extraction are
    /// done; called on every path out of a fetch, so a permit never
    /// leaks.
    pub fn end_fetch(&mut self)
        requires
            old(self).permits.wf(),
            old(self).permits.in_flight > 0,
        ensures
            final(self).visited == old(self).visited,
            final(self).parser == old(self).parser,
            final(self).max_depth == old(self).max_depth,
            final(self).user_agent == old(self).user_agent,
            final(self).permits.wf(),
            final(self).permits.limit == old(self).permits.limit,
            final(self).permits.in_flight == old(self).permits.in_flight - 1,
    {
        self.permits.release()
    }
}

/// Whether two URLs sit on exactly the same host; URLs without a host
/// never match one with a host, and two hostless URLs do match.
pub fn same_host(a: &PageUrl, b: &PageUrl) -> (r: bool)
    ensures
        r == (a@.host == b@.host),
{
    match (&a.host, &b.host) {
        (Some(x), Some(y)) => str_eq(x.as_str(), y.as_str()),
        (None, None) => true,
        _ => false,
    }
}

/// Keeps exactly the discovered links whose host equals the parent's,
/// in discovery order: the links a crawl schedules one level deeper.
pub fn select_children(parent: &PageUrl, links: Vec<PageUrl>) -> (r: Vec<PageUrl>)
    ensures
        url_views(r@) == same_host_filter(parent@, url_views(links@)),
{
    let mut rest = links;
    let mut out: Vec<PageUrl> = Vec::new();
    proof {
        assert(url_views(out@) + same_host_filter(parent@, url_views(rest@)) =~= same_host_filter(
            parent@,
            url_views(links@),
        ));
    }
    while rest.len() > 0
        invariant
            url_views(out@) + same_host_filter(parent@, url_views(rest@)) == same_host_filter(
                parent@,
                url_views(links@),
            ),
        decreases rest.len(),
    {
        let ghost out_pre = url_views(out@);
        let ghost rest_pre = url_views(rest@);
        let head = rest.remove(0);
        proof {
            assert(url_views(rest@) =~= rest_pre.drop_first());
            assert(rest_pre[0] == head@);
        }
        if same_host(parent, &head) {
            out.push(head);
            proof {
                assert(url_views(out@) =~= out_pre.push(head@));
                assert(out_pre.push(head@) + same_host_filter(parent@, rest_pre.drop_first())
                    =~= out_pre + (seq![head@] + same_host_filter(
                    parent@,
                    rest_pre.drop_first(),
                )));
            }
        }
    }
    proof {
        assert(url_views(rest@).len() == 0);
        assert(url_views(out@) + same_host_filter(parent@, url_views(rest@)) =~= url_views(out@));
    }
    out
}

} // verus!
