//! The shared visited-URL set: a set of canonical URL strings with
//! claim-once semantics. One call both tests membership and inserts, so a
//! URL is claimed by exactly one caller; the surrounding program serializes
//! calls (for instance behind a mutex) to make the pair atomic.

use vstd::prelude::*;

use crate::text::str_eq;

verus! {

/// The crawler's memory of URLs already claimed for traversal.
pub struct VisitedSet {
    /// The claimed canonical URLs; no string occurs twice.
    pub urls: Vec<String>,
}

impl View for VisitedSet {
    type V = Set<Seq<char>>;

    open spec fn view(&self) -> Set<Seq<char>> {
        self.urls.deep_view().to_set()
    }
}

impl VisitedSet {
    /// An empty set: no URL claimed yet.
    pub fn new() -> (r: VisitedSet)
        ensures
            r@ == Set::<Seq<char>>::empty(),
    {
        let r = VisitedSet { urls: Vec::new() };
        proof {
            assert(r@ =~= Set::<Seq<char>>::empty());
        }
        r
    }

    /// Claims `url`: inserts it and reports whether it was absent before,
    /// in one test-and-set step. `true` means "you may proceed"; `false`
    /// means the URL was already claimed.
    pub fn try_visit(&mut self, url: &str) -> (fresh: bool)
        ensures
            fresh == !old(self)@.contains(url@),
            final(self)@ == old(self)@.insert(url@),
            old(self)@.subset_of(final(self)@),
    {
        let n = self.urls.len();
        let mut i: usize = 0;
        while i < n
            invariant
                0 <= i <= n,
                n == self.urls@.len(),
                forall|j: int| 0 <= j < i ==> self.urls@[j]@ != url@,
            decreases n - i,
        {
            if str_eq(self.urls[i].as_str(), url) {
                proof {
                    assert(self.urls.deep_view()[i as int] == url@);
                    assert(self.urls.deep_view().contains(url@));
                    assert(self@ =~= self@.insert(url@));
                }
                return false;
            }
            i = i + 1;
        }
        proof {
            let dv = self.urls.deep_view();
            assert forall|j: int| 0 <= j < dv.len() implies dv[j] != url@ by {
                assert(dv[j] == self.urls@[j]@);
            }
            assert(!dv.contains(url@));
        }
        let ghost dv0 = self.urls.deep_view();
        self.urls.push(url.to_owned());
        proof {
            let dv1 = self.urls.deep_view();
            assert(dv1 =~= dv0.push(url@));
            assert forall|x: Seq<char>| dv1.contains(x) implies dv0.contains(x) || x == url@ by {
                let j = choose|j: int| 0 <= j < dv1.len() && dv1[j] == x;
                if j < dv0.len() {
                    assert(dv0[j] == x);
                }
            }
            assert forall|x: Seq<char>| dv0.contains(x) implies dv1.contains(x) by {
                let j = choose|j: int| 0 <= j < dv0.len() && dv0[j] == x;
                assert(dv1[j] == x);
            }
            assert(dv1[dv0.len() as int] == url@);
            assert(dv1.contains(url@));
            assert(self@ =~= old(self)@.insert(url@));
        }
        true
    }

    /// How many URLs have been claimed.
    pub fn len(&self) -> (n: usize)
        ensures
            n == self.urls@.len(),
    {
        self.urls.len()
    }

    /// Whether `url` has been claimed, without claiming it.
    pub fn contains(&self, url: &str) -> (r: bool)
        ensures
            r == self@.contains(url@),
    {
        let n = self.urls.len();
        let mut i: usize = 0;
        while i < n
            invariant
                0 <= i <= n,
                n == self.urls@.len(),
                forall|j: int| 0 <= j < i ==> self.urls@[j]@ != url@,
            decreases n - i,
        {
            if str_eq(self.urls[i].as_str(), url) {
                proof {
                    assert(self.urls.deep_view()[i as int] == url@);
                }
                return true;
            }
            i = i + 1;
        }
        proof {
            let dv = self.urls.deep_view();
            assert forall|j: int| 0 <= j < dv.len() implies dv[j] != url@ by {
                assert(dv[j] == self.urls@[j]@);
            }
            assert(!dv.contains(url@));
        }
        false
    }
}

/// A URL is claimed at most once across a run: once a claim of `url` has
/// been answered true, the set holds `url`, and since every later state
/// only adds members, every later claim of `url` finds it present and is
/// answered false.
pub proof fn lemma_claim_once(after_first: Set<Seq<char>>, later: Set<Seq<char>>, url: Seq<char>)
    requires
        after_first.contains(url),
        after_first.subset_of(later),
    ensures
        later.contains(url),
{
}

/// How many claims of `target` are answered true when the URLs in `urls`
/// are claimed in order, starting from the set `s`: a claim is answered
/// true exactly when its URL is absent, and inserts it either way.
pub open spec fn true_claims(s: Set<Seq<char>>, urls: Seq<Seq<char>>, target: Seq<char>) -> nat
    decreases urls.len(),
{
    if urls.len() == 0 {
        0
    } else {
        let hit: nat = if urls[0] == target && !s.contains(urls[0]) {
            1
        } else {
            0
        };
        hit + true_claims(s.insert(urls[0]), urls.drop_first(), target)
    }
}

/// Once the set holds `target`, no later claim of it is answered true.
pub proof fn lemma_no_claim_when_present(
    s: Set<Seq<char>>,
    urls: Seq<Seq<char>>,
    target: Seq<char>,
)
    requires
        s.contains(target),
    ensures
        true_claims(s, urls, target) == 0,
    decreases urls.len(),
{
    if urls.len() > 0 {
        lemma_no_claim_when_present(s.insert(urls[0]), urls.drop_first(), target);
    }
}

/// However often a URL is scheduled across a run — duplicate links from
/// different parents included — the claim of it is answered true exactly
/// once, provided it was not claimed before the run and is scheduled at
/// least once.
pub proof fn lemma_claimed_exactly_once(
    s: Set<Seq<char>>,
    urls: Seq<Seq<char>>,
    target: Seq<char>,
)
    requires
        !s.contains(target),
        urls.contains(target),
    ensures
        true_claims(s, urls, target) == 1,
    decreases urls.len(),
{
    if urls[0] == target {
        lemma_no_claim_when_present(s.insert(urls[0]), urls.drop_first(), target);
    } else {
        let i = choose|i: int| 0 <= i < urls.len() && urls[i] == target;
        assert(urls.drop_first()[i - 1] == target);
        assert(urls.drop_first().contains(target));
        lemma_claimed_exactly_once(s.insert(urls[0]), urls.drop_first(), target);
    }
}

} // verus!
