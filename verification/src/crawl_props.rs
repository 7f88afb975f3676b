//! Laws of whole crawls.
//!
//! A crawl over a fixed link graph is modelled as a sequence of scheduler
//! steps: the host completes one in-flight fetch at a time, and the state
//! evolves by [`step_spec`]. The graph maps each URL to the body its fetch
//! returns; a separate set names the URLs whose fetch fails. The lemmas
//! here state, for every such crawl: deduplication (no URL is dispatched
//! twice), the concurrency bound (backpressure), termination over a finite
//! closed graph, and completeness (everything reachable around the
//! failures — and, when nothing fails, everything reachable — is fetched).

use vstd::prelude::*;

use crate::crawl::{admission, init_view, remove_first, step_spec, CrawlView, GOutcome};
use crate::links::links_of;

verus! {

/// The body that fetching `url` returns, for every URL of the graph.
/// `fails` is the set of URLs whose fetch fails instead.
pub open spec fn step_state(
    g: Map<Seq<char>, Seq<char>>,
    fails: Set<Seq<char>>,
    s: CrawlView,
    url: Seq<char>,
) -> CrawlView {
    if fails.contains(url) {
        step_spec(s, url, GOutcome::Failed { message: Seq::empty() }).post
    } else {
        step_spec(s, url, GOutcome::Fetched { body: g[url] }).post
    }
}

/// The state after completing the fetches of `urls`, in order.
pub open spec fn run_from(
    g: Map<Seq<char>, Seq<char>>,
    fails: Set<Seq<char>>,
    s: CrawlView,
    urls: Seq<Seq<char>>,
) -> CrawlView
    decreases urls.len(),
{
    if urls.len() == 0 {
        s
    } else {
        run_from(g, fails, step_state(g, fails, s, urls[0]), urls.drop_first())
    }
}

/// A crawl can complete `urls` in this order from `s`: each completed URL
/// is in flight when its completion is reported.
pub open spec fn valid_trace(
    g: Map<Seq<char>, Seq<char>>,
    fails: Set<Seq<char>>,
    s: CrawlView,
    urls: Seq<Seq<char>>,
) -> bool
    decreases urls.len(),
{
    urls.len() == 0 || (s.in_flight.contains(urls[0]) && valid_trace(
        g,
        fails,
        step_state(g, fails, s, urls[0]),
        urls.drop_first(),
    ))
}

/// Well-formedness of a crawl state, maintained by every step.
pub open spec fn wf_view(s: CrawlView) -> bool {
    &&& s.limit >= 1
    &&& s.in_flight.no_duplicates()
    &&& forall|k: int| 0 <= k < s.in_flight.len() ==> s.visited.contains(#[trigger] s.in_flight[k])
    &&& s.in_flight.len() <= s.limit
    &&& s.visited.finite()
    &&& s.done == (s.in_flight.len() == 0 && (s.stopped || s.pending.len() == 0))
    &&& (s.in_flight.len() == 0 && !s.stopped ==> s.pending.len() == 0)
}

/// The URLs admitted by the step that completes `url`: the links drawn
/// from the pending queue whose dedup test succeeds.
pub open spec fn step_spawns(
    g: Map<Seq<char>, Seq<char>>,
    fails: Set<Seq<char>>,
    s: CrawlView,
    url: Seq<char>,
) -> Seq<Seq<char>> {
    if s.stopped {
        Seq::empty()
    } else {
        admission(s.visited, step_pending(g, fails, s, url), remove_first(s.in_flight, url), s.limit).spawns
    }
}

/// The pending queue right after the completed fetch reported its links,
/// before any admission.
pub open spec fn step_pending(
    g: Map<Seq<char>, Seq<char>>,
    fails: Set<Seq<char>>,
    s: CrawlView,
    url: Seq<char>,
) -> Seq<Seq<char>> {
    if fails.contains(url) {
        s.pending
    } else {
        s.pending + links_of(g[url])
    }
}

/// Every URL handed to a fetch over the whole rest of the crawl, in
/// dispatch order (the URLs already in flight at `s` are not included).
pub open spec fn dispatched(
    g: Map<Seq<char>, Seq<char>>,
    fails: Set<Seq<char>>,
    s: CrawlView,
    urls: Seq<Seq<char>>,
) -> Seq<Seq<char>>
    decreases urls.len(),
{
    if urls.len() == 0 {
        Seq::empty()
    } else {
        step_spawns(g, fails, s, urls[0]) + dispatched(
            g,
            fails,
            step_state(g, fails, s, urls[0]),
            urls.drop_first(),
        )
    }
}

/// A finite link graph closed under its own links: every link found on a
/// page of the graph leads to a page of the graph.
pub open spec fn closed_graph(g: Map<Seq<char>, Seq<char>>) -> bool {
    &&& g.dom().finite()
    &&& forall|u: Seq<char>, l: Seq<char>|
        g.dom().contains(u) && #[trigger] links_of(g[u]).contains(l) ==> g.dom().contains(l)
}

/// What one admission pass does: the admitted URLs join the in-flight set
/// in order; they are pairwise distinct, drawn from the pending queue, and
/// none was ever claimed before; the claimed set grows by exactly them; a
/// drained link is either dispatched now or was claimed already; and the
/// concurrency bound is respected.
proof fn lemma_admission_facts(
    v: Set<Seq<char>>,
    p: Seq<Seq<char>>,
    f: Seq<Seq<char>>,
    lim: nat,
)
    requires
        v.finite(),
    ensures
        admission(v, p, f, lim).in_flight == f + admission(v, p, f, lim).spawns,
        admission(v, p, f, lim).visited.finite(),
        forall|u: Seq<char>|
            admission(v, p, f, lim).visited.contains(u) <==> v.contains(u) || admission(
                v,
                p,
                f,
                lim,
            ).spawns.contains(u),
        admission(v, p, f, lim).spawns.no_duplicates(),
        forall|u: Seq<char>|
            #[trigger] admission(v, p, f, lim).spawns.contains(u) ==> !v.contains(u)
                && p.contains(u),
        forall|l: Seq<char>|
            #[trigger] admission(v, p, f, lim).pending.contains(l) ==> p.contains(l),
        forall|l: Seq<char>|
            p.contains(l) ==> admission(v, p, f, lim).visited.contains(l) || admission(
                v,
                p,
                f,
                lim,
            ).pending.contains(l),
        f.len() <= lim ==> admission(v, p, f, lim).in_flight.len() <= lim,
        lim >= 1 && admission(v, p, f, lim).in_flight.len() == 0 ==> admission(
            v,
            p,
            f,
            lim,
        ).pending.len() == 0,
    decreases p.len(),
{
    let a = admission(v, p, f, lim);
    if p.len() == 0 || f.len() >= lim {
        assert(a.in_flight =~= f + a.spawns);
        if lim >= 1 && f.len() == 0 {
            assert(p.len() == 0);
        }
    } else {
        let link = p[0];
        let rest = p.drop_first();
        assert(forall|l: Seq<char>| #[trigger] rest.contains(l) ==> p.contains(l)) by {
            assert forall|l: Seq<char>| #[trigger] rest.contains(l) implies p.contains(l) by {
                let i = choose|i: int| 0 <= i < rest.len() && rest[i] == l;
                assert(p[i + 1] == l);
            }
        }
        assert(p.contains(link)) by {
            assert(p[0] == link);
        }
        if v.contains(link) {
            lemma_admission_facts(v, rest, f, lim);
            assert(a == admission(v, rest, f, lim));
            assert forall|l: Seq<char>| p.contains(l) implies a.visited.contains(l)
                || a.pending.contains(l) by {
                if l == link {
                    assert(v.contains(l));
                    assert(admission(v, rest, f, lim).visited.contains(l));
                } else {
                    let i = choose|i: int| 0 <= i < p.len() && p[i] == l;
                    assert(rest[i - 1] == l);
                    assert(rest.contains(l));
                    assert(admission(v, rest, f, lim).visited.contains(l) || admission(
                        v,
                        rest,
                        f,
                        lim,
                    ).pending.contains(l));
                }
            }
        } else {
            let v1 = v.insert(link);
            let f1 = f.push(link);
            let tail = admission(v1, rest, f1, lim);
            lemma_admission_facts(v1, rest, f1, lim);
            assert(a.spawns == seq![link] + tail.spawns);
            // The admitted URLs join the in-flight set in order.
            assert(a.in_flight =~= f + a.spawns) by {
                assert(tail.in_flight == f1 + tail.spawns);
                assert(f1 + tail.spawns =~= f + (seq![link] + tail.spawns));
            }
            // Concatenation membership, spelled out once for reuse below.
            assert(a.spawns[0] == link);
            assert(a.spawns.contains(link));
            assert(forall|u: Seq<char>| tail.spawns.contains(u) ==> a.spawns.contains(u)) by {
                assert forall|u: Seq<char>| tail.spawns.contains(u) implies a.spawns.contains(
                    u,
                ) by {
                    let i = choose|i: int| 0 <= i < tail.spawns.len() && tail.spawns[i] == u;
                    assert(a.spawns[i + 1] == u);
                }
            }
            assert(forall|u: Seq<char>|
                a.spawns.contains(u) ==> u == link || tail.spawns.contains(u)) by {
                assert forall|u: Seq<char>| a.spawns.contains(u) implies u == link
                    || tail.spawns.contains(u) by {
                    let i = choose|i: int| 0 <= i < a.spawns.len() && a.spawns[i] == u;
                    if i > 0 {
                        assert(tail.spawns[i - 1] == u);
                    }
                }
            }
            // The claimed set grows by exactly the admitted URLs.
            assert forall|u: Seq<char>| a.visited.contains(u) implies v.contains(u)
                || a.spawns.contains(u) by {
                if !v.contains(u) {
                    assert(tail.visited.contains(u));
                    if u == link {
                    } else {
                        assert(!v1.contains(u));
                        assert(tail.spawns.contains(u));
                    }
                }
            }
            assert forall|u: Seq<char>| v.contains(u) || a.spawns.contains(u) implies
                a.visited.contains(u) by {
                if v.contains(u) {
                    assert(v1.contains(u));
                } else {
                    if u == link {
                        assert(v1.contains(u));
                    } else {
                        assert(tail.spawns.contains(u));
                    }
                }
            }
            // Distinctness: the head was never claimed, every later admit
            // is fresh against a set that already holds the head.
            assert(!tail.spawns.contains(link));
            assert(a.spawns.no_duplicates()) by {
                assert forall|i: int, j: int|
                    0 <= i < j < a.spawns.len() implies a.spawns[i] != a.spawns[j] by {
                    if i == 0 {
                        assert(a.spawns[j] == tail.spawns[j - 1]);
                        assert(tail.spawns.contains(tail.spawns[j - 1]));
                    } else {
                        assert(a.spawns[i] == tail.spawns[i - 1]);
                        assert(a.spawns[j] == tail.spawns[j - 1]);
                        assert(tail.spawns.no_duplicates());
                    }
                }
            }
            // The admitted URLs come from the pending queue, unclaimed.
            assert forall|u: Seq<char>| #[trigger] a.spawns.contains(u) implies !v.contains(u)
                && p.contains(u) by {
                if u == link {
                } else {
                    let i = choose|i: int| 0 <= i < a.spawns.len() && a.spawns[i] == u;
                    assert(i > 0);
                    assert(tail.spawns[i - 1] == u);
                    assert(tail.spawns.contains(u));
                    assert(rest.contains(u));
                }
            }
            // A drained link is dispatched now or was claimed already.
            assert forall|l: Seq<char>| p.contains(l) implies a.visited.contains(l)
                || a.pending.contains(l) by {
                if l == link {
                    assert(v1.contains(l));
                    assert(tail.visited.contains(l));
                } else {
                    let i = choose|i: int| 0 <= i < p.len() && p[i] == l;
                    assert(rest[i - 1] == l);
                    assert(rest.contains(l));
                    assert(tail.visited.contains(l) || tail.pending.contains(l));
                }
            }
            // The concurrency bound is respected.
            if f.len() <= lim {
                assert(f1.len() <= lim);
            }
            assert(a.in_flight.len() >= f1.len()) by {
                assert(tail.in_flight == f1 + tail.spawns);
            }
        }
    }
}

/// Removing one occurrence of `x` from a duplicate-free sequence: the
/// length drops by one, `x` is gone, everything else stays.
proof fn lemma_remove_first_facts(s: Seq<Seq<char>>, x: Seq<char>)
    requires
        s.no_duplicates(),
        s.contains(x),
    ensures
        remove_first(s, x).len() == s.len() - 1,
        !remove_first(s, x).contains(x),
        forall|y: Seq<char>| #[trigger] remove_first(s, x).contains(y) ==> s.contains(y),
        forall|y: Seq<char>| s.contains(y) && y != x ==> remove_first(s, x).contains(y),
        remove_first(s, x).no_duplicates(),
    decreases s.len(),
{
    let r = remove_first(s, x);
    assert(s.len() > 0);
    let rest = s.drop_first();
    assert(forall|y: Seq<char>| #[trigger] rest.contains(y) ==> s.contains(y)) by {
        assert forall|y: Seq<char>| #[trigger] rest.contains(y) implies s.contains(y) by {
            let i = choose|i: int| 0 <= i < rest.len() && rest[i] == y;
            assert(s[i + 1] == y);
        }
    }
    assert(forall|y: Seq<char>| s.contains(y) && y != s[0] ==> rest.contains(y)) by {
        assert forall|y: Seq<char>| s.contains(y) && y != s[0] implies rest.contains(y) by {
            let i = choose|i: int| 0 <= i < s.len() && s[i] == y;
            assert(rest[i - 1] == y);
        }
    }
    assert(rest.no_duplicates());
    if s[0] == x {
        assert(r == rest);
        assert(!rest.contains(x)) by {
            if rest.contains(x) {
                let i = choose|i: int| 0 <= i < rest.len() && rest[i] == x;
                assert(s[i + 1] == x && s[0] == x);
            }
        }
    } else {
        assert(rest.contains(x)) by {
            let i = choose|i: int| 0 <= i < s.len() && s[i] == x;
            assert(rest[i - 1] == x);
        }
        lemma_remove_first_facts(rest, x);
        let rr = remove_first(rest, x);
        assert(r == seq![s[0]] + rr);
        assert(forall|y: Seq<char>| #[trigger] r.contains(y) ==> y == s[0] || rr.contains(y)) by {
            assert forall|y: Seq<char>| #[trigger] r.contains(y) implies y == s[0] || rr.contains(
                y,
            ) by {
                let i = choose|i: int| 0 <= i < r.len() && r[i] == y;
                if i > 0 {
                    assert(rr[i - 1] == y);
                }
            }
        }
        assert(!r.contains(x));
        assert forall|y: Seq<char>| s.contains(y) && y != x implies r.contains(y) by {
            if y == s[0] {
                assert(r[0] == y);
            } else {
                assert(rest.contains(y));
                assert(rr.contains(y));
                let i = choose|i: int| 0 <= i < rr.len() && rr[i] == y;
                assert(r[i + 1] == y);
            }
        }
        assert(!rest.contains(s[0])) by {
            if rest.contains(s[0]) {
                let i = choose|i: int| 0 <= i < rest.len() && rest[i] == s[0];
                assert(s[i + 1] == s[0]);
            }
        }
        assert(r.no_duplicates()) by {
            assert forall|i: int, j: int| 0 <= i < j < r.len() implies r[i] != r[j] by {
                if i == 0 {
                    assert(r[j] == rr[j - 1]);
                    assert(rr.contains(rr[j - 1]));
                    assert(rest.contains(rr[j - 1]));
                } else {
                    assert(r[i] == rr[i - 1] && r[j] == rr[j - 1]);
                }
            }
        }
    }
}

/// What one scheduler step does to a well-formed state: well-formedness is
/// kept, the budget and the stop flag are unchanged, the claimed set grows
/// by exactly the freshly dispatched URLs, the finished fetch leaves the
/// in-flight set and the dispatched URLs join it, and every link drawn
/// from the queue is accounted for.
proof fn lemma_step_facts(
    g: Map<Seq<char>, Seq<char>>,
    fails: Set<Seq<char>>,
    s: CrawlView,
    url: Seq<char>,
)
    requires
        wf_view(s),
        s.in_flight.contains(url),
    ensures
        wf_view(step_state(g, fails, s, url)),
        step_state(g, fails, s, url).limit == s.limit,
        step_state(g, fails, s, url).stopped == s.stopped,
        forall|u: Seq<char>|
            step_state(g, fails, s, url).visited.contains(u) <==> s.visited.contains(u)
                || step_spawns(g, fails, s, url).contains(u),
        step_spawns(g, fails, s, url).no_duplicates(),
        forall|u: Seq<char>|
            #[trigger] step_spawns(g, fails, s, url).contains(u) ==> !s.visited.contains(u)
                && step_pending(g, fails, s, url).contains(u),
        step_state(g, fails, s, url).in_flight == remove_first(s.in_flight, url) + step_spawns(
            g,
            fails,
            s,
            url,
        ),
        forall|l: Seq<char>|
            #[trigger] step_state(g, fails, s, url).pending.contains(l) ==> step_pending(
                g,
                fails,
                s,
                url,
            ).contains(l),
        forall|l: Seq<char>|
            step_pending(g, fails, s, url).contains(l) ==> step_state(
                g,
                fails,
                s,
                url,
            ).visited.contains(l) || step_state(g, fails, s, url).pending.contains(l),
{
    let s1 = step_state(g, fails, s, url);
    let sp = step_spawns(g, fails, s, url);
    let p0 = step_pending(g, fails, s, url);
    let f0 = remove_first(s.in_flight, url);
    lemma_remove_first_facts(s.in_flight, url);
    if s.stopped {
        assert(f0 + sp =~= f0);
        assert(s1.in_flight == f0 + sp);
        assert(forall|k: int|
            0 <= k < s1.in_flight.len() ==> s.visited.contains(#[trigger] s1.in_flight[k])) by {
            assert forall|k: int| 0 <= k < s1.in_flight.len() implies s.visited.contains(
                #[trigger] s1.in_flight[k],
            ) by {
                assert(f0.contains(f0[k]));
                assert(s.in_flight.contains(f0[k]));
            }
        }
    } else {
        lemma_admission_facts(s.visited, p0, f0, s.limit);
        assert(s1.in_flight.no_duplicates()) by {
            let a = admission(s.visited, p0, f0, s.limit);
            assert(s1.in_flight == f0 + a.spawns);
            assert forall|i: int, j: int|
                0 <= i < j < s1.in_flight.len() implies s1.in_flight[i] != s1.in_flight[j] by {
                let m = f0.len() as int;
                if j < m {
                    assert(f0.no_duplicates());
                } else if i >= m {
                    assert(a.spawns.no_duplicates());
                } else {
                    assert(s1.in_flight[i] == f0[i]);
                    assert(f0.contains(f0[i]));
                    assert(s.in_flight.contains(f0[i]));
                    assert(s.visited.contains(f0[i]));
                    assert(s1.in_flight[j] == a.spawns[j - m]);
                    assert(a.spawns.contains(a.spawns[j - m]));
                    assert(!s.visited.contains(a.spawns[j - m]));
                }
            }
        }
        assert(forall|k: int|
            0 <= k < s1.in_flight.len() ==> s1.visited.contains(#[trigger] s1.in_flight[k])) by {
            let a = admission(s.visited, p0, f0, s.limit);
            assert(s1.in_flight == f0 + a.spawns);
            assert forall|k: int| 0 <= k < s1.in_flight.len() implies s1.visited.contains(
                #[trigger] s1.in_flight[k],
            ) by {
                let m = f0.len() as int;
                if k < m {
                    assert(f0.contains(f0[k]));
                    assert(s.in_flight.contains(f0[k]));
                    assert(s.visited.contains(f0[k]));
                } else {
                    assert(a.spawns.contains(a.spawns[k - m]));
                }
            }
        }
        assert(f0.len() <= s.limit);
    }
}

/// Well-formedness, the budget and the stop flag persist over any crawl,
/// and the claimed set only grows.
proof fn lemma_run_facts(
    g: Map<Seq<char>, Seq<char>>,
    fails: Set<Seq<char>>,
    s: CrawlView,
    urls: Seq<Seq<char>>,
)
    requires
        wf_view(s),
        valid_trace(g, fails, s, urls),
    ensures
        wf_view(run_from(g, fails, s, urls)),
        run_from(g, fails, s, urls).limit == s.limit,
        run_from(g, fails, s, urls).stopped == s.stopped,
        forall|u: Seq<char>|
            s.visited.contains(u) ==> run_from(g, fails, s, urls).visited.contains(u),
    decreases urls.len(),
{
    if urls.len() > 0 {
        lemma_step_facts(g, fails, s, urls[0]);
        lemma_run_facts(g, fails, step_state(g, fails, s, urls[0]), urls.drop_first());
    }
}

/// Backpressure: at every moment of a crawl — after every prefix of the
/// completions — the number of running fetches is at most the concurrency
/// budget. In particular, a consumer that never reads (so that no
/// completion past the channel's capacity is ever processed) never sees
/// the in-flight set grow beyond the budget.
pub proof fn lemma_backpressure(
    g: Map<Seq<char>, Seq<char>>,
    fails: Set<Seq<char>>,
    s: CrawlView,
    urls: Seq<Seq<char>>,
)
    requires
        wf_view(s),
        valid_trace(g, fails, s, urls),
    ensures
        forall|i: int|
            0 <= i <= urls.len() ==> #[trigger] run_from(
                g,
                fails,
                s,
                urls.take(i),
            ).in_flight.len() <= s.limit,
    decreases urls.len(),
{
    assert forall|i: int| 0 <= i <= urls.len() implies #[trigger] run_from(
        g,
        fails,
        s,
        urls.take(i),
    ).in_flight.len() <= s.limit by {
        if i == 0 {
            assert(urls.take(0).len() == 0);
        } else {
            let s1 = step_state(g, fails, s, urls[0]);
            lemma_step_facts(g, fails, s, urls[0]);
            lemma_backpressure(g, fails, s1, urls.drop_first());
            let t = urls.take(i);
            assert(t[0] == urls[0]);
            assert(t.drop_first() =~= urls.drop_first().take(i - 1));
            assert(run_from(g, fails, s, t) == run_from(g, fails, s1, t.drop_first()));
            assert(run_from(g, fails, s1, urls.drop_first().take(i - 1)).in_flight.len()
                <= s1.limit);
        }
    }
}

/// Membership in a concatenation, once and for all.
proof fn lemma_concat_contains(a: Seq<Seq<char>>, b: Seq<Seq<char>>)
    ensures
        forall|y: Seq<char>| #[trigger] (a + b).contains(y) <==> a.contains(y) || b.contains(y),
{
    assert forall|y: Seq<char>| #[trigger] (a + b).contains(y) implies a.contains(y)
        || b.contains(y) by {
        let i = choose|i: int| 0 <= i < (a + b).len() && (a + b)[i] == y;
        if i < a.len() {
            assert(a[i] == y);
        } else {
            assert(b[i - a.len()] == y);
        }
    }
    assert forall|y: Seq<char>| a.contains(y) || b.contains(y) implies (a + b).contains(y) by {
        if a.contains(y) {
            let i = choose|i: int| 0 <= i < a.len() && a[i] == y;
            assert((a + b)[i] == y);
        } else {
            let i = choose|i: int| 0 <= i < b.len() && b[i] == y;
            assert((a + b)[a.len() + i] == y);
        }
    }
}

/// Every URL dispatched over the rest of a crawl is fresh — unclaimed when
/// the rest began — and pairwise distinct from every other dispatch.
proof fn lemma_dispatched_facts(
    g: Map<Seq<char>, Seq<char>>,
    fails: Set<Seq<char>>,
    s: CrawlView,
    urls: Seq<Seq<char>>,
)
    requires
        wf_view(s),
        valid_trace(g, fails, s, urls),
    ensures
        dispatched(g, fails, s, urls).no_duplicates(),
        forall|u: Seq<char>|
            #[trigger] dispatched(g, fails, s, urls).contains(u) ==> !s.visited.contains(u)
                && run_from(g, fails, s, urls).visited.contains(u),
    decreases urls.len(),
{
    if urls.len() > 0 {
        let sp = step_spawns(g, fails, s, urls[0]);
        let s1 = step_state(g, fails, s, urls[0]);
        let d1 = dispatched(g, fails, s1, urls.drop_first());
        let d = dispatched(g, fails, s, urls);
        lemma_step_facts(g, fails, s, urls[0]);
        lemma_dispatched_facts(g, fails, s1, urls.drop_first());
        lemma_run_facts(g, fails, s1, urls.drop_first());
        lemma_concat_contains(sp, d1);
        assert(d == sp + d1);
        assert(d.no_duplicates()) by {
            assert forall|i: int, j: int| 0 <= i < j < d.len() implies d[i] != d[j] by {
                let m = sp.len() as int;
                if j < m {
                    assert(sp.no_duplicates());
                } else if i >= m {
                    assert(d1.no_duplicates());
                } else {
                    assert(d[i] == sp[i]);
                    assert(sp.contains(sp[i]));
                    assert(s1.visited.contains(sp[i]));
                    assert(d[j] == d1[j - m]);
                    assert(d1.contains(d1[j - m]));
                    assert(!s1.visited.contains(d1[j - m]));
                }
            }
        }
        assert forall|u: Seq<char>| #[trigger] d.contains(u) implies !s.visited.contains(u)
            && run_from(g, fails, s, urls).visited.contains(u) by {
            if sp.contains(u) {
                assert(s1.visited.contains(u));
            } else {
                assert(d1.contains(u));
                assert(!s1.visited.contains(u));
            }
        }
    }
}

/// The claimed set grows by exactly the dispatched URLs: a URL was
/// claimed after a stretch of crawling exactly when it was claimed before
/// or a fetch was dispatched for it along the way.
pub proof fn lemma_visited_is_dispatched(
    g: Map<Seq<char>, Seq<char>>,
    fails: Set<Seq<char>>,
    s: CrawlView,
    urls: Seq<Seq<char>>,
)
    requires
        wf_view(s),
        valid_trace(g, fails, s, urls),
    ensures
        forall|u: Seq<char>|
            run_from(g, fails, s, urls).visited.contains(u) <==> s.visited.contains(u)
                || dispatched(g, fails, s, urls).contains(u),
    decreases urls.len(),
{
    if urls.len() > 0 {
        let sp = step_spawns(g, fails, s, urls[0]);
        let s1 = step_state(g, fails, s, urls[0]);
        let d1 = dispatched(g, fails, s1, urls.drop_first());
        lemma_step_facts(g, fails, s, urls[0]);
        lemma_visited_is_dispatched(g, fails, s1, urls.drop_first());
        lemma_concat_contains(sp, d1);
    }
}

/// Deduplication: over a whole crawl from its start state, each distinct
/// URL is handed to at most one fetch. The inputs of all fetch units — the
/// seed, then every URL the scheduler ever dispatches, in order — are
/// pairwise distinct, however the link graph shares and repeats its links
/// and whatever fails.
pub proof fn lemma_dedup(
    g: Map<Seq<char>, Seq<char>>,
    fails: Set<Seq<char>>,
    seed: Seq<char>,
    limit: nat,
    urls: Seq<Seq<char>>,
)
    requires
        limit >= 1,
        valid_trace(g, fails, init_view(seed, limit), urls),
    ensures
        (seq![seed] + dispatched(g, fails, init_view(seed, limit), urls)).no_duplicates(),
{
    let s0 = init_view(seed, limit);
    assert(wf_view(s0));
    lemma_dispatched_facts(g, fails, s0, urls);
    let d = dispatched(g, fails, s0, urls);
    let all = seq![seed] + d;
    assert(all.no_duplicates()) by {
        assert forall|i: int, j: int| 0 <= i < j < all.len() implies all[i] != all[j] by {
            if i == 0 {
                assert(all[j] == d[j - 1]);
                assert(d.contains(d[j - 1]));
                assert(!s0.visited.contains(d[j - 1]));
                assert(s0.visited.contains(seed));
            } else {
                assert(all[i] == d[i - 1] && all[j] == d[j - 1]);
                assert(d.no_duplicates());
            }
        }
    }
}

/// A URL that has been claimed and is no longer in flight never fetches
/// again: it is not completed by the rest of the crawl, and stays out of
/// flight forever.
proof fn lemma_gone_stays(
    g: Map<Seq<char>, Seq<char>>,
    fails: Set<Seq<char>>,
    s: CrawlView,
    urls: Seq<Seq<char>>,
    u: Seq<char>,
)
    requires
        wf_view(s),
        valid_trace(g, fails, s, urls),
        s.visited.contains(u),
        !s.in_flight.contains(u),
    ensures
        !urls.contains(u),
        !run_from(g, fails, s, urls).in_flight.contains(u),
        run_from(g, fails, s, urls).visited.contains(u),
    decreases urls.len(),
{
    if urls.len() > 0 {
        let s1 = step_state(g, fails, s, urls[0]);
        let sp = step_spawns(g, fails, s, urls[0]);
        let f0 = remove_first(s.in_flight, urls[0]);
        lemma_step_facts(g, fails, s, urls[0]);
        lemma_remove_first_facts(s.in_flight, urls[0]);
        lemma_concat_contains(f0, sp);
        assert(urls[0] != u);
        assert(!s1.in_flight.contains(u)) by {
            if f0.contains(u) {
                assert(s.in_flight.contains(u));
            }
            if sp.contains(u) {
                assert(!s.visited.contains(u));
            }
        }
        lemma_gone_stays(g, fails, s1, urls.drop_first(), u);
        assert(!urls.contains(u)) by {
            if urls.contains(u) {
                let i = choose|i: int| 0 <= i < urls.len() && urls[i] == u;
                assert(i > 0);
                assert(urls.drop_first()[i - 1] == u);
            }
        }
    }
}

/// The completions of a crawl are pairwise distinct, and each completed
/// URL stays claimed to the end.
proof fn lemma_completions_distinct(
    g: Map<Seq<char>, Seq<char>>,
    fails: Set<Seq<char>>,
    s: CrawlView,
    urls: Seq<Seq<char>>,
)
    requires
        wf_view(s),
        valid_trace(g, fails, s, urls),
    ensures
        urls.no_duplicates(),
        forall|k: int|
            0 <= k < urls.len() ==> run_from(g, fails, s, urls).visited.contains(
                #[trigger] urls[k],
            ),
    decreases urls.len(),
{
    if urls.len() > 0 {
        let u0 = urls[0];
        let s1 = step_state(g, fails, s, u0);
        let f0 = remove_first(s.in_flight, u0);
        let sp = step_spawns(g, fails, s, u0);
        lemma_step_facts(g, fails, s, u0);
        lemma_remove_first_facts(s.in_flight, u0);
        lemma_concat_contains(f0, sp);
        assert(s.visited.contains(u0));
        assert(s1.visited.contains(u0));
        assert(!s1.in_flight.contains(u0)) by {
            if sp.contains(u0) {
                assert(!s.visited.contains(u0));
            }
        }
        lemma_gone_stays(g, fails, s1, urls.drop_first(), u0);
        lemma_completions_distinct(g, fails, s1, urls.drop_first());
        assert(urls.no_duplicates()) by {
            assert forall|i: int, j: int| 0 <= i < j < urls.len() implies urls[i] != urls[j] by {
                if i == 0 {
                    assert(urls.drop_first()[j - 1] == urls[j]);
                    assert(urls.drop_first().contains(urls[j]));
                    assert(!urls.drop_first().contains(u0));
                } else {
                    assert(urls.drop_first()[i - 1] == urls[i]);
                    assert(urls.drop_first()[j - 1] == urls[j]);
                    assert(urls.drop_first().no_duplicates());
                }
            }
        }
        assert forall|k: int| 0 <= k < urls.len() implies run_from(
            g,
            fails,
            s,
            urls,
        ).visited.contains(#[trigger] urls[k]) by {
            if k == 0 {
            } else {
                assert(urls.drop_first()[k - 1] == urls[k]);
            }
        }
    }
}

/// Over a closed graph, every claimed URL and every queued link belongs to
/// the graph.
proof fn lemma_stays_in_dom(
    g: Map<Seq<char>, Seq<char>>,
    fails: Set<Seq<char>>,
    s: CrawlView,
    urls: Seq<Seq<char>>,
)
    requires
        wf_view(s),
        valid_trace(g, fails, s, urls),
        closed_graph(g),
        forall|u: Seq<char>| s.visited.contains(u) ==> g.dom().contains(u),
        forall|l: Seq<char>| s.pending.contains(l) ==> g.dom().contains(l),
    ensures
        forall|u: Seq<char>|
            run_from(g, fails, s, urls).visited.contains(u) ==> g.dom().contains(u),
        forall|l: Seq<char>|
            run_from(g, fails, s, urls).pending.contains(l) ==> g.dom().contains(l),
    decreases urls.len(),
{
    if urls.len() > 0 {
        let u0 = urls[0];
        let s1 = step_state(g, fails, s, u0);
        let p0 = step_pending(g, fails, s, u0);
        lemma_step_facts(g, fails, s, u0);
        assert(s.visited.contains(u0));
        assert(g.dom().contains(u0));
        assert(forall|l: Seq<char>| p0.contains(l) ==> g.dom().contains(l)) by {
            if !fails.contains(u0) {
                lemma_concat_contains(s.pending, links_of(g[u0]));
            }
        }
        assert(forall|u: Seq<char>| s1.visited.contains(u) ==> g.dom().contains(u)) by {
            assert forall|u: Seq<char>| s1.visited.contains(u) implies g.dom().contains(u) by {
                if !s.visited.contains(u) {
                    assert(step_spawns(g, fails, s, u0).contains(u));
                    assert(p0.contains(u));
                }
            }
        }
        assert(forall|l: Seq<char>| s1.pending.contains(l) ==> g.dom().contains(l));
        lemma_stays_in_dom(g, fails, s1, urls.drop_first());
    }
}

/// Termination: a crawl over a finite, closed link graph reaches `Done` in
/// finitely many steps. No trace of completions is longer than the graph
/// itself; the moment nothing is in flight the crawl is done; and while it
/// is not done there is always an in-flight fetch left to complete, so
/// every maximal crawl ends done within `|graph|` completions.
pub proof fn lemma_termination(
    g: Map<Seq<char>, Seq<char>>,
    fails: Set<Seq<char>>,
    seed: Seq<char>,
    limit: nat,
    urls: Seq<Seq<char>>,
)
    requires
        limit >= 1,
        closed_graph(g),
        g.dom().contains(seed),
        valid_trace(g, fails, init_view(seed, limit), urls),
    ensures
        urls.len() <= g.dom().len(),
        run_from(g, fails, init_view(seed, limit), urls).in_flight.len() == 0 ==> run_from(
            g,
            fails,
            init_view(seed, limit),
            urls,
        ).done,
        !run_from(g, fails, init_view(seed, limit), urls).done ==> run_from(
            g,
            fails,
            init_view(seed, limit),
            urls,
        ).in_flight.len() >= 1,
{
    let s0 = init_view(seed, limit);
    assert(wf_view(s0));
    let fin = run_from(g, fails, s0, urls);
    lemma_run_facts(g, fails, s0, urls);
    lemma_completions_distinct(g, fails, s0, urls);
    assert(forall|u: Seq<char>| s0.visited.contains(u) ==> g.dom().contains(u));
    lemma_stays_in_dom(g, fails, s0, urls);
    assert(urls.to_set().subset_of(g.dom())) by {
        assert forall|u: Seq<char>| urls.to_set().contains(u) implies g.dom().contains(u) by {
            let k = choose|k: int| 0 <= k < urls.len() && urls[k] == u;
            assert(fin.visited.contains(urls[k]));
        }
    }
    urls.unique_seq_to_set();
    vstd::set_lib::lemma_len_subset(urls.to_set(), g.dom());
}

/// A walk through the graph from `seed` to `u`: every hop leaves a URL of
/// the graph whose own fetch does not fail, along a link of its page.
pub open spec fn avoiding_path(
    g: Map<Seq<char>, Seq<char>>,
    fails: Set<Seq<char>>,
    seed: Seq<char>,
    p: Seq<Seq<char>>,
    u: Seq<char>,
) -> bool {
    &&& p.len() >= 1
    &&& p[0] == seed
    &&& p.last() == u
    &&& forall|i: int|
        0 <= i < p.len() - 1 ==> (#[trigger] g.dom().contains(p[i]) && !fails.contains(p[i])
            && links_of(g[p[i]]).contains(p[i + 1]))
}

/// Every URL reachable from the seed without hopping off a failing page.
/// The target itself may fail: its own fetch is still dispatched.
pub open spec fn reach_avoiding(
    g: Map<Seq<char>, Seq<char>>,
    fails: Set<Seq<char>>,
    seed: Seq<char>,
) -> Set<Seq<char>> {
    Set::new(|u: Seq<char>| exists|p: Seq<Seq<char>>| avoiding_path(g, fails, seed, p, u))
}

/// Every URL reachable from the seed via the discovered-link relation.
pub open spec fn reachable(g: Map<Seq<char>, Seq<char>>, seed: Seq<char>) -> Set<Seq<char>> {
    reach_avoiding(g, Set::empty(), seed)
}

/// Reachability extends across one link of a non-failing page.
proof fn lemma_reach_step(
    g: Map<Seq<char>, Seq<char>>,
    fails: Set<Seq<char>>,
    seed: Seq<char>,
    u: Seq<char>,
    l: Seq<char>,
)
    requires
        reach_avoiding(g, fails, seed).contains(u),
        !fails.contains(u),
        g.dom().contains(u),
        links_of(g[u]).contains(l),
    ensures
        reach_avoiding(g, fails, seed).contains(l),
{
    let p = choose|p: Seq<Seq<char>>| avoiding_path(g, fails, seed, p, u);
    let q = p.push(l);
    assert(avoiding_path(g, fails, seed, q, l)) by {
        assert(q[0] == p[0]);
        assert(q.last() == l);
        assert forall|i: int|
            0 <= i < q.len() - 1 implies (#[trigger] g.dom().contains(q[i]) && !fails.contains(
            q[i],
        ) && links_of(g[q[i]]).contains(q[i + 1])) by {
            if i < p.len() - 1 {
                assert(q[i] == p[i] && q[i + 1] == p[i + 1]);
            } else {
                assert(q[i] == p.last() && q[i + 1] == l);
            }
        }
    }
}

/// The discovery invariant of a crawl over a closed graph: everything
/// claimed or queued is reachable around the failures and belongs to the
/// graph; the links of every fully processed, non-failing page have been
/// claimed or are still queued; and the seed is claimed.
pub open spec fn discovery_inv(
    g: Map<Seq<char>, Seq<char>>,
    fails: Set<Seq<char>>,
    seed: Seq<char>,
    s: CrawlView,
) -> bool {
    &&& forall|u: Seq<char>|
        #[trigger] s.visited.contains(u) ==> reach_avoiding(g, fails, seed).contains(u)
            && g.dom().contains(u)
    &&& forall|l: Seq<char>|
        #[trigger] s.pending.contains(l) ==> reach_avoiding(g, fails, seed).contains(l)
            && g.dom().contains(l)
    &&& forall|u: Seq<char>, l: Seq<char>|
        s.visited.contains(u) && !s.in_flight.contains(u) && !fails.contains(u)
            && g.dom().contains(u) && #[trigger] links_of(g[u]).contains(l) ==> s.visited.contains(
            l,
        ) || s.pending.contains(l)
    &&& s.visited.contains(seed)
}

/// One step preserves the discovery invariant.
proof fn lemma_discovery_step(
    g: Map<Seq<char>, Seq<char>>,
    fails: Set<Seq<char>>,
    seed: Seq<char>,
    s: CrawlView,
    url: Seq<char>,
)
    requires
        wf_view(s),
        closed_graph(g),
        s.in_flight.contains(url),
        discovery_inv(g, fails, seed, s),
    ensures
        discovery_inv(g, fails, seed, step_state(g, fails, s, url)),
{
    let s1 = step_state(g, fails, s, url);
    let sp = step_spawns(g, fails, s, url);
    let p0 = step_pending(g, fails, s, url);
    let f0 = remove_first(s.in_flight, url);
    let ra = reach_avoiding(g, fails, seed);
    lemma_step_facts(g, fails, s, url);
    lemma_remove_first_facts(s.in_flight, url);
    lemma_concat_contains(f0, sp);
    assert(s.visited.contains(url));
    // Whatever the queue holds after the report is reachable and in the
    // graph: old links by the invariant, new links by one more hop off
    // the page that just finished.
    assert(forall|l: Seq<char>| #[trigger] p0.contains(l) ==> ra.contains(l) && g.dom().contains(
        l,
    )) by {
        if !fails.contains(url) {
            lemma_concat_contains(s.pending, links_of(g[url]));
            assert forall|l: Seq<char>| #[trigger] p0.contains(l) implies ra.contains(l)
                && g.dom().contains(l) by {
                if !s.pending.contains(l) {
                    assert(links_of(g[url]).contains(l));
                    lemma_reach_step(g, fails, seed, url, l);
                }
            }
        }
    }
    assert forall|u: Seq<char>| #[trigger] s1.visited.contains(u) implies ra.contains(u)
        && g.dom().contains(u) by {
        if !s.visited.contains(u) {
            assert(sp.contains(u));
            assert(p0.contains(u));
        }
    }
    assert forall|u: Seq<char>, l: Seq<char>|
        s1.visited.contains(u) && !s1.in_flight.contains(u) && !fails.contains(u)
            && g.dom().contains(u) && #[trigger] links_of(g[u]).contains(l) implies
        s1.visited.contains(l) || s1.pending.contains(l) by {
        if sp.contains(u) {
            assert(s1.in_flight.contains(u));
        } else if u == url {
            lemma_concat_contains(s.pending, links_of(g[url]));
            assert(p0.contains(l));
        } else {
            assert(s.visited.contains(u));
            assert(!s.in_flight.contains(u)) by {
                if s.in_flight.contains(u) {
                    assert(f0.contains(u));
                }
            }
            assert(s.visited.contains(l) || s.pending.contains(l));
            if s.pending.contains(l) {
                assert(p0.contains(l)) by {
                    if !fails.contains(url) {
                        lemma_concat_contains(s.pending, links_of(g[url]));
                    }
                }
            }
        }
    }
}

/// A whole crawl preserves the discovery invariant.
proof fn lemma_discovery_run(
    g: Map<Seq<char>, Seq<char>>,
    fails: Set<Seq<char>>,
    seed: Seq<char>,
    s: CrawlView,
    urls: Seq<Seq<char>>,
)
    requires
        wf_view(s),
        closed_graph(g),
        valid_trace(g, fails, s, urls),
        discovery_inv(g, fails, seed, s),
    ensures
        discovery_inv(g, fails, seed, run_from(g, fails, s, urls)),
    decreases urls.len(),
{
    if urls.len() > 0 {
        lemma_step_facts(g, fails, s, urls[0]);
        lemma_discovery_step(g, fails, seed, s, urls[0]);
        lemma_discovery_run(g, fails, seed, step_state(g, fails, s, urls[0]), urls.drop_first());
    }
}

/// At quiescence, the end of every avoiding path has been claimed.
proof fn lemma_path_visited(
    g: Map<Seq<char>, Seq<char>>,
    fails: Set<Seq<char>>,
    seed: Seq<char>,
    s: CrawlView,
    p: Seq<Seq<char>>,
    u: Seq<char>,
)
    requires
        discovery_inv(g, fails, seed, s),
        s.in_flight.len() == 0,
        s.pending.len() == 0,
        avoiding_path(g, fails, seed, p, u),
    ensures
        s.visited.contains(u),
    decreases p.len(),
{
    if p.len() == 1 {
        assert(u == seed);
    } else {
        let q = p.drop_last();
        let v = p[p.len() - 2];
        assert(q.last() == v);
        assert(avoiding_path(g, fails, seed, q, v)) by {
            assert(q[0] == p[0]);
            assert forall|i: int|
                0 <= i < q.len() - 1 implies (#[trigger] g.dom().contains(q[i]) && !fails.contains(
                q[i],
            ) && links_of(g[q[i]]).contains(q[i + 1])) by {
                assert(q[i] == p[i] && q[i + 1] == p[i + 1]);
            }
        }
        lemma_path_visited(g, fails, seed, s, q, v);
        assert(g.dom().contains(v) && !fails.contains(v) && links_of(g[v]).contains(u)) by {
            assert(p[p.len() - 2 + 1] == u);
        }
        assert(!s.in_flight.contains(v));
        assert(!s.pending.contains(u));
    }
}

/// Completeness around failures — failure isolation in full generality.
///
/// When a crawl from the seed reaches `Done`, the set of URLs that were
/// fetched is exactly the set reachable from the seed along links of
/// non-failing pages. So a fetch failure on one URL never prevents the
/// fetch of an independently reachable URL: with `fails` containing only
/// URL A, every URL with a link path from the seed that avoids A is still
/// fetched.
pub proof fn lemma_completeness(
    g: Map<Seq<char>, Seq<char>>,
    fails: Set<Seq<char>>,
    seed: Seq<char>,
    limit: nat,
    urls: Seq<Seq<char>>,
)
    requires
        limit >= 1,
        closed_graph(g),
        g.dom().contains(seed),
        valid_trace(g, fails, init_view(seed, limit), urls),
        run_from(g, fails, init_view(seed, limit), urls).done,
    ensures
        run_from(g, fails, init_view(seed, limit), urls).visited == reach_avoiding(
            g,
            fails,
            seed,
        ),
{
    let s0 = init_view(seed, limit);
    let fin = run_from(g, fails, s0, urls);
    let ra = reach_avoiding(g, fails, seed);
    assert(wf_view(s0));
    assert(discovery_inv(g, fails, seed, s0)) by {
        assert(avoiding_path(g, fails, seed, seq![seed], seed));
        assert(ra.contains(seed));
        assert(forall|l: Seq<char>| !s0.pending.contains(l));
        assert(forall|u: Seq<char>| #[trigger] s0.visited.contains(u) ==> u == seed);
    }
    lemma_run_facts(g, fails, s0, urls);
    lemma_discovery_run(g, fails, seed, s0, urls);
    assert(fin.in_flight.len() == 0 && fin.pending.len() == 0) by {
        assert(!fin.stopped);
    }
    assert forall|u: Seq<char>| ra.contains(u) implies fin.visited.contains(u) by {
        let p = choose|p: Seq<Seq<char>>| avoiding_path(g, fails, seed, p, u);
        lemma_path_visited(g, fails, seed, fin, p, u);
    }
    assert(fin.visited =~= ra);
}

/// Completeness without failures: when no fetch fails and the crawl
/// reaches `Done`, the set of URLs fetched is exactly the set reachable
/// from the seed via the discovered-link relation.
pub proof fn lemma_completeness_no_failures(
    g: Map<Seq<char>, Seq<char>>,
    seed: Seq<char>,
    limit: nat,
    urls: Seq<Seq<char>>,
)
    requires
        limit >= 1,
        closed_graph(g),
        g.dom().contains(seed),
        valid_trace(g, Set::empty(), init_view(seed, limit), urls),
        run_from(g, Set::empty(), init_view(seed, limit), urls).done,
    ensures
        run_from(g, Set::empty(), init_view(seed, limit), urls).visited == reachable(g, seed),
{
    lemma_completeness(g, Set::empty(), seed, limit, urls);
}

/// Isolation under failure: a fetch failure on the URLs in `fails` does
/// not prevent the fetch of a URL `b` that is reachable independently of
/// them — whenever the crawl reaches `Done`, `b` was fetched.
pub proof fn lemma_failure_isolation(
    g: Map<Seq<char>, Seq<char>>,
    fails: Set<Seq<char>>,
    seed: Seq<char>,
    limit: nat,
    urls: Seq<Seq<char>>,
    b: Seq<char>,
)
    requires
        limit >= 1,
        closed_graph(g),
        g.dom().contains(seed),
        valid_trace(g, fails, init_view(seed, limit), urls),
        run_from(g, fails, init_view(seed, limit), urls).done,
        reach_avoiding(g, fails, seed).contains(b),
    ensures
        run_from(g, fails, init_view(seed, limit), urls).visited.contains(b),
{
    lemma_completeness(g, fails, seed, limit, urls);
}

} // verus!
