//! The crawler core: a bounded-concurrency breadth-first crawl over a link
//! graph, organised as a pure state machine.
//!
//! The scheduler owns four structures: a set of URLs already claimed for
//! fetching, a queue of discovered links awaiting dedup-and-dispatch, the
//! set of URLs currently being fetched (bounded by the concurrency limit),
//! and a `done` flag. Network transport is not performed here: a host
//! program starts one fetch per [`CrawlAction::Spawn`], reports each
//! finished fetch through [`CrawlRun::on_completion`], and carries out the
//! returned actions in order (deliver a page, report a per-URL failure,
//! start new fetches, close the output).

use vstd::prelude::*;

use crate::links::{find_links, links_of};

verus! {

/// Crawl configuration: how many fetches may run at once (`None` means 1).
#[derive(Clone, Default)]
pub struct Config {
    pub concurrent_requests: Option<usize>,
}

/// One successfully fetched document.
pub struct Page {
    pub url: String,
    pub body: String,
}

/// A per-URL transport failure. It never aborts the crawl: the scheduler
/// reports it as a discrete event and the rest of the crawl proceeds.
pub struct FetchError {
    pub message: String,
}

/// What the host program must do next, in order.
pub enum CrawlAction {
    /// Deliver this page on the bounded result channel. The channel's
    /// capacity equals the concurrency limit; a full channel suspends the
    /// host here, so a slow consumer also suspends the fetches spawned by
    /// the actions that follow.
    Emit { page: Page },
    /// Report a per-URL fetch failure to the caller.
    Fail { url: String, error: FetchError },
    /// Start one fetch for this URL; its result comes back through
    /// [`CrawlRun::on_completion`].
    Spawn { url: String },
    /// No further pages will ever be produced: close the result channel.
    Close,
}

/// Mathematical image of a [`CrawlAction`].
pub enum GAction {
    Emit { url: Seq<char>, body: Seq<char> },
    Fail { url: Seq<char>, message: Seq<char> },
    Spawn { url: Seq<char> },
    Close,
}

impl View for CrawlAction {
    type V = GAction;

    open spec fn view(&self) -> GAction {
        match self {
            CrawlAction::Emit { page } => GAction::Emit { url: page.url@, body: page.body@ },
            CrawlAction::Fail { url, error } => GAction::Fail {
                url: url@,
                message: error.message@,
            },
            CrawlAction::Spawn { url } => GAction::Spawn { url: url@ },
            CrawlAction::Close => GAction::Close,
        }
    }
}

/// The two ways a fetch can end, as the specification sees them.
pub enum GOutcome {
    Fetched { body: Seq<char> },
    Failed { message: Seq<char> },
}

/// Mathematical image of one fetch outcome.
pub open spec fn outcome_view(outcome: &Result<String, FetchError>) -> GOutcome {
    match outcome {
        Ok(body) => GOutcome::Fetched { body: body@ },
        Err(e) => GOutcome::Failed { message: e.message@ },
    }
}

/// Mathematical image of an action list.
pub open spec fn actions_view(actions: Seq<CrawlAction>) -> Seq<GAction> {
    actions.map_values(|a: CrawlAction| a@)
}

/// The `Spawn` actions for a sequence of admitted URLs, in order.
pub open spec fn spawn_actions(urls: Seq<Seq<char>>) -> Seq<GAction> {
    urls.map_values(|u: Seq<char>| GAction::Spawn { url: u })
}

/// The set of canonical URLs already claimed for fetching. Claiming is the
/// sole deduplication mechanism of a crawl: the first claim of a URL
/// returns `true`, every later claim of the same URL returns `false`.
pub struct VisitedSet {
    urls: Vec<String>,
}

impl View for VisitedSet {
    type V = Set<Seq<char>>;

    closed spec fn view(&self) -> Set<Seq<char>> {
        self.urls.deep_view().to_set()
    }
}

impl VisitedSet {
    /// The empty set: no URL has been claimed yet.
    pub fn new() -> (v: VisitedSet)
        ensures
            v@ == Set::<Seq<char>>::empty(),
    {
        let v = VisitedSet { urls: Vec::new() };
        proof {
            assert(v@ =~= Set::<Seq<char>>::empty());
        }
        v
    }

    /// Claims `url`: returns `true` exactly when `url` had not been
    /// claimed before, and records it either way.
    pub fn claim(&mut self, url: &String) -> (fresh: bool)
        ensures
            fresh == !old(self)@.contains(url@),
            final(self)@ == old(self)@.insert(url@),
    {
        let ghost s0 = self.urls.deep_view();
        let n = self.urls.len();
        let mut i: usize = 0;
        while i < n
            invariant
                n == self.urls.len(),
                i <= n,
                self.urls.deep_view() == s0,
                forall|k: int| 0 <= k < i ==> s0[k] != url@,
            decreases n - i,
        {
            if self.urls[i] == *url {
                proof {
                    assert(s0[i as int] == url@);
                    assert(s0.contains(url@));
                    assert(self@.contains(url@));
                    assert(self@ =~= old(self)@.insert(url@));
                }
                return false;
            }
            i += 1;
        }
        proof {
            assert(forall|k: int| 0 <= k < s0.len() ==> s0[k] != url@);
            assert(!s0.contains(url@));
        }
        self.urls.push(url.clone());
        proof {
            assert(self.urls.deep_view() =~= s0.push(url@));
            lemma_to_set_push(s0, url@);
            assert(self@ =~= old(self)@.insert(url@));
        }
        true
    }
}

proof fn lemma_to_set_push(s: Seq<Seq<char>>, x: Seq<char>)
    ensures
        s.push(x).to_set() == s.to_set().insert(x),
{
    assert forall|y: Seq<char>| s.push(x).to_set().contains(y) implies s.to_set().insert(
        x,
    ).contains(y) by {
        let i = choose|i: int| 0 <= i < s.push(x).len() && s.push(x)[i] == y;
        if i < s.len() {
            assert(s[i] == y);
        }
    }
    assert forall|y: Seq<char>| s.to_set().insert(x).contains(y) implies s.push(
        x,
    ).to_set().contains(y) by {
        if y == x {
            assert(s.push(x)[s.len() as int] == x);
        } else {
            let i = choose|i: int| 0 <= i < s.len() && s[i] == y;
            assert(s.push(x)[i] == y);
        }
    }
    assert(s.push(x).to_set() =~= s.to_set().insert(x));
}

/// Mathematical state of one crawl run.
pub struct CrawlView {
    /// The concurrency budget; at least 1.
    pub limit: nat,
    /// Every URL ever claimed for fetching.
    pub visited: Set<Seq<char>>,
    /// Discovered links awaiting dedup-and-dispatch, oldest first.
    pub pending: Seq<Seq<char>>,
    /// URLs whose fetches are currently running.
    pub in_flight: Seq<Seq<char>>,
    /// A stop signal was received: no new fetches are admitted.
    pub stopped: bool,
    /// Quiescence was reached and the result channel was closed.
    pub done: bool,
}

/// `s` with the first occurrence of `x` removed (or `s` if `x` is absent).
pub open spec fn remove_first(s: Seq<Seq<char>>, x: Seq<char>) -> Seq<Seq<char>>
    decreases s.len(),
{
    if s.len() == 0 {
        s
    } else if s[0] == x {
        s.drop_first()
    } else {
        seq![s[0]] + remove_first(s.drop_first(), x)
    }
}

/// Result of draining the pending queue into the in-flight set.
pub struct AdmitResult {
    pub visited: Set<Seq<char>>,
    pub pending: Seq<Seq<char>>,
    pub in_flight: Seq<Seq<char>>,
    /// The URLs admitted, oldest first: exactly those popped links whose
    /// claim succeeded.
    pub spawns: Seq<Seq<char>>,
}

/// Drains `pending`, oldest link first, until the in-flight set reaches
/// `limit` or no link is left. A popped link is dispatched exactly when it
/// was never claimed before; a link that loses the dedup test is dropped.
pub open spec fn admission(
    visited: Set<Seq<char>>,
    pending: Seq<Seq<char>>,
    in_flight: Seq<Seq<char>>,
    limit: nat,
) -> AdmitResult
    decreases pending.len(),
{
    if pending.len() == 0 || in_flight.len() >= limit {
        AdmitResult { visited, pending, in_flight, spawns: Seq::empty() }
    } else {
        let link = pending[0];
        let rest = pending.drop_first();
        if visited.contains(link) {
            admission(visited, rest, in_flight, limit)
        } else {
            let tail = admission(visited.insert(link), rest, in_flight.push(link), limit);
            AdmitResult {
                visited: tail.visited,
                pending: tail.pending,
                in_flight: tail.in_flight,
                spawns: seq![link] + tail.spawns,
            }
        }
    }
}

/// State and actions produced by one scheduler step.
pub struct StepResult {
    pub post: CrawlView,
    pub actions: Seq<GAction>,
}

/// One scheduler step: the fetch of `url` finished with `outcome`.
///
/// The finished unit leaves the in-flight set. A successful fetch emits a
/// page and appends the links extracted from its body to the pending
/// queue; a failed fetch emits a per-URL failure event and discovers
/// nothing. Unless stopped, the scheduler then refills the in-flight set
/// from the pending queue up to the limit. Quiescence — nothing in flight
/// and (unless stopped) nothing pending — sets `done` and closes the
/// output.
pub open spec fn step_spec(pre: CrawlView, url: Seq<char>, outcome: GOutcome) -> StepResult {
    let in_flight0 = remove_first(pre.in_flight, url);
    let first = match outcome {
        GOutcome::Fetched { body } => GAction::Emit { url, body },
        GOutcome::Failed { message } => GAction::Fail { url, message },
    };
    let pending0 = match outcome {
        GOutcome::Fetched { body } => pre.pending + links_of(body),
        GOutcome::Failed { message } => pre.pending,
    };
    let adm = if pre.stopped {
        AdmitResult {
            visited: pre.visited,
            pending: pending0,
            in_flight: in_flight0,
            spawns: Seq::empty(),
        }
    } else {
        admission(pre.visited, pending0, in_flight0, pre.limit)
    };
    let done = adm.in_flight.len() == 0 && (adm.pending.len() == 0 || pre.stopped);
    let post = CrawlView {
        limit: pre.limit,
        visited: adm.visited,
        pending: adm.pending,
        in_flight: adm.in_flight,
        stopped: pre.stopped,
        done,
    };
    let actions = seq![first] + spawn_actions(adm.spawns) + if done {
        seq![GAction::Close]
    } else {
        Seq::empty()
    };
    StepResult { post, actions }
}

/// The state a crawl starts in: the seed is pre-claimed and is the sole
/// in-flight fetch.
pub open spec fn init_view(seed: Seq<char>, limit: nat) -> CrawlView {
    CrawlView {
        limit,
        visited: Set::empty().insert(seed),
        pending: Seq::empty(),
        in_flight: seq![seed],
        stopped: false,
        done: false,
    }
}

/// The concurrency budget a configuration asks for.
pub open spec fn spec_limit(config: Config) -> nat {
    match config.concurrent_requests {
        Some(n) => n as nat,
        None => 1,
    }
}

/// A crawler, parameterised by its configuration.
pub struct Crawler {
    config: Config,
}

impl Crawler {
    /// The configuration this crawler was built with.
    pub closed spec fn cfg(&self) -> Config {
        self.config
    }

    pub fn new(config: Config) -> (c: Self)
        ensures
            c.cfg() == config,
    {
        Self { config }
    }

    /// Begins a crawl at `seed`: the seed is claimed and becomes the one
    /// in-flight fetch. The host must now fetch the seed and report the
    /// outcome through [`CrawlRun::on_completion`].
    pub fn start_crawl(&self, seed: String) -> (run: CrawlRun)
        requires
            self.cfg().concurrent_requests != Some(0usize),
        ensures
            run@ == init_view(seed@, spec_limit(self.cfg())),
    {
        let limit = match self.config.concurrent_requests {
            Some(n) => n,
            None => 1,
        };
        let mut visited = VisitedSet::new();
        let _ = visited.claim(&seed);
        let mut in_flight: Vec<String> = Vec::new();
        in_flight.push(seed);
        let run = CrawlRun {
            limit,
            visited,
            pending: Vec::new(),
            in_flight,
            stopped: false,
            done: false,
        };
        proof {
            assert(run@.visited =~= init_view(run.in_flight.deep_view()[0], limit as nat).visited);
            assert(run@.pending =~= Seq::<Seq<char>>::empty());
            assert(run@.in_flight =~= seq![run.in_flight.deep_view()[0]]);
        }
        run
    }
}

/// One crawl in progress. Owned by the host's driver loop; every scheduler
/// decision is made by [`CrawlRun::on_completion`].
pub struct CrawlRun {
    limit: usize,
    visited: VisitedSet,
    pending: Vec<String>,
    in_flight: Vec<String>,
    stopped: bool,
    done: bool,
}

impl View for CrawlRun {
    type V = CrawlView;

    closed spec fn view(&self) -> CrawlView {
        CrawlView {
            limit: self.limit as nat,
            visited: self.visited@,
            pending: self.pending.deep_view(),
            in_flight: self.in_flight.deep_view(),
            stopped: self.stopped,
            done: self.done,
        }
    }
}

impl CrawlRun {
    /// The crawl has reached quiescence and the result channel is closed.
    pub fn is_done(&self) -> (r: bool)
        ensures
            r == self@.done,
    {
        self.done
    }

    /// How many fetches are currently running.
    pub fn in_flight_count(&self) -> (n: usize)
        ensures
            n == self@.in_flight.len(),
    {
        self.in_flight.len()
    }

    /// An external stop signal: no further fetch is admitted from the
    /// pending queue; in-flight fetches run to completion, and the crawl
    /// closes when the last of them reports back.
    pub fn stop(&mut self)
        ensures
            final(self)@ == (CrawlView { stopped: true, ..old(self)@ }),
    {
        self.stopped = true;
    }

    /// Whether a fetch of `url` is currently running. The host must check
    /// this before reporting a completion.
    pub fn is_in_flight(&self, url: &String) -> (r: bool)
        ensures
            r == self@.in_flight.contains(url@),
    {
        let n = self.in_flight.len();
        let mut i: usize = 0;
        while i < n
            invariant
                n == self.in_flight.len(),
                i <= n,
                forall|k: int| 0 <= k < i ==> self.in_flight.deep_view()[k] != url@,
            decreases n - i,
        {
            if self.in_flight[i] == *url {
                proof {
                    assert(self.in_flight.deep_view()[i as int] == url@);
                    assert(self@.in_flight.contains(url@));
                }
                return true;
            }
            i += 1;
        }
        proof {
            assert(forall|k: int|
                0 <= k < self.in_flight.deep_view().len()
                    ==> self.in_flight.deep_view()[k] != url@);
        }
        false
    }

    /// Reports that the fetch of `url` finished with `outcome`. Performs
    /// one scheduler step — exactly [`step_spec`] — and returns the
    /// actions the host must carry out, in order.
    pub fn on_completion(&mut self, url: String, outcome: Result<String, FetchError>) -> (actions:
        Vec<CrawlAction>)
        requires
            old(self)@.in_flight.contains(url@),
        ensures
            final(self)@ == step_spec(old(self)@, url@, outcome_view(&outcome)).post,
            actions_view(actions@) == step_spec(old(self)@, url@, outcome_view(&outcome)).actions,
    {
        let ghost pre = self@;
        let ghost ov = outcome_view(&outcome);
        let ghost step = step_spec(pre, url@, ov);
        let mut actions: Vec<CrawlAction> = Vec::new();

        // The finished unit leaves the in-flight set.
        proof {
            assert(pre.in_flight.contains(url@));
        }
        let ghost iw = choose|i: int| 0 <= i < pre.in_flight.len() && pre.in_flight[i] == url@;
        let n = self.in_flight.len();
        let mut j: usize = 0;
        while !(self.in_flight[j] == url)
            invariant
                self.in_flight.deep_view() == pre.in_flight,
                n == self.in_flight.len(),
                0 <= iw < n,
                pre.in_flight[iw] == url@,
                j <= iw,
                forall|k: int| 0 <= k < j ==> pre.in_flight[k] != url@,
            decreases iw - j,
        {
            j += 1;
        }
        proof {
            assert(pre.in_flight[j as int] == url@);
        }
        self.in_flight.remove(j);
        proof {
            assert(self.in_flight.deep_view() =~= pre.in_flight.remove(j as int));
            lemma_remove_first_at(pre.in_flight, url@, j as int);
            assert(self.in_flight.deep_view() == remove_first(pre.in_flight, url@));
        }

        // A success emits its page and discovers links; a failure is a
        // discrete per-URL event and discovers nothing.
        match outcome {
            Ok(body) => {
                let mut links = find_links(body.as_str());
                let ghost pend_before = self.pending.deep_view();
                let ghost found = links.deep_view();
                self.pending.append(&mut links);
                proof {
                    assert(self.pending.deep_view() =~= pend_before + found);
                }
                actions.push(CrawlAction::Emit { page: Page { url, body } });
            },
            Err(error) => {
                actions.push(CrawlAction::Fail { url, error });
            },
        }
        let ghost first = match ov {
            GOutcome::Fetched { body } => GAction::Emit { url: url@, body },
            GOutcome::Failed { message } => GAction::Fail { url: url@, message },
        };
        proof {
            assert(actions_view(actions@) =~= seq![first]);
        }

        // Refill the in-flight set from the pending queue, oldest link
        // first, up to the limit — unless a stop signal was received.
        let ghost v1 = self.visited@;
        let ghost p1 = self.pending.deep_view();
        let ghost f1 = self.in_flight.deep_view();
        let ghost lim = pre.limit;
        let ghost target = if pre.stopped {
            AdmitResult { visited: v1, pending: p1, in_flight: f1, spawns: Seq::empty() }
        } else {
            admission(v1, p1, f1, lim)
        };
        let ghost mut spawned: Seq<Seq<char>> = Seq::empty();
        if !self.stopped {
            proof {
                assert(spawned + target.spawns =~= target.spawns);
            }
            while self.pending.len() > 0 && self.in_flight.len() < self.limit
                invariant
                    self.limit as nat == lim,
                    self.stopped == pre.stopped,
                    !pre.stopped,
                    self.done == pre.done,
                    admission(
                        self.visited@,
                        self.pending.deep_view(),
                        self.in_flight.deep_view(),
                        lim,
                    ).visited == target.visited,
                    admission(
                        self.visited@,
                        self.pending.deep_view(),
                        self.in_flight.deep_view(),
                        lim,
                    ).pending == target.pending,
                    admission(
                        self.visited@,
                        self.pending.deep_view(),
                        self.in_flight.deep_view(),
                        lim,
                    ).in_flight == target.in_flight,
                    spawned + admission(
                        self.visited@,
                        self.pending.deep_view(),
                        self.in_flight.deep_view(),
                        lim,
                    ).spawns == target.spawns,
                    actions_view(actions@) == seq![first] + spawn_actions(spawned),
                decreases self.pending.len(),
            {
                let ghost vc = self.visited@;
                let ghost pc = self.pending.deep_view();
                let ghost fc = self.in_flight.deep_view();
                let ghost cur = admission(vc, pc, fc, lim);
                let link = self.pending.remove(0);
                proof {
                    assert(link@ == pc[0]);
                    assert(self.pending.deep_view() =~= pc.drop_first());
                }
                let fresh = self.visited.claim(&link);
                if fresh {
                    self.in_flight.push(link.clone());
                    let ghost osp = spawned;
                    proof {
                        assert(self.in_flight.deep_view() =~= fc.push(pc[0]));
                        let tail = admission(
                            vc.insert(pc[0]),
                            pc.drop_first(),
                            fc.push(pc[0]),
                            lim,
                        );
                        assert(cur.spawns == seq![pc[0]] + tail.spawns);
                        spawned = spawned.push(pc[0]);
                        assert(spawned + tail.spawns =~= osp + cur.spawns);
                    }
                    let ghost oav = actions@;
                    let ghost lv = link@;
                    actions.push(CrawlAction::Spawn { url: link });
                    proof {
                        let m = oav.len() as int;
                        assert(actions@ == oav.push(CrawlAction::Spawn { url: link }));
                        assert(actions_view(oav) == seq![first] + spawn_actions(osp));
                        assert(actions_view(oav).len() == oav.len());
                        assert(spawn_actions(osp).len() == osp.len());
                        assert(spawned == osp.push(lv));
                        assert forall|k: int| 0 <= k < actions@.len() implies actions_view(
                            actions@,
                        )[k] == (seq![first] + spawn_actions(spawned))[k] by {
                            assert(actions_view(actions@)[k] == actions@[k]@);
                            if k < m {
                                assert(actions@[k] == oav[k]);
                                assert(actions_view(oav)[k] == oav[k]@);
                                if k >= 1 {
                                    assert(spawn_actions(osp)[k - 1] == GAction::Spawn {
                                        url: osp[k - 1],
                                    });
                                    assert(spawn_actions(spawned)[k - 1] == GAction::Spawn {
                                        url: spawned[k - 1],
                                    });
                                    assert(spawned[k - 1] == osp[k - 1]);
                                }
                            } else {
                                assert(k == m);
                                assert(actions@[k]@ == GAction::Spawn { url: lv });
                                assert((seq![first] + spawn_actions(spawned))[k]
                                    == spawn_actions(spawned)[k - 1]);
                                assert(spawn_actions(spawned)[k - 1] == GAction::Spawn {
                                    url: spawned[k - 1],
                                });
                                assert(spawned[k - 1] == lv);
                            }
                        }
                        assert(actions_view(actions@).len() == (seq![first] + spawn_actions(
                            spawned,
                        )).len());
                        assert(actions_view(actions@) =~= seq![first] + spawn_actions(spawned));
                    }
                } else {
                    proof {
                        assert(vc.insert(pc[0]) =~= vc);
                        assert(self.visited@ == vc);
                        assert(cur == admission(vc, pc.drop_first(), fc, lim));
                    }
                }
            }
            proof {
                let vc = self.visited@;
                let pc = self.pending.deep_view();
                let fc = self.in_flight.deep_view();
                assert(admission(vc, pc, fc, lim) == (AdmitResult {
                    visited: vc,
                    pending: pc,
                    in_flight: fc,
                    spawns: Seq::<Seq<char>>::empty(),
                }));
                assert(spawned + Seq::<Seq<char>>::empty() =~= spawned);
            }
        }
        proof {
            assert(self.visited@ == target.visited);
            assert(self.pending.deep_view() == target.pending);
            assert(self.in_flight.deep_view() == target.in_flight);
            assert(spawned == target.spawns);
        }

        // Quiescence: nothing in flight and (unless stopped) nothing
        // pending. Close the output.
        let quiescent = self.in_flight.len() == 0 && (self.pending.len() == 0 || self.stopped);
        self.done = quiescent;
        if quiescent {
            actions.push(CrawlAction::Close);
        }
        proof {
            assert(step.post.visited == target.visited);
            assert(step.post.pending == target.pending);
            assert(step.post.in_flight == target.in_flight);
            assert(step.post.done == quiescent);
            assert(self@ == step.post);
            assert(step.actions == seq![first] + spawn_actions(target.spawns) + if quiescent {
                seq![GAction::Close]
            } else {
                Seq::<GAction>::empty()
            });
            assert(actions_view(actions@) =~= step.actions);
        }
        actions
    }
}

/// Removing the first occurrence of `x`, when its index is `j` and nothing
/// before `j` equals `x`, is removal at `j`.
proof fn lemma_remove_first_at(s: Seq<Seq<char>>, x: Seq<char>, j: int)
    requires
        0 <= j < s.len(),
        s[j] == x,
        forall|k: int| 0 <= k < j ==> s[k] != x,
    ensures
        remove_first(s, x) == s.remove(j),
    decreases j,
{
    if j == 0 {
        assert(s.drop_first() =~= s.remove(0));
    } else {
        assert(s[0] != x);
        assert(forall|k: int| 0 <= k < j - 1 ==> s.drop_first()[k] == s[k + 1]);
        lemma_remove_first_at(s.drop_first(), x, j - 1);
        assert(seq![s[0]] + s.drop_first().remove(j - 1) =~= s.remove(j));
    }
}

} // verus!
