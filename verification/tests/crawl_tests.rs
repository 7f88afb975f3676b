use std::collections::VecDeque;

use webcrawl::crawl::{Config, CrawlAction, CrawlRun, Crawler, FetchError};

/// Drives a whole crawl against a fixed little web: each entry maps a URL
/// to the body its fetch returns, or to `None` for a fetch failure. The
/// host loop here plays the part of the network and of the consumer.
/// Returns the delivered pages, the failure events, and the run.
fn drive(
    seed: &str,
    limit: usize,
    site: &[(&str, Option<&str>)],
) -> (Vec<(String, String)>, Vec<String>, CrawlRun) {
    let crawler = Crawler::new(Config { concurrent_requests: Some(limit) });
    let mut run = crawler.start_crawl(seed.to_string());
    let mut queue: VecDeque<String> = VecDeque::new();
    queue.push_back(seed.to_string());
    let mut pages: Vec<(String, String)> = Vec::new();
    let mut failures: Vec<String> = Vec::new();
    let mut closed = false;
    let mut steps = 0;
    while let Some(url) = queue.pop_front() {
        steps += 1;
        assert!(steps <= 1000, "crawl did not reach quiescence");
        assert!(run.is_in_flight(&url));
        assert!(run.in_flight_count() <= limit);
        let outcome = match site.iter().find(|(u, _)| *u == url) {
            Some((_, Some(body))) => Ok(body.to_string()),
            _ => Err(FetchError { message: format!("no route to {url}") }),
        };
        for action in run.on_completion(url, outcome) {
            match action {
                CrawlAction::Emit { page } => pages.push((page.url, page.body)),
                CrawlAction::Fail { url, .. } => failures.push(url),
                CrawlAction::Spawn { url } => queue.push_back(url),
                CrawlAction::Close => closed = true,
            }
        }
        assert!(run.in_flight_count() <= limit);
    }
    assert!(closed, "the crawl ended without closing the result channel");
    assert!(run.is_done());
    (pages, failures, run)
}

#[test]
fn scenario_three_pages_with_back_edges() {
    // Seed a links to b and c; b links back to a and on to c; c links to
    // nothing. Exactly three pages, each once, despite the back-edge.
    let a = "http://a.example/";
    let b = "http://b.example/";
    let c = "http://c.example/";
    let body_a = "see http://b.example/ and http://c.example/ today";
    let body_b = "back to http://a.example/ then http://c.example/ again";
    let body_c = "nothing to follow here";
    let (pages, failures, _run) = drive(
        a,
        2,
        &[(a, Some(body_a)), (b, Some(body_b)), (c, Some(body_c))],
    );
    assert_eq!(failures.len(), 0);
    assert_eq!(pages.len(), 3);
    let mut urls: Vec<&str> = pages.iter().map(|(u, _)| u.as_str()).collect();
    urls.sort();
    assert_eq!(urls, vec![a, b, c]);
    let page_a = pages.iter().find(|(u, _)| u == a).unwrap();
    assert_eq!(page_a.1, body_a);
}

#[test]
fn failure_on_one_url_does_not_stop_the_rest() {
    // b's fetch fails; c is reachable straight from the seed and is still
    // fetched; the failure surfaces as a discrete event.
    let a = "http://a.example/";
    let b = "http://b.example/";
    let c = "http://c.example/";
    let body_a = "links: http://b.example/ http://c.example/";
    let body_c = "the end";
    let (pages, failures, _run) = drive(a, 2, &[(a, Some(body_a)), (c, Some(body_c))]);
    assert_eq!(failures, vec![b.to_string()]);
    let mut urls: Vec<&str> = pages.iter().map(|(u, _)| u.as_str()).collect();
    urls.sort();
    assert_eq!(urls, vec![a, c]);
}

#[test]
fn concurrency_limit_of_one_still_finishes() {
    let a = "http://a.example/";
    let b = "http://b.example/";
    let body_a = "one link http://b.example/ only";
    let body_b = "leaf";
    let (pages, failures, _run) = drive(a, 1, &[(a, Some(body_a)), (b, Some(body_b))]);
    assert_eq!(failures.len(), 0);
    assert_eq!(pages.len(), 2);
}

#[test]
fn page_without_links_closes_immediately() {
    let a = "http://a.example/";
    let (pages, failures, run) = drive(a, 3, &[(a, Some("plain text, no links"))]);
    assert_eq!(failures.len(), 0);
    assert_eq!(pages.len(), 1);
    assert_eq!(pages[0].0, a);
    assert!(run.is_done());
}

#[test]
fn stop_signal_prevents_new_fetches() {
    let a = "http://a.example/";
    let b = "http://b.example/";
    let crawler = Crawler::new(Config { concurrent_requests: Some(2) });
    let mut run = crawler.start_crawl(a.to_string());
    run.stop();
    assert!(run.is_in_flight(&a.to_string()));
    let actions = run.on_completion(
        a.to_string(),
        Ok(format!("would continue to {b} otherwise")),
    );
    // The page is still delivered, but nothing new is spawned and the
    // crawl closes at once.
    let mut saw_emit = false;
    let mut saw_close = false;
    for action in actions {
        match action {
            CrawlAction::Emit { page } => {
                saw_emit = true;
                assert_eq!(page.url, a);
            },
            CrawlAction::Spawn { .. } => panic!("spawned after stop"),
            CrawlAction::Fail { .. } => panic!("no failure was reported"),
            CrawlAction::Close => saw_close = true,
        }
    }
    assert!(saw_emit && saw_close);
    assert!(run.is_done());
}

#[test]
fn duplicate_discoveries_fetch_once() {
    // Both b and c link to d; d must be fetched exactly once.
    let a = "http://a.example/";
    let b = "http://b.example/";
    let c = "http://c.example/";
    let d = "http://d.example/";
    let body_a = "fan out http://b.example/ http://c.example/";
    let body_bc = "join at http://d.example/";
    let body_d = "sink";
    let (pages, failures, _run) = drive(
        a,
        4,
        &[(a, Some(body_a)), (b, Some(body_bc)), (c, Some(body_bc)), (d, Some(body_d))],
    );
    assert_eq!(failures.len(), 0);
    let d_pages = pages.iter().filter(|(u, _)| u == d).count();
    assert_eq!(d_pages, 1);
    assert_eq!(pages.len(), 4);
}

#[test]
fn default_config_crawls_with_limit_one() {
    let a = "http://a.example/";
    let crawler = Crawler::new(Config::default());
    let mut run = crawler.start_crawl(a.to_string());
    let actions = run.on_completion(a.to_string(), Ok("done".to_string()));
    assert_eq!(actions.len(), 2);
    assert!(matches!(actions[0], CrawlAction::Emit { .. }));
    assert!(matches!(actions[1], CrawlAction::Close));
}
