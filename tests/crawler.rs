use resonant_search::crawler::{
    contains_text, jittered_delay, normalize_url, rate_limit_delay, CrawlFrontier, FetchedPage,
    Link, RobotsCache,
};
use resonant_search::{default_limit, CrawlerError, SearchConfig, SearchQuery};

fn html_page(links: Vec<Link>) -> FetchedPage {
    FetchedPage {
        status: 200,
        content_type: "text/html; charset=utf-8".into(),
        title: Some("Title".into()),
        text: "body text".into(),
        robots_meta: vec![],
        links,
    }
}

fn link(href: &str, rel: Option<&str>) -> Link {
    Link { href: href.into(), rel: rel.map(|r| r.to_string()) }
}

#[test]
fn normalization_drops_fragments() {
    assert_eq!(normalize_url("http://a.example/x#top"), "http://a.example/x");
    assert_eq!(normalize_url("http://a.example/x#end"), normalize_url("http://a.example/x#top"));
}

#[test]
fn normalization_drops_default_ports() {
    assert_eq!(normalize_url("http://a.example:80/x"), "http://a.example/x");
    assert_eq!(normalize_url("https://a.example:443/x?q=1"), "https://a.example/x?q=1");
    assert_eq!(normalize_url("https://a.example:80/x"), "https://a.example:80/x");
    assert_eq!(normalize_url("http://a.example:8080/x"), "http://a.example:8080/x");
}

#[test]
fn normalization_gives_an_empty_path_a_slash() {
    assert_eq!(normalize_url("http://a.example"), "http://a.example/");
    assert_eq!(normalize_url("https://a.example:443?x=1#f"), "https://a.example/?x=1");
    assert_eq!(normalize_url("ftp://a.example#f"), "ftp://a.example");
}

#[test]
fn substring_search() {
    assert!(contains_text("text/html; charset=utf-8", "text/html"));
    assert!(!contains_text("application/json", "text/html"));
    assert!(contains_text("abc", ""));
    assert!(!contains_text("ab", "abc"));
}

#[test]
fn jitter_stays_within_a_fifth() {
    assert_eq!(jittered_delay(500, 0), 400);
    assert_eq!(jittered_delay(500, 400), 600);
    assert_eq!(jittered_delay(500, 200), 500);
    for _ in 0..50 {
        let d = rate_limit_delay(500);
        assert!((400..=600).contains(&d));
    }
}

#[test]
fn frontier_visits_each_url_once() {
    let seeds = vec!["http://a.example/".to_string(), "http://a.example/".to_string(), "http://b.example/p".to_string()];
    let mut f = CrawlFrontier::new(seeds);
    let j = f.next_job().unwrap();
    assert_eq!(j.url, "http://a.example/");
    assert_eq!(j.host, "a.example");
    assert_eq!(j.path, "/");
    assert_eq!(j.depth, 0);
    let j = f.next_job().unwrap();
    assert_eq!(j.url, "http://b.example/p");
    assert!(f.next_job().is_none());
    assert!(f.is_idle());
}

#[test]
fn fragment_variants_are_crawled_once() {
    let mut f = CrawlFrontier::new(vec!["http://a.example/".to_string()]);
    let j = f.next_job().unwrap();
    let c = f.clear_job(j, None, "bot").unwrap();
    let page = html_page(vec![link("/x#one", None), link("/x#two", None), link("http://a.example:80/#top", None)]);
    f.record_page(c, page).unwrap();
    let j = f.next_job().unwrap();
    assert_eq!(j.url, "http://a.example/x");
    assert_eq!(j.depth, 1);
    // the second variant and the seed itself are passed over
    assert!(f.next_job().is_none());
}

#[test]
fn unparseable_and_foreign_urls_are_skipped() {
    let mut f = CrawlFrontier::new(vec!["not a url".to_string(), "http://b.example/".to_string(), "http://a.example/".to_string()]);
    f.set_allowed_domains(vec!["a.example".to_string()]);
    let j = f.next_job().unwrap();
    assert_eq!(j.host, "a.example");
    assert!(f.next_job().is_none());
}

#[test]
fn robots_disallowing_everything_blocks_the_host() {
    let mut f = CrawlFrontier::new(vec!["http://a.example/page".to_string(), "http://a.example/other".to_string()]);
    let robots = "User-agent: *\nDisallow: /\n";
    let mut emitted = 0;
    while let Some(j) = f.next_job() {
        if let Some(c) = f.clear_job(j, Some(robots), "resonant") {
            if f.record_page(c, html_page(vec![])).is_some() {
                emitted += 1;
            }
        }
    }
    assert_eq!(emitted, 0);
    assert_eq!(f.crawled_count(), 0);
}

#[test]
fn robots_rules_apply_per_path() {
    let mut f = CrawlFrontier::new(vec!["http://a.example/private/x".to_string(), "http://a.example/public".to_string()]);
    let robots = "User-agent: *\nDisallow: /private/\n";
    let j = f.next_job().unwrap();
    assert!(f.clear_job(j, Some(robots), "bot").is_none());
    let j = f.next_job().unwrap();
    assert!(f.clear_job(j, Some(robots), "bot").is_some());
    let j2 = CrawlFrontier::new(vec!["http://c.example/".to_string()]).next_job().unwrap();
    assert!(f.clear_job(j2, Some(""), "bot").is_some());
}

#[test]
fn pages_that_are_not_html_or_not_ok_are_skipped() {
    let mut f = CrawlFrontier::new(vec!["http://a.example/".to_string(), "http://a.example/b".to_string(), "http://a.example/c".to_string()]);
    let j = f.next_job().unwrap();
    let c = f.clear_job(j, None, "bot").unwrap();
    let mut p = html_page(vec![link("/z", None)]);
    p.status = 404;
    assert!(f.record_page(c, p).is_none());
    let j = f.next_job().unwrap();
    let c = f.clear_job(j, None, "bot").unwrap();
    let mut p = html_page(vec![link("/z", None)]);
    p.content_type = "application/pdf".into();
    assert!(f.record_page(c, p).is_none());
    let j = f.next_job().unwrap();
    let c = f.clear_job(j, None, "bot").unwrap();
    let mut p = html_page(vec![link("/z", None)]);
    p.robots_meta = vec!["noindex, nofollow".into()];
    assert!(f.record_page(c, p).is_none());
    assert_eq!(f.crawled_count(), 0);
    assert!(f.next_job().is_none());
}

#[test]
fn noindex_is_ignored_when_switched_off() {
    let mut f = CrawlFrontier::new(vec!["http://a.example/".to_string()]);
    f.configure(100, 3, false, true, 250);
    assert_eq!(f.crawl_delay(), 250);
    let j = f.next_job().unwrap();
    let c = f.clear_job(j, None, "bot").unwrap();
    let mut p = html_page(vec![]);
    p.robots_meta = vec!["noindex".into()];
    p.title = None;
    let d = f.record_page(c, p).unwrap();
    assert_eq!(d.title, "http://a.example/");
    assert_eq!(d.text, "body text");
    assert_eq!(f.crawled_count(), 1);
}

#[test]
fn nofollow_links_and_depth_limit() {
    let mut f = CrawlFrontier::new(vec!["http://a.example/".to_string()]);
    f.configure(100, 1, true, true, 500);
    let j = f.next_job().unwrap();
    let c = f.clear_job(j, None, "bot").unwrap();
    let page = html_page(vec![link("/skip", Some("nofollow")), link("/keep", Some("external"))]);
    f.record_page(c, page).unwrap();
    let j = f.next_job().unwrap();
    assert_eq!(j.url, "http://a.example/keep");
    assert_eq!(j.depth, 1);
    assert!(f.next_job().is_none());
    let c = f.clear_job(j, None, "bot").unwrap();
    // at the depth limit, links are not followed
    f.record_page(c, html_page(vec![link("/deeper", None)])).unwrap();
    assert!(f.next_job().is_none());
}

#[test]
fn page_budget_stops_the_crawl() {
    let mut f = CrawlFrontier::new(vec!["http://a.example/".to_string(), "http://a.example/2".to_string()]);
    f.configure(1, 3, true, true, 500);
    assert!(!f.should_stop());
    let j = f.next_job().unwrap();
    let c = f.clear_job(j, None, "bot").unwrap();
    f.record_page(c, html_page(vec![])).unwrap();
    assert!(f.should_stop());
}

#[test]
fn robots_cache_expires_after_a_day() {
    let mut cache = RobotsCache::new();
    assert_eq!(cache.lookup("a.example", 0), None);
    cache.store("a.example".into(), "User-agent: *".into(), 1000);
    assert_eq!(cache.lookup("a.example", 1000).as_deref(), Some("User-agent: *"));
    assert_eq!(cache.lookup("a.example", 1000 + 86399).as_deref(), Some("User-agent: *"));
    assert_eq!(cache.lookup("a.example", 1000 + 86400), None);
    assert_eq!(cache.lookup("b.example", 1000), None);
}

#[test]
fn search_request_defaults() {
    assert_eq!(default_limit(), 10);
    let c = SearchConfig::default();
    assert_eq!(c.limit, 10);
    assert!(c.use_quantum && c.use_persistence && c.hybrid_search);
    let q = SearchQuery::new("rust".into());
    assert_eq!(q.q, "rust");
    assert_eq!(q.limit, 10);
}

#[test]
fn crawler_error_text() {
    let e = CrawlerError::new("timeout".into());
    assert_eq!(e.message(), "timeout");
    assert_eq!(e.to_string(), "Crawler error: timeout");
}

#[test]
fn seeds_are_normalized_and_fragment_variants_fetched_once() {
    let seeds = vec![
        "HTTP://A.example:80".to_string(),
        "http://a.example/#top".to_string(),
        "not a url".to_string(),
    ];
    let mut f = CrawlFrontier::new(seeds);
    let j = f.next_job().unwrap();
    assert_eq!(j.url, "http://a.example/");
    let c = f.clear_job(j, None, "bot").unwrap();
    let d = f.record_page(c, html_page(vec![])).unwrap();
    assert_eq!(d.url, "http://a.example/");
    assert!(f.next_job().is_none());
}

#[test]
fn added_seeds_join_the_back_of_the_queue() {
    let mut f = CrawlFrontier::new(vec![]);
    f.add_seed("https://b.example/x#frag".to_string());
    f.add_seed("::".to_string());
    let j = f.next_job().unwrap();
    assert_eq!(j.url, "https://b.example/x");
    assert!(f.next_job().is_none());
}

#[test]
fn search_config_weights() {
    let mut c = SearchConfig::default();
    assert_eq!(c.weights(), (50, 25, 25));
    c.use_persistence = false;
    assert_eq!(c.weights(), (70, 30, 0));
}

#[test]
fn disallow_all_without_final_line_break() {
    let mut f = CrawlFrontier::new(vec!["http://a.example/page".to_string()]);
    let j = f.next_job().unwrap();
    assert!(f.clear_job(j, Some("User-agent: *\nDisallow: /"), "bot").is_none());
    let mut f = CrawlFrontier::new(vec!["http://a.example/page".to_string()]);
    let j = f.next_job().unwrap();
    assert!(f.clear_job(j, Some("User-agent: *\r\nDisallow: /\r\n"), "bot").is_none());
}
