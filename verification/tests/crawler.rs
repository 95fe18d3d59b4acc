use repo_crawler::config::labels;
use repo_crawler::config::AVATAR_SIZE;
use repo_crawler::config::NUM_LANGUAGES;
use repo_crawler::config::NUM_REPOSITORIES;
use repo_crawler::config::NUM_REPOSITORIES_PER_REQUEST;
use repo_crawler::config::NUM_RETRIES;
use repo_crawler::crawl::get_all_repositories;
use repo_crawler::crawl::get_repositories;
use repo_crawler::crawl::on_response;
use repo_crawler::crawl::outcome_is_countable;
use repo_crawler::crawl::CrawlStatus;
use repo_crawler::crawl::PageError;
use repo_crawler::crawl::ResponseData;
use repo_crawler::crawl::SearchObject;
use repo_crawler::crawl::Variables;
use repo_crawler::record::Connection;
use repo_crawler::record::Owner;
use repo_crawler::record::RawIssues;
use repo_crawler::record::RawRepository;
use repo_crawler::record::Repositories;
use repo_crawler::record::SearchNode;
use repo_crawler::repository::Language;
use std::cell::Cell;
use std::cell::RefCell;

fn crawl_raw(name: &str, total_issues: i64) -> Option<SearchNode> {
    Some(SearchNode::Repository(RawRepository {
        name_with_owner: String::from(name),
        url: format!("https://github.com/{}", name),
        description: Some(String::from("d")),
        homepage_url: None,
        owner: Owner::Organization { avatar_url: String::from("a") },
        fork_count: 1,
        issues: RawIssues { total_count: total_issues, nodes: None },
        pull_requests: 2,
        stargazers: 3,
        repository_topics: Connection { nodes: None },
        languages: Some(Connection { nodes: None }),
    }))
}

fn crawl_page(prefix: &str, good: usize, cursor: Option<&str>) -> ResponseData {
    let mut nodes: Vec<Option<SearchNode>> = vec![];
    for i in 0..good {
        nodes.push(crawl_raw(&format!("{}/{}", prefix, i), 10 + i as i64));
    }
    ResponseData { end_cursor: cursor.map(String::from), nodes: Some(nodes) }
}

fn crawl_subject(name: &str, term: &str) -> Language {
    Language { name: String::from(name), search_term: String::from(term), repositories: vec![] }
}

fn crawl_names(language: &Language) -> Vec<String> {
    language.repositories.iter().map(|r| r.name_with_owner.clone()).collect()
}

#[test]
fn the_query_names_the_language_and_the_fixed_settings() {
    let v = Repositories::create_query(50, "rust", Some(String::from("abc")));
    assert_eq!(v.num_results, 50);
    assert_eq!(v.query, "language:rust stars:>=500 is:public archived:false");
    assert_eq!(v.cursor, Some(String::from("abc")));
    assert_eq!(v.labels, labels());
    assert_eq!(v.num_languages, NUM_LANGUAGES);
    assert_eq!(v.avatar_size, AVATAR_SIZE);
    let v = Repositories::create_query(7, "", None);
    assert_eq!(v.num_results, 7);
    assert_eq!(v.query, "language: stars:>=500 is:public archived:false");
    assert_eq!(v.cursor, None);
}

#[test]
fn a_new_crawl_holds_nothing() {
    let s = SearchObject::new(String::from("go"));
    assert_eq!(s.language, "go");
    assert!(s.repositories.is_empty());
    assert_eq!(s.cursor, None);
    assert_eq!(s.backoff, 0);
    assert_eq!(s.status(0), CrawlStatus::Running);
    let q = s.next_query();
    assert_eq!(q.num_results, NUM_REPOSITORIES_PER_REQUEST);
    assert_eq!(q.query, "language:go stars:>=500 is:public archived:false");
    assert_eq!(q.cursor, None);
}

#[test]
fn the_status_follows_what_is_held_and_the_attempts() {
    let mut s = SearchObject::new(String::from("go"));
    assert_eq!(s.status(NUM_RETRIES - 1), CrawlStatus::Running);
    assert_eq!(s.status(NUM_RETRIES), CrawlStatus::Exhausted);
    assert_eq!(s.status(NUM_RETRIES + 5), CrawlStatus::Exhausted);
    get_repositories(&mut s, Ok(crawl_page("a", NUM_REPOSITORIES - 1, None)));
    assert_eq!(s.status(1), CrawlStatus::Running);
    assert_eq!(s.status(NUM_RETRIES), CrawlStatus::Exhausted);
    get_repositories(&mut s, Ok(crawl_page("b", 1, None)));
    assert_eq!(s.status(2), CrawlStatus::Succeeded);
    assert_eq!(s.status(NUM_RETRIES), CrawlStatus::Succeeded);
}

#[test]
fn only_the_rate_limit_raises_the_delay() {
    let mut s = SearchObject::new(String::from("go"));
    get_repositories(&mut s, Ok(crawl_page("a", 2, Some("c1"))));
    assert_eq!(s.backoff, 0);
    get_repositories(&mut s, Err(PageError::NonSuccessStatus(403)));
    assert_eq!(s.backoff, 1);
    get_repositories(&mut s, Err(PageError::NonSuccessStatus(500)));
    get_repositories(&mut s, Err(PageError::NonSuccessStatus(404)));
    get_repositories(&mut s, Err(PageError::NonSuccessStatus(200)));
    get_repositories(&mut s, Err(PageError::Transport));
    get_repositories(&mut s, Err(PageError::MalformedPayload));
    get_repositories(&mut s, Err(PageError::NoData));
    assert_eq!(s.backoff, 1);
    get_repositories(&mut s, Err(PageError::NonSuccessStatus(403)));
    get_repositories(&mut s, Err(PageError::NonSuccessStatus(403)));
    assert_eq!(s.backoff, 3);
    get_repositories(&mut s, Ok(crawl_page("b", 1, Some("c2"))));
    assert_eq!(s.backoff, 3);
    assert_eq!(s.repositories.len(), 3);
    assert_eq!(s.cursor, Some(String::from("c2")));
    assert_eq!(s.language, "go");
}

#[test]
fn a_failure_leaves_cursor_and_repositories_alone() {
    let mut s = SearchObject::new(String::from("go"));
    get_repositories(&mut s, Ok(crawl_page("a", 2, Some("c1"))));
    let failures = [
        PageError::Transport,
        PageError::NonSuccessStatus(403),
        PageError::NonSuccessStatus(502),
        PageError::MalformedPayload,
        PageError::NoData,
    ];
    for f in failures.iter() {
        get_repositories(&mut s, Err(*f));
        assert_eq!(s.cursor, Some(String::from("c1")));
        assert_eq!(s.repositories.len(), 2);
        assert_eq!(s.repositories[0].name_with_owner, "a/0");
        assert_eq!(s.repositories[1].name_with_owner, "a/1");
    }
}

#[test]
fn a_page_moves_the_cursor_and_adds_what_is_kept() {
    let mut s = SearchObject::new(String::from("go"));
    let page = ResponseData {
        end_cursor: Some(String::from("next")),
        nodes: Some(vec![
            crawl_raw("keep/1", 10),
            None,
            crawl_raw("drop/few", 9),
            Some(SearchNode::Other),
            crawl_raw("keep/2", 11),
        ]),
    };
    Repositories::parse_response(page, &mut s);
    assert_eq!(s.cursor, Some(String::from("next")));
    let kept: Vec<&str> = s.repositories.iter().map(|r| r.name_with_owner.as_str()).collect();
    assert_eq!(kept, vec!["keep/1", "keep/2"]);
    for r in s.repositories.iter() {
        assert!(r.num_issues >= 10);
    }
    // A page without a cursor and without hits: the cursor is gone, the rest stays.
    Repositories::parse_response(ResponseData { end_cursor: None, nodes: None }, &mut s);
    assert_eq!(s.cursor, None);
    assert_eq!(s.repositories.len(), 2);
}

#[test]
fn a_source_that_is_always_rate_limited_exhausts_the_crawl() {
    let calls = Cell::new(0i64);
    let levels: RefCell<Vec<u64>> = RefCell::new(vec![]);
    let cursors: RefCell<Vec<Option<String>>> = RefCell::new(vec![]);
    let out = get_all_repositories(crawl_subject("Rust", "rust"), |v: Variables, level: u64| {
        calls.set(calls.get() + 1);
        levels.borrow_mut().push(level);
        cursors.borrow_mut().push(v.cursor);
        Err(PageError::NonSuccessStatus(403))
    });
    assert_eq!(calls.get(), NUM_RETRIES);
    assert_eq!(NUM_RETRIES, 100);
    assert!(out.repositories.is_empty());
    assert_eq!(out.name, "Rust");
    assert_eq!(out.search_term, "rust");
    let expected: Vec<u64> = (0..NUM_RETRIES as u64).collect();
    assert_eq!(*levels.borrow(), expected);
    assert!(cursors.borrow().iter().all(|c| c.is_none()));
}

#[test]
fn failures_of_any_kind_exhaust_the_crawl() {
    let calls = Cell::new(0i64);
    let out = get_all_repositories(crawl_subject("Go", "go"), |_v: Variables, level: u64| {
        calls.set(calls.get() + 1);
        assert_eq!(level, 0);
        match calls.get() % 3 {
            0 => Err(PageError::Transport),
            1 => Err(PageError::NoData),
            _ => Err(PageError::MalformedPayload),
        }
    });
    assert_eq!(calls.get(), NUM_RETRIES);
    assert!(out.repositories.is_empty());
}

#[test]
fn two_pages_beyond_the_target_succeed_and_keep_everything() {
    assert_eq!(NUM_REPOSITORIES, 20);
    let calls = Cell::new(0usize);
    let seen: RefCell<Vec<Variables>> = RefCell::new(vec![]);
    let out = get_all_repositories(crawl_subject("Rust", "rust"), |v: Variables, level: u64| {
        calls.set(calls.get() + 1);
        seen.borrow_mut().push(v);
        assert_eq!(level, 0);
        if calls.get() == 1 {
            Ok(crawl_page("first", 12, Some("cursor-1")))
        } else {
            Ok(crawl_page("second", NUM_REPOSITORIES + 3 - 12, Some("cursor-2")))
        }
    });
    assert_eq!(calls.get(), 2);
    assert_eq!(out.repositories.len(), NUM_REPOSITORIES + 3);
    let mut expected: Vec<String> = vec![];
    for i in 0..12 {
        expected.push(format!("first/{}", i));
    }
    for i in 0..(NUM_REPOSITORIES + 3 - 12) {
        expected.push(format!("second/{}", i));
    }
    assert_eq!(crawl_names(&out), expected);
    let seen = seen.borrow();
    assert_eq!(seen[0].cursor, None);
    assert_eq!(seen[1].cursor, Some(String::from("cursor-1")));
    assert_eq!(seen[0].query, "language:rust stars:>=500 is:public archived:false");
    assert_eq!(seen[1].num_results, NUM_REPOSITORIES_PER_REQUEST);
}

#[test]
fn the_crawl_stops_as_soon_as_the_target_is_reached() {
    let calls = Cell::new(0usize);
    let out = get_all_repositories(crawl_subject("C", "c"), |_v: Variables, _level: u64| {
        calls.set(calls.get() + 1);
        Ok(crawl_page(&format!("p{}", calls.get()), NUM_REPOSITORIES, None))
    });
    assert_eq!(calls.get(), 1);
    assert_eq!(out.repositories.len(), NUM_REPOSITORIES);
}

#[test]
fn a_crawl_recovers_from_failures_between_pages() {
    let calls = Cell::new(0usize);
    let levels: RefCell<Vec<u64>> = RefCell::new(vec![]);
    let cursors: RefCell<Vec<Option<String>>> = RefCell::new(vec![]);
    let out = get_all_repositories(crawl_subject("C", "c"), |v: Variables, level: u64| {
        calls.set(calls.get() + 1);
        levels.borrow_mut().push(level);
        cursors.borrow_mut().push(v.cursor);
        match calls.get() {
            1 => Err(PageError::NonSuccessStatus(403)),
            2 => Ok(crawl_page("a", 15, Some("x"))),
            3 => Err(PageError::NoData),
            4 => Err(PageError::NonSuccessStatus(403)),
            _ => Ok(crawl_page("b", 5, Some("y"))),
        }
    });
    assert_eq!(calls.get(), 5);
    assert_eq!(out.repositories.len(), 20);
    assert_eq!(*levels.borrow(), vec![0, 1, 1, 1, 2]);
    let x = Some(String::from("x"));
    assert_eq!(*cursors.borrow(), vec![None, None, x.clone(), x.clone(), x]);
}

#[test]
fn what_was_collected_before_the_budget_ran_out_is_kept() {
    let calls = Cell::new(0i64);
    let mut given = crawl_subject("Zig", "zig");
    given.repositories = vec![];
    let out = get_all_repositories(given, |_v: Variables, _level: u64| {
        calls.set(calls.get() + 1);
        if calls.get() == 50 {
            Ok(crawl_page("only", 3, None))
        } else {
            Ok(ResponseData { end_cursor: None, nodes: Some(vec![crawl_raw("few", 1), None]) })
        }
    });
    assert_eq!(calls.get(), NUM_RETRIES);
    assert_eq!(crawl_names(&out), vec!["only/0", "only/1", "only/2"]);
}

#[test]
fn pages_that_fit_in_memory_can_be_counted() {
    assert!(outcome_is_countable(&Ok(crawl_page("a", 3, None))));
    assert!(outcome_is_countable(&Ok(ResponseData { end_cursor: None, nodes: None })));
    assert!(outcome_is_countable(&Err(PageError::Transport)));
}

#[test]
fn the_backoff_rises_on_the_rate_limit_alone() {
    assert_eq!(on_response(0, 403), 1);
    assert_eq!(on_response(7, 403), 8);
    let mut level = 0u64;
    let statuses = [200u16, 403, 500, 403, 403, 404, 429, 0, 403];
    let mut seen = vec![];
    for status in statuses.iter() {
        let next = on_response(level, *status);
        assert!(next >= level);
        level = next;
        seen.push(level);
    }
    assert_eq!(seen, vec![0, 1, 1, 2, 3, 3, 3, 3, 4]);
}
