use repo_crawler::config::labels;
use repo_crawler::config::LABELS;
use repo_crawler::config::MIN_NUM_ISSUES;
use repo_crawler::labels::IssueLabel;
use repo_crawler::record::is_countable;
use repo_crawler::record::normalize;
use repo_crawler::record::Connection;
use repo_crawler::record::Owner;
use repo_crawler::record::RawIssue;
use repo_crawler::record::RawIssues;
use repo_crawler::record::RawRepository;
use repo_crawler::record::Rejection;
use repo_crawler::record::Repositories;
use repo_crawler::record::SearchNode;
use repo_crawler::repository::Topic;

fn norm_issue(labels: &[(&str, &str)]) -> Option<RawIssue> {
    Some(RawIssue {
        labels: Some(Connection {
            nodes: Some(
                labels
                    .iter()
                    .map(|(n, c)| Some(IssueLabel { name: String::from(*n), color: String::from(*c) }))
                    .collect(),
            ),
        }),
    })
}

fn norm_raw(total_issues: i64) -> RawRepository {
    RawRepository {
        name_with_owner: String::from("octo/cat"),
        url: String::from("https://github.com/octo/cat"),
        description: Some(String::from("A cat")),
        homepage_url: Some(String::from("https://cat.example")),
        owner: Owner::User { avatar_url: String::from("https://avatar/user") },
        fork_count: 3,
        issues: RawIssues {
            total_count: total_issues,
            nodes: Some(vec![
                norm_issue(&[("help wanted", "aaa"), ("bug", "bbb")]),
                norm_issue(&[("good first issue", "ccc"), ("help wanted", "ddd")]),
                norm_issue(&[]),
            ]),
        },
        pull_requests: 4,
        stargazers: 500,
        repository_topics: Connection {
            nodes: Some(vec![
                Some(Topic { name: String::from("pets"), url: String::from("https://t/pets") }),
                Some(Topic { name: String::from("cats"), url: String::from("https://t/cats") }),
            ]),
        },
        languages: Some(Connection { nodes: Some(vec![Some(String::from("Rust")), Some(String::from("C"))]) }),
    }
}

fn norm_hit(raw: RawRepository) -> Option<SearchNode> {
    Some(SearchNode::Repository(raw))
}

#[test]
fn the_vocabulary_has_its_terms_in_order() {
    let v = labels();
    assert_eq!(v.len(), 27);
    assert_eq!(v[0], "help wanted");
    assert_eq!(v[8], "E-easy");
    assert_eq!(v[26], "D - easy");
    for (i, term) in LABELS.iter().enumerate() {
        assert_eq!(v[i], *term);
    }
}

#[test]
fn a_missing_hit_is_dropped_as_empty() {
    let r = normalize(&None, &labels(), MIN_NUM_ISSUES);
    assert_eq!(r.err(), Some(Rejection::Empty));
    assert!(Repositories::parse_repository(None).is_none());
}

#[test]
fn a_hit_that_is_no_repository_is_dropped() {
    let r = normalize(&Some(SearchNode::Other), &labels(), MIN_NUM_ISSUES);
    assert_eq!(r.err(), Some(Rejection::NotRepository));
    assert!(Repositories::parse_repository(Some(SearchNode::Other)).is_none());
}

#[test]
fn too_few_issues_are_dropped() {
    let r = normalize(&norm_hit(norm_raw(9)), &labels(), MIN_NUM_ISSUES);
    assert_eq!(r.err(), Some(Rejection::TooFewIssues));
    assert!(Repositories::parse_repository(norm_hit(norm_raw(9))).is_none());
    assert!(Repositories::parse_repository(norm_hit(norm_raw(-1))).is_none());
    assert!(Repositories::parse_repository(norm_hit(norm_raw(10))).is_some());
    assert!(normalize(&norm_hit(norm_raw(9)), &labels(), 9).is_ok());
    assert!(normalize(&norm_hit(norm_raw(0)), &labels(), 0).is_ok());
}

#[test]
fn a_well_formed_repository_is_taken_over() {
    let repo = Repositories::parse_repository(norm_hit(norm_raw(25))).expect("it is kept");
    assert_eq!(repo.name_with_owner, "octo/cat");
    assert_eq!(repo.url, "https://github.com/octo/cat");
    assert_eq!(repo.description, "A cat");
    assert_eq!(repo.homepage_url, "https://cat.example");
    assert_eq!(repo.avatar_url, "https://avatar/user");
    assert_eq!(repo.num_forks, 3);
    assert_eq!(repo.num_issues, 25);
    assert_eq!(repo.num_pull_requests, 4);
    assert_eq!(repo.num_stars, 500);
    assert_eq!(repo.languages, vec![String::from("Rust"), String::from("C")]);
    assert!(repo.issues.is_empty());
    assert_eq!(repo.topics.len(), 2);
    assert_eq!(repo.topics[0].name, "pets");
    assert_eq!(repo.topics[0].url, "https://t/pets");
    assert_eq!(repo.topics[1].name, "cats");
    assert_eq!(repo.topics[1].url, "https://t/cats");
    assert_eq!(repo.labels.len(), 2);
    assert_eq!(repo.labels[0].name, "help wanted");
    assert_eq!(repo.labels[0].count, 2);
    assert_eq!(repo.labels[0].color, "ddd");
    assert_eq!(repo.labels[1].name, "good first issue");
    assert_eq!(repo.labels[1].count, 1);
    assert_eq!(repo.labels[1].color, "ccc");
}

#[test]
fn an_organization_has_an_avatar_too() {
    let mut raw = norm_raw(10);
    raw.owner = Owner::Organization { avatar_url: String::from("https://avatar/org") };
    let repo = Repositories::parse_repository(norm_hit(raw)).expect("it is kept");
    assert_eq!(repo.avatar_url, "https://avatar/org");
}

#[test]
fn absent_lists_count_as_empty() {
    let mut raw = norm_raw(10);
    raw.homepage_url = None;
    raw.issues.nodes = None;
    raw.repository_topics.nodes = None;
    raw.languages = Some(Connection { nodes: None });
    let repo = Repositories::parse_repository(norm_hit(raw)).expect("it is kept");
    assert_eq!(repo.homepage_url, "");
    assert!(repo.labels.is_empty());
    assert!(repo.topics.is_empty());
    assert!(repo.languages.is_empty());
    assert_eq!(repo.num_issues, 10);

    let mut raw = norm_raw(10);
    raw.issues.nodes = Some(vec![Some(RawIssue { labels: Some(Connection { nodes: None }) })]);
    let repo = Repositories::parse_repository(norm_hit(raw)).expect("it is kept");
    assert!(repo.labels.is_empty());
}

#[test]
fn whatever_must_be_there_and_is_not_makes_the_hit_malformed() {
    let mut raw = norm_raw(50);
    raw.description = None;
    assert_eq!(normalize(&norm_hit(raw), &labels(), MIN_NUM_ISSUES).err(), Some(Rejection::Malformed));

    let mut raw = norm_raw(50);
    raw.languages = None;
    assert_eq!(normalize(&norm_hit(raw), &labels(), MIN_NUM_ISSUES).err(), Some(Rejection::Malformed));

    let mut raw = norm_raw(50);
    raw.languages = Some(Connection { nodes: Some(vec![Some(String::from("Rust")), None]) });
    assert_eq!(normalize(&norm_hit(raw), &labels(), MIN_NUM_ISSUES).err(), Some(Rejection::Malformed));

    let mut raw = norm_raw(50);
    raw.issues.nodes = Some(vec![norm_issue(&[]), None]);
    assert_eq!(normalize(&norm_hit(raw), &labels(), MIN_NUM_ISSUES).err(), Some(Rejection::Malformed));

    let mut raw = norm_raw(50);
    raw.issues.nodes = Some(vec![Some(RawIssue { labels: None })]);
    assert_eq!(normalize(&norm_hit(raw), &labels(), MIN_NUM_ISSUES).err(), Some(Rejection::Malformed));

    let mut raw = norm_raw(50);
    raw.issues.nodes = Some(vec![Some(RawIssue {
        labels: Some(Connection {
            nodes: Some(vec![None, Some(IssueLabel { name: String::from("easy"), color: String::new() })]),
        }),
    })]);
    assert_eq!(normalize(&norm_hit(raw), &labels(), MIN_NUM_ISSUES).err(), Some(Rejection::Malformed));

    let mut raw = norm_raw(50);
    raw.repository_topics.nodes = Some(vec![None]);
    assert_eq!(normalize(&norm_hit(raw), &labels(), MIN_NUM_ISSUES).err(), Some(Rejection::Malformed));
    let mut raw = norm_raw(50);
    raw.repository_topics.nodes = Some(vec![None]);
    assert!(Repositories::parse_repository(norm_hit(raw)).is_none());
}

#[test]
fn a_malformed_hit_with_too_few_issues_is_malformed() {
    let mut raw = norm_raw(1);
    raw.description = None;
    assert_eq!(normalize(&norm_hit(raw), &labels(), MIN_NUM_ISSUES).err(), Some(Rejection::Malformed));
}

#[test]
fn the_vocabulary_is_a_parameter() {
    let own = vec![String::from("bug")];
    let repo = normalize(&norm_hit(norm_raw(10)), &own, 10).expect("it is kept");
    assert_eq!(repo.labels.len(), 1);
    assert_eq!(repo.labels[0].name, "bug");
    assert_eq!(repo.labels[0].count, 1);
    assert_eq!(repo.labels[0].color, "bbb");
}

#[test]
fn labels_that_fit_in_memory_can_be_counted() {
    assert!(is_countable(&norm_raw(10)));
    let mut raw = norm_raw(10);
    raw.issues.nodes = None;
    assert!(is_countable(&raw));
    let mut raw = norm_raw(10);
    raw.issues.nodes = Some(vec![None, Some(RawIssue { labels: None })]);
    assert!(is_countable(&raw));
}
