//! Turns one raw search hit into a repository, or says why it is dropped.
//!
//! A raw hit mirrors what the search service sends: almost everything in it
//! may be absent. A list that is absent counts as empty. An absent entry in
//! a list, an absent description, an absent list of languages and an absent
//! list of labels on an issue make the hit malformed.
use crate::config::labels;
use crate::config::vocabulary;
use crate::config::MIN_NUM_ISSUES;
use crate::labels::aggregate;
use crate::labels::aggregated;
use crate::labels::all_counted;
use crate::labels::all_named_in;
use crate::labels::descending;
use crate::labels::flat;
use crate::labels::in_rank_order;
use crate::labels::lemma_aggregated;
use crate::labels::lemma_flat_take;
use crate::labels::names_differ;
use crate::labels::IssueLabel;
use crate::labels::IssueLabelView;
use crate::repository::Repository;
use crate::repository::RepositoryView;
use crate::repository::Topic;
use crate::repository::TopicView;
use vstd::prelude::*;

verus! {

/// A list as the search service sends it: the list itself and each of its
/// entries may be absent.
#[derive(Debug, Clone)]
pub struct Connection<T> {
    pub nodes: Option<Vec<Option<T>>>,
}

/// Who owns a repository. Both kinds of owner have an avatar.
#[derive(Debug, Clone)]
pub enum Owner {
    User { avatar_url: String },
    Organization { avatar_url: String },
}

/// One issue of a repository: the labels on it.
#[derive(Debug, Clone)]
pub struct RawIssue {
    pub labels: Option<Connection<IssueLabel>>,
}

/// The issues of a repository: how many there are, and those that were sent.
#[derive(Debug, Clone)]
pub struct RawIssues {
    pub total_count: i64,
    pub nodes: Option<Vec<Option<RawIssue>>>,
}

/// A repository as the search service sends it.
#[derive(Debug, Clone)]
pub struct RawRepository {
    pub name_with_owner: String,
    pub url: String,
    pub description: Option<String>,
    pub homepage_url: Option<String>,
    pub owner: Owner,
    pub fork_count: i64,
    pub issues: RawIssues,
    pub pull_requests: i64,
    pub stargazers: i64,
    pub repository_topics: Connection<Topic>,
    pub languages: Option<Connection<String>>,
}

/// One hit of a search: a repository, or something else.
#[derive(Debug, Clone)]
pub enum SearchNode {
    Repository(RawRepository),
    Other,
}

/// Why a hit is dropped.
#[derive(Debug, Clone, Copy, PartialEq, Eq, Structural)]
pub enum Rejection {
    /// There is no hit.
    Empty,
    /// The hit is not a repository.
    NotRepository,
    /// Something that a repository must have is absent.
    Malformed,
    /// The repository has fewer issues than are asked for.
    TooFewIssues,
}

/// Namespace of the search: its query, and what is made of its answers.
#[derive(Debug, Clone, Copy)]
pub struct Repositories;

/// No entry of the list is absent.
pub open spec fn sound<T>(nodes: Option<Vec<Option<T>>>) -> bool {
    match nodes {
        Some(v) => forall|i: int| 0 <= i < v@.len() ==> (#[trigger] v@[i]) is Some,
        None => true,
    }
}

/// The entries of the list; none where the list is absent.
pub open spec fn items<T>(nodes: Option<Vec<Option<T>>>) -> Seq<T> {
    match nodes {
        Some(v) => Seq::new(v@.len(), |i: int| v@[i]->0),
        None => Seq::empty(),
    }
}

/// The issue is there, and so are its list of labels and every label in it.
pub open spec fn issue_sound(issue: Option<RawIssue>) -> bool {
    match issue {
        Some(i) => match i.labels {
            Some(c) => sound(c.nodes),
            None => false,
        },
        None => false,
    }
}

/// The labels on one issue.
pub open spec fn labels_on(issue: Option<RawIssue>) -> Seq<IssueLabelView> {
    match issue {
        Some(i) => match i.labels {
            Some(c) => Seq::new(items(c.nodes).len(), |b: int| items(c.nodes)[b]@),
            None => Seq::empty(),
        },
        None => Seq::empty(),
    }
}

/// Every issue that was sent is sound.
pub open spec fn issues_sound(issues: RawIssues) -> bool {
    match issues.nodes {
        Some(v) => forall|a: int| 0 <= a < v@.len() ==> issue_sound(#[trigger] v@[a]),
        None => true,
    }
}

/// The labels of a repository, issue by issue.
pub open spec fn label_lists(issues: RawIssues) -> Seq<Seq<IssueLabelView>> {
    match issues.nodes {
        Some(v) => Seq::new(v@.len(), |a: int| labels_on(v@[a])),
        None => Seq::empty(),
    }
}

/// The labels of the repository can be counted in an `i64`.
pub open spec fn countable(raw: RawRepository) -> bool {
    flat(label_lists(raw.issues)).len() <= i64::MAX
}

/// Nothing that a repository must have is absent.
pub open spec fn well_formed(raw: RawRepository) -> bool {
    &&& raw.description is Some
    &&& raw.languages matches Some(c) && sound(c.nodes)
    &&& issues_sound(raw.issues)
    &&& sound(raw.repository_topics.nodes)
}

/// Why the hit is dropped; nothing where it is kept. A hit that is malformed
/// is reported as such, however many issues it has.
pub open spec fn rejection(node: Option<SearchNode>, min_issues: int) -> Option<Rejection> {
    match node {
        None => Some(Rejection::Empty),
        Some(SearchNode::Other) => Some(Rejection::NotRepository),
        Some(SearchNode::Repository(raw)) => if !well_formed(raw) {
            Some(Rejection::Malformed)
        } else if raw.issues.total_count < min_issues {
            Some(Rejection::TooFewIssues)
        } else {
            None
        },
    }
}

/// The avatar of an owner, of whichever kind.
pub open spec fn avatar(owner: Owner) -> Seq<char> {
    match owner {
        Owner::User { avatar_url } => avatar_url@,
        Owner::Organization { avatar_url } => avatar_url@,
    }
}

/// The text of a string that may be absent: empty where it is.
pub open spec fn text_or_empty(s: Option<String>) -> Seq<char> {
    match s {
        Some(t) => t@,
        None => Seq::empty(),
    }
}

/// The languages of a repository.
pub open spec fn language_names(languages: Option<Connection<String>>) -> Seq<Seq<char>> {
    match languages {
        Some(c) => Seq::new(items(c.nodes).len(), |i: int| items(c.nodes)[i]@),
        None => Seq::empty(),
    }
}

/// The topics of a repository.
pub open spec fn topic_views(topics: Connection<Topic>) -> Seq<TopicView> {
    Seq::new(items(topics.nodes).len(), |i: int| items(topics.nodes)[i]@)
}

/// The repository that a well-formed raw one stands for: its own values,
/// absent lists as empty ones, and its labels tallied against `vocabulary`.
pub open spec fn normalized(raw: RawRepository, vocabulary: Seq<Seq<char>>) -> RepositoryView {
    RepositoryView {
        name_with_owner: raw.name_with_owner@,
        url: raw.url@,
        description: text_or_empty(raw.description),
        homepage_url: text_or_empty(raw.homepage_url),
        avatar_url: avatar(raw.owner),
        num_forks: raw.fork_count as int,
        num_issues: raw.issues.total_count as int,
        num_pull_requests: raw.pull_requests as int,
        num_stars: raw.stargazers as int,
        topics: topic_views(raw.repository_topics),
        labels: aggregated(label_lists(raw.issues), vocabulary),
        languages: language_names(raw.languages),
        issues: Seq::empty(),
    }
}

/// What becomes of a hit: the repository it stands for where it is kept,
/// nothing where it is dropped.
pub open spec fn kept(
    node: Option<SearchNode>,
    vocabulary: Seq<Seq<char>>,
    min_issues: int,
) -> Option<RepositoryView> {
    match node {
        Some(SearchNode::Repository(raw)) => if rejection(node, min_issues) is None {
            Some(normalized(raw, vocabulary))
        } else {
            None
        },
        _ => None,
    }
}

/// What holds of every repository that is kept: it has at least as many
/// issues as are asked for, its reserved list is empty, and its labels are
/// terms of the vocabulary, each once and each seen at least once, ranked by
/// count and, where counts are the same, by their place in the vocabulary.
pub open spec fn qualifies(
    repo: RepositoryView,
    vocabulary: Seq<Seq<char>>,
    min_issues: int,
) -> bool {
    &&& repo.num_issues >= min_issues
    &&& repo.issues.len() == 0
    &&& all_counted(repo.labels)
    &&& descending(repo.labels)
    &&& in_rank_order(repo.labels, vocabulary)
    &&& all_named_in(repo.labels, vocabulary)
    &&& names_differ(repo.labels)
}

/// A hit that is absent, or is no repository, is never kept, whatever the
/// vocabulary and however few issues are asked for. A hit that is kept is a
/// repository with nothing absent that it must have, and what is made of it
/// qualifies.
pub proof fn lemma_only_repositories_are_kept(
    node: Option<SearchNode>,
    vocabulary: Seq<Seq<char>>,
    min_issues: int,
)
    ensures
        node is None ==> rejection(node, min_issues) == Some(Rejection::Empty),
        kept(node, vocabulary, min_issues) is Some <==> rejection(node, min_issues) is None,
        kept(node, vocabulary, min_issues) matches Some(repo) ==> {
            &&& node matches Some(SearchNode::Repository(raw))
            &&& well_formed(raw)
            &&& repo.num_issues == raw.issues.total_count
            &&& qualifies(repo, vocabulary, min_issues)
        },
{
    if let Some(SearchNode::Repository(raw)) = node {
        lemma_aggregated(label_lists(raw.issues), vocabulary);
    }
}

fn strings_of(nodes: &Option<Vec<Option<String>>>) -> (r: Option<Vec<String>>)
    ensures
        r is Some <==> sound(*nodes),
        r matches Some(v) ==> v.deep_view() == Seq::new(
            items(*nodes).len(),
            |i: int| items(*nodes)[i]@,
        ),
{
    let mut out: Vec<String> = Vec::new();
    match nodes {
        None => {
            assert(out.deep_view() == Seq::new(items(*nodes).len(), |i: int| items(*nodes)[i]@));
        },
        Some(v) => {
            let mut i: usize = 0;
            while i < v.len()
                invariant
                    i <= v.len(),
                    *nodes == Some(*v),
                    out.len() == i,
                    forall|k: int| 0 <= k < i ==> (#[trigger] v@[k]) is Some,
                    forall|k: int| 0 <= k < i ==> (#[trigger] out@[k])@ == (v@[k]->0)@,
                decreases v.len() - i,
            {
                match &v[i] {
                    Some(s) => {
                        out.push(s.clone());
                    },
                    None => {
                        assert(v@[i as int] is None);
                        return None;
                    },
                }
                i = i + 1;
            }
            assert(out.deep_view() == Seq::new(items(*nodes).len(), |i: int| items(*nodes)[i]@));
        },
    }
    Some(out)
}

fn topics_of(nodes: &Option<Vec<Option<Topic>>>) -> (r: Option<Vec<Topic>>)
    ensures
        r is Some <==> sound(*nodes),
        r matches Some(v) ==> v.deep_view() == Seq::new(
            items(*nodes).len(),
            |i: int| items(*nodes)[i]@,
        ),
{
    let mut out: Vec<Topic> = Vec::new();
    match nodes {
        None => {
            assert(out.deep_view() == Seq::new(items(*nodes).len(), |i: int| items(*nodes)[i]@));
        },
        Some(v) => {
            let mut i: usize = 0;
            while i < v.len()
                invariant
                    i <= v.len(),
                    *nodes == Some(*v),
                    out.len() == i,
                    forall|k: int| 0 <= k < i ==> (#[trigger] v@[k]) is Some,
                    forall|k: int| 0 <= k < i ==> (#[trigger] out@[k])@ == (v@[k]->0)@,
                decreases v.len() - i,
            {
                match &v[i] {
                    Some(t) => {
                        out.push(Topic { name: t.name.clone(), url: t.url.clone() });
                    },
                    None => {
                        assert(v@[i as int] is None);
                        return None;
                    },
                }
                i = i + 1;
            }
            assert(out.deep_view() == Seq::new(items(*nodes).len(), |i: int| items(*nodes)[i]@));
        },
    }
    Some(out)
}

fn labels_of(issue: &Option<RawIssue>) -> (r: Option<Vec<IssueLabel>>)
    ensures
        r is Some <==> issue_sound(*issue),
        r matches Some(v) ==> v.deep_view() == labels_on(*issue),
{
    let mut out: Vec<IssueLabel> = Vec::new();
    match issue {
        None => {
            return None;
        },
        Some(i) => match &i.labels {
            None => {
                return None;
            },
            Some(c) => match &c.nodes {
                None => {
                    assert(out.deep_view() == labels_on(*issue));
                },
                Some(v) => {
                    let mut b: usize = 0;
                    while b < v.len()
                        invariant
                            b <= v.len(),
                            *issue == Some(*i),
                            i.labels == Some(*c),
                            c.nodes == Some(*v),
                            out.len() == b,
                            forall|k: int| 0 <= k < b ==> (#[trigger] v@[k]) is Some,
                            forall|k: int| 0 <= k < b ==> (#[trigger] out@[k])@ == (v@[k]->0)@,
                        decreases v.len() - b,
                    {
                        match &v[b] {
                            Some(l) => {
                                out.push(
                                    IssueLabel { name: l.name.clone(), color: l.color.clone() },
                                );
                            },
                            None => {
                                assert(v@[b as int] is None);
                                return None;
                            },
                        }
                        b = b + 1;
                    }
                    assert(out.deep_view() == labels_on(*issue));
                },
            },
        },
    }
    Some(out)
}

fn label_lists_of(issues: &RawIssues) -> (r: Option<Vec<Vec<IssueLabel>>>)
    ensures
        r is Some <==> issues_sound(*issues),
        r matches Some(v) ==> v.deep_view() == label_lists(*issues),
{
    let mut out: Vec<Vec<IssueLabel>> = Vec::new();
    match &issues.nodes {
        None => {
            assert(out.deep_view() == label_lists(*issues));
        },
        Some(v) => {
            let mut a: usize = 0;
            while a < v.len()
                invariant
                    a <= v.len(),
                    issues.nodes == Some(*v),
                    out.len() == a,
                    forall|k: int| 0 <= k < a ==> issue_sound(#[trigger] v@[k]),
                    forall|k: int| 0 <= k < a ==> (#[trigger] out@[k]).deep_view() == labels_on(v@[k]),
                decreases v.len() - a,
            {
                match labels_of(&v[a]) {
                    Some(list) => {
                        out.push(list);
                    },
                    None => {
                        assert(!issue_sound(issues.nodes->0@[a as int]));
                        return None;
                    },
                }
                a = a + 1;
            }
            assert(out.deep_view() == label_lists(*issues));
        },
    }
    Some(out)
}

/// Turns one search hit into a repository, or says why it is dropped.
///
/// A hit is kept if it is a repository, nothing that a repository must have
/// is absent, and it has at least `min_issues` issues. The repository that
/// comes out has the raw one's own values, and its labels are the issue
/// labels tallied against `vocabulary`.
pub fn normalize(node: &Option<SearchNode>, vocabulary: &Vec<String>, min_issues: i64) -> (r:
    Result<Repository, Rejection>)
    requires
        *node matches Some(SearchNode::Repository(raw)) ==> countable(raw),
    ensures
        r matches Err(e) ==> rejection(*node, min_issues as int) == Some(e),
        r matches Ok(repo) ==> rejection(*node, min_issues as int) is None && kept(
            *node,
            vocabulary.deep_view(),
            min_issues as int,
        ) == Some(repo@),
        r matches Ok(repo) ==> qualifies(repo@, vocabulary.deep_view(), min_issues as int),
{
    let raw = match node {
        None => {
            return Err(Rejection::Empty);
        },
        Some(SearchNode::Other) => {
            return Err(Rejection::NotRepository);
        },
        Some(SearchNode::Repository(raw)) => raw,
    };
    let languages = match &raw.languages {
        None => {
            return Err(Rejection::Malformed);
        },
        Some(c) => match strings_of(&c.nodes) {
            None => {
                return Err(Rejection::Malformed);
            },
            Some(names) => names,
        },
    };
    let issues = match label_lists_of(&raw.issues) {
        None => {
            return Err(Rejection::Malformed);
        },
        Some(lists) => lists,
    };
    let topics = match topics_of(&raw.repository_topics.nodes) {
        None => {
            return Err(Rejection::Malformed);
        },
        Some(topics) => topics,
    };
    let tallied = aggregate(&issues, vocabulary);
    let description = match &raw.description {
        None => {
            return Err(Rejection::Malformed);
        },
        Some(text) => text.clone(),
    };
    if raw.issues.total_count < min_issues {
        return Err(Rejection::TooFewIssues);
    }
    let homepage_url = match &raw.homepage_url {
        Some(url) => url.clone(),
        None => String::new(),
    };
    let avatar_url = match &raw.owner {
        Owner::User { avatar_url } => avatar_url.clone(),
        Owner::Organization { avatar_url } => avatar_url.clone(),
    };
    let repo = Repository {
        name_with_owner: raw.name_with_owner.clone(),
        url: raw.url.clone(),
        description,
        homepage_url,
        avatar_url,
        num_forks: raw.fork_count,
        num_issues: raw.issues.total_count,
        num_pull_requests: raw.pull_requests,
        num_stars: raw.stargazers,
        topics,
        labels: tallied,
        languages,
        issues: Vec::new(),
    };
    proof {
        assert(well_formed(*raw));
        assert(repo@.issues == Seq::<Seq<Seq<char>>>::empty());
        assert(repo@ == normalized(*raw, vocabulary.deep_view()));
    }
    Ok(repo)
}

/// Whether the labels of the repository can be counted in an `i64`.
pub fn is_countable(raw: &RawRepository) -> (r: bool)
    ensures
        r == countable(*raw),
{
    let ghost lists = label_lists(raw.issues);
    let mut total: u64 = 0;
    match &raw.issues.nodes {
        None => {
            assert(flat(lists).len() == 0);
        },
        Some(v) => {
            let mut a: usize = 0;
            assert(lists.take(0) == Seq::<Seq<IssueLabelView>>::empty());
            while a < v.len()
                invariant
                    a <= v.len(),
                    lists == label_lists(raw.issues),
                    raw.issues.nodes == Some(*v),
                    total == flat(lists.take(a as int)).len(),
                    total <= i64::MAX,
                decreases v.len() - a,
            {
                let here: usize = match &v[a] {
                    Some(issue) => match &issue.labels {
                        Some(c) => match &c.nodes {
                            Some(l) => l.len(),
                            None => 0,
                        },
                        None => 0,
                    },
                    None => 0,
                };
                proof {
                    assert(lists.take(a + 1).drop_last() == lists.take(a as int));
                    assert(lists.take(a + 1).last() == labels_on(v@[a as int]));
                    assert(here == labels_on(v@[a as int]).len());
                    lemma_flat_take(lists, a + 1);
                }
                if here as u64 > 0x7fff_ffff_ffff_ffffu64 - total {
                    return false;
                }
                total = total + here as u64;
                a = a + 1;
            }
            assert(lists.take(a as int) == lists);
        },
    }
    true
}

impl Repositories {
    /// Turns one search hit into a repository, with the fixed vocabulary
    /// and the fixed least number of issues. Gives nothing where the hit is
    /// dropped.
    pub fn parse_repository(repo: Option<SearchNode>) -> (r: Option<Repository>)
        requires
            repo matches Some(SearchNode::Repository(raw)) ==> countable(raw),
        ensures
            r.deep_view() == kept(repo, vocabulary(), MIN_NUM_ISSUES as int),
            r is None <==> rejection(repo, MIN_NUM_ISSUES as int) is Some,
            r matches Some(found) ==> qualifies(found@, vocabulary(), MIN_NUM_ISSUES as int),
    {
        let terms = labels();
        match normalize(&repo, &terms, MIN_NUM_ISSUES) {
            Ok(found) => Some(found),
            Err(_) => None,
        }
    }
}

} // verus!
