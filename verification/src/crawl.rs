//! The crawl of one subject: page after page, until enough repositories are
//! collected or the budget of attempts is spent.
//!
//! The crawl itself never touches the network. It hands out the variables
//! of the next request and is told how the request ended. What it holds
//! after a sequence of outcomes is a function of that sequence alone.
use crate::config::labels;
use crate::config::vocabulary;
use crate::config::AVATAR_SIZE;
use crate::config::MIN_NUM_ISSUES;
use crate::config::NUM_LANGUAGES;
use crate::config::NUM_REPOSITORIES;
use crate::config::NUM_REPOSITORIES_PER_REQUEST;
use crate::config::NUM_RETRIES;
use crate::config::RATE_LIMITED;
use crate::record::countable;
use crate::record::is_countable;
use crate::record::kept;
use crate::record::lemma_only_repositories_are_kept;
use crate::record::qualifies;
use crate::record::normalize;
use crate::record::Repositories;
use crate::record::SearchNode;
use crate::repository::Language;
use crate::repository::Repository;
use crate::repository::RepositoryView;
use vstd::prelude::*;

verus! {

/// The variables of one search request.
#[derive(Debug, Clone)]
pub struct Variables {
    pub num_results: i64,
    pub query: String,
    pub cursor: Option<String>,
    pub labels: Vec<String>,
    pub num_languages: i64,
    pub avatar_size: i64,
}

/// What the variables of a request hold, as texts, integers and sequences.
pub struct VariablesView {
    pub num_results: int,
    pub query: Seq<char>,
    pub cursor: Option<Seq<char>>,
    pub labels: Seq<Seq<char>>,
    pub num_languages: int,
    pub avatar_size: int,
}

impl DeepView for Variables {
    type V = VariablesView;

    open spec fn deep_view(&self) -> VariablesView {
        VariablesView {
            num_results: self.num_results as int,
            query: self.query@,
            cursor: self.cursor.deep_view(),
            labels: self.labels.deep_view(),
            num_languages: self.num_languages as int,
            avatar_size: self.avatar_size as int,
        }
    }
}

impl View for Variables {
    type V = VariablesView;

    open spec fn view(&self) -> VariablesView {
        self.deep_view()
    }
}

/// One page of search hits, and the cursor behind its last hit.
#[derive(Debug, Clone)]
pub struct ResponseData {
    pub end_cursor: Option<String>,
    pub nodes: Option<Vec<Option<SearchNode>>>,
}

/// How a page request failed.
#[derive(Debug, Clone, Copy, PartialEq, Eq, Structural)]
pub enum PageError {
    /// The request was not answered.
    Transport,
    /// It was answered with a status other than success.
    NonSuccessStatus(u16),
    /// The answer could not be read.
    MalformedPayload,
    /// The answer holds no data.
    NoData,
}

/// What one subject's crawl holds between two requests.
#[derive(Debug, Clone)]
pub struct SearchObject {
    /// The term that is searched for.
    pub language: String,
    /// The repositories collected so far.
    pub repositories: Vec<Repository>,
    /// Where the next page starts; nothing before the first page.
    pub cursor: Option<String>,
    /// How often the rate limit was hit: the delay before a request has
    /// been raised once for each.
    pub backoff: u64,
}

/// What a crawl holds, as texts, a sequence and a count.
pub struct CrawlView {
    pub language: Seq<char>,
    pub repositories: Seq<RepositoryView>,
    pub cursor: Option<Seq<char>>,
    pub backoff: nat,
}

impl DeepView for SearchObject {
    type V = CrawlView;

    open spec fn deep_view(&self) -> CrawlView {
        CrawlView {
            language: self.language@,
            repositories: self.repositories.deep_view(),
            cursor: self.cursor.deep_view(),
            backoff: self.backoff as nat,
        }
    }
}

impl View for SearchObject {
    type V = CrawlView;

    open spec fn view(&self) -> CrawlView {
        self.deep_view()
    }
}

/// Where a crawl stands.
#[derive(Debug, Clone, Copy, PartialEq, Eq, Structural)]
pub enum CrawlStatus {
    /// Another page will be asked for.
    Running,
    /// Enough repositories were collected.
    Succeeded,
    /// The budget of attempts is spent, and too few were collected.
    Exhausted,
}

/// The query text for a search term.
pub open spec fn search_query(language: Seq<char>) -> Seq<char> {
    "language:"@ + language + " stars:>=500 is:public archived:false"@
}

/// The variables of a request for `num_results` hits behind `cursor`.
pub open spec fn request(
    num_results: int,
    language: Seq<char>,
    cursor: Option<Seq<char>>,
) -> VariablesView {
    VariablesView {
        num_results,
        query: search_query(language),
        cursor,
        labels: vocabulary(),
        num_languages: NUM_LANGUAGES as int,
        avatar_size: AVATAR_SIZE as int,
    }
}

/// The hits of a page; none where the page has no list of hits.
pub open spec fn hits(data: ResponseData) -> Seq<Option<SearchNode>> {
    match data.nodes {
        Some(v) => v@,
        None => Seq::empty(),
    }
}

/// The repositories that the hits stand for, in order: those that are kept.
pub open spec fn survivors(nodes: Seq<Option<SearchNode>>) -> Seq<RepositoryView>
    decreases nodes.len(),
{
    if nodes.len() == 0 {
        Seq::empty()
    } else {
        match kept(nodes.last(), vocabulary(), MIN_NUM_ISSUES as int) {
            Some(repo) => survivors(nodes.drop_last()).push(repo),
            None => survivors(nodes.drop_last()),
        }
    }
}

/// The labels of every repository among the hits can be counted.
pub open spec fn hits_countable(nodes: Seq<Option<SearchNode>>) -> bool {
    forall|i: int|
        0 <= i < nodes.len() ==> ((#[trigger] nodes[i]) matches Some(SearchNode::Repository(raw))
            ==> countable(raw))
}

/// The labels of every repository of a page that was served can be counted.
pub open spec fn outcome_countable(outcome: Result<ResponseData, PageError>) -> bool {
    match outcome {
        Ok(data) => hits_countable(hits(data)),
        Err(_) => true,
    }
}

/// How often the delay has been raised once a request was answered with
/// `status`: once more where the status is the rate limit, as often as
/// before for every other status.
pub open spec fn escalated(backoff: nat, status: u16) -> nat {
    if status == RATE_LIMITED {
        backoff + 1
    } else {
        backoff
    }
}

/// What a crawl holds after one more request has ended.
///
/// A page that was served moves the cursor behind it and adds the
/// repositories that are kept, all of them. A failure leaves the cursor and
/// the repositories as they were; the rate limit raises the delay, no other
/// failure does, and nothing ever lowers it.
pub open spec fn stepped(s: CrawlView, outcome: Result<ResponseData, PageError>) -> CrawlView {
    match outcome {
        Ok(data) => CrawlView {
            language: s.language,
            repositories: s.repositories + survivors(hits(data)),
            cursor: data.end_cursor.deep_view(),
            backoff: s.backoff,
        },
        Err(PageError::NonSuccessStatus(code)) => CrawlView {
            language: s.language,
            repositories: s.repositories,
            cursor: s.cursor,
            backoff: escalated(s.backoff, code),
        },
        Err(_) => s,
    }
}

/// What a crawl holds before its first request.
pub open spec fn initial(language: Seq<char>) -> CrawlView {
    CrawlView { language, repositories: Seq::empty(), cursor: None, backoff: 0 }
}

/// What a crawl holds after its requests ended as `trace` says, in order.
pub open spec fn replayed(
    language: Seq<char>,
    trace: Seq<Result<ResponseData, PageError>>,
) -> CrawlView
    decreases trace.len(),
{
    if trace.len() == 0 {
        initial(language)
    } else {
        stepped(replayed(language, trace.drop_last()), trace.last())
    }
}

/// Where a crawl stands that holds `collected` repositories after
/// `attempts` requests. Enough repositories count as success, however many
/// attempts it took.
pub open spec fn status_of(collected: nat, attempts: int) -> CrawlStatus {
    if collected >= NUM_REPOSITORIES {
        CrawlStatus::Succeeded
    } else if attempts >= NUM_RETRIES {
        CrawlStatus::Exhausted
    } else {
        CrawlStatus::Running
    }
}

/// Where a crawl stands after its requests ended as `trace` says.
pub open spec fn status_after(
    language: Seq<char>,
    trace: Seq<Result<ResponseData, PageError>>,
) -> CrawlStatus {
    status_of(replayed(language, trace).repositories.len(), trace.len() as int)
}

/// `trace` is one whole crawl: it went on after each request but the last,
/// and stopped after the last.
pub open spec fn is_crawl(language: Seq<char>, trace: Seq<Result<ResponseData, PageError>>) -> bool {
    &&& status_after(language, trace) != CrawlStatus::Running
    &&& forall|n: int|
        0 <= n < trace.len() ==> status_after(language, #[trigger] trace.take(n))
            == CrawlStatus::Running
}

/// The request with index `n` of `trace` was made with the variables that
/// the crawl asks for at that point, and with the number of times the rate
/// limit was hit before it; `fetch` answered it as `trace` says.
pub open spec fn answered_at<F: Fn(Variables, u64) -> Result<ResponseData, PageError>>(
    fetch: F,
    language: Seq<char>,
    trace: Seq<Result<ResponseData, PageError>>,
    n: int,
) -> bool {
    let before = replayed(language, trace.take(n));
    exists|v: Variables|
        v@ == request(NUM_REPOSITORIES_PER_REQUEST as int, language, before.cursor)
            && #[trigger] call_ensures(fetch, (v, before.backoff as u64), trace[n])
}

/// Every outcome of `trace` is an answer of `fetch` to the request that the
/// crawl made at that point.
pub open spec fn answered_by<F: Fn(Variables, u64) -> Result<ResponseData, PageError>>(
    fetch: F,
    language: Seq<char>,
    trace: Seq<Result<ResponseData, PageError>>,
) -> bool {
    forall|n: int| 0 <= n < trace.len() ==> #[trigger] answered_at(fetch, language, trace, n)
}

/// Every repository qualifies: it has enough issues, and its labels are
/// ranked terms of the vocabulary.
pub open spec fn all_qualify(repositories: Seq<RepositoryView>) -> bool {
    forall|i: int|
        0 <= i < repositories.len() ==> qualifies(
            #[trigger] repositories[i],
            vocabulary(),
            MIN_NUM_ISSUES as int,
        )
}

fn copy_of(text: &Option<String>) -> (r: Option<String>)
    ensures
        r.deep_view() == text.deep_view(),
{
    match text {
        Some(t) => Some(t.clone()),
        None => None,
    }
}

/// A page never adds more repositories than it has hits, and each one it
/// adds qualifies.
pub proof fn lemma_survivors(nodes: Seq<Option<SearchNode>>)
    ensures
        survivors(nodes).len() <= nodes.len(),
        all_qualify(survivors(nodes)),
    decreases nodes.len(),
{
    if nodes.len() > 0 {
        lemma_survivors(nodes.drop_last());
        lemma_only_repositories_are_kept(nodes.last(), vocabulary(), MIN_NUM_ISSUES as int);
    }
}

/// A request that fails, in whatever way, adds no repository and leaves
/// the cursor and the search term as they were. It never lowers the delay,
/// and unless it is the rate limit it changes nothing at all.
pub proof fn lemma_failure_adds_nothing(s: CrawlView, error: PageError)
    ensures
        stepped(s, Err(error)).repositories == s.repositories,
        stepped(s, Err(error)).cursor == s.cursor,
        stepped(s, Err(error)).language == s.language,
        stepped(s, Err(error)).backoff >= s.backoff,
        error != PageError::NonSuccessStatus(RATE_LIMITED) ==> stepped(s, Err(error)) == s,
        error == PageError::NonSuccessStatus(RATE_LIMITED) ==> stepped(s, Err(error)).backoff
            == s.backoff + 1,
{
}

/// How many of the outcomes are the rate limit.
pub open spec fn rate_limit_hits(trace: Seq<Result<ResponseData, PageError>>) -> nat
    decreases trace.len(),
{
    if trace.len() == 0 {
        0
    } else if trace.last() == Err::<ResponseData, PageError>(
        PageError::NonSuccessStatus(RATE_LIMITED),
    ) {
        rate_limit_hits(trace.drop_last()) + 1
    } else {
        rate_limit_hits(trace.drop_last())
    }
}

/// The delay is raised once for each time the rate limit was hit, and for
/// nothing else. The search term never changes.
pub proof fn lemma_backoff_counts(language: Seq<char>, trace: Seq<Result<ResponseData, PageError>>)
    ensures
        replayed(language, trace).backoff == rate_limit_hits(trace),
        replayed(language, trace).backoff <= trace.len(),
        replayed(language, trace).language == language,
    decreases trace.len(),
{
    if trace.len() > 0 {
        lemma_backoff_counts(language, trace.drop_last());
    }
}

/// The delay never falls, and what was collected is never lost: after any
/// number of the requests a crawl holds no more of either than after all of
/// them, and what it held still stands at the front.
pub proof fn lemma_crawl_only_grows(
    language: Seq<char>,
    trace: Seq<Result<ResponseData, PageError>>,
    n: int,
)
    requires
        0 <= n <= trace.len(),
    ensures
        replayed(language, trace.take(n)).backoff <= replayed(language, trace).backoff,
        replayed(language, trace.take(n)).repositories.is_prefix_of(
            replayed(language, trace).repositories,
        ),
    decreases trace.len(),
{
    if n == trace.len() {
        assert(trace.take(n) == trace);
    } else {
        lemma_crawl_only_grows(language, trace.drop_last(), n);
        assert(trace.drop_last().take(n) == trace.take(n));
    }
}

/// Every repository that a crawl holds has enough issues.
pub proof fn lemma_collected_qualify(
    language: Seq<char>,
    trace: Seq<Result<ResponseData, PageError>>,
)
    ensures
        all_qualify(replayed(language, trace).repositories),
    decreases trace.len(),
{
    if trace.len() > 0 {
        lemma_collected_qualify(language, trace.drop_last());
        if trace.last() is Ok {
            lemma_survivors(hits(trace.last()->Ok_0));
        }
    }
}

/// A whole crawl makes at least one request and at most as many as the
/// budget allows, and before its last request it was short of its target:
/// it stops as soon as the target is reached, and what the last page added
/// beyond the target is kept.
pub proof fn lemma_crawl_bounds(language: Seq<char>, trace: Seq<Result<ResponseData, PageError>>)
    requires
        is_crawl(language, trace),
    ensures
        0 < trace.len() <= NUM_RETRIES,
        replayed(language, trace.drop_last()).repositories.len() < NUM_REPOSITORIES,
        status_after(language, trace) == CrawlStatus::Exhausted ==> trace.len() == NUM_RETRIES,
{
    if trace.len() == 0 {
        assert(status_after(language, trace) == CrawlStatus::Running);
    } else {
        let n = trace.len() - 1;
        assert(trace.take(n) == trace.drop_last());
        assert(status_after(language, trace.take(n)) == CrawlStatus::Running);
    }
}

proof fn lemma_failures_collect_nothing(
    language: Seq<char>,
    trace: Seq<Result<ResponseData, PageError>>,
)
    requires
        forall|n: int| 0 <= n < trace.len() ==> (#[trigger] trace[n]) is Err,
    ensures
        replayed(language, trace).repositories.len() == 0,
        replayed(language, trace).cursor is None,
    decreases trace.len(),
{
    if trace.len() > 0 {
        let front = trace.drop_last();
        assert forall|n: int| 0 <= n < front.len() implies (#[trigger] front[n]) is Err by {
            assert(front[n] == trace[n]);
        }
        lemma_failures_collect_nothing(language, front);
        assert(trace.last() == trace[trace.len() - 1]);
    }
}

/// A crawl whose every request fails gives up after exactly as many
/// requests as the budget allows, with nothing collected and its cursor
/// where it started. Where every failure is the rate limit, the delay has
/// been raised once for each request.
pub proof fn lemma_failures_exhaust(language: Seq<char>, trace: Seq<Result<ResponseData, PageError>>)
    requires
        trace.len() == NUM_RETRIES,
        forall|n: int| 0 <= n < trace.len() ==> (#[trigger] trace[n]) is Err,
    ensures
        is_crawl(language, trace),
        status_after(language, trace) == CrawlStatus::Exhausted,
        replayed(language, trace).repositories.len() == 0,
        replayed(language, trace).cursor is None,
        (forall|n: int|
            0 <= n < trace.len() ==> #[trigger] trace[n] == Err::<ResponseData, PageError>(
                PageError::NonSuccessStatus(RATE_LIMITED),
            )) ==> replayed(language, trace).backoff == NUM_RETRIES,
{
    lemma_failures_collect_nothing(language, trace);
    assert forall|n: int| 0 <= n < trace.len() implies status_after(
        language,
        #[trigger] trace.take(n),
    ) == CrawlStatus::Running by {
        let front = trace.take(n);
        assert forall|k: int| 0 <= k < front.len() implies (#[trigger] front[k]) is Err by {
            assert(front[k] == trace[k]);
        }
        lemma_failures_collect_nothing(language, front);
    }
    if forall|n: int|
        0 <= n < trace.len() ==> #[trigger] trace[n] == Err::<ResponseData, PageError>(
            PageError::NonSuccessStatus(RATE_LIMITED),
        ) {
        lemma_all_rate_limited(trace);
        lemma_backoff_counts(language, trace);
    }
}

proof fn lemma_all_rate_limited(trace: Seq<Result<ResponseData, PageError>>)
    requires
        forall|n: int|
            0 <= n < trace.len() ==> #[trigger] trace[n] == Err::<ResponseData, PageError>(
                PageError::NonSuccessStatus(RATE_LIMITED),
            ),
    ensures
        rate_limit_hits(trace) == trace.len(),
    decreases trace.len(),
{
    if trace.len() > 0 {
        let front = trace.drop_last();
        assert forall|n: int| 0 <= n < front.len() implies #[trigger] front[n] == Err::<
            ResponseData,
            PageError,
        >(PageError::NonSuccessStatus(RATE_LIMITED)) by {
            assert(front[n] == trace[n]);
        }
        lemma_all_rate_limited(front);
        assert(trace.last() == trace[trace.len() - 1]);
    }
}

/// Two pages that were served, the first short of the target and both
/// together at or beyond it, make a whole crawl of two requests that
/// succeeds and holds every repository kept from both pages: nothing is cut
/// off at the target.
pub proof fn lemma_two_pages_succeed(language: Seq<char>, first: ResponseData, second: ResponseData)
    requires
        survivors(hits(first)).len() < NUM_REPOSITORIES,
        survivors(hits(first)).len() + survivors(hits(second)).len() >= NUM_REPOSITORIES,
    ensures
        ({
            let trace = seq![
                Ok::<ResponseData, PageError>(first),
                Ok::<ResponseData, PageError>(second),
            ];
            &&& is_crawl(language, trace)
            &&& status_after(language, trace) == CrawlStatus::Succeeded
            &&& replayed(language, trace).repositories == survivors(hits(first)) + survivors(
                hits(second),
            )
            &&& replayed(language, trace).cursor == second.end_cursor.deep_view()
        }),
{
    let trace = seq![Ok::<ResponseData, PageError>(first), Ok::<ResponseData, PageError>(second)];
    let one = seq![Ok::<ResponseData, PageError>(first)];
    let none = Seq::<Result<ResponseData, PageError>>::empty();
    assert(trace.drop_last() == one);
    assert(one.drop_last() == none);
    assert(replayed(language, none) == initial(language));
    assert(replayed(language, one) == stepped(initial(language), Ok(first)));
    assert(replayed(language, one).repositories == survivors(hits(first)));
    assert(replayed(language, trace) == stepped(replayed(language, one), Ok(second)));
    assert forall|n: int| 0 <= n < trace.len() implies status_after(
        language,
        #[trigger] trace.take(n),
    ) == CrawlStatus::Running by {
        if n == 0 {
            assert(trace.take(0) == none);
        } else {
            assert(trace.take(1) == one);
        }
    }
}

impl Repositories {
    /// The variables of a request for `num_results` hits of `language`
    /// behind `cursor`.
    pub fn create_query(num_results: i64, language: &str, cursor: Option<String>) -> (v: Variables)
        ensures
            v@ == request(num_results as int, language@, cursor.deep_view()),
    {
        let mut query = String::from_str("language:");
        query.append(language);
        query.append(" stars:>=500 is:public archived:false");
        Variables {
            num_results,
            query,
            cursor,
            labels: labels(),
            num_languages: NUM_LANGUAGES,
            avatar_size: AVATAR_SIZE,
        }
    }

    /// Takes one page into the crawl: moves the cursor behind the page and
    /// adds the repositories that are kept, in the order of the hits.
    pub fn parse_response(response_data: ResponseData, search_object: &mut SearchObject)
        requires
            hits_countable(hits(response_data)),
        ensures
            final(search_object)@ == stepped(old(search_object)@, Ok(response_data)),
            final(search_object)@.repositories.len() <= old(search_object)@.repositories.len()
                + hits(response_data).len(),
    {
        let ghost nodes = hits(response_data);
        let ResponseData { end_cursor, nodes: listed } = response_data;
        search_object.cursor = end_cursor;
        let mut found: Vec<Repository> = Vec::new();
        match &listed {
            None => {},
            Some(v) => {
                let terms = labels();
                let mut i: usize = 0;
                assert(nodes.take(0) == Seq::<Option<SearchNode>>::empty());
                while i < v.len()
                    invariant
                        i <= v.len(),
                        nodes == v@,
                        hits_countable(nodes),
                        terms.deep_view() == vocabulary(),
                        found.deep_view() == survivors(nodes.take(i as int)),
                    decreases v.len() - i,
                {
                    proof {
                        assert(nodes.take(i + 1).drop_last() == nodes.take(i as int));
                        assert(nodes.take(i + 1).last() == nodes[i as int]);
                    }
                    let ghost so_far = found.deep_view();
                    match normalize(&v[i], &terms, MIN_NUM_ISSUES) {
                        Ok(repo) => {
                            found.push(repo);
                            assert(found.deep_view() == so_far.push(repo@));
                        },
                        Err(_) => {},
                    }
                    i = i + 1;
                }
                assert(nodes.take(i as int) == nodes);
            },
        }
        proof {
            lemma_survivors(nodes);
        }
        let ghost held = search_object.repositories.deep_view();
        let ghost added = found.deep_view();
        search_object.repositories.append(&mut found);
        assert(search_object.repositories.deep_view() == held + added);
    }
}

impl SearchObject {
    /// A crawl before its first request.
    pub fn new(language: String) -> (s: SearchObject)
        ensures
            s@ == initial(language@),
    {
        let s = SearchObject { language, repositories: Vec::new(), cursor: None, backoff: 0 };
        assert(s.repositories.deep_view() == Seq::<RepositoryView>::empty());
        s
    }

    /// Where the crawl stands after `attempts` requests.
    pub fn status(&self, attempts: i64) -> (s: CrawlStatus)
        ensures
            s == status_of(self@.repositories.len(), attempts as int),
    {
        if self.repositories.len() >= NUM_REPOSITORIES {
            CrawlStatus::Succeeded
        } else if attempts >= NUM_RETRIES {
            CrawlStatus::Exhausted
        } else {
            CrawlStatus::Running
        }
    }

    /// The variables of the request that the crawl makes next.
    pub fn next_query(&self) -> (v: Variables)
        ensures
            v@ == request(NUM_REPOSITORIES_PER_REQUEST as int, self@.language, self@.cursor),
    {
        Repositories::create_query(
            NUM_REPOSITORIES_PER_REQUEST,
            self.language.as_str(),
            copy_of(&self.cursor),
        )
    }
}

/// Whether the labels of every repository of the page can be counted.
pub fn outcome_is_countable(outcome: &Result<ResponseData, PageError>) -> (r: bool)
    ensures
        r == outcome_countable(*outcome),
{
    match outcome {
        Err(_) => true,
        Ok(data) => match &data.nodes {
            None => true,
            Some(v) => {
                let mut i: usize = 0;
                while i < v.len()
                    invariant
                        i <= v.len(),
                        *outcome == Ok::<ResponseData, PageError>(*data),
                        data.nodes == Some(*v),
                        hits_countable(v@.take(i as int)),
                    decreases v.len() - i,
                {
                    match &v[i] {
                        Some(SearchNode::Repository(raw)) => {
                            if !is_countable(raw) {
                                assert(v@[i as int] == Some(SearchNode::Repository(*raw)));
                                return false;
                            }
                        },
                        _ => {},
                    }
                    proof {
                        let next = v@.take(i + 1);
                        assert forall|k: int| 0 <= k < next.len() implies ((
                        #[trigger] next[k]) matches Some(SearchNode::Repository(raw)) ==> countable(
                            raw,
                        )) by {
                            if k < i {
                                assert(v@.take(i as int)[k] == next[k]);
                            }
                        }
                    }
                    i = i + 1;
                }
                assert(v@.take(i as int) == v@);
                true
            },
        },
    }
}

/// The backoff of a crawl after a request was answered with `status`: the
/// rate limit raises it by one step, no other status changes it.
pub fn on_response(backoff: u64, status: u16) -> (raised: u64)
    requires
        backoff < u64::MAX,
    ensures
        raised == escalated(backoff as nat, status),
        raised >= backoff,
{
    if status == RATE_LIMITED {
        backoff + 1
    } else {
        backoff
    }
}

/// Takes the outcome of one request into the crawl.
///
/// A page that was served is taken in. The rate limit raises the delay by
/// one step. Any other failure changes nothing.
pub fn get_repositories(search_object: &mut SearchObject, outcome: Result<ResponseData, PageError>)
    requires
        old(search_object).backoff < u64::MAX,
        outcome_countable(outcome),
    ensures
        final(search_object)@ == stepped(old(search_object)@, outcome),
{
    match outcome {
        Ok(data) => {
            Repositories::parse_response(data, search_object);
        },
        Err(PageError::NonSuccessStatus(code)) => {
            search_object.backoff = on_response(search_object.backoff, code);
        },
        Err(_) => {},
    }
}

/// Crawls one subject: asks `fetch` for page after page until enough
/// repositories are collected or the budget of attempts is spent, and gives
/// the subject back with what was collected.
///
/// `fetch` gets the variables of the request and the number of times the
/// rate limit was hit so far; it waits as long as that number asks for,
/// makes the request, and says how it ended.
pub fn get_all_repositories<F: Fn(Variables, u64) -> Result<ResponseData, PageError>>(
    language: Language,
    fetch: F,
) -> (out: Language)
    requires
        forall|v: Variables, level: u64| call_requires(fetch, (v, level)),
        forall|v: Variables, level: u64, outcome: Result<ResponseData, PageError>|
            call_ensures(fetch, (v, level), outcome) ==> outcome_countable(outcome),
    ensures
        out@.name == language@.name,
        out@.search_term == language@.search_term,
        exists|trace: Seq<Result<ResponseData, PageError>>|
            {
                &&& #[trigger] is_crawl(language@.search_term, trace)
                &&& answered_by(fetch, language@.search_term, trace)
                &&& out@.repositories == replayed(language@.search_term, trace).repositories
            },
        all_qualify(out@.repositories),
{
    let ghost term = language.search_term@;
    let mut search_object = SearchObject::new(language.search_term.clone());
    let mut len: i64 = 0;
    let ghost mut trace: Seq<Result<ResponseData, PageError>> = Seq::empty();
    while len < NUM_RETRIES && search_object.repositories.len() < NUM_REPOSITORIES
        invariant
            0 <= len <= NUM_RETRIES,
            len == trace.len(),
            search_object@ == replayed(term, trace),
            search_object.backoff <= len,
            all_qualify(search_object@.repositories),
            answered_by(fetch, term, trace),
            forall|n: int|
                0 <= n < trace.len() ==> status_after(term, #[trigger] trace.take(n))
                    == CrawlStatus::Running,
            forall|v: Variables, level: u64| call_requires(fetch, (v, level)),
            forall|v: Variables, level: u64, outcome: Result<ResponseData, PageError>|
                call_ensures(fetch, (v, level), outcome) ==> outcome_countable(outcome),
        decreases NUM_RETRIES - len,
    {
        let query = search_object.next_query();
        let level: u64 = search_object.backoff;
        let outcome = fetch(query, level);
        proof {
            let longer = trace.push(outcome);
            assert(longer.drop_last() == trace);
            assert(longer.last() == outcome);
            assert forall|n: int| 0 <= n < longer.len() implies status_after(
                term,
                #[trigger] longer.take(n),
            ) == CrawlStatus::Running by {
                if n < trace.len() {
                    assert(longer.take(n) == trace.take(n));
                } else {
                    assert(longer.take(n) == trace);
                }
            }
            if outcome is Ok {
                lemma_survivors(hits(outcome->Ok_0));
            }
            assert forall|n: int| 0 <= n < longer.len() implies #[trigger] answered_at(
                fetch,
                term,
                longer,
                n,
            ) by {
                if n < trace.len() {
                    assert(answered_at(fetch, term, trace, n));
                    assert(longer.take(n) == trace.take(n));
                    assert(longer[n] == trace[n]);
                } else {
                    assert(longer.take(n) == trace);
                    lemma_backoff_counts(term, trace);
                    assert(query@ == request(
                        NUM_REPOSITORIES_PER_REQUEST as int,
                        term,
                        replayed(term, trace).cursor,
                    ));
                    assert(replayed(term, trace).backoff as u64 == level);
                    assert(call_ensures(fetch, (query, level), longer[n]));
                }
            }
            trace = longer;
        }
        get_repositories(&mut search_object, outcome);
        len = len + 1;
    }
    proof {
        assert(is_crawl(term, trace));
    }
    Language {
        name: language.name,
        search_term: language.search_term,
        repositories: search_object.repositories,
    }
}

} // verus!
