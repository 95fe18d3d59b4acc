//! The entities that a crawl collects, and their rendering as literal text.
//!
//! Every entity has a view made of sequences and integers. The text of an
//! entity is a function of that view alone: an object is written as
//! `{field: value, field: value}` with its fields in the order in which they are
//! declared here.
use crate::text::decimal;
use crate::text::decimal_text;
use crate::text::escape;
use crate::text::join;
use crate::text::joined;
use crate::text::quoted;
use crate::text::texts;
use vstd::prelude::*;

verus! {

/// A topic that a repository is filed under.
#[derive(Debug, Clone)]
pub struct Topic {
    pub name: String,
    pub url: String,
}

/// One term of the label vocabulary, with the number of issues of one
/// repository that carry it and the colour it was last seen with.
#[derive(Debug, Clone)]
pub struct Label {
    pub name: String,
    pub count: i64,
    pub color: String,
}

/// A repository that passed the filter.
#[derive(Debug, Clone)]
pub struct Repository {
    pub name_with_owner: String,
    pub url: String,
    pub description: String,
    pub homepage_url: String,
    pub avatar_url: String,
    pub num_forks: i64,
    pub num_issues: i64,
    pub num_pull_requests: i64,
    pub num_stars: i64,
    pub topics: Vec<Topic>,
    pub labels: Vec<Label>,
    pub languages: Vec<String>,
    /// Reserved: always empty.
    pub issues: Vec<Vec<String>>,
}

/// One crawled subject: the name it is shown under, the term it is searched
/// by, and the repositories collected for it.
#[derive(Debug, Clone)]
pub struct Language {
    pub name: String,
    pub search_term: String,
    pub repositories: Vec<Repository>,
}

/// What a topic holds, as texts.
pub struct TopicView {
    pub name: Seq<char>,
    pub url: Seq<char>,
}

/// What a label holds, as texts and an integer.
pub struct LabelView {
    pub name: Seq<char>,
    pub count: int,
    pub color: Seq<char>,
}

/// What a repository holds, as texts, integers and sequences.
pub struct RepositoryView {
    pub name_with_owner: Seq<char>,
    pub url: Seq<char>,
    pub description: Seq<char>,
    pub homepage_url: Seq<char>,
    pub avatar_url: Seq<char>,
    pub num_forks: int,
    pub num_issues: int,
    pub num_pull_requests: int,
    pub num_stars: int,
    pub topics: Seq<TopicView>,
    pub labels: Seq<LabelView>,
    pub languages: Seq<Seq<char>>,
    pub issues: Seq<Seq<Seq<char>>>,
}

/// What a subject holds, as texts and a sequence.
pub struct LanguageView {
    pub name: Seq<char>,
    pub search_term: Seq<char>,
    pub repositories: Seq<RepositoryView>,
}

impl DeepView for Topic {
    type V = TopicView;

    open spec fn deep_view(&self) -> TopicView {
        TopicView { name: self.name@, url: self.url@ }
    }
}

impl View for Topic {
    type V = TopicView;

    open spec fn view(&self) -> TopicView {
        self.deep_view()
    }
}

impl DeepView for Label {
    type V = LabelView;

    open spec fn deep_view(&self) -> LabelView {
        LabelView { name: self.name@, count: self.count as int, color: self.color@ }
    }
}

impl View for Label {
    type V = LabelView;

    open spec fn view(&self) -> LabelView {
        self.deep_view()
    }
}

impl DeepView for Repository {
    type V = RepositoryView;

    open spec fn deep_view(&self) -> RepositoryView {
        RepositoryView {
            name_with_owner: self.name_with_owner@,
            url: self.url@,
            description: self.description@,
            homepage_url: self.homepage_url@,
            avatar_url: self.avatar_url@,
            num_forks: self.num_forks as int,
            num_issues: self.num_issues as int,
            num_pull_requests: self.num_pull_requests as int,
            num_stars: self.num_stars as int,
            topics: self.topics.deep_view(),
            labels: self.labels.deep_view(),
            languages: self.languages.deep_view(),
            issues: self.issues.deep_view(),
        }
    }
}

impl View for Repository {
    type V = RepositoryView;

    open spec fn view(&self) -> RepositoryView {
        self.deep_view()
    }
}

impl DeepView for Language {
    type V = LanguageView;

    open spec fn deep_view(&self) -> LanguageView {
        LanguageView {
            name: self.name@,
            search_term: self.search_term@,
            repositories: self.repositories.deep_view(),
        }
    }
}

impl View for Language {
    type V = LanguageView;

    open spec fn view(&self) -> LanguageView {
        self.deep_view()
    }
}

/// One field of an object: its name, a colon, a space, its value.
pub open spec fn field(name: Seq<char>, value: Seq<char>) -> Seq<char> {
    name + ": "@ + value
}

/// An object: its fields between braces.
pub open spec fn object(fields: Seq<char>) -> Seq<char> {
    seq!['{'] + fields + seq!['}']
}

/// A sequence: its items between brackets, a comma and a space between each
/// two; `[]` where there is none.
pub open spec fn list(items: Seq<Seq<char>>) -> Seq<char> {
    seq!['['] + joined(items, ", "@) + seq![']']
}

/// A pair, written as a sequence of two.
pub open spec fn pair(first: Seq<char>, second: Seq<char>) -> Seq<char> {
    seq!['['] + first + ", "@ + second + seq![']']
}

/// A sequence of strings, each one quoted.
pub open spec fn string_list(items: Seq<Seq<char>>) -> Seq<char> {
    list(items.map_values(|s: Seq<char>| quoted(s)))
}

/// The text of a topic.
pub open spec fn topic_text(t: TopicView) -> Seq<char> {
    object(joined(seq![field("name"@, quoted(t.name)), field("url"@, quoted(t.url))], ", "@))
}

/// The text of a label.
pub open spec fn label_text(l: LabelView) -> Seq<char> {
    object(
        joined(
            seq![
                field("name"@, quoted(l.name)),
                field("count"@, decimal(l.count)),
                field("color"@, quoted(l.color)),
            ],
            ", "@,
        ),
    )
}

/// The fields of a repository, in the order in which they are written.
pub open spec fn repository_fields(r: RepositoryView) -> Seq<Seq<char>> {
    seq![
        field("name_with_owner"@, quoted(r.name_with_owner)),
        field("url"@, quoted(r.url)),
        field("description"@, quoted(r.description)),
        field("homepage_url"@, quoted(r.homepage_url)),
        field("avatar_url"@, quoted(r.avatar_url)),
        field("num_forks"@, decimal(r.num_forks)),
        field("num_issues"@, decimal(r.num_issues)),
        field("num_pull_requests"@, decimal(r.num_pull_requests)),
        field("num_stars"@, decimal(r.num_stars)),
        field("topics"@, list(r.topics.map_values(|t: TopicView| topic_text(t)))),
        field("labels"@, list(r.labels.map_values(|l: LabelView| label_text(l)))),
        field("languages"@, string_list(r.languages)),
        field("issues"@, list(r.issues.map_values(|i: Seq<Seq<char>>| string_list(i)))),
    ]
}

/// The text of a repository.
pub open spec fn repository_text(r: RepositoryView) -> Seq<char> {
    object(joined(repository_fields(r), ", "@))
}

/// The text of a subject. Its name comes first.
pub open spec fn language_text(l: LanguageView) -> Seq<char> {
    object(
        joined(
            seq![
                field("name"@, quoted(l.name)),
                field("search_term"@, quoted(l.search_term)),
                field(
                    "repositories"@,
                    list(l.repositories.map_values(|r: RepositoryView| repository_text(r))),
                ),
            ],
            ", "@,
        ),
    )
}

/// A value that can be written as literal text.
pub trait ToJavascript {
    /// The literal text of the value.
    spec fn javascript(&self) -> Seq<char>;

    /// Writes the value as literal text.
    fn to_javascript(&self) -> (out: String)
        ensures
            out@ == self.javascript(),
    ;
}

impl ToJavascript for String {
    open spec fn javascript(&self) -> Seq<char> {
        quoted(self@)
    }

    fn to_javascript(&self) -> (out: String) {
        let mut out = String::new();
        out.push('"');
        let body = escape(self.as_str());
        out.append(body.as_str());
        out.push('"');
        assert(out@ == quoted(self@));
        out
    }
}

impl ToJavascript for i64 {
    open spec fn javascript(&self) -> Seq<char> {
        decimal(*self as int)
    }

    fn to_javascript(&self) -> (out: String) {
        decimal_text(*self)
    }
}

impl<V1: ToJavascript, V2: ToJavascript> ToJavascript for (V1, V2) {
    open spec fn javascript(&self) -> Seq<char> {
        pair(self.0.javascript(), self.1.javascript())
    }

    fn to_javascript(&self) -> (out: String) {
        let mut out = String::new();
        out.push('[');
        let first = self.0.to_javascript();
        out.append(first.as_str());
        out.append(", ");
        let second = self.1.to_javascript();
        out.append(second.as_str());
        out.push(']');
        assert(out@ == pair(self.0.javascript(), self.1.javascript()));
        out
    }
}

impl<V: ToJavascript> ToJavascript for Vec<V> {
    open spec fn javascript(&self) -> Seq<char> {
        list(Seq::new(self@.len(), |i: int| self@[i].javascript()))
    }

    fn to_javascript(&self) -> (out: String) {
        let mut items: Vec<String> = Vec::new();
        let mut i: usize = 0;
        while i < self.len()
            invariant
                i <= self.len(),
                items.len() == i,
                forall|k: int| 0 <= k < i ==> (#[trigger] items@[k])@ == self@[k].javascript(),
            decreases self.len() - i,
        {
            items.push(self[i].to_javascript());
            i = i + 1;
        }
        assert(texts(items@) == Seq::new(self@.len(), |i: int| self@[i].javascript()));
        let body = join(&items, ", ");
        let mut out = String::new();
        out.push('[');
        out.append(body.as_str());
        out.push(']');
        assert(out@ == seq!['['] + body@ + seq![']']);
        out
    }
}

/// Writes one field of an object.
pub fn to_field<V: ToJavascript>(name: &str, value: &V) -> (out: String)
    ensures
        out@ == field(name@, value.javascript()),
{
    let mut out = String::new();
    out.append(name);
    out.append(": ");
    let text = value.to_javascript();
    out.append(text.as_str());
    assert(out@ == name@ + ": "@ + value.javascript());
    out
}

/// Puts the fields of an object between braces.
pub fn to_object(value: &str) -> (out: String)
    ensures
        out@ == object(value@),
{
    let mut out = String::new();
    out.push('{');
    out.append(value);
    out.push('}');
    assert(out@ == seq!['{'] + value@ + seq!['}']);
    out
}

/// The text of a list of strings depends on their views alone.
pub proof fn lemma_strings_text(v: Vec<String>)
    ensures
        v.javascript() == string_list(v.deep_view()),
{
    assert(Seq::new(v@.len(), |i: int| v@[i].javascript()) == v.deep_view().map_values(
        |s: Seq<char>| quoted(s),
    ));
}

impl ToJavascript for Topic {
    open spec fn javascript(&self) -> Seq<char> {
        topic_text(self@)
    }

    fn to_javascript(&self) -> (out: String) {
        let mut fields: Vec<String> = Vec::new();
        fields.push(to_field("name", &self.name));
        fields.push(to_field("url", &self.url));
        assert(texts(fields@) == seq![
            field("name"@, quoted(self.name@)),
            field("url"@, quoted(self.url@)),
        ]);
        let body = join(&fields, ", ");
        to_object(body.as_str())
    }
}

impl ToJavascript for Label {
    open spec fn javascript(&self) -> Seq<char> {
        label_text(self@)
    }

    fn to_javascript(&self) -> (out: String) {
        let mut fields: Vec<String> = Vec::new();
        fields.push(to_field("name", &self.name));
        fields.push(to_field("count", &self.count));
        fields.push(to_field("color", &self.color));
        assert(texts(fields@) == seq![
            field("name"@, quoted(self.name@)),
            field("count"@, decimal(self.count as int)),
            field("color"@, quoted(self.color@)),
        ]);
        let body = join(&fields, ", ");
        to_object(body.as_str())
    }
}

/// The text of a list of topics depends on their views alone.
pub proof fn lemma_topics_text(v: Vec<Topic>)
    ensures
        v.javascript() == list(v.deep_view().map_values(|t: TopicView| topic_text(t))),
{
    assert(Seq::new(v@.len(), |i: int| v@[i].javascript()) == v.deep_view().map_values(
        |t: TopicView| topic_text(t),
    ));
}

/// The text of a list of labels depends on their views alone.
pub proof fn lemma_labels_text(v: Vec<Label>)
    ensures
        v.javascript() == list(v.deep_view().map_values(|l: LabelView| label_text(l))),
{
    assert(Seq::new(v@.len(), |i: int| v@[i].javascript()) == v.deep_view().map_values(
        |l: LabelView| label_text(l),
    ));
}

/// The text of a list of lists of strings depends on their views alone.
pub proof fn lemma_string_lists_text(v: Vec<Vec<String>>)
    ensures
        v.javascript() == list(v.deep_view().map_values(|i: Seq<Seq<char>>| string_list(i))),
{
    assert forall|k: int| 0 <= k < v@.len() implies (#[trigger] v@[k]).javascript() == string_list(
        v.deep_view()[k],
    ) by {
        lemma_strings_text(v@[k]);
    }
    assert(Seq::new(v@.len(), |i: int| v@[i].javascript()) == v.deep_view().map_values(
        |i: Seq<Seq<char>>| string_list(i),
    ));
}

impl ToJavascript for Repository {
    open spec fn javascript(&self) -> Seq<char> {
        repository_text(self@)
    }

    fn to_javascript(&self) -> (out: String) {
        let mut fields: Vec<String> = Vec::new();
        fields.push(to_field("name_with_owner", &self.name_with_owner));
        fields.push(to_field("url", &self.url));
        fields.push(to_field("description", &self.description));
        fields.push(to_field("homepage_url", &self.homepage_url));
        fields.push(to_field("avatar_url", &self.avatar_url));
        fields.push(to_field("num_forks", &self.num_forks));
        fields.push(to_field("num_issues", &self.num_issues));
        fields.push(to_field("num_pull_requests", &self.num_pull_requests));
        fields.push(to_field("num_stars", &self.num_stars));
        fields.push(to_field("topics", &self.topics));
        fields.push(to_field("labels", &self.labels));
        fields.push(to_field("languages", &self.languages));
        fields.push(to_field("issues", &self.issues));
        proof {
            lemma_topics_text(self.topics);
            lemma_labels_text(self.labels);
            lemma_strings_text(self.languages);
            lemma_string_lists_text(self.issues);
            assert(texts(fields@) == repository_fields(self@));
        }
        let body = join(&fields, ", ");
        to_object(body.as_str())
    }
}

/// The text of a list of repositories depends on their views alone.
pub proof fn lemma_repositories_text(v: Vec<Repository>)
    ensures
        v.javascript() == list(v.deep_view().map_values(|r: RepositoryView| repository_text(r))),
{
    assert(Seq::new(v@.len(), |i: int| v@[i].javascript()) == v.deep_view().map_values(
        |r: RepositoryView| repository_text(r),
    ));
}

impl ToJavascript for Language {
    open spec fn javascript(&self) -> Seq<char> {
        language_text(self@)
    }

    fn to_javascript(&self) -> (out: String) {
        let mut fields: Vec<String> = Vec::new();
        fields.push(to_field("name", &self.name));
        fields.push(to_field("search_term", &self.search_term));
        fields.push(to_field("repositories", &self.repositories));
        proof {
            lemma_repositories_text(self.repositories);
            assert(texts(fields@) == seq![
                field("name"@, quoted(self.name@)),
                field("search_term"@, quoted(self.search_term@)),
                field(
                    "repositories"@,
                    list(
                        self.repositories.deep_view().map_values(
                            |r: RepositoryView| repository_text(r),
                        ),
                    ),
                ),
            ]);
        }
        let body = join(&fields, ", ");
        to_object(body.as_str())
    }
}

} // verus!
