//! Tallies the labels on the issues of one repository against a vocabulary
//! and ranks the terms that were seen.
//!
//! The labels are read issue by issue, in the order given. A term of the
//! vocabulary counts the labels that bear its name and keeps the colour of
//! the last of them. Terms that no label bears are left out. The rest are
//! ranked by count, highest first; terms with the same count keep the order
//! in which the vocabulary names them. A term that the vocabulary names more
//! than once counts as named once, where it first stands.
use crate::repository::Label;
use crate::repository::LabelView;
use vstd::prelude::*;

verus! {

/// A label as it stands on an issue.
#[derive(Debug, Clone)]
pub struct IssueLabel {
    pub name: String,
    pub color: String,
}

/// What a label on an issue holds, as texts.
pub struct IssueLabelView {
    pub name: Seq<char>,
    pub color: Seq<char>,
}

impl DeepView for IssueLabel {
    type V = IssueLabelView;

    open spec fn deep_view(&self) -> IssueLabelView {
        IssueLabelView { name: self.name@, color: self.color@ }
    }
}

impl View for IssueLabel {
    type V = IssueLabelView;

    open spec fn view(&self) -> IssueLabelView {
        self.deep_view()
    }
}

/// The labels of all issues in the order in which they are read.
pub open spec fn flat(issues: Seq<Seq<IssueLabelView>>) -> Seq<IssueLabelView>
    decreases issues.len(),
{
    if issues.len() == 0 {
        Seq::empty()
    } else {
        flat(issues.drop_last()) + issues.last()
    }
}

/// How many of the labels bear the name `term`.
pub open spec fn count_of(seen: Seq<IssueLabelView>, term: Seq<char>) -> nat
    decreases seen.len(),
{
    if seen.len() == 0 {
        0
    } else if seen.last().name == term {
        count_of(seen.drop_last(), term) + 1
    } else {
        count_of(seen.drop_last(), term)
    }
}

/// The colour of the last label that bears the name `term`; empty where
/// there is none.
pub open spec fn color_of(seen: Seq<IssueLabelView>, term: Seq<char>) -> Seq<char>
    decreases seen.len(),
{
    if seen.len() == 0 {
        Seq::empty()
    } else if seen.last().name == term {
        seen.last().color
    } else {
        color_of(seen.drop_last(), term)
    }
}

/// The terms of a vocabulary, each once, where it first stands.
pub open spec fn distinct(vocabulary: Seq<Seq<char>>) -> Seq<Seq<char>>
    decreases vocabulary.len(),
{
    if vocabulary.len() == 0 {
        Seq::empty()
    } else if distinct(vocabulary.drop_last()).contains(vocabulary.last()) {
        distinct(vocabulary.drop_last())
    } else {
        distinct(vocabulary.drop_last()).push(vocabulary.last())
    }
}

/// One label for each term: its count and its last colour among `seen`.
pub open spec fn tally(seen: Seq<IssueLabelView>, terms: Seq<Seq<char>>) -> Seq<LabelView> {
    Seq::new(
        terms.len(),
        |k: int|
            LabelView {
                name: terms[k],
                count: count_of(seen, terms[k]) as int,
                color: color_of(seen, terms[k]),
            },
    )
}

/// The labels with a count above zero, in order.
pub open spec fn observed(labels: Seq<LabelView>) -> Seq<LabelView>
    decreases labels.len(),
{
    if labels.len() == 0 {
        Seq::empty()
    } else if labels.last().count > 0 {
        observed(labels.drop_last()).push(labels.last())
    } else {
        observed(labels.drop_last())
    }
}

/// Where a label with count `count` goes into a ranking: behind the last
/// label whose count is at least as high.
pub open spec fn slot(ranking: Seq<LabelView>, count: int) -> int
    decreases ranking.len(),
{
    if ranking.len() == 0 {
        0
    } else if ranking.last().count >= count {
        ranking.len() as int
    } else {
        slot(ranking.drop_last(), count)
    }
}

/// The ranking with one more label in its place.
pub open spec fn placed(ranking: Seq<LabelView>, label: LabelView) -> Seq<LabelView> {
    ranking.insert(slot(ranking, label.count), label)
}

/// The labels ranked by count, highest first; labels with the same count
/// stay in the order in which they stand in `labels`.
pub open spec fn ranked(labels: Seq<LabelView>) -> Seq<LabelView>
    decreases labels.len(),
{
    if labels.len() == 0 {
        Seq::empty()
    } else {
        placed(ranked(labels.drop_last()), labels.last())
    }
}

/// What the aggregator gives for the labels of the issues of one repository
/// and a vocabulary.
pub open spec fn aggregated(
    issues: Seq<Seq<IssueLabelView>>,
    vocabulary: Seq<Seq<char>>,
) -> Seq<LabelView> {
    ranked(observed(tally(flat(issues), distinct(vocabulary))))
}

/// No count is lower than a count behind it.
pub open spec fn descending(labels: Seq<LabelView>) -> bool {
    forall|i: int, j: int| 0 <= i < j < labels.len() ==> labels[i].count >= labels[j].count
}

/// Every count is above zero.
pub open spec fn all_counted(labels: Seq<LabelView>) -> bool {
    forall|i: int| 0 <= i < labels.len() ==> (#[trigger] labels[i]).count > 0
}

/// Every name is a term of the vocabulary.
pub open spec fn all_named_in(labels: Seq<LabelView>, vocabulary: Seq<Seq<char>>) -> bool {
    forall|i: int| 0 <= i < labels.len() ==> vocabulary.contains((#[trigger] labels[i]).name)
}

/// No two labels bear the same name.
pub open spec fn names_differ(labels: Seq<LabelView>) -> bool {
    forall|i: int, j: int|
        0 <= i < j < labels.len() ==> (#[trigger] labels[i]).name != (#[trigger] labels[j]).name
}

/// Where a term stands among the distinct terms of a vocabulary.
pub open spec fn position(vocabulary: Seq<Seq<char>>, term: Seq<char>) -> int {
    distinct(vocabulary).index_of(term)
}

/// The order of a ranking: the higher count first, and of two labels with
/// the same count the one whose term stands first in the vocabulary.
pub open spec fn ranks_before(vocabulary: Seq<Seq<char>>, a: LabelView, b: LabelView) -> bool {
    a.count > b.count || (a.count == b.count && position(vocabulary, a.name) < position(
        vocabulary,
        b.name,
    ))
}

/// Each label ranks before every label behind it.
pub open spec fn in_rank_order(labels: Seq<LabelView>, vocabulary: Seq<Seq<char>>) -> bool {
    forall|i: int, j: int|
        0 <= i < j < labels.len() ==> ranks_before(
            vocabulary,
            #[trigger] labels[i],
            #[trigger] labels[j],
        )
}

proof fn lemma_slot(ranking: Seq<LabelView>, count: int)
    ensures
        0 <= slot(ranking, count) <= ranking.len(),
        slot(ranking, count) > 0 ==> ranking[slot(ranking, count) - 1].count >= count,
        forall|k: int| slot(ranking, count) <= k < ranking.len() ==> ranking[k].count < count,
    decreases ranking.len(),
{
    if ranking.len() > 0 && ranking.last().count < count {
        let front = ranking.drop_last();
        lemma_slot(front, count);
        assert forall|k: int| slot(ranking, count) <= k < ranking.len() implies ranking[k].count
            < count by {
            if k < front.len() {
                assert(front[k] == ranking[k]);
            }
        }
        if slot(ranking, count) > 0 {
            assert(front[slot(front, count) - 1] == ranking[slot(ranking, count) - 1]);
        }
    }
}

/// Every label of a ranking, and of what was kept for it, is one of the
/// labels it was made from.
proof fn lemma_members(labels: Seq<LabelView>)
    ensures
        forall|i: int|
            0 <= i < observed(labels).len() ==> labels.contains(#[trigger] observed(labels)[i]),
        forall|i: int| 0 <= i < ranked(labels).len() ==> labels.contains(#[trigger] ranked(labels)[i]),
        all_counted(observed(labels)),
        ranked(labels).len() == labels.len(),
    decreases labels.len(),
{
    if labels.len() > 0 {
        let front = labels.drop_last();
        let last = labels.last();
        lemma_members(front);
        assert forall|x: LabelView| front.contains(x) implies labels.contains(x) by {
            let i = choose|i: int| 0 <= i < front.len() && front[i] == x;
            assert(labels[i] == x);
        }
        assert(labels.contains(last)) by {
            assert(labels[labels.len() - 1] == last);
        }
        lemma_slot(ranked(front), last.count);
    }
}

/// Ranking keeps what holds of every label's count.
proof fn lemma_ranked_counted(labels: Seq<LabelView>)
    requires
        all_counted(labels),
    ensures
        all_counted(ranked(labels)),
{
    lemma_members(labels);
    assert forall|i: int| 0 <= i < ranked(labels).len() implies (#[trigger] ranked(
        labels,
    )[i]).count > 0 by {
        let x = ranked(labels)[i];
        let j = choose|j: int| 0 <= j < labels.len() && labels[j] == x;
        assert(labels[j].count > 0);
    }
}

/// A ranking is in descending order of count.
pub proof fn lemma_ranked_descending(labels: Seq<LabelView>)
    ensures
        descending(ranked(labels)),
    decreases labels.len(),
{
    if labels.len() > 0 {
        let front = ranked(labels.drop_last());
        let last = labels.last();
        lemma_ranked_descending(labels.drop_last());
        lemma_slot(front, last.count);
        let p = slot(front, last.count);
        let all = placed(front, last);
        assert forall|i: int, j: int| 0 <= i < j < all.len() implies all[i].count
            >= all[j].count by {
            if i < p && j > p {
                assert(front[i].count >= front[p - 1].count || i == p - 1);
            }
        }
    }
}

/// The distinct terms of a vocabulary are terms of it, and no two of them
/// are the same.
proof fn lemma_distinct(vocabulary: Seq<Seq<char>>)
    ensures
        forall|i: int|
            0 <= i < distinct(vocabulary).len() ==> vocabulary.contains(
                #[trigger] distinct(vocabulary)[i],
            ),
        distinct(vocabulary).no_duplicates(),
    decreases vocabulary.len(),
{
    if vocabulary.len() > 0 {
        let front = vocabulary.drop_last();
        lemma_distinct(front);
        assert forall|x: Seq<char>| front.contains(x) implies vocabulary.contains(x) by {
            let i = choose|i: int| 0 <= i < front.len() && front[i] == x;
            assert(vocabulary[i] == x);
        }
        assert(vocabulary.contains(vocabulary.last())) by {
            assert(vocabulary[vocabulary.len() - 1] == vocabulary.last());
        }
    }
}

/// What holds of every result of the aggregator: each label was seen at
/// least once, the counts never rise from one label to the next, labels
/// with the same count stand in the order of the vocabulary, each name is a
/// term of the vocabulary, and no name comes twice.
pub proof fn lemma_aggregated(issues: Seq<Seq<IssueLabelView>>, vocabulary: Seq<Seq<char>>)
    ensures
        all_counted(aggregated(issues, vocabulary)),
        descending(aggregated(issues, vocabulary)),
        in_rank_order(aggregated(issues, vocabulary), vocabulary),
        all_named_in(aggregated(issues, vocabulary), vocabulary),
        names_differ(aggregated(issues, vocabulary)),
{
    let terms = distinct(vocabulary);
    let all = tally(flat(issues), terms);
    let kept = observed(all);
    let out = ranked(kept);
    lemma_distinct(vocabulary);
    lemma_members(all);
    lemma_members(kept);
    lemma_ranked_counted(kept);
    lemma_ranked_descending(kept);
    assert forall|i: int| 0 <= i < out.len() implies vocabulary.contains(
        (#[trigger] out[i]).name,
    ) by {
        let x = out[i];
        let j = choose|j: int| 0 <= j < kept.len() && kept[j] == x;
        let k = choose|k: int| 0 <= k < all.len() && all[k] == kept[j];
        assert(x.name == terms[k]);
    }
    lemma_names_differ(all, terms);
    let indices = lemma_observed_picks(all);
    let pos = |term: Seq<char>| terms.index_of(term);
    assert forall|a: int, b: int| 0 <= a < b < kept.len() implies pos((#[trigger] kept[a]).name)
        < pos((#[trigger] kept[b]).name) by {
        assert(indices[a] < indices[b]);
        assert(kept[a] == all[indices[a]]);
        assert(kept[b] == all[indices[b]]);
        assert(terms[indices[a]] == kept[a].name);
        assert(terms[indices[b]] == kept[b].name);
    }
    lemma_ranked_ties(kept, pos);
    assert forall|i: int, j: int| 0 <= i < j < out.len() implies ranks_before(
        vocabulary,
        #[trigger] out[i],
        #[trigger] out[j],
    ) by {
        assert(pos(out[i].name) == position(vocabulary, out[i].name));
        assert(pos(out[j].name) == position(vocabulary, out[j].name));
    }
}

/// Ranking breaks ties by the order in which the labels came: where the
/// labels come in rising order of `pos`, labels of the same count stay so.
proof fn lemma_ranked_ties(labels: Seq<LabelView>, pos: spec_fn(Seq<char>) -> int)
    requires
        forall|a: int, b: int|
            0 <= a < b < labels.len() ==> pos((#[trigger] labels[a]).name) < pos(
                (#[trigger] labels[b]).name,
            ),
    ensures
        forall|i: int, j: int|
            0 <= i < j < ranked(labels).len() ==> {
                let x = #[trigger] ranked(labels)[i];
                let y = #[trigger] ranked(labels)[j];
                x.count > y.count || (x.count == y.count && pos(x.name) < pos(y.name))
            },
    decreases labels.len(),
{
    if labels.len() > 0 {
        let front = labels.drop_last();
        let last = labels.last();
        assert forall|a: int, b: int| 0 <= a < b < front.len() implies pos(
            (#[trigger] front[a]).name,
        ) < pos((#[trigger] front[b]).name) by {
            assert(front[a] == labels[a]);
            assert(front[b] == labels[b]);
        }
        lemma_ranked_ties(front, pos);
        lemma_ranked_descending(front);
        lemma_members(front);
        let r = ranked(front);
        lemma_slot(r, last.count);
        let p = slot(r, last.count);
        let all = placed(r, last);
        assert forall|i: int, j: int| 0 <= i < j < all.len() implies {
            let x = #[trigger] all[i];
            let y = #[trigger] all[j];
            x.count > y.count || (x.count == y.count && pos(x.name) < pos(y.name))
        } by {
            if j == p {
                assert(all[i] == r[i]);
                assert(r[i].count >= r[p - 1].count || i == p - 1);
                let k = choose|k: int| 0 <= k < front.len() && front[k] == r[i];
                assert(labels[k] == r[i]);
                assert(labels[labels.len() - 1] == last);
            } else if i == p {
                assert(all[j] == r[j - 1]);
            } else {
                let a = if i < p {
                    i
                } else {
                    i - 1
                };
                let b = if j < p {
                    j
                } else {
                    j - 1
                };
                assert(all[i] == r[a]);
                assert(all[j] == r[b]);
            }
        }
    }
}

/// A subsequence in order: `indices` rise strictly and pick `part` out of
/// `whole`.
spec fn picks(part: Seq<LabelView>, whole: Seq<LabelView>, indices: Seq<int>) -> bool {
    &&& indices.len() == part.len()
    &&& forall|i: int| 0 <= i < part.len() ==> 0 <= #[trigger] indices[i] < whole.len()
    &&& forall|i: int| 0 <= i < part.len() ==> part[i] == whole[#[trigger] indices[i]]
    &&& forall|i: int, j: int|
        0 <= i < j < part.len() ==> #[trigger] indices[i] < #[trigger] indices[j]
}

proof fn lemma_observed_picks(labels: Seq<LabelView>) -> (indices: Seq<int>)
    ensures
        picks(observed(labels), labels, indices),
    decreases labels.len(),
{
    if labels.len() == 0 {
        Seq::empty()
    } else {
        let before = lemma_observed_picks(labels.drop_last());
        if labels.last().count > 0 {
            before.push(labels.len() - 1)
        } else {
            before
        }
    }
}

proof fn lemma_observed_names_differ(labels: Seq<LabelView>)
    requires
        names_differ(labels),
    ensures
        names_differ(observed(labels)),
{
    let indices = lemma_observed_picks(labels);
    let kept = observed(labels);
    assert forall|i: int, j: int| 0 <= i < j < kept.len() implies (#[trigger] kept[i]).name != (
    #[trigger] kept[j]).name by {
        assert(indices[i] < indices[j]);
        assert(kept[i] == labels[indices[i]]);
        assert(kept[j] == labels[indices[j]]);
    }
}

proof fn lemma_ranked_names_differ(labels: Seq<LabelView>)
    requires
        names_differ(labels),
    ensures
        names_differ(ranked(labels)),
        forall|i: int| 0 <= i < ranked(labels).len() ==> labels.contains(#[trigger] ranked(labels)[i]),
    decreases labels.len(),
{
    lemma_members(labels);
    if labels.len() > 0 {
        let front = labels.drop_last();
        let last = labels.last();
        assert(names_differ(front)) by {
            assert forall|i: int, j: int| 0 <= i < j < front.len() implies (#[trigger] front[i]).name
                != (#[trigger] front[j]).name by {
                assert(front[i] == labels[i]);
                assert(front[j] == labels[j]);
            }
        }
        lemma_ranked_names_differ(front);
        lemma_slot(ranked(front), last.count);
        let r = ranked(front);
        let p = slot(r, last.count);
        let all = placed(r, last);
        assert forall|i: int| 0 <= i < r.len() implies (#[trigger] r[i]).name != last.name by {
            let k = choose|k: int| 0 <= k < front.len() && front[k] == r[i];
            assert(labels[k] == r[i]);
            assert(labels[labels.len() - 1] == last);
        }
        assert forall|i: int, j: int| 0 <= i < j < all.len() implies (#[trigger] all[i]).name != (
        #[trigger] all[j]).name by {
            if i == p {
                assert(all[j] == r[j - 1]);
            } else if j == p {
                assert(all[i] == r[i]);
            } else {
                let a = if i < p {
                    i
                } else {
                    i - 1
                };
                let b = if j < p {
                    j
                } else {
                    j - 1
                };
                assert(all[i] == r[a]);
                assert(all[j] == r[b]);
            }
        }
    }
}

proof fn lemma_names_differ(all: Seq<LabelView>, terms: Seq<Seq<char>>)
    requires
        terms.no_duplicates(),
        all.len() == terms.len(),
        forall|k: int| 0 <= k < terms.len() ==> (#[trigger] all[k]).name == terms[k],
    ensures
        names_differ(ranked(observed(all))),
{
    assert(names_differ(all));
    lemma_observed_names_differ(all);
    lemma_ranked_names_differ(observed(all));
}

proof fn lemma_count_bound(seen: Seq<IssueLabelView>, term: Seq<char>)
    ensures
        count_of(seen, term) <= seen.len(),
    decreases seen.len(),
{
    if seen.len() > 0 {
        lemma_count_bound(seen.drop_last(), term);
    }
}

/// The labels of the first issues are no more than the labels of all.
pub proof fn lemma_flat_take(issues: Seq<Seq<IssueLabelView>>, n: int)
    requires
        0 <= n <= issues.len(),
    ensures
        flat(issues.take(n)).len() <= flat(issues).len(),
        n < issues.len() ==> flat(issues.take(n)).len() + issues[n].len() <= flat(issues).len(),
    decreases issues.len(),
{
    if n == issues.len() {
        assert(issues.take(n) == issues);
    } else {
        let front = issues.drop_last();
        if n == issues.len() - 1 {
            assert(issues.take(n) == front);
        } else {
            lemma_flat_take(front, n);
            assert(front.take(n) == issues.take(n));
        }
    }
}

/// What the three columns of a running tally hold after the labels `seen`.
spec fn tallied(
    terms: Seq<Seq<char>>,
    counts: Seq<i64>,
    colors: Seq<String>,
    seen: Seq<IssueLabelView>,
) -> bool {
    &&& counts.len() == terms.len()
    &&& colors.len() == terms.len()
    &&& forall|k: int|
        0 <= k < terms.len() ==> #[trigger] counts[k] == count_of(seen, terms[k])
    &&& forall|k: int|
        0 <= k < terms.len() ==> (#[trigger] colors[k])@ == color_of(seen, terms[k])
}

fn holds(names: &Vec<String>, term: &String) -> (found: bool)
    ensures
        found == names.deep_view().contains(term@),
{
    let mut i: usize = 0;
    while i < names.len()
        invariant
            i <= names.len(),
            forall|k: int| 0 <= k < i ==> names.deep_view()[k] != term@,
        decreases names.len() - i,
    {
        if names[i] == *term {
            assert(names.deep_view()[i as int] == term@);
            return true;
        }
        i = i + 1;
    }
    false
}

fn distinct_terms(vocabulary: &Vec<String>) -> (names: Vec<String>)
    ensures
        names.deep_view() == distinct(vocabulary.deep_view()),
{
    let mut names: Vec<String> = Vec::new();
    let mut i: usize = 0;
    assert(vocabulary.deep_view().take(0) == Seq::<Seq<char>>::empty());
    while i < vocabulary.len()
        invariant
            i <= vocabulary.len(),
            names.deep_view() == distinct(vocabulary.deep_view().take(i as int)),
        decreases vocabulary.len() - i,
    {
        proof {
            let next = vocabulary.deep_view().take(i + 1);
            assert(next.drop_last() == vocabulary.deep_view().take(i as int));
            assert(next.last() == vocabulary[i as int]@);
        }
        if !holds(&names, &vocabulary[i]) {
            let ghost before = names.deep_view();
            names.push(vocabulary[i].clone());
            assert(names.deep_view() == before.push(vocabulary[i as int]@));
        }
        i = i + 1;
    }
    assert(vocabulary.deep_view().take(i as int) == vocabulary.deep_view());
    names
}

fn note(
    names: &Vec<String>,
    counts: &mut Vec<i64>,
    colors: &mut Vec<String>,
    label: &IssueLabel,
    Ghost(seen): Ghost<Seq<IssueLabelView>>,
)
    requires
        tallied(names.deep_view(), old(counts)@, old(colors)@, seen),
        seen.len() < i64::MAX,
    ensures
        tallied(names.deep_view(), final(counts)@, final(colors)@, seen.push(label@)),
{
    let ghost terms = names.deep_view();
    let ghost after = seen.push(label@);
    proof {
        assert(after.drop_last() == seen);
        assert(after.last() == label@);
    }
    let mut k: usize = 0;
    while k < names.len()
        invariant
            k <= names.len(),
            terms == names.deep_view(),
            after == seen.push(label@),
            after.drop_last() == seen,
            after.last() == label@,
            seen.len() < i64::MAX,
            counts.len() == terms.len(),
            colors.len() == terms.len(),
            forall|j: int|
                0 <= j < k ==> #[trigger] counts[j] == count_of(after, terms[j]),
            forall|j: int| 0 <= j < k ==> (#[trigger] colors[j])@ == color_of(after, terms[j]),
            forall|j: int|
                k <= j < terms.len() ==> #[trigger] counts[j] == count_of(seen, terms[j]),
            forall|j: int|
                k <= j < terms.len() ==> (#[trigger] colors[j])@ == color_of(seen, terms[j]),
        decreases names.len() - k,
    {
        assert(terms[k as int] == names[k as int]@);
        if names[k] == label.name {
            proof {
                lemma_count_bound(seen, terms[k as int]);
            }
            let raised: i64 = counts[k] + 1;
            counts.set(k, raised);
            colors.set(k, label.color.clone());
        }
        k = k + 1;
    }
}

fn place(ranking: &mut Vec<Label>, label: Label)
    ensures
        final(ranking).deep_view() == placed(old(ranking).deep_view(), label@),
{
    let mut p: usize = ranking.len();
    let ghost views = ranking.deep_view();
    assert(views.take(p as int) == views);
    while p > 0 && ranking[p - 1].count < label.count
        invariant
            p <= ranking.len(),
            views == ranking.deep_view(),
            slot(views, label.count as int) == slot(views.take(p as int), label.count as int),
        decreases p,
    {
        assert(views.take(p as int).drop_last() == views.take(p - 1));
        assert(views.take(p as int).last() == ranking[p - 1]@);
        p = p - 1;
    }
    proof {
        if p > 0 {
            assert(views.take(p as int).last() == ranking[p - 1]@);
        }
        assert(slot(views, label.count as int) == p);
    }
    let ghost view = label@;
    ranking.insert(p, label);
    assert(ranking.deep_view() == views.insert(p as int, view));
}

/// Counts, for each term of `vocabulary`, the labels on `issues` that bear
/// its name, and ranks the terms that were seen at least once.
pub fn aggregate(issues: &Vec<Vec<IssueLabel>>, vocabulary: &Vec<String>) -> (out: Vec<Label>)
    requires
        flat(issues.deep_view()).len() <= i64::MAX,
    ensures
        out.deep_view() == aggregated(issues.deep_view(), vocabulary.deep_view()),
        all_counted(out.deep_view()),
        descending(out.deep_view()),
        in_rank_order(out.deep_view(), vocabulary.deep_view()),
        all_named_in(out.deep_view(), vocabulary.deep_view()),
        names_differ(out.deep_view()),
{
    let names = distinct_terms(vocabulary);
    let ghost terms = names.deep_view();
    let ghost lists = issues.deep_view();
    let mut counts: Vec<i64> = Vec::new();
    let mut colors: Vec<String> = Vec::new();
    let mut k: usize = 0;
    while k < names.len()
        invariant
            k <= names.len(),
            counts.len() == k,
            colors.len() == k,
            forall|j: int| 0 <= j < k ==> #[trigger] counts[j] == 0,
            forall|j: int| 0 <= j < k ==> (#[trigger] colors[j])@ == Seq::<char>::empty(),
        decreases names.len() - k,
    {
        counts.push(0);
        colors.push(String::new());
        k = k + 1;
    }
    let ghost mut seen: Seq<IssueLabelView> = Seq::empty();
    let mut a: usize = 0;
    assert(lists.take(0) == Seq::<Seq<IssueLabelView>>::empty());
    while a < issues.len()
        invariant
            a <= issues.len(),
            terms == names.deep_view(),
            lists == issues.deep_view(),
            flat(lists).len() <= i64::MAX,
            seen == flat(lists.take(a as int)),
            tallied(terms, counts@, colors@, seen),
        decreases issues.len() - a,
    {
        let issue = &issues[a];
        let ghost start = seen;
        let mut b: usize = 0;
        proof {
            lemma_flat_take(lists, a as int);
            assert(lists[a as int] == issue.deep_view());
            assert(issue.deep_view().take(0) == Seq::<IssueLabelView>::empty());
            assert(start + Seq::<IssueLabelView>::empty() == start);
        }
        while b < issue.len()
            invariant
                b <= issue.len(),
                terms == names.deep_view(),
                start.len() + issue.len() <= i64::MAX,
                seen == start + issue.deep_view().take(b as int),
                tallied(terms, counts@, colors@, seen),
            decreases issue.len() - b,
        {
            proof {
                assert(issue.deep_view().take(b + 1) == issue.deep_view().take(b as int).push(
                    issue[b as int]@,
                ));
                assert(start + issue.deep_view().take(b + 1) == seen.push(issue[b as int]@));
            }
            note(&names, &mut counts, &mut colors, &issue[b], Ghost(seen));
            proof {
                seen = seen.push(issue[b as int]@);
            }
            b = b + 1;
        }
        proof {
            assert(issue.deep_view().take(b as int) == issue.deep_view());
            assert(lists.take(a + 1).drop_last() == lists.take(a as int));
            assert(lists.take(a + 1).last() == issue.deep_view());
        }
        a = a + 1;
    }
    assert(lists.take(a as int) == lists);
    let ghost all = tally(seen, terms);
    let mut out: Vec<Label> = Vec::new();
    let mut k: usize = 0;
    assert(all.take(0) == Seq::<LabelView>::empty());
    assert(out.deep_view() == Seq::<LabelView>::empty());
    while k < names.len()
        invariant
            k <= names.len(),
            terms == names.deep_view(),
            all == tally(seen, terms),
            tallied(terms, counts@, colors@, seen),
            out.deep_view() == ranked(observed(all.take(k as int))),
        decreases names.len() - k,
    {
        proof {
            assert(all.take(k + 1).drop_last() == all.take(k as int));
            assert(all.take(k + 1).last() == all[k as int]);
            assert(terms[k as int] == names[k as int]@);
        }
        if counts[k] > 0 {
            let label = Label {
                name: names[k].clone(),
                count: counts[k],
                color: colors[k].clone(),
            };
            proof {
                assert(label@ == all[k as int]);
                let kept = observed(all.take(k as int));
                assert(kept.push(label@).drop_last() == kept);
                assert(kept.push(label@).last() == label@);
            }
            place(&mut out, label);
        }
        k = k + 1;
    }
    proof {
        assert(all.take(k as int) == all);
        lemma_aggregated(lists, vocabulary.deep_view());
    }
    out
}

} // verus!
