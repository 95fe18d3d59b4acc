//! Brings the finished crawls into one order and writes them out as one
//! text.
//!
//! The crawls may finish in any order. Their results are ordered by the name
//! under which a subject is shown, compared byte by byte in UTF-8, as
//! strings are ordered everywhere else. Subjects of the same name are
//! ordered by their text, compared in the same way, so that the result
//! never shows in which order the crawls finished.
use crate::reader::lemma_language_text_decides;
use crate::repository::language_text;
use crate::repository::Language;
use crate::repository::LanguageView;
use crate::repository::ToJavascript;
use crate::text::join;
use crate::text::joined;
use crate::text::texts;
use vstd::prelude::*;
use vstd::utf8::encode_utf8;

verus! {

/// `a` comes before `b`, or is `b`: at the first place where they differ
/// `a` has the lower byte, or `a` ends there.
pub open spec fn precedes(a: Seq<u8>, b: Seq<u8>) -> bool
    decreases a.len(),
{
    if a.len() == 0 {
        true
    } else if b.len() == 0 {
        false
    } else if a[0] != b[0] {
        a[0] < b[0]
    } else {
        precedes(a.drop_first(), b.drop_first())
    }
}

/// The order of two texts: that of their bytes in UTF-8.
pub open spec fn name_precedes(a: Seq<char>, b: Seq<char>) -> bool {
    precedes(encode_utf8(a), encode_utf8(b))
}

/// What a subject is ordered by: its name, and behind it its text.
pub struct SortKey {
    pub name: Seq<char>,
    pub text: Seq<char>,
}

/// The key of a subject.
#[verifier::opaque]
pub open spec fn sort_key(language: LanguageView) -> SortKey {
    SortKey { name: language.name, text: language_text(language) }
}

/// The order of two keys: that of the names, and for the same name that of
/// the texts.
#[verifier::opaque]
pub open spec fn key_precedes(a: SortKey, b: SortKey) -> bool {
    if a.name == b.name {
        name_precedes(a.text, b.text)
    } else {
        name_precedes(a.name, b.name)
    }
}

/// The order of two subjects: that of their keys.
pub open spec fn goes_before(a: LanguageView, b: LanguageView) -> bool {
    key_precedes(sort_key(a), sort_key(b))
}

/// Of two byte strings one comes before the other, or they are the same.
pub proof fn lemma_precedes_total(a: Seq<u8>, b: Seq<u8>)
    ensures
        precedes(a, b) || precedes(b, a),
    decreases a.len(),
{
    if a.len() > 0 && b.len() > 0 && a[0] == b[0] {
        lemma_precedes_total(a.drop_first(), b.drop_first());
    }
}

/// What comes before something that comes before a third comes before the
/// third.
pub proof fn lemma_precedes_transitive(a: Seq<u8>, b: Seq<u8>, c: Seq<u8>)
    requires
        precedes(a, b),
        precedes(b, c),
    ensures
        precedes(a, c),
    decreases a.len(),
{
    if a.len() > 0 && b.len() > 0 && c.len() > 0 && a[0] == b[0] && b[0] == c[0] {
        lemma_precedes_transitive(a.drop_first(), b.drop_first(), c.drop_first());
    }
}

/// Two byte strings of which each comes before the other are the same.
pub proof fn lemma_precedes_antisymmetric(a: Seq<u8>, b: Seq<u8>)
    requires
        precedes(a, b),
        precedes(b, a),
    ensures
        a == b,
    decreases a.len(),
{
    if a.len() == 0 {
        assert(a == b);
    } else {
        lemma_precedes_antisymmetric(a.drop_first(), b.drop_first());
        assert(a == seq![a[0]] + a.drop_first());
        assert(b == seq![b[0]] + b.drop_first());
    }
}

/// Two texts of which each comes before the other are the same.
pub proof fn lemma_same_text(a: Seq<char>, b: Seq<char>)
    requires
        name_precedes(a, b),
        name_precedes(b, a),
    ensures
        a == b,
{
    lemma_precedes_antisymmetric(encode_utf8(a), encode_utf8(b));
    vstd::utf8::encode_utf8_decode_utf8(a);
    vstd::utf8::encode_utf8_decode_utf8(b);
}

/// The order of keys is an order: of two keys one comes before the other,
/// what comes before a key comes before all that the key comes before, and
/// two keys of which each comes before the other are the same.
pub proof fn lemma_key_order(a: SortKey, b: SortKey, c: SortKey)
    ensures
        key_precedes(a, b) || key_precedes(b, a),
        key_precedes(a, a),
        key_precedes(a, b) && key_precedes(b, c) ==> key_precedes(a, c),
        key_precedes(a, b) && key_precedes(b, a) ==> a == b,
        key_precedes(a, b) ==> name_precedes(a.name, b.name),
{
    reveal(key_precedes);
    lemma_precedes_total(encode_utf8(a.name), encode_utf8(b.name));
    lemma_precedes_total(encode_utf8(a.text), encode_utf8(b.text));
    lemma_precedes_total(encode_utf8(a.name), encode_utf8(a.name));
    lemma_precedes_total(encode_utf8(a.text), encode_utf8(a.text));
    if key_precedes(a, b) && key_precedes(b, a) {
        if a.name == b.name {
            lemma_same_text(a.text, b.text);
        } else {
            lemma_same_text(a.name, b.name);
        }
    }
    if key_precedes(a, b) && key_precedes(b, c) {
        if a.name == b.name && b.name == c.name {
            lemma_precedes_transitive(
                encode_utf8(a.text),
                encode_utf8(b.text),
                encode_utf8(c.text),
            );
        } else if a.name != b.name && b.name != c.name {
            lemma_precedes_transitive(
                encode_utf8(a.name),
                encode_utf8(b.name),
                encode_utf8(c.name),
            );
            if a.name == c.name {
                lemma_same_text(a.name, b.name);
            }
        }
    }
}

/// Where a subject goes into an ordered list: in front of the first one
/// that it goes before.
pub open spec fn place(ordered: Seq<LanguageView>, language: LanguageView) -> int
    decreases ordered.len(),
{
    if ordered.len() == 0 {
        0
    } else if goes_before(language, ordered[0]) {
        0
    } else {
        1 + place(ordered.drop_first(), language)
    }
}

/// The subjects in the order of their names, and those of the same name in
/// the order of their texts.
pub open spec fn sorted_by_name(languages: Seq<LanguageView>) -> Seq<LanguageView>
    decreases languages.len(),
{
    if languages.len() == 0 {
        Seq::empty()
    } else {
        let rest = sorted_by_name(languages.drop_first());
        rest.insert(place(rest, languages[0]), languages[0])
    }
}

/// Each subject goes before every subject behind it.
pub open spec fn in_order(languages: Seq<LanguageView>) -> bool {
    forall|i: int, j: int|
        0 <= i < j < languages.len() ==> goes_before(
            #[trigger] languages[i],
            #[trigger] languages[j],
        )
}

/// No subject stands behind one whose name comes strictly after its own.
pub open spec fn in_name_order(languages: Seq<LanguageView>) -> bool {
    forall|i: int, j: int|
        0 <= i < j < languages.len() ==> name_precedes(
            (#[trigger] languages[i]).name,
            (#[trigger] languages[j]).name,
        )
}

/// The keys of the subjects, in order.
pub open spec fn keys_of(languages: Seq<LanguageView>) -> Seq<SortKey> {
    languages.map_values(|l: LanguageView| sort_key(l))
}

/// Each key comes before every key behind it.
pub open spec fn keys_in_order(keys: Seq<SortKey>) -> bool {
    forall|i: int, j: int|
        0 <= i < j < keys.len() ==> key_precedes(#[trigger] keys[i], #[trigger] keys[j])
}

proof fn lemma_place(ordered: Seq<LanguageView>, language: LanguageView)
    ensures
        0 <= place(ordered, language) <= ordered.len(),
        forall|k: int|
            0 <= k < place(ordered, language) ==> !goes_before(language, #[trigger] ordered[k]),
        place(ordered, language) < ordered.len() ==> goes_before(
            language,
            ordered[place(ordered, language)],
        ),
    decreases ordered.len(),
{
    if ordered.len() > 0 && !goes_before(language, ordered[0]) {
        let rest = ordered.drop_first();
        lemma_place(rest, language);
        assert forall|k: int| 0 <= k < place(ordered, language) implies !goes_before(
            language,
            #[trigger] ordered[k],
        ) by {
            if k > 0 {
                assert(ordered[k] == rest[k - 1]);
            }
        }
        if place(ordered, language) < ordered.len() {
            assert(ordered[place(ordered, language)] == rest[place(rest, language)]);
        }
    }
}

/// Ordering gives a list in order, and so in the order of the names, that
/// holds the same subjects, each as often as before.
pub proof fn lemma_sorted_by_name(languages: Seq<LanguageView>)
    ensures
        in_order(sorted_by_name(languages)),
        in_name_order(sorted_by_name(languages)),
        sorted_by_name(languages).len() == languages.len(),
        sorted_by_name(languages).to_multiset() == languages.to_multiset(),
    decreases languages.len(),
{
    broadcast use vstd::seq_lib::to_multiset_insert;

    if languages.len() == 0 {
        assert(languages == Seq::<LanguageView>::empty());
    } else {
        let first = languages[0];
        let rest = sorted_by_name(languages.drop_first());
        let p = place(rest, first);
        lemma_sorted_by_name(languages.drop_first());
        lemma_place(rest, first);
        let all = rest.insert(p, first);
        assert forall|i: int, j: int| 0 <= i < j < all.len() implies goes_before(
            #[trigger] all[i],
            #[trigger] all[j],
        ) by {
            if j == p {
                assert(all[i] == rest[i]);
                lemma_key_order(sort_key(first), sort_key(rest[i]), sort_key(first));
            } else if i == p {
                assert(all[j] == rest[j - 1]);
                if j - 1 > p {
                    lemma_key_order(sort_key(first), sort_key(rest[p]), sort_key(rest[j - 1]));
                }
            } else {
                let a = if i < p {
                    i
                } else {
                    i - 1
                };
                let b = if j < p {
                    j
                } else {
                    j - 1
                };
                assert(all[i] == rest[a]);
                assert(all[j] == rest[b]);
            }
        }
        assert forall|i: int, j: int| 0 <= i < j < all.len() implies name_precedes(
            (#[trigger] all[i]).name,
            (#[trigger] all[j]).name,
        ) by {
            assert(goes_before(all[i], all[j]));
            lemma_key_order(sort_key(all[i]), sort_key(all[j]), sort_key(all[j]));
            reveal(sort_key);
        }
        assert(languages.to_multiset() == languages.drop_first().to_multiset().insert(first)) by {
            assert(languages == languages.drop_first().insert(0, first));
        }
    }
}

/// Two lists that hold the same subjects, each as often as the other, hold
/// the same keys, each as often as the other.
proof fn lemma_same_keys(a: Seq<LanguageView>, b: Seq<LanguageView>)
    requires
        a.to_multiset() == b.to_multiset(),
    ensures
        keys_of(a).to_multiset() == keys_of(b).to_multiset(),
    decreases a.len(),
{
    broadcast use
        vstd::seq_lib::to_multiset_insert,
        vstd::seq_lib::to_multiset_len,
        vstd::seq_lib::to_multiset_contains,
        vstd::multiset::lemma_insert_increases_count_by_1,
        vstd::multiset::lemma_insert_other_elements_unchanged,
    ;

    assert(a.len() == b.len()) by {
        assert(a.to_multiset().len() == a.len());
        assert(b.to_multiset().len() == b.len());
    }
    if a.len() == 0 {
        assert(keys_of(a) == keys_of(b));
    } else {
        let first = a[0];
        assert(a.contains(first));
        assert(b.to_multiset().count(first) > 0);
        let k = choose|k: int| 0 <= k < b.len() && b[k] == first;
        let a_rest = a.drop_first();
        let b_rest = b.remove(k);
        assert(a == a_rest.insert(0, first));
        assert(b == b_rest.insert(k, first));
        assert(a_rest.to_multiset().insert(first) == b_rest.to_multiset().insert(first));
        assert(a_rest.to_multiset() =~= b_rest.to_multiset()) by {
            assert forall|v: LanguageView| a_rest.to_multiset().count(v) == b_rest.to_multiset().count(
                v,
            ) by {
                assert(a_rest.to_multiset().insert(first).count(v) == b_rest.to_multiset().insert(
                    first,
                ).count(v));
            }
        }
        lemma_same_keys(a_rest, b_rest);
        assert(keys_of(a) == keys_of(a_rest).insert(0, sort_key(first)));
        assert(keys_of(b) == keys_of(b_rest).insert(k, sort_key(first)));
    }
}

/// There is one order only: two lists of keys in order that hold the same
/// keys, each as often as the other, are the same list.
proof fn lemma_one_order(x: Seq<SortKey>, y: Seq<SortKey>)
    requires
        keys_in_order(x),
        keys_in_order(y),
        x.to_multiset() == y.to_multiset(),
    ensures
        x == y,
    decreases x.len(),
{
    broadcast use
        vstd::seq_lib::to_multiset_insert,
        vstd::seq_lib::to_multiset_len,
        vstd::seq_lib::to_multiset_contains,
        vstd::multiset::lemma_insert_increases_count_by_1,
        vstd::multiset::lemma_insert_other_elements_unchanged,
    ;

    assert(x.len() == y.len()) by {
        assert(x.to_multiset().len() == x.len());
        assert(y.to_multiset().len() == y.len());
    }
    if x.len() == 0 {
        assert(x == y);
    } else {
        let x0 = x[0];
        let y0 = y[0];
        assert(x.contains(x0));
        assert(y.contains(y0));
        assert(y.to_multiset().count(x0) > 0);
        assert(x.to_multiset().count(y0) > 0);
        let k = choose|k: int| 0 <= k < y.len() && y[k] == x0;
        let m = choose|m: int| 0 <= m < x.len() && x[m] == y0;
        lemma_key_order(x0, y0, x0);
        assert(key_precedes(y0, x0)) by {
            if k > 0 {
                assert(key_precedes(y[0], y[k]));
            } else {
                lemma_key_order(y0, y0, y0);
            }
        }
        assert(key_precedes(x0, y0)) by {
            if m > 0 {
                assert(key_precedes(x[0], x[m]));
            } else {
                lemma_key_order(x0, x0, x0);
            }
        }
        assert(x0 == y0);
        let xs = x.drop_first();
        let ys = y.drop_first();
        assert(x == xs.insert(0, x0));
        assert(y == ys.insert(0, y0));
        assert(xs.to_multiset().insert(x0) == ys.to_multiset().insert(x0));
        assert(xs.to_multiset() =~= ys.to_multiset()) by {
            assert forall|v: SortKey| xs.to_multiset().count(v) == ys.to_multiset().count(v) by {
                assert(xs.to_multiset().insert(x0).count(v) == ys.to_multiset().insert(x0).count(
                    v,
                ));
            }
        }
        assert(keys_in_order(xs)) by {
            assert forall|i: int, j: int| 0 <= i < j < xs.len() implies key_precedes(
                #[trigger] xs[i],
                #[trigger] xs[j],
            ) by {
                assert(xs[i] == x[i + 1]);
                assert(xs[j] == x[j + 1]);
            }
        }
        assert(keys_in_order(ys)) by {
            assert forall|i: int, j: int| 0 <= i < j < ys.len() implies key_precedes(
                #[trigger] ys[i],
                #[trigger] ys[j],
            ) by {
                assert(ys[i] == y[i + 1]);
                assert(ys[j] == y[j + 1]);
            }
        }
        lemma_one_order(xs, ys);
    }
}

/// The text of the whole result: the subjects as one exported list, one
/// subject after the other.
pub open spec fn export_text(languages: Seq<LanguageView>) -> Seq<char> {
    "export default [\n"@ + joined(
        languages.map_values(|l: LanguageView| language_text(l)),
        ",\n"@,
    ) + "\n];"@
}

/// The order in which the subjects come in never shows in the result: two
/// lists that hold the same subjects, each as often as the other, are
/// ordered into the same list, and so into the same text as a whole.
pub proof fn lemma_arrival_order_is_irrelevant(a: Seq<LanguageView>, b: Seq<LanguageView>)
    requires
        a.to_multiset() == b.to_multiset(),
    ensures
        sorted_by_name(a) == sorted_by_name(b),
        keys_of(sorted_by_name(a)) == keys_of(sorted_by_name(b)),
        sorted_by_name(a).len() == sorted_by_name(b).len(),
        forall|i: int|
            0 <= i < sorted_by_name(a).len() ==> (#[trigger] sorted_by_name(a)[i]).name
                == sorted_by_name(b)[i].name,
        forall|i: int|
            0 <= i < sorted_by_name(a).len() ==> language_text(#[trigger] sorted_by_name(a)[i])
                == language_text(sorted_by_name(b)[i]),
        export_text(sorted_by_name(a)) == export_text(sorted_by_name(b)),
{
    let x = sorted_by_name(a);
    let y = sorted_by_name(b);
    lemma_sorted_by_name(a);
    lemma_sorted_by_name(b);
    lemma_same_keys(x, y);
    assert(keys_in_order(keys_of(x))) by {
        assert forall|i: int, j: int| 0 <= i < j < keys_of(x).len() implies key_precedes(
            #[trigger] keys_of(x)[i],
            #[trigger] keys_of(x)[j],
        ) by {
            assert(goes_before(x[i], x[j]));
        }
    }
    assert(keys_in_order(keys_of(y))) by {
        assert forall|i: int, j: int| 0 <= i < j < keys_of(y).len() implies key_precedes(
            #[trigger] keys_of(y)[i],
            #[trigger] keys_of(y)[j],
        ) by {
            assert(goes_before(y[i], y[j]));
        }
    }
    lemma_one_order(keys_of(x), keys_of(y));
    assert forall|i: int| 0 <= i < x.len() implies (#[trigger] x[i]).name == y[i].name
        && language_text(x[i]) == language_text(y[i]) by {
        reveal(sort_key);
        assert(keys_of(x)[i] == sort_key(x[i]));
        assert(keys_of(y)[i] == sort_key(y[i]));
    }
    assert(x.map_values(|l: LanguageView| language_text(l)) == y.map_values(
        |l: LanguageView| language_text(l),
    ));
    assert forall|i: int| 0 <= i < x.len() implies #[trigger] x[i] == y[i] by {
        lemma_language_text_decides(x[i], y[i]);
    }
    assert(x == y);
}

/// Whether the text `a` comes before the text `b`, or is `b`.
pub fn comes_first(a: &str, b: &str) -> (r: bool)
    ensures
        r == name_precedes(a@, b@),
{
    let x = a.as_bytes();
    let y = b.as_bytes();
    let mut i: usize = 0;
    assert(x@.skip(0) == x@);
    assert(y@.skip(0) == y@);
    while i < x.len() && i < y.len()
        invariant
            i <= x.len(),
            i <= y.len(),
            x@ == encode_utf8(a@),
            y@ == encode_utf8(b@),
            precedes(x@, y@) == precedes(x@.skip(i as int), y@.skip(i as int)),
        decreases x.len() - i,
    {
        proof {
            assert(x@.skip(i as int)[0] == x@[i as int]);
            assert(y@.skip(i as int)[0] == y@[i as int]);
            assert(x@.skip(i as int).drop_first() == x@.skip(i + 1));
            assert(y@.skip(i as int).drop_first() == y@.skip(i + 1));
        }
        if x[i] != y[i] {
            return x[i] < y[i];
        }
        i = i + 1;
    }
    i == x.len()
}

/// Whether the subject `a`, whose text is `a_text`, goes before the subject
/// `b`, whose text is `b_text`, or is ordered as `b` is.
fn goes_first(a: &Language, a_text: &String, b: &Language, b_text: &String) -> (r: bool)
    requires
        a_text@ == language_text(a@),
        b_text@ == language_text(b@),
    ensures
        r == goes_before(a@, b@),
{
    proof {
        reveal(sort_key);
        reveal(key_precedes);
    }
    if a.name == b.name {
        comes_first(a_text.as_str(), b_text.as_str())
    } else {
        comes_first(a.name.as_str(), b.name.as_str())
    }
}

/// The texts are those of the subjects, place by place.
spec fn written(rendered: Seq<String>, languages: Seq<LanguageView>) -> bool {
    &&& rendered.len() == languages.len()
    &&& forall|i: int|
        0 <= i < rendered.len() ==> (#[trigger] rendered[i])@ == language_text(languages[i])
}

fn put(ordered: &mut Vec<Language>, rendered: &mut Vec<String>, language: Language)
    requires
        written(old(rendered)@, old(ordered).deep_view()),
    ensures
        final(ordered).deep_view() == old(ordered).deep_view().insert(
            place(old(ordered).deep_view(), language@),
            language@,
        ),
        written(final(rendered)@, final(ordered).deep_view()),
{
    let ghost views = ordered.deep_view();
    let ghost view = language@;
    let ghost before = rendered@;
    let text = language.to_javascript();
    let mut p: usize = 0;
    assert(views.skip(0) == views);
    while p < ordered.len() && !goes_first(&language, &text, &ordered[p], &rendered[p])
        invariant
            p <= ordered.len(),
            views == ordered.deep_view(),
            view == language@,
            before == rendered@,
            written(before, views),
            text@ == language_text(view),
            place(views, view) == p + place(views.skip(p as int), view),
        decreases ordered.len() - p,
    {
        proof {
            assert(views.skip(p as int)[0] == ordered[p as int]@);
            assert(views.skip(p as int).drop_first() == views.skip(p + 1));
        }
        p = p + 1;
    }
    proof {
        if p < ordered.len() {
            assert(views.skip(p as int)[0] == ordered[p as int]@);
        }
        assert(place(views, view) == p);
    }
    ordered.insert(p, language);
    rendered.insert(p, text);
    proof {
        assert(ordered.deep_view() == views.insert(p as int, view));
        assert forall|i: int| 0 <= i < rendered.len() implies (#[trigger] rendered[i])@
            == language_text(ordered.deep_view()[i]) by {
            if i < p {
                assert(rendered[i] == before[i]);
            } else if i > p {
                assert(rendered[i] == before[i - 1]);
            }
        }
    }
}

/// Orders the finished subjects by the name under which they are shown, and
/// subjects of the same name by their text, whatever the order in which
/// they came in.
pub fn sort_by_name(languages: Vec<Language>) -> (out: Vec<Language>)
    ensures
        out.deep_view() == sorted_by_name(languages.deep_view()),
        in_order(out.deep_view()),
        in_name_order(out.deep_view()),
        out.deep_view().to_multiset() == languages.deep_view().to_multiset(),
{
    let ghost all = languages.deep_view();
    let mut left = languages;
    let mut out: Vec<Language> = Vec::new();
    let mut rendered: Vec<String> = Vec::new();
    assert(all.skip(left.len() as int) == Seq::<LanguageView>::empty());
    assert(out.deep_view() == Seq::<LanguageView>::empty());
    while left.len() > 0
        invariant
            left.len() <= all.len(),
            left.deep_view() == all.take(left.len() as int),
            out.deep_view() == sorted_by_name(all.skip(left.len() as int)),
            written(rendered@, out.deep_view()),
        decreases left.len(),
    {
        let ghost n = left.len() as int;
        let ghost before = left.deep_view();
        let last = left.pop().unwrap();
        proof {
            assert(last@ == before[n - 1]);
            assert(left.deep_view() == all.take(n - 1));
            assert(all.skip(n - 1)[0] == last@);
            assert(all.skip(n - 1).drop_first() == all.skip(n));
        }
        put(&mut out, &mut rendered, last);
    }
    proof {
        assert(all.skip(0) == all);
        lemma_sorted_by_name(all);
    }
    out
}

/// Writes the subjects, in the order given, as one exported list.
pub fn export(languages: &Vec<Language>) -> (out: String)
    ensures
        out@ == export_text(languages.deep_view()),
{
    let mut items: Vec<String> = Vec::new();
    let mut i: usize = 0;
    while i < languages.len()
        invariant
            i <= languages.len(),
            items.len() == i,
            forall|k: int| 0 <= k < i ==> (#[trigger] items@[k])@ == language_text(languages@[k]@),
        decreases languages.len() - i,
    {
        items.push(languages[i].to_javascript());
        i = i + 1;
    }
    assert(texts(items@) == languages.deep_view().map_values(|l: LanguageView| language_text(l)));
    let body = join(&items, ",\n");
    let mut out = String::from_str("export default [\n");
    out.append(body.as_str());
    out.append("\n];");
    out
}

/// The text of the whole result for subjects that came in in any order:
/// they are ordered, then written out.
pub fn assemble(languages: Vec<Language>) -> (out: String)
    ensures
        out@ == export_text(sorted_by_name(languages.deep_view())),
{
    let ordered = sort_by_name(languages);
    export(&ordered)
}

} // verus!
