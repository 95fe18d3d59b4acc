//! Reads back what the emitter writes.
//!
//! Every reader takes a text and gives the value that stands at its front
//! together with what follows the value, or nothing where the text does not
//! begin with such a value. For every value the text that the emitter
//! writes reads back as that value, whatever follows it.
use crate::text::decimal;
use crate::text::digit;
use crate::text::digits;
use crate::text::joined;
use crate::repository::field;
use crate::repository::label_text;
use crate::repository::list;
use crate::repository::object;
use crate::repository::language_text;
use crate::repository::repository_fields;
use crate::repository::repository_text;
use crate::repository::string_list;
use crate::repository::topic_text;
use crate::repository::LanguageView;
use crate::repository::RepositoryView;
use crate::repository::LabelView;
use crate::repository::TopicView;
use crate::text::lemma_quoted_reads_back;
use crate::text::quoted;
use crate::text::read_quoted;
use vstd::prelude::*;

verus! {

/// The number that a digit stands for; nothing for any other character.
pub open spec fn digit_value(c: char) -> Option<int> {
    if c == '0' {
        Some(0)
    } else if c == '1' {
        Some(1)
    } else if c == '2' {
        Some(2)
    } else if c == '3' {
        Some(3)
    } else if c == '4' {
        Some(4)
    } else if c == '5' {
        Some(5)
    } else if c == '6' {
        Some(6)
    } else if c == '7' {
        Some(7)
    } else if c == '8' {
        Some(8)
    } else if c == '9' {
        Some(9)
    } else {
        None
    }
}

/// The text begins with a digit.
pub open spec fn starts_with_digit(t: Seq<char>) -> bool {
    t.len() > 0 && digit_value(t[0]) is Some
}

/// Reads the digits at the front of `t` as the continuation of the number
/// `so_far`; stops before the first character that is no digit.
pub open spec fn read_digits(t: Seq<char>, so_far: int) -> (int, Seq<char>)
    decreases t.len(),
{
    if starts_with_digit(t) {
        read_digits(t.skip(1), so_far * 10 + digit_value(t[0])->0)
    } else {
        (so_far, t)
    }
}

/// Reads a decimal integer: an optional minus sign and at least one digit.
pub open spec fn read_decimal(t: Seq<char>) -> Option<(int, Seq<char>)> {
    if t.len() > 0 && t[0] == '-' {
        if starts_with_digit(t.skip(1)) {
            Some((-read_digits(t.skip(1), 0).0, read_digits(t.skip(1), 0).1))
        } else {
            None
        }
    } else if starts_with_digit(t) {
        Some(read_digits(t, 0))
    } else {
        None
    }
}

/// The number `so_far` continued by the digits of `n`.
spec fn continued(so_far: int, n: nat) -> int
    decreases n,
{
    if n < 10 {
        so_far * 10 + n
    } else {
        continued(so_far, n / 10) * 10 + (n % 10)
    }
}

proof fn lemma_continued(n: nat)
    ensures
        continued(0, n) == n,
    decreases n,
{
    if n >= 10 {
        lemma_continued(n / 10);
    }
}

proof fn lemma_read_digits(n: nat, tail: Seq<char>, so_far: int)
    ensures
        read_digits(digits(n) + tail, so_far) == read_digits(tail, continued(so_far, n)),
        starts_with_digit(digits(n) + tail),
    decreases n,
{
    let t = digits(n) + tail;
    if n < 10 {
        assert(t[0] == digit(n as int));
        assert(t.skip(1) == tail);
    } else {
        let d = digit((n % 10) as int);
        let u = seq![d] + tail;
        lemma_read_digits(n / 10, u, so_far);
        assert(t == digits(n / 10) + u);
        assert(u[0] == d);
        assert(u.skip(1) == tail);
    }
}

/// The decimal text of an integer reads back as that integer, whatever
/// follows it that does not begin with a digit.
pub proof fn lemma_decimal_reads_back(n: int, rest: Seq<char>)
    requires
        !starts_with_digit(rest),
    ensures
        read_decimal(decimal(n) + rest) == Some((n, rest)),
{
    let t = decimal(n) + rest;
    if n < 0 {
        let m = (-n) as nat;
        lemma_read_digits(m, rest, 0);
        lemma_continued(m);
        assert(t[0] == '-');
        assert(t.skip(1) == digits(m) + rest);
    } else {
        lemma_read_digits(n as nat, rest, 0);
        lemma_continued(n as nat);
        assert(t == digits(n as nat) + rest);
    }
}

/// What follows `head` in `t`; nothing where `t` does not begin with `head`.
#[verifier::opaque]
pub open spec fn after(t: Seq<char>, head: Seq<char>) -> Option<Seq<char>> {
    if head.is_prefix_of(t) {
        Some(t.skip(head.len() as int))
    } else {
        None
    }
}

/// A text that begins with `head` is `head` and what comes after it.
pub proof fn lemma_after(head: Seq<char>, rest: Seq<char>)
    ensures
        after(head + rest, head) == Some(rest),
{
    reveal(after);
    assert((head + rest).skip(head.len() as int) == rest);
    assert(head.is_prefix_of(head + rest)) by {
        assert((head + rest).subrange(0, head.len() as int) == head);
    }
}

/// Reads what follows an item of a sequence: the closing bracket, or a
/// comma, a space, another item and what follows that.
pub open spec fn read_more<T>(
    item: spec_fn(Seq<char>) -> Option<(T, Seq<char>)>,
    t: Seq<char>,
) -> Option<(Seq<T>, Seq<char>)>
    decreases t.len(),
{
    if after(t, seq![']']) is Some {
        Some((Seq::empty(), after(t, seq![']'])->0))
    } else {
        match after(t, ", "@) {
            None => None,
            Some(u) => match item(u) {
                None => None,
                Some((v, rest)) => if rest.len() < t.len() {
                    match read_more(item, rest) {
                        None => None,
                        Some((vs, end)) => Some((seq![v] + vs, end)),
                    }
                } else {
                    None
                },
            },
        }
    }
}

/// Reads a sequence: its items, read by `item`, between brackets, with a
/// comma and a space between each two.
pub open spec fn read_list<T>(
    item: spec_fn(Seq<char>) -> Option<(T, Seq<char>)>,
    t: Seq<char>,
) -> Option<(Seq<T>, Seq<char>)> {
    match after(t, seq!['[']) {
        None => None,
        Some(u) => if after(u, seq![']']) is Some {
            Some((Seq::empty(), after(u, seq![']'])->0))
        } else {
            match item(u) {
                None => None,
                Some((v, rest)) => match read_more(item, rest) {
                    None => None,
                    Some((vs, end)) => Some((seq![v] + vs, end)),
                },
            }
        },
    }
}

/// `item` reads back what `write` writes for each of `items`, whatever
/// follows it, and nothing that `write` writes begins with a closing
/// bracket.
pub open spec fn reads_back<T>(
    item: spec_fn(Seq<char>) -> Option<(T, Seq<char>)>,
    write: spec_fn(T) -> Seq<char>,
    items: Seq<T>,
) -> bool {
    &&& forall|i: int, tail: Seq<char>|
        0 <= i < items.len() ==> #[trigger] item(write(items[i]) + tail) == Some((items[i], tail))
    &&& forall|i: int|
        0 <= i < items.len() ==> write(#[trigger] items[i]).len() > 0 && write(items[i])[0] != ']'
}

/// What follows the first item of a sequence: each further item behind a
/// comma and a space, then the closing bracket, then `rest`.
spec fn more_text(written: Seq<Seq<char>>, rest: Seq<char>) -> Seq<char>
    decreases written.len(),
{
    if written.len() == 0 {
        seq![']'] + rest
    } else {
        ", "@ + (written[0] + more_text(written.drop_first(), rest))
    }
}

/// Joined pieces begin with the first piece.
pub proof fn lemma_joined_front(parts: Seq<Seq<char>>, sep: Seq<char>)
    requires
        parts.len() >= 2,
    ensures
        joined(parts, sep) == parts[0] + (sep + joined(parts.drop_first(), sep)),
    decreases parts.len(),
{
    let front = parts.drop_last();
    let back = parts.drop_first();
    if parts.len() == 2 {
        assert(joined(front, sep) == parts[0]);
        assert(joined(back, sep) == parts[1]);
        assert(joined(parts, sep) == parts[0] + sep + parts[1]);
    } else {
        lemma_joined_front(front, sep);
        assert(front.drop_first() == back.drop_last());
        assert(front[0] == parts[0]);
        assert(back.last() == parts.last());
        assert(joined(parts, sep) == joined(front, sep) + sep + parts.last());
        assert(joined(back, sep) == joined(back.drop_last(), sep) + sep + parts.last());
        assert(joined(parts, sep) == parts[0] + (sep + (joined(back.drop_last(), sep) + sep
            + parts.last())));
    }
}

proof fn lemma_list_text(written: Seq<Seq<char>>, rest: Seq<char>)
    requires
        written.len() > 0,
    ensures
        joined(written, ", "@) + (seq![']'] + rest) == written[0] + more_text(
            written.drop_first(),
            rest,
        ),
    decreases written.len(),
{
    let tail = seq![']'] + rest;
    let back = written.drop_first();
    if written.len() == 1 {
        assert(joined(written, ", "@) == written[0]);
    } else {
        lemma_joined_front(written, ", "@);
        lemma_list_text(back, rest);
        assert(joined(written, ", "@) + tail == written[0] + (", "@ + (joined(back, ", "@)
            + tail)));
    }
}

proof fn lemma_read_more<T>(
    item: spec_fn(Seq<char>) -> Option<(T, Seq<char>)>,
    write: spec_fn(T) -> Seq<char>,
    items: Seq<T>,
    rest: Seq<char>,
)
    requires
        reads_back(item, write, items),
    ensures
        read_more(item, more_text(items.map_values(write), rest)) == Some((items, rest)),
    decreases items.len(),
{
    let written = items.map_values(write);
    let t = more_text(written, rest);
    if items.len() == 0 {
        lemma_after(seq![']'], rest);
        assert(items == Seq::<T>::empty());
    } else {
        let back = items.drop_first();
        let more = more_text(written.drop_first(), rest);
        let u = written[0] + more;
        reveal_strlit(", ");
        assert(t == ", "@ + u);
        assert(t[0] == ',');
        assert(after(t, seq![']']) is None) by {
            reveal(after);
            if seq![']'].is_prefix_of(t) {
                assert(t.subrange(0, 1)[0] == seq![']'][0]);
            }
        }
        lemma_after(", "@, u);
        assert(item(write(items[0]) + more) == Some((items[0], more)));
        assert(reads_back(item, write, back)) by {
            assert forall|i: int, tail: Seq<char>| 0 <= i < back.len() implies #[trigger] item(
                write(back[i]) + tail,
            ) == Some((back[i], tail)) by {
                assert(back[i] == items[i + 1]);
            }
            assert forall|i: int| 0 <= i < back.len() implies write(#[trigger] back[i]).len() > 0
                && write(back[i])[0] != ']' by {
                assert(back[i] == items[i + 1]);
            }
        }
        lemma_read_more(item, write, back, rest);
        assert(written.drop_first() == back.map_values(write));
        assert(seq![items[0]] + back == items);
    }
}

/// A sequence reads back as itself, whatever follows it, where each of its
/// items does.
pub proof fn lemma_list_reads_back<T>(
    item: spec_fn(Seq<char>) -> Option<(T, Seq<char>)>,
    write: spec_fn(T) -> Seq<char>,
    items: Seq<T>,
    rest: Seq<char>,
)
    requires
        reads_back(item, write, items),
    ensures
        read_list(item, list(items.map_values(write)) + rest) == Some((items, rest)),
{
    let written = items.map_values(write);
    let t = list(written) + rest;
    let u = joined(written, ", "@) + (seq![']'] + rest);
    assert(t == seq!['['] + u);
    lemma_after(seq!['['], u);
    if items.len() == 0 {
        assert(u == seq![']'] + rest);
        lemma_after(seq![']'], rest);
        assert(items == Seq::<T>::empty());
    } else {
        let more = more_text(written.drop_first(), rest);
        lemma_list_text(written, rest);
        assert(u == write(items[0]) + more);
        assert(u[0] == write(items[0])[0]);
        assert(after(u, seq![']']) is None) by {
            reveal(after);
            if seq![']'].is_prefix_of(u) {
                assert(u.subrange(0, 1)[0] == seq![']'][0]);
            }
        }
        assert(item(write(items[0]) + more) == Some((items[0], more)));
        let back = items.drop_first();
        assert(reads_back(item, write, back)) by {
            assert forall|i: int, tail: Seq<char>| 0 <= i < back.len() implies #[trigger] item(
                write(back[i]) + tail,
            ) == Some((back[i], tail)) by {
                assert(back[i] == items[i + 1]);
            }
            assert forall|i: int| 0 <= i < back.len() implies write(#[trigger] back[i]).len() > 0
                && write(back[i])[0] != ']' by {
                assert(back[i] == items[i + 1]);
            }
        }
        lemma_read_more(item, write, back, rest);
        assert(written.drop_first() == back.map_values(write));
        assert(seq![items[0]] + back == items);
    }
}

/// Reads a field whose value is a string.
#[verifier::opaque]
pub open spec fn text_field(t: Seq<char>, name: Seq<char>) -> Option<(Seq<char>, Seq<char>)> {
    match after(t, name + ": "@) {
        None => None,
        Some(u) => read_quoted(u),
    }
}

/// Reads a field whose value is an integer.
#[verifier::opaque]
pub open spec fn number_field(t: Seq<char>, name: Seq<char>) -> Option<(int, Seq<char>)> {
    match after(t, name + ": "@) {
        None => None,
        Some(u) => read_decimal(u),
    }
}

/// Reads a field whose value is a sequence of items read by `item`.
#[verifier::opaque]
pub open spec fn list_field<T>(
    t: Seq<char>,
    name: Seq<char>,
    item: spec_fn(Seq<char>) -> Option<(T, Seq<char>)>,
) -> Option<(Seq<T>, Seq<char>)> {
    match after(t, name + ": "@) {
        None => None,
        Some(u) => read_list(item, u),
    }
}

/// A string field reads back as its value, whatever follows it.
pub proof fn lemma_text_field(name: Seq<char>, value: Seq<char>, tail: Seq<char>)
    ensures
        text_field(field(name, quoted(value)) + tail, name) == Some((value, tail)),
{
    reveal(text_field);
    let t = field(name, quoted(value)) + tail;
    assert(t == (name + ": "@) + (quoted(value) + tail));
    lemma_after(name + ": "@, quoted(value) + tail);
    lemma_quoted_reads_back(value, tail);
}

/// An integer field reads back as its value, whatever follows it that does
/// not begin with a digit.
pub proof fn lemma_number_field(name: Seq<char>, value: int, tail: Seq<char>)
    requires
        !starts_with_digit(tail),
    ensures
        number_field(field(name, decimal(value)) + tail, name) == Some((value, tail)),
{
    reveal(number_field);
    let t = field(name, decimal(value)) + tail;
    assert(t == (name + ": "@) + (decimal(value) + tail));
    lemma_after(name + ": "@, decimal(value) + tail);
    lemma_decimal_reads_back(value, tail);
}

/// A sequence field reads back as its items, whatever follows it, where
/// each of its items reads back.
pub proof fn lemma_list_field<T>(
    name: Seq<char>,
    item: spec_fn(Seq<char>) -> Option<(T, Seq<char>)>,
    write: spec_fn(T) -> Seq<char>,
    items: Seq<T>,
    tail: Seq<char>,
)
    requires
        reads_back(item, write, items),
    ensures
        list_field(field(name, list(items.map_values(write))) + tail, name, item) == Some(
            (items, tail),
        ),
{
    reveal(list_field);
    let w = list(items.map_values(write));
    let t = field(name, w) + tail;
    assert(t == (name + ": "@) + (w + tail));
    lemma_after(name + ": "@, w + tail);
    lemma_list_reads_back(item, write, items, tail);
}

/// The fields from the one with index `k` on, with a comma and a space
/// between each two, and `tail` behind the last.
pub open spec fn fields_from(fields: Seq<Seq<char>>, k: int, tail: Seq<char>) -> Seq<char>
    decreases fields.len() - k,
{
    if k + 1 >= fields.len() {
        fields[k] + tail
    } else {
        fields[k] + (", "@ + fields_from(fields, k + 1, tail))
    }
}

proof fn lemma_fields_from(fields: Seq<Seq<char>>, k: int, tail: Seq<char>)
    requires
        0 <= k < fields.len(),
    ensures
        joined(fields.skip(k), ", "@) + tail == fields_from(fields, k, tail),
    decreases fields.len() - k,
{
    let here = fields.skip(k);
    assert(here[0] == fields[k]);
    if k + 1 >= fields.len() {
        assert(joined(here, ", "@) == here[0]);
    } else {
        lemma_joined_front(here, ", "@);
        lemma_fields_from(fields, k + 1, tail);
        assert(here.drop_first() == fields.skip(k + 1));
        assert(joined(here, ", "@) + tail == fields[k] + (", "@ + (joined(
            fields.skip(k + 1),
            ", "@,
        ) + tail)));
    }
}

/// An object and what follows it, field by field.
pub proof fn lemma_object_text(fields: Seq<Seq<char>>, rest: Seq<char>)
    requires
        fields.len() > 0,
    ensures
        object(joined(fields, ", "@)) + rest == seq!['{'] + fields_from(
            fields,
            0,
            seq!['}'] + rest,
        ),
{
    lemma_fields_from(fields, 0, seq!['}'] + rest);
    assert(fields.skip(0) == fields);
    assert(object(joined(fields, ", "@)) + rest == seq!['{'] + (joined(fields, ", "@) + (seq!['}']
        + rest)));
}

/// What begins with a comma does not begin with a digit, and what begins
/// with a closing brace does not either.
proof fn lemma_no_digit(tail: Seq<char>)
    ensures
        !starts_with_digit(", "@ + tail),
        !starts_with_digit(seq!['}'] + tail),
{
    reveal_strlit(", ");
    assert((", "@ + tail)[0] == ',');
    assert((seq!['}'] + tail)[0] == '}');
}

/// Opens an object: what follows the opening brace.
pub open spec fn opened(t: Seq<char>) -> Option<Seq<char>> {
    after(t, seq!['{'])
}

/// What follows the comma and the space behind a field that was read.
pub open spec fn next<T>(read: Option<(T, Seq<char>)>) -> Option<Seq<char>> {
    match read {
        Some((_, rest)) => after(rest, ", "@),
        None => None,
    }
}

/// What follows the closing brace behind the last field that was read.
pub open spec fn closed<T>(read: Option<(T, Seq<char>)>) -> Option<Seq<char>> {
    match read {
        Some((_, rest)) => after(rest, seq!['}']),
        None => None,
    }
}

/// Reads a string field where the text got that far.
pub open spec fn then_text(at: Option<Seq<char>>, name: Seq<char>) -> Option<
    (Seq<char>, Seq<char>),
> {
    match at {
        Some(t) => text_field(t, name),
        None => None,
    }
}

/// Reads an integer field where the text got that far.
pub open spec fn then_number(at: Option<Seq<char>>, name: Seq<char>) -> Option<(int, Seq<char>)> {
    match at {
        Some(t) => number_field(t, name),
        None => None,
    }
}

/// Reads a sequence field where the text got that far.
pub open spec fn then_list<T>(
    at: Option<Seq<char>>,
    name: Seq<char>,
    item: spec_fn(Seq<char>) -> Option<(T, Seq<char>)>,
) -> Option<(Seq<T>, Seq<char>)> {
    match at {
        Some(t) => list_field(t, name, item),
        None => None,
    }
}

/// Reads a topic.
pub open spec fn read_topic(t: Seq<char>) -> Option<(TopicView, Seq<char>)> {
    let name = then_text(opened(t), "name"@);
    let url = then_text(next(name), "url"@);
    match closed(url) {
        Some(rest) => Some((TopicView { name: name.unwrap().0, url: url.unwrap().0 }, rest)),
        None => None,
    }
}

/// The text of a topic reads back as the topic, whatever follows it.
pub proof fn lemma_topic_reads_back(v: TopicView, rest: Seq<char>)
    ensures
        read_topic(topic_text(v) + rest) == Some((v, rest)),
{
    let fields = seq![field("name"@, quoted(v.name)), field("url"@, quoted(v.url))];
    let tail = seq!['}'] + rest;
    lemma_object_text(fields, rest);
    reveal_with_fuel(fields_from, 3);
    let c1 = fields[1] + tail;
    let c0 = fields[0] + (", "@ + c1);
    assert(topic_text(v) + rest == seq!['{'] + c0);
    lemma_after(seq!['{'], c0);
    lemma_text_field("name"@, v.name, ", "@ + c1);
    lemma_after(", "@, c1);
    lemma_text_field("url"@, v.url, tail);
    lemma_after(seq!['}'], rest);
}

/// Reads a label.
pub open spec fn read_label(t: Seq<char>) -> Option<(LabelView, Seq<char>)> {
    let name = then_text(opened(t), "name"@);
    let count = then_number(next(name), "count"@);
    let color = then_text(next(count), "color"@);
    match closed(color) {
        Some(rest) => Some(
            (
                LabelView { name: name.unwrap().0, count: count.unwrap().0, color: color.unwrap().0 },
                rest,
            ),
        ),
        None => None,
    }
}

/// The text of a label reads back as the label, whatever follows it.
pub proof fn lemma_label_reads_back(v: LabelView, rest: Seq<char>)
    ensures
        read_label(label_text(v) + rest) == Some((v, rest)),
{
    let fields = seq![
        field("name"@, quoted(v.name)),
        field("count"@, decimal(v.count)),
        field("color"@, quoted(v.color)),
    ];
    let tail = seq!['}'] + rest;
    lemma_object_text(fields, rest);
    reveal_with_fuel(fields_from, 4);
    let c2 = fields[2] + tail;
    let c1 = fields[1] + (", "@ + c2);
    let c0 = fields[0] + (", "@ + c1);
    assert(label_text(v) + rest == seq!['{'] + c0);
    lemma_after(seq!['{'], c0);
    lemma_text_field("name"@, v.name, ", "@ + c1);
    lemma_after(", "@, c1);
    lemma_no_digit(c2);
    lemma_number_field("count"@, v.count, ", "@ + c2);
    lemma_after(", "@, c2);
    lemma_text_field("color"@, v.color, tail);
    lemma_after(seq!['}'], rest);
}

/// The reader of a string.
pub open spec fn text_reader() -> spec_fn(Seq<char>) -> Option<(Seq<char>, Seq<char>)> {
    |t: Seq<char>| read_quoted(t)
}

/// The writer of a string.
pub open spec fn text_writer() -> spec_fn(Seq<char>) -> Seq<char> {
    |s: Seq<char>| quoted(s)
}

/// The reader of a sequence of strings.
pub open spec fn texts_reader() -> spec_fn(Seq<char>) -> Option<(Seq<Seq<char>>, Seq<char>)> {
    |t: Seq<char>| read_list(text_reader(), t)
}

/// The writer of a sequence of strings.
pub open spec fn texts_writer() -> spec_fn(Seq<Seq<char>>) -> Seq<char> {
    |i: Seq<Seq<char>>| string_list(i)
}

/// The reader of a topic.
pub open spec fn topic_reader() -> spec_fn(Seq<char>) -> Option<(TopicView, Seq<char>)> {
    |t: Seq<char>| read_topic(t)
}

/// The writer of a topic.
pub open spec fn topic_writer() -> spec_fn(TopicView) -> Seq<char> {
    |v: TopicView| topic_text(v)
}

/// The reader of a label.
pub open spec fn label_reader() -> spec_fn(Seq<char>) -> Option<(LabelView, Seq<char>)> {
    |t: Seq<char>| read_label(t)
}

/// The writer of a label.
pub open spec fn label_writer() -> spec_fn(LabelView) -> Seq<char> {
    |v: LabelView| label_text(v)
}

/// Every string reads back.
pub proof fn lemma_texts_read_back(items: Seq<Seq<char>>)
    ensures
        reads_back(text_reader(), text_writer(), items),
{
    assert forall|i: int, tail: Seq<char>| 0 <= i < items.len() implies #[trigger] text_reader()(
        text_writer()(items[i]) + tail,
    ) == Some((items[i], tail)) by {
        lemma_quoted_reads_back(items[i], tail);
    }
    assert forall|i: int| 0 <= i < items.len() implies text_writer()(#[trigger] items[i]).len() > 0
        && text_writer()(items[i])[0] != ']' by {
        assert(quoted(items[i])[0] == '"');
    }
}

/// Every sequence of strings reads back.
pub proof fn lemma_text_lists_read_back(items: Seq<Seq<Seq<char>>>)
    ensures
        reads_back(texts_reader(), texts_writer(), items),
{
    assert forall|i: int, tail: Seq<char>| 0 <= i < items.len() implies #[trigger] texts_reader()(
        texts_writer()(items[i]) + tail,
    ) == Some((items[i], tail)) by {
        lemma_texts_read_back(items[i]);
        lemma_list_reads_back(text_reader(), text_writer(), items[i], tail);
        assert(items[i].map_values(|s: Seq<char>| quoted(s)) == items[i].map_values(
            text_writer(),
        ));
    }
    assert forall|i: int| 0 <= i < items.len() implies texts_writer()(#[trigger] items[i]).len()
        > 0 && texts_writer()(items[i])[0] != ']' by {
        assert(string_list(items[i])[0] == '[');
    }
}

/// Every topic reads back.
pub proof fn lemma_topics_read_back(items: Seq<TopicView>)
    ensures
        reads_back(topic_reader(), topic_writer(), items),
{
    assert forall|i: int, tail: Seq<char>| 0 <= i < items.len() implies #[trigger] topic_reader()(
        topic_writer()(items[i]) + tail,
    ) == Some((items[i], tail)) by {
        lemma_topic_reads_back(items[i], tail);
    }
    assert forall|i: int| 0 <= i < items.len() implies topic_writer()(#[trigger] items[i]).len()
        > 0 && topic_writer()(items[i])[0] != ']' by {
        assert(topic_text(items[i])[0] == '{');
    }
}

/// Every label reads back.
pub proof fn lemma_labels_read_back(items: Seq<LabelView>)
    ensures
        reads_back(label_reader(), label_writer(), items),
{
    assert forall|i: int, tail: Seq<char>| 0 <= i < items.len() implies #[trigger] label_reader()(
        label_writer()(items[i]) + tail,
    ) == Some((items[i], tail)) by {
        lemma_label_reads_back(items[i], tail);
    }
    assert forall|i: int| 0 <= i < items.len() implies label_writer()(#[trigger] items[i]).len()
        > 0 && label_writer()(items[i])[0] != ']' by {
        assert(label_text(items[i])[0] == '{');
    }
}

/// Reads a repository.
pub open spec fn read_repository(t: Seq<char>) -> Option<(RepositoryView, Seq<char>)> {
    let name_with_owner = then_text(opened(t), "name_with_owner"@);
    let url = then_text(next(name_with_owner), "url"@);
    let description = then_text(next(url), "description"@);
    let homepage_url = then_text(next(description), "homepage_url"@);
    let avatar_url = then_text(next(homepage_url), "avatar_url"@);
    let num_forks = then_number(next(avatar_url), "num_forks"@);
    let num_issues = then_number(next(num_forks), "num_issues"@);
    let num_pull_requests = then_number(next(num_issues), "num_pull_requests"@);
    let num_stars = then_number(next(num_pull_requests), "num_stars"@);
    let topics = then_list(next(num_stars), "topics"@, topic_reader());
    let labels = then_list(next(topics), "labels"@, label_reader());
    let languages = then_list(next(labels), "languages"@, text_reader());
    let issues = then_list(next(languages), "issues"@, texts_reader());
    match closed(issues) {
        Some(rest) => Some(
            (
                RepositoryView {
                    name_with_owner: name_with_owner.unwrap().0,
                    url: url.unwrap().0,
                    description: description.unwrap().0,
                    homepage_url: homepage_url.unwrap().0,
                    avatar_url: avatar_url.unwrap().0,
                    num_forks: num_forks.unwrap().0,
                    num_issues: num_issues.unwrap().0,
                    num_pull_requests: num_pull_requests.unwrap().0,
                    num_stars: num_stars.unwrap().0,
                    topics: topics.unwrap().0,
                    labels: labels.unwrap().0,
                    languages: languages.unwrap().0,
                    issues: issues.unwrap().0,
                },
                rest,
            ),
        ),
        None => None,
    }
}

/// The text of a repository reads back as the repository, whatever follows
/// it: every string, every integer and every sequence in it comes back as
/// it was, in its place.
pub proof fn lemma_repository_reads_back(r: RepositoryView, rest: Seq<char>)
    ensures
        read_repository(repository_text(r) + rest) == Some((r, rest)),
{
    let fields = repository_fields(r);
    let tail = seq!['}'] + rest;
    lemma_object_text(fields, rest);
    reveal_with_fuel(fields_from, 14);
    let c12 = fields[12] + tail;
    let c11 = fields[11] + (", "@ + c12);
    let c10 = fields[10] + (", "@ + c11);
    let c9 = fields[9] + (", "@ + c10);
    let c8 = fields[8] + (", "@ + c9);
    let c7 = fields[7] + (", "@ + c8);
    let c6 = fields[6] + (", "@ + c7);
    let c5 = fields[5] + (", "@ + c6);
    let c4 = fields[4] + (", "@ + c5);
    let c3 = fields[3] + (", "@ + c4);
    let c2 = fields[2] + (", "@ + c3);
    let c1 = fields[1] + (", "@ + c2);
    let c0 = fields[0] + (", "@ + c1);
    assert(repository_text(r) + rest == seq!['{'] + c0);
    lemma_after(seq!['{'], c0);
    lemma_texts_read_back(r.languages);
    lemma_text_lists_read_back(r.issues);
    lemma_topics_read_back(r.topics);
    lemma_labels_read_back(r.labels);
    assert(r.topics.map_values(|t: TopicView| topic_text(t)) == r.topics.map_values(
        topic_writer(),
    ));
    assert(r.labels.map_values(|l: LabelView| label_text(l)) == r.labels.map_values(
        label_writer(),
    ));
    assert(r.languages.map_values(|s: Seq<char>| quoted(s)) == r.languages.map_values(
        text_writer(),
    ));
    assert(r.issues.map_values(|i: Seq<Seq<char>>| string_list(i)) == r.issues.map_values(
        texts_writer(),
    ));
    lemma_text_field("name_with_owner"@, r.name_with_owner, ", "@ + c1);
    lemma_after(", "@, c1);
    lemma_text_field("url"@, r.url, ", "@ + c2);
    lemma_after(", "@, c2);
    lemma_text_field("description"@, r.description, ", "@ + c3);
    lemma_after(", "@, c3);
    lemma_text_field("homepage_url"@, r.homepage_url, ", "@ + c4);
    lemma_after(", "@, c4);
    lemma_text_field("avatar_url"@, r.avatar_url, ", "@ + c5);
    lemma_after(", "@, c5);
    lemma_no_digit(c6);
    lemma_number_field("num_forks"@, r.num_forks, ", "@ + c6);
    lemma_after(", "@, c6);
    lemma_no_digit(c7);
    lemma_number_field("num_issues"@, r.num_issues, ", "@ + c7);
    lemma_after(", "@, c7);
    lemma_no_digit(c8);
    lemma_number_field("num_pull_requests"@, r.num_pull_requests, ", "@ + c8);
    lemma_after(", "@, c8);
    lemma_no_digit(c9);
    lemma_number_field("num_stars"@, r.num_stars, ", "@ + c9);
    lemma_after(", "@, c9);
    lemma_list_field("topics"@, topic_reader(), topic_writer(), r.topics, ", "@ + c10);
    lemma_after(", "@, c10);
    lemma_list_field("labels"@, label_reader(), label_writer(), r.labels, ", "@ + c11);
    lemma_after(", "@, c11);
    lemma_list_field("languages"@, text_reader(), text_writer(), r.languages, ", "@ + c12);
    lemma_after(", "@, c12);
    lemma_list_field("issues"@, texts_reader(), texts_writer(), r.issues, tail);
    lemma_after(seq!['}'], rest);
}

/// The reader of a repository.
pub open spec fn repository_reader() -> spec_fn(Seq<char>) -> Option<(RepositoryView, Seq<char>)> {
    |t: Seq<char>| read_repository(t)
}

/// The writer of a repository.
pub open spec fn repository_writer() -> spec_fn(RepositoryView) -> Seq<char> {
    |r: RepositoryView| repository_text(r)
}

/// Every repository reads back.
pub proof fn lemma_repositories_read_back(items: Seq<RepositoryView>)
    ensures
        reads_back(repository_reader(), repository_writer(), items),
{
    assert forall|i: int, tail: Seq<char>|
        0 <= i < items.len() implies #[trigger] repository_reader()(
        repository_writer()(items[i]) + tail,
    ) == Some((items[i], tail)) by {
        lemma_repository_reads_back(items[i], tail);
    }
    assert forall|i: int| 0 <= i < items.len() implies repository_writer()(
        #[trigger] items[i],
    ).len() > 0 && repository_writer()(items[i])[0] != ']' by {
        assert(repository_text(items[i])[0] == '{');
    }
}

/// Reads a subject.
pub open spec fn read_language(t: Seq<char>) -> Option<(LanguageView, Seq<char>)> {
    let name = then_text(opened(t), "name"@);
    let search_term = then_text(next(name), "search_term"@);
    let repositories = then_list(next(search_term), "repositories"@, repository_reader());
    match closed(repositories) {
        Some(rest) => Some(
            (
                LanguageView {
                    name: name.unwrap().0,
                    search_term: search_term.unwrap().0,
                    repositories: repositories.unwrap().0,
                },
                rest,
            ),
        ),
        None => None,
    }
}

/// The text of a subject reads back as the subject, whatever follows it:
/// its name, its search term and every repository in it come back as they
/// were, in their places.
pub proof fn lemma_language_reads_back(l: LanguageView, rest: Seq<char>)
    ensures
        read_language(language_text(l) + rest) == Some((l, rest)),
{
    let fields = seq![
        field("name"@, quoted(l.name)),
        field("search_term"@, quoted(l.search_term)),
        field("repositories"@, list(l.repositories.map_values(repository_writer()))),
    ];
    assert(l.repositories.map_values(|r: RepositoryView| repository_text(r))
        == l.repositories.map_values(repository_writer()));
    let tail = seq!['}'] + rest;
    lemma_object_text(fields, rest);
    reveal_with_fuel(fields_from, 4);
    let c2 = fields[2] + tail;
    let c1 = fields[1] + (", "@ + c2);
    let c0 = fields[0] + (", "@ + c1);
    assert(language_text(l) + rest == seq!['{'] + c0);
    lemma_after(seq!['{'], c0);
    lemma_text_field("name"@, l.name, ", "@ + c1);
    lemma_after(", "@, c1);
    lemma_text_field("search_term"@, l.search_term, ", "@ + c2);
    lemma_after(", "@, c2);
    lemma_repositories_read_back(l.repositories);
    lemma_list_field(
        "repositories"@,
        repository_reader(),
        repository_writer(),
        l.repositories,
        tail,
    );
    lemma_after(seq!['}'], rest);
}

/// Two repositories with the same text are the same repository.
pub proof fn lemma_repository_text_decides(a: RepositoryView, b: RepositoryView)
    requires
        repository_text(a) == repository_text(b),
    ensures
        a == b,
{
    lemma_repository_reads_back(a, Seq::empty());
    lemma_repository_reads_back(b, Seq::empty());
}

/// Two subjects with the same text are the same subject.
pub proof fn lemma_language_text_decides(a: LanguageView, b: LanguageView)
    requires
        language_text(a) == language_text(b),
    ensures
        a == b,
{
    lemma_language_reads_back(a, Seq::empty());
    lemma_language_reads_back(b, Seq::empty());
}

} // verus!
