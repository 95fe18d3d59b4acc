//! Character-level building blocks of the emitted literals: escaping of
//! strings, decimal text of integers, and joining of pieces by a separator.
//!
//! Every function here is stated over `Seq<char>`, the view of a string.
use vstd::prelude::*;
use vstd::std_specs::iter::IteratorSpec;

verus! {

/// `String::push` appends one character to the end of the string and leaves
/// the rest of it as it was.
pub assume_specification[ String::push ](s: &mut String, ch: char)
    ensures
        final(s)@ == old(s)@.push(ch),
;

/// What one character becomes inside a quoted literal: a backslash and a
/// double quote get a backslash in front, every other character stands for
/// itself.
pub open spec fn escaped_char(c: char) -> Seq<char> {
    if c == '\\' || c == '"' {
        seq!['\\', c]
    } else {
        seq![c]
    }
}

/// The characters of `s`, each one escaped, in order.
pub open spec fn escaped(s: Seq<char>) -> Seq<char>
    decreases s.len(),
{
    if s.len() == 0 {
        Seq::empty()
    } else {
        escaped_char(s[0]) + escaped(s.drop_first())
    }
}

/// A string as a literal: its escaped characters between double quotes.
pub open spec fn quoted(s: Seq<char>) -> Seq<char> {
    seq!['"'] + escaped(s) + seq!['"']
}

/// Escaping distributes over appending one character.
pub proof fn lemma_escaped_push(s: Seq<char>, c: char)
    ensures
        escaped(s.push(c)) == escaped(s) + escaped_char(c),
    decreases s.len(),
{
    if s.len() == 0 {
        assert(s.push(c).drop_first() == Seq::<char>::empty());
        assert(s.push(c)[0] == c);
        assert(escaped(s.push(c)) == escaped_char(c) + escaped(Seq::<char>::empty()));
        assert(escaped(s) + escaped_char(c) == escaped_char(c));
    } else {
        lemma_escaped_push(s.drop_first(), c);
        assert(s.push(c).drop_first() == s.drop_first().push(c));
        assert(s.push(c)[0] == s[0]);
        assert(escaped(s.push(c)) == escaped_char(s[0]) + (escaped(s.drop_first()) + escaped_char(
            c,
        )));
    }
}

/// Reads the body of a quoted literal up to its closing quote: a backslash
/// makes the next character count for itself, an unescaped double quote
/// ends the body. Gives the characters read and what follows the closing
/// quote, or nothing where the text ends before the literal does.
pub open spec fn read_body(t: Seq<char>) -> Option<(Seq<char>, Seq<char>)>
    decreases t.len(),
{
    if t.len() == 0 {
        None
    } else if t[0] == '"' {
        Some((Seq::empty(), t.skip(1)))
    } else if t[0] == '\\' {
        if t.len() < 2 {
            None
        } else {
            match read_body(t.skip(2)) {
                Some((body, rest)) => Some((seq![t[1]] + body, rest)),
                None => None,
            }
        }
    } else {
        match read_body(t.skip(1)) {
            Some((body, rest)) => Some((seq![t[0]] + body, rest)),
            None => None,
        }
    }
}

/// Reads one quoted literal from the front of `t`.
pub open spec fn read_quoted(t: Seq<char>) -> Option<(Seq<char>, Seq<char>)> {
    if t.len() > 0 && t[0] == '"' {
        read_body(t.skip(1))
    } else {
        None
    }
}

proof fn lemma_read_escaped(s: Seq<char>, rest: Seq<char>)
    ensures
        read_body(escaped(s) + seq!['"'] + rest) == Some((s, rest)),
    decreases s.len(),
{
    let t = escaped(s) + seq!['"'] + rest;
    if s.len() == 0 {
        assert(t.skip(1) == rest);
    } else {
        let c = s[0];
        let tail = escaped(s.drop_first()) + seq!['"'] + rest;
        lemma_read_escaped(s.drop_first(), rest);
        assert(seq![c] + s.drop_first() == s);
        if c == '\\' || c == '"' {
            assert(t[0] == '\\');
            assert(t[1] == c);
            assert(t.skip(2) == tail);
        } else {
            assert(t[0] == c);
            assert(t.skip(1) == tail);
        }
    }
}

/// A quoted string reads back as itself, whatever it holds and whatever
/// follows it: the literal ends at its own closing quote and loses nothing.
pub proof fn lemma_quoted_reads_back(s: Seq<char>, rest: Seq<char>)
    ensures
        read_quoted(quoted(s) + rest) == Some((s, rest)),
{
    let t = quoted(s) + rest;
    lemma_read_escaped(s, rest);
    assert(t.skip(1) == escaped(s) + seq!['"'] + rest);
}

/// Escapes a string for use inside a quoted literal.
pub fn escape(s: &str) -> (out: String)
    ensures
        out@ == escaped(s@),
{
    let mut out = String::new();
    let mut it = s.chars();
    let ghost mut done: Seq<char> = Seq::empty();
    loop
        invariant
            it.obeys_prophetic_iter_laws(),
            done + it.remaining() == s@,
            out@ == escaped(done),
            it.decrease() is Some,
        ensures
            done == s@,
            out@ == escaped(done),
        decreases it.decrease()->0,
    {
        match it.next() {
            Some(c) => {
                proof {
                    lemma_escaped_push(done, c);
                    assert(done.push(c) + it.remaining() == s@);
                    done = done.push(c);
                }
                if c == '\\' || c == '"' {
                    out.push('\\');
                }
                out.push(c);
            },
            None => {
                proof {
                    assert(done == s@);
                }
                break ;
            },
        }
    }
    out
}

/// The character that stands for a digit.
pub open spec fn digit(d: int) -> char {
    if d == 0 {
        '0'
    } else if d == 1 {
        '1'
    } else if d == 2 {
        '2'
    } else if d == 3 {
        '3'
    } else if d == 4 {
        '4'
    } else if d == 5 {
        '5'
    } else if d == 6 {
        '6'
    } else if d == 7 {
        '7'
    } else if d == 8 {
        '8'
    } else {
        '9'
    }
}

/// The decimal digits of a natural number, most significant first, with no
/// leading zero and no separator.
pub open spec fn digits(n: nat) -> Seq<char>
    decreases n,
{
    if n < 10 {
        seq![digit(n as int)]
    } else {
        digits(n / 10).push(digit((n % 10) as int))
    }
}

/// The decimal text of an integer: a minus sign in front of a negative one.
pub open spec fn decimal(n: int) -> Seq<char> {
    if n < 0 {
        seq!['-'] + digits((-n) as nat)
    } else {
        digits(n as nat)
    }
}

/// `s` back to front.
pub open spec fn reversed(s: Seq<char>) -> Seq<char>
    decreases s.len(),
{
    if s.len() == 0 {
        Seq::empty()
    } else {
        seq![s.last()] + reversed(s.drop_last())
    }
}

spec fn leading_digits(n: nat) -> Seq<char> {
    if n == 0 {
        Seq::empty()
    } else {
        digits(n)
    }
}

fn digit_char(d: u64) -> (c: char)
    requires
        d < 10,
    ensures
        c == digit(d as int),
{
    if d == 0 {
        '0'
    } else if d == 1 {
        '1'
    } else if d == 2 {
        '2'
    } else if d == 3 {
        '3'
    } else if d == 4 {
        '4'
    } else if d == 5 {
        '5'
    } else if d == 6 {
        '6'
    } else if d == 7 {
        '7'
    } else if d == 8 {
        '8'
    } else {
        '9'
    }
}

/// Appends the decimal digits of `n` to `out`.
fn push_digits(out: &mut String, n: u64)
    ensures
        final(out)@ == old(out)@ + digits(n as nat),
{
    let mut low_first: Vec<char> = Vec::new();
    let mut rest: u64 = n;
    if rest == 0 {
        out.push('0');
        assert(old(out)@.push('0') == old(out)@ + digits(0));
        return ;
    }
    while rest > 0
        invariant
            digits(n as nat) == leading_digits(rest as nat) + reversed(low_first@),
        decreases rest,
    {
        let d: char = digit_char(rest % 10);
        proof {
            assert(low_first@.push(d).drop_last() == low_first@);
            assert(leading_digits(rest as nat) == leading_digits((rest / 10) as nat) + seq![d]);
            assert(leading_digits((rest / 10) as nat) + seq![d] + reversed(low_first@)
                == leading_digits((rest / 10) as nat) + (seq![d] + reversed(low_first@)));
        }
        low_first.push(d);
        rest = rest / 10;
    }
    let mut k: usize = low_first.len();
    proof {
        assert(low_first@.take(k as int) == low_first@);
    }
    while k > 0
        invariant
            k <= low_first.len(),
            out@ + reversed(low_first@.take(k as int)) == old(out)@ + digits(n as nat),
        decreases k,
    {
        proof {
            let head = low_first@.take(k as int);
            assert(head.drop_last() == low_first@.take(k - 1));
            assert(out@.push(head.last()) + reversed(head.drop_last()) == out@ + (seq![head.last()]
                + reversed(head.drop_last())));
        }
        k = k - 1;
        out.push(low_first[k]);
    }
    assert(out@ + Seq::<char>::empty() == out@);
}

/// The decimal text of `n`.
pub fn decimal_text(n: i64) -> (out: String)
    ensures
        out@ == decimal(n as int),
{
    let mut out = String::new();
    if n < 0 {
        out.push('-');
        let magnitude: u64 = ((-(n + 1)) as u64) + 1;
        push_digits(&mut out, magnitude);
    } else {
        push_digits(&mut out, n as u64);
        assert(Seq::<char>::empty() + digits(n as nat) == digits(n as nat));
    }
    out
}

/// The pieces in order with `sep` between each two neighbours; an empty list
/// gives the empty text.
pub open spec fn joined(parts: Seq<Seq<char>>, sep: Seq<char>) -> Seq<char>
    decreases parts.len(),
{
    if parts.len() == 0 {
        Seq::empty()
    } else if parts.len() == 1 {
        parts[0]
    } else {
        joined(parts.drop_last(), sep) + sep + parts.last()
    }
}

/// The views of a list of strings.
pub open spec fn texts(parts: Seq<String>) -> Seq<Seq<char>> {
    Seq::new(parts.len(), |i: int| parts[i]@)
}

/// Joins `parts` with `sep` between each two neighbours.
pub fn join(parts: &Vec<String>, sep: &str) -> (out: String)
    ensures
        out@ == joined(texts(parts@), sep@),
{
    let mut out = String::new();
    let mut i: usize = 0;
    while i < parts.len()
        invariant
            i <= parts.len(),
            out@ == joined(texts(parts@.take(i as int)), sep@),
        decreases parts.len() - i,
    {
        proof {
            let before = texts(parts@.take(i as int));
            let after = texts(parts@.take(i + 1));
            assert(after.drop_last() == before);
            assert(after.last() == parts[i as int]@);
            assert(Seq::<char>::empty() + parts[i as int]@ == parts[i as int]@);
        }
        if i > 0 {
            out.append(sep);
        }
        out.append(parts[i].as_str());
        i = i + 1;
    }
    proof {
        assert(parts@.take(i as int) == parts@);
    }
    out
}

} // verus!
