//! Text: decimal numbers, the order of strings, and the few string operations
//! the rest of the crate is built from.
//!
//! A string is modelled by its sequence of characters, as everywhere in Verus.

use vstd::prelude::*;

verus! {

/// `String::push` appends one character to the end of the string.
pub assume_specification[ String::push ](s: &mut String, c: char)
    ensures
        final(s)@ == old(s)@.push(c),
;

/// The character of a decimal digit.
pub open spec fn digit(d: nat) -> char {
    (48 + d) as char
}

/// A natural number in decimal, without leading zeros.
pub open spec fn decimal(n: nat) -> Seq<char>
    decreases n,
{
    if n < 10 {
        seq![digit(n)]
    } else {
        decimal(n / 10).push(digit(n % 10))
    }
}

/// An integer in decimal, with a leading minus sign when it is negative.
pub open spec fn signed_decimal(n: int) -> Seq<char> {
    if n < 0 {
        seq!['-'] + decimal((-n) as nat)
    } else {
        decimal(n as nat)
    }
}

/// Reading a decimal back: the number a sequence of digits stands for.
pub open spec fn decimal_value(s: Seq<char>) -> int
    decreases s.len(),
{
    if s.len() == 0 {
        0
    } else {
        decimal_value(s.drop_last()) * 10 + (s.last() as int - 48)
    }
}

/// `s` set flush right in `width` columns, filled with spaces on the left.
pub open spec fn flush_right(s: Seq<char>, width: nat) -> Seq<char> {
    if s.len() >= width {
        s
    } else {
        Seq::new((width - s.len()) as nat, |i: int| ' ') + s
    }
}

/// Strings in order: by the first character in which they differ, a proper
/// prefix coming first.
pub open spec fn precedes(a: Seq<char>, b: Seq<char>) -> bool
    decreases a.len(),
{
    if b.len() == 0 {
        false
    } else if a.len() == 0 {
        true
    } else if a[0] != b[0] {
        a[0] < b[0]
    } else {
        precedes(a.drop_first(), b.drop_first())
    }
}

/// `a` precedes `b`, or they are the same.
pub open spec fn precedes_or_same(a: Seq<char>, b: Seq<char>) -> bool {
    a == b || precedes(a, b)
}

/// `needle` occurs somewhere in `hay`.
pub open spec fn occurs(needle: Seq<char>, hay: Seq<char>) -> bool {
    exists|at: int|
        0 <= at <= hay.len() - needle.len() && #[trigger] hay.subrange(at, at + needle.len())
            == needle
}

/// `s` with its ASCII capitals made small.
pub open spec fn ascii_small(s: Seq<char>) -> Seq<char> {
    Seq::new(s.len(), |i: int| ascii_small_char(s[i]))
}

pub open spec fn ascii_small_char(c: char) -> char {
    if 'A' <= c <= 'Z' {
        (c as u32 + 32) as char
    } else {
        c
    }
}

/// The parts in a row, with `between` between each two.
pub open spec fn joined(parts: Seq<Seq<char>>, between: Seq<char>) -> Seq<char>
    decreases parts.len(),
{
    if parts.len() == 0 {
        Seq::empty()
    } else if parts.len() == 1 {
        parts[0]
    } else {
        joined(parts.drop_last(), between) + between + parts.last()
    }
}

/// How two strings stand to each other.
#[derive(Clone, Copy, Debug, PartialEq, Eq, Structural)]
pub enum Standing {
    Before,
    Same,
    After,
}

/// The order of strings has no cycles.
pub proof fn lemma_precedes_asymmetric(a: Seq<char>, b: Seq<char>)
    ensures
        precedes(a, b) ==> !precedes(b, a) && a != b,
    decreases a.len(),
{
    if a.len() > 0 && b.len() > 0 && a[0] == b[0] {
        lemma_precedes_asymmetric(a.drop_first(), b.drop_first());
    }
}

/// The order of strings is transitive.
pub proof fn lemma_precedes_transitive(a: Seq<char>, b: Seq<char>, c: Seq<char>)
    requires
        precedes(a, b),
        precedes(b, c),
    ensures
        precedes(a, c),
    decreases a.len(),
{
    if a.len() > 0 && b.len() > 0 && c.len() > 0 && a[0] == b[0] && b[0] == c[0] {
        lemma_precedes_transitive(a.drop_first(), b.drop_first(), c.drop_first());
    }
}

/// Of two different strings one precedes the other.
pub proof fn lemma_precedes_total(a: Seq<char>, b: Seq<char>)
    ensures
        a == b || precedes(a, b) || precedes(b, a),
    decreases a.len(),
{
    if a.len() > 0 && b.len() > 0 {
        if a[0] == b[0] {
            lemma_precedes_total(a.drop_first(), b.drop_first());
            if a.drop_first() == b.drop_first() {
                assert(a =~= seq![a[0]] + a.drop_first());
                assert(b =~= seq![b[0]] + b.drop_first());
            }
        } else {
            assert(a[0] < b[0] || b[0] < a[0]);
        }
    } else if a.len() == 0 && b.len() == 0 {
        assert(a =~= b);
    }
}

/// The strings are totally ordered.
pub proof fn lemma_text_is_ordered()
    ensures
        vstd::relations::total_ordering(|a: Seq<char>, b: Seq<char>| precedes_or_same(a, b)),
{
    let leq = |a: Seq<char>, b: Seq<char>| precedes_or_same(a, b);
    assert forall|a: Seq<char>, b: Seq<char>| #[trigger] leq(a, b) && #[trigger] leq(b, a) implies a
        == b by {
        lemma_precedes_asymmetric(a, b);
    }
    assert forall|a: Seq<char>, b: Seq<char>, c: Seq<char>| #[trigger]
        leq(a, b) && #[trigger] leq(b, c) implies leq(a, c) by {
        if a != b && b != c {
            lemma_precedes_transitive(a, b, c);
        }
    }
    assert forall|a: Seq<char>, b: Seq<char>| #[trigger] leq(a, b) || #[trigger] leq(b, a) by {
        lemma_precedes_total(a, b);
    }
}

/// A decimal reads back as the number it was made from, so no two numbers are
/// written alike.
pub proof fn lemma_decimal_reads_back(n: nat)
    ensures
        decimal_value(decimal(n)) == n,
    decreases n,
{
    reveal_with_fuel(decimal_value, 2);
    if n < 10 {
        assert(decimal(n).drop_last() =~= Seq::<char>::empty());
        assert(decimal(n).last() as int == 48 + n);
    } else {
        lemma_decimal_reads_back(n / 10);
        assert(decimal(n).drop_last() =~= decimal(n / 10));
        assert(decimal(n).last() as int == 48 + n % 10);
    }
}

/// A larger number is never written shorter.
pub proof fn lemma_decimal_grows(a: nat, b: nat)
    requires
        a <= b,
    ensures
        1 <= decimal(a).len() <= decimal(b).len(),
    decreases b,
{
    if b >= 10 && a >= 10 {
        lemma_decimal_grows(a / 10, b / 10);
    } else if b >= 10 {
        lemma_decimal_grows(0, b / 10);
    }
}

/// The character is a decimal digit.
pub open spec fn is_digit(c: char) -> bool {
    '0' <= c <= '9'
}

/// A number stands directly before a word in a text: from `from` on, and no digit before
/// it belongs to it.
pub open spec fn number_at(text: Seq<char>, from: int, n: nat, word: Seq<char>) -> bool {
    let behind = from + decimal(n).len();
    &&& 0 <= from
    &&& behind + word.len() <= text.len()
    &&& text.subrange(from, behind) == decimal(n)
    &&& text.subrange(behind, behind + word.len()) == word
    &&& from > 0 ==> !is_digit(text[from - 1])
}

/// A text tells a number directly before a word.
pub open spec fn tells_number(text: Seq<char>, n: nat, word: Seq<char>) -> bool {
    exists|from: int| #[trigger] number_at(text, from, n, word)
}

/// A number that is written before a word is told there.
pub proof fn lemma_number_is_told(head: Seq<char>, n: nat, word: Seq<char>, tail: Seq<char>)
    requires
        head.len() > 0 ==> !is_digit(head.last()),
    ensures
        tells_number(head + decimal(n) + word + tail, n, word),
{
    let text = head + decimal(n) + word + tail;
    let from = head.len() as int;
    let behind = from + decimal(n).len();
    assert(text.subrange(from, behind) =~= decimal(n));
    assert(text.subrange(behind, behind + word.len()) =~= word);
    assert(number_at(text, from, n, word));
}

/// A number is told before a word that some text goes on with.
pub proof fn lemma_number_goes_before(head: Seq<char>, n: nat, tail: Seq<char>, word: Seq<char>)
    requires
        head.len() > 0 ==> !is_digit(head.last()),
        word.is_prefix_of(tail),
    ensures
        tells_number(head + decimal(n) + tail, n, word),
{
    let number = decimal(n);
    let text = head + number + tail;
    let from = head.len() as int;
    let behind = from + number.len();
    assert(word == tail.subrange(0, word.len() as int));
    assert(text.subrange(from, behind) =~= number);
    assert(text.subrange(behind, behind + word.len()) =~= tail.subrange(0, word.len() as int));
    assert(number_at(text, from, n, word));
}

/// A start of a text is one of the text with more behind it.
pub proof fn lemma_prefix_goes_on(word: Seq<char>, start: Seq<char>, rest: Seq<char>)
    requires
        word.is_prefix_of(start),
    ensures
        word.is_prefix_of(start + rest),
{
    assert((start + rest).take(word.len() as int) =~= start.take(word.len() as int));
    assert((start + rest).subrange(0, word.len() as int) =~= start.subrange(
        0,
        word.len() as int,
    ));
}

/// A decimal is made of digits, and does not start with a zero unless it is one.
pub proof fn lemma_decimal_is_digits(n: nat, i: int)
    requires
        0 <= i < decimal(n).len(),
    ensures
        is_digit(decimal(n)[i]),
        n > 0 ==> decimal(n)[0] != '0',
    decreases n,
{
    if n >= 10 {
        lemma_decimal_grows(0, n / 10);
        lemma_decimal_is_digits(n / 10, 0);
        if i < decimal(n / 10).len() {
            lemma_decimal_is_digits(n / 10, i);
        }
    }
}

/// The first of two strings comes before the second exactly where it is a proper start of
/// it, or the smaller character stands in it where they first differ.
pub proof fn lemma_order_goes_by_the_first_difference(a: Seq<char>, b: Seq<char>, n: int)
    requires
        0 <= n <= a.len(),
        n <= b.len(),
        forall|i: int| 0 <= i < n ==> a[i] == b[i],
        n == a.len() || n == b.len() || a[n] != b[n],
    ensures
        precedes(a, b) <==> n < b.len() && (n == a.len() || a[n] < b[n]),
    decreases n,
{
    if n > 0 {
        let (x, y) = (a.drop_first(), b.drop_first());
        assert forall|i: int| 0 <= i < n - 1 implies x[i] == y[i] by {
            assert(a[i + 1] == b[i + 1]);
        }
        lemma_order_goes_by_the_first_difference(x, y, n - 1);
        assert(a[0] == b[0]);
    }
}

/// How two strings stand to each other.
pub fn standing(a: &str, b: &str) -> (r: Standing)
    ensures
        r == Standing::Same <==> a@ == b@,
        r == Standing::Before <==> precedes(a@, b@),
        r == Standing::After <==> precedes(b@, a@),
{
    broadcast use vstd::string::group_string_axioms;

    let mut left = a.chars();
    let mut right = b.chars();
    let ghost mut i: int = 0;
    proof {
        assert(a@.skip(0) =~= a@);
        assert(b@.skip(0) =~= b@);
        lemma_precedes_asymmetric(a@, b@);
        lemma_precedes_asymmetric(b@, a@);
    }
    loop
        invariant
            0 <= i <= a@.len(),
            i <= b@.len(),
            vstd::std_specs::iter::IteratorSpec::remaining(&left) == a@.skip(i),
            vstd::std_specs::iter::IteratorSpec::remaining(&right) == b@.skip(i),
            a@.take(i) == b@.take(i),
            precedes(a@, b@) == precedes(a@.skip(i), b@.skip(i)),
            precedes(b@, a@) == precedes(b@.skip(i), a@.skip(i)),
            precedes(a@, b@) ==> !precedes(b@, a@) && a@ != b@,
            precedes(b@, a@) ==> !precedes(a@, b@) && a@ != b@,
        decreases a@.len() - i,
    {
        broadcast use vstd::string::group_string_axioms;

        let x = left.next();
        let y = right.next();
        match (x, y) {
            (None, None) => {
                assert(a@ =~= a@.take(i));
                assert(b@ =~= b@.take(i));
                return Standing::Same;
            },
            (None, Some(_)) => {
                return Standing::Before;
            },
            (Some(_), None) => {
                return Standing::After;
            },
            (Some(c), Some(d)) => {
                if c != d {
                    assert(a@[i] != b@[i]);
                    if c < d {
                        return Standing::Before;
                    } else {
                        return Standing::After;
                    }
                }
                proof {
                    assert(a@.skip(i).drop_first() =~= a@.skip(i + 1));
                    assert(b@.skip(i).drop_first() =~= b@.skip(i + 1));
                    assert(a@.take(i + 1) =~= a@.take(i).push(a@[i]));
                    assert(b@.take(i + 1) =~= b@.take(i).push(b@[i]));
                    i = i + 1;
                }
            },
        }
    }
}

/// Whether two strings are the same.
pub fn same(a: &str, b: &str) -> (r: bool)
    ensures
        r == (a@ == b@),
{
    let x = a.as_bytes();
    let y = b.as_bytes();
    if x.len() != y.len() {
        return false;
    }
    let mut i: usize = 0;
    while i < x.len()
        invariant
            i <= x.len(),
            x.len() == y.len(),
            x@ == vstd::utf8::encode_utf8(a@),
            y@ == vstd::utf8::encode_utf8(b@),
            x@.take(i as int) == y@.take(i as int),
        decreases x.len() - i,
    {
        if x[i] != y[i] {
            return false;
        }
        proof {
            assert(x@.take(i + 1) =~= x@.take(i as int).push(x@[i as int]));
            assert(y@.take(i + 1) =~= y@.take(i as int).push(y@[i as int]));
        }
        i = i + 1;
    }
    proof {
        assert(x@.take(i as int) =~= x@);
        assert(y@.take(i as int) =~= y@);
        vstd::utf8::encode_utf8_decode_utf8(a@);
        vstd::utf8::encode_utf8_decode_utf8(b@);
    }
    true
}

/// The characters of a string.
pub fn characters(s: &str) -> (r: Vec<char>)
    ensures
        r@ == s@,
{
    broadcast use vstd::string::group_string_axioms;

    let mut out: Vec<char> = Vec::new();
    let mut left = s.chars();
    assert(s@.skip(0) =~= s@);
    loop
        invariant
            out@.len() <= s@.len(),
            out@ == s@.take(out@.len() as int),
            vstd::std_specs::iter::IteratorSpec::remaining(&left) == s@.skip(out@.len() as int),
        decreases s@.len() - out@.len(),
    {
        broadcast use vstd::string::group_string_axioms;

        let ghost i = out@.len() as int;
        match left.next() {
            None => {
                assert(s@.take(i) =~= s@);
                return out;
            },
            Some(c) => {
                out.push(c);
                assert(s@.take(i + 1) =~= s@.take(i).push(s@[i]));
                assert(s@.skip(i).drop_first() =~= s@.skip(i + 1));
            },
        }
    }
}

/// The digit of a number below ten.
fn digit_char(d: u64) -> (r: char)
    requires
        d < 10,
    ensures
        r == digit(d as nat),
{
    (48u8 + d as u8) as char
}

/// Append a number in decimal.
pub fn push_decimal(out: &mut String, n: u64)
    ensures
        final(out)@ == old(out)@ + decimal(n as nat),
    decreases n,
{
    if n < 10 {
        out.push(digit_char(n));
        assert(out@ =~= old(out)@ + seq![digit(n as nat)]);
    } else {
        push_decimal(out, n / 10);
        out.push(digit_char(n % 10));
        assert(out@ =~= old(out)@ + decimal((n / 10) as nat).push(digit((n % 10) as nat)));
    }
}

/// Append a large number in decimal.
pub fn push_large(out: &mut String, n: u128)
    ensures
        final(out)@ == old(out)@ + decimal(n as nat),
    decreases n,
{
    if n <= 0xffff_ffff_ffff_ffff {
        push_decimal(out, n as u64);
    } else {
        push_large(out, n / 10);
        out.push(digit_char((n % 10) as u64));
        assert(out@ =~= old(out)@ + decimal((n / 10) as nat).push(digit((n % 10) as nat)));
    }
}

/// Append an integer in decimal.
pub fn push_signed(out: &mut String, n: i64)
    ensures
        final(out)@ == old(out)@ + signed_decimal(n as int),
{
    if n < 0 {
        out.push('-');
        let size: u64 = (-(n as i128)) as u64;
        push_decimal(out, size);
        assert(out@ =~= old(out)@ + (seq!['-'] + decimal((-n) as nat)));
    } else {
        push_decimal(out, n as u64);
    }
}

/// How many digits a number has.
pub fn decimal_length(n: u64) -> (r: usize)
    ensures
        r == decimal(n as nat).len(),
        1 <= r <= 20,
{
    let mut left: u64 = n;
    let mut count: usize = 1;
    proof {
        assert(pow10(20) == 100_000_000_000_000_000_000) by {
            reveal_with_fuel(pow10, 21);
        }
        lemma_decimal_bound(n as nat, 20);
    }
    while left >= 10
        invariant
            count >= 1,
            decimal(n as nat).len() == decimal(left as nat).len() + count - 1,
            decimal(n as nat).len() <= 20,
        decreases left,
    {
        proof {
            lemma_decimal_grows(0, (left / 10) as nat);
        }
        left = left / 10;
        count = count + 1;
    }
    count
}

spec fn pow10(k: nat) -> nat
    decreases k,
{
    if k == 0 {
        1
    } else {
        10 * pow10((k - 1) as nat)
    }
}

proof fn lemma_decimal_bound(n: nat, k: nat)
    requires
        k >= 1,
        n < pow10(k),
    ensures
        1 <= decimal(n).len() <= k,
    decreases k,
{
    if n >= 10 {
        if k == 1 {
            reveal_with_fuel(pow10, 2);
        } else {
            lemma_decimal_bound(n / 10, (k - 1) as nat);
        }
    }
}

/// Append `s` set flush right in `width` columns.
pub fn push_flush_right(out: &mut String, s: &str, length: usize, width: usize)
    requires
        length == s@.len(),
    ensures
        final(out)@ == old(out)@ + flush_right(s@, width as nat),
{
    let ghost start = out@;
    let mut i: usize = length;
    while i < width
        invariant
            length <= i,
            i <= width || i == length,
            length == s@.len(),
            out@ == start + Seq::new((i - length) as nat, |k: int| ' '),
        decreases width - i,
    {
        out.push(' ');
        i = i + 1;
        assert(out@ =~= start + Seq::new((i - length) as nat, |k: int| ' '));
    }
    out.append(s);
    assert(out@ =~= start + flush_right(s@, width as nat));
}

/// `s` without the characters of `prefix` at its start.
pub fn without_prefix(s: &str, prefix: &str) -> (r: Option<String>)
    ensures
        match r {
            Some(rest) => s@ == prefix@ + rest@,
            None => !prefix@.is_prefix_of(s@),
        },
{
    let whole = characters(s);
    let head = characters(prefix);
    if head.len() > whole.len() {
        return None;
    }
    let mut i: usize = 0;
    while i < head.len()
        invariant
            i <= head.len() <= whole.len(),
            whole@ == s@,
            head@ == prefix@,
            whole@.take(i as int) == head@.take(i as int),
        decreases head.len() - i,
    {
        if whole[i] != head[i] {
            assert(prefix@.is_prefix_of(s@) ==> s@[i as int] == prefix@[i as int]);
            return None;
        }
        assert(whole@.take(i + 1) =~= whole@.take(i as int).push(whole@[i as int]));
        assert(head@.take(i + 1) =~= head@.take(i as int).push(head@[i as int]));
        i = i + 1;
    }
    let rest = collect(&whole, head.len(), whole.len());
    assert(head@.take(i as int) =~= head@);
    assert(s@ =~= prefix@ + rest@);
    Some(rest)
}

/// `s` without the characters of `suffix` at its end.
pub fn without_suffix(s: &str, suffix: &str) -> (r: Option<String>)
    ensures
        match r {
            Some(rest) => s@ == rest@ + suffix@,
            None => !suffix@.is_suffix_of(s@),
        },
{
    let whole = characters(s);
    let tail = characters(suffix);
    if tail.len() > whole.len() {
        return None;
    }
    let from: usize = whole.len() - tail.len();
    let mut i: usize = 0;
    while i < tail.len()
        invariant
            i <= tail.len(),
            from + tail.len() == whole.len(),
            whole@ == s@,
            tail@ == suffix@,
            forall|k: int| 0 <= k < i ==> whole@[from + k] == tail@[k],
        decreases tail.len() - i,
    {
        if whole[from + i] != tail[i] {
            assert(suffix@.is_suffix_of(s@) ==> s@.subrange(from as int, s@.len() as int)[i as int]
                == suffix@[i as int]);
            return None;
        }
        i = i + 1;
    }
    let rest = collect(&whole, 0, from);
    assert(s@ =~= rest@ + suffix@);
    Some(rest)
}

/// The characters from `from` up to `to` as a string.
pub fn collect(s: &Vec<char>, from: usize, to: usize) -> (r: String)
    requires
        from <= to <= s@.len(),
    ensures
        r@ == s@.subrange(from as int, to as int),
{
    let mut out = String::new();
    let mut i: usize = from;
    while i < to
        invariant
            from <= i <= to <= s@.len(),
            out@ == s@.subrange(from as int, i as int),
        decreases to - i,
    {
        out.push(s[i]);
        i = i + 1;
        assert(out@ =~= s@.subrange(from as int, i as int));
    }
    out
}

/// Whether `needle` occurs somewhere in `hay`.
pub fn contains(hay: &str, needle: &str) -> (r: bool)
    ensures
        r == occurs(needle@, hay@),
{
    let h = characters(hay);
    let n = characters(needle);
    if n.len() > h.len() {
        return false;
    }
    let mut at: usize = 0;
    while at <= h.len() - n.len()
        invariant
            n.len() <= h.len(),
            at <= h.len() - n.len() + 1,
            h@ == hay@,
            n@ == needle@,
            forall|k: int| 0 <= k < at ==> #[trigger] hay@.subrange(k, k + needle@.len()) != needle@,
        decreases h.len() - at + 1,
    {
        let mut i: usize = 0;
        while i < n.len() && h[at + i] == n[i]
            invariant
                at + n.len() <= h.len(),
                i <= n.len(),
                forall|k: int| 0 <= k < i ==> h@[at + k] == n@[k],
            decreases n.len() - i,
        {
            i = i + 1;
        }
        if i == n.len() {
            assert(hay@.subrange(at as int, at + needle@.len()) =~= needle@);
            return true;
        }
        assert(hay@.subrange(at as int, at + needle@.len())[i as int] != needle@[i as int]);
        if at == usize::MAX {
            return false;
        }
        at = at + 1;
    }
    false
}

/// Whether making the ASCII capitals of `s` small gives `small`.
pub fn same_when_small(s: &str, small: &str) -> (r: bool)
    ensures
        r == (ascii_small(s@) == small@),
{
    let a = characters(s);
    let b = characters(small);
    if a.len() != b.len() {
        return false;
    }
    let mut i: usize = 0;
    while i < a.len()
        invariant
            a.len() == b.len(),
            i <= a.len(),
            a@ == s@,
            b@ == small@,
            forall|k: int| 0 <= k < i ==> ascii_small_char(a@[k]) == b@[k],
        decreases a.len() - i,
    {
        let c = a[i];
        let lowered = if 'A' <= c && c <= 'Z' {
            (c as u8 + 32) as char
        } else {
            c
        };
        assert(lowered == ascii_small_char(c));
        if lowered != b[i] {
            assert(ascii_small(s@)[i as int] != small@[i as int]);
            return false;
        }
        i = i + 1;
    }
    assert(ascii_small(s@) =~= small@);
    true
}

/// A text with its capitals made small keeps its length and every character that is no ASCII
/// capital, has no such capital left, and is not changed by doing so again.
pub proof fn lemma_small_text_has_no_capitals(s: Seq<char>, i: int)
    requires
        0 <= i < s.len(),
    ensures
        ascii_small(s).len() == s.len(),
        !('A' <= ascii_small(s)[i] <= 'Z'),
        !('A' <= s[i] <= 'Z') ==> ascii_small(s)[i] == s[i],
        'A' <= s[i] <= 'Z' ==> ascii_small(s)[i] as u32 == s[i] as u32 + 32,
        ascii_small(ascii_small(s)) == ascii_small(s),
{
    assert(ascii_small(ascii_small(s)) =~= ascii_small(s)) by {
        assert forall|k: int| 0 <= k < s.len() implies #[trigger] ascii_small(ascii_small(s))[k]
            == ascii_small(s)[k] by {
            let c = s[k];
            if 'A' <= c <= 'Z' {
                assert(97 <= c as u32 + 32 <= 122);
            }
        }
    }
    if 'A' <= s[i] <= 'Z' {
        assert(97 <= s[i] as u32 + 32 <= 122);
    }
}

/// A text set flush right ends with the text, has nothing but spaces before it, and is as
/// wide as asked unless the text is wider.
pub proof fn lemma_flush_right_ends_with_the_text(s: Seq<char>, width: nat, i: int)
    ensures
        s.is_suffix_of(flush_right(s, width)),
        s.len() <= width ==> flush_right(s, width).len() == width,
        s.len() > width ==> flush_right(s, width) == s,
        0 <= i < flush_right(s, width).len() - s.len() ==> flush_right(s, width)[i] == ' ',
{
    let r = flush_right(s, width);
    assert(r.subrange(r.len() - s.len(), r.len() as int) =~= s);
}

/// A number is written with a minus sign in front exactly where it is below zero, and its
/// digits read back as its size.
pub proof fn lemma_signed_decimal_reads_back(n: int)
    ensures
        n < 0 ==> signed_decimal(n)[0] == '-' && decimal_value(signed_decimal(n).skip(1)) == -n,
        n >= 0 ==> decimal_value(signed_decimal(n)) == n,
{
    if n < 0 {
        lemma_decimal_reads_back((-n) as nat);
        assert(signed_decimal(n).skip(1) =~= decimal((-n) as nat));
    } else {
        lemma_decimal_reads_back(n as nat);
    }
}

/// Joined texts have what goes between them between each two, and nothing in front or behind:
/// of none nothing is made, one is joined as it is, and one more comes behind all others.
pub proof fn lemma_joined_goes_between(parts: Seq<Seq<char>>, between: Seq<char>, one: Seq<char>)
    ensures
        parts.len() == 0 ==> joined(parts, between).len() == 0,
        joined(seq![one], between) == one,
        parts.len() > 0 ==> joined(parts.push(one), between) == joined(parts, between) + between
            + one,
{
    assert(parts.push(one).drop_last() =~= parts);
    assert(seq![one][0] == one);
}

} // verus!
