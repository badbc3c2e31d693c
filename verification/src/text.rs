//! Operations on text, over the sequence of its characters.

use vstd::prelude::*;
use vstd::string::*;
use vstd::utf8::{encode_utf8, encode_utf8_decode_utf8};

verus! {

/// `String::push` puts one character at the end.
pub assume_specification[ std::string::String::push ](s: &mut std::string::String, c: char)
    ensures
        final(s)@ == old(s)@.push(c),
;

/// Text is determined by its UTF-8 bytes.
pub proof fn lemma_utf8_injective(a: Seq<char>, b: Seq<char>)
    requires
        encode_utf8(a) == encode_utf8(b),
    ensures
        a == b,
{
    encode_utf8_decode_utf8(a);
    encode_utf8_decode_utf8(b);
}

/// Whether two texts are the same.
pub fn same_text(a: &str, b: &str) -> (r: bool)
    ensures
        r == (a@ == b@),
{
    let x = a.as_bytes();
    let y = b.as_bytes();
    proof {
        if x@ == y@ {
            lemma_utf8_injective(a@, b@);
        }
    }
    if x.len() != y.len() {
        return false;
    }
    let mut i: usize = 0;
    while i < x.len()
        invariant
            i <= x.len(),
            x.len() == y.len(),
            forall|j: int| 0 <= j < i ==> x@[j] == y@[j],
            x@ == encode_utf8(a@),
            y@ == encode_utf8(b@),
        decreases x.len() - i,
    {
        if x[i] != y[i] {
            return false;
        }
        i = i + 1;
    }
    assert(x@ == y@);
    true
}

/// The characters of a text.
pub fn chars_of(s: &str) -> (r: Vec<char>)
    ensures
        r@ == s@,
{
    let mut out: Vec<char> = Vec::new();
    for c in it: s.chars()
        invariant
            out@ == s@.take(it.index() as int),
            it.seq() == s@,
    {
        out.push(c);
        assert(s@.take(it.index() + 1) == s@.take(it.index() as int).push(c));
    }
    assert(s@.take(s@.len() as int) == s@);
    out
}

/// The text made of the characters from `from` up to `to`.
pub fn string_of(chars: &Vec<char>, from: usize, to: usize) -> (r: String)
    requires
        from <= to <= chars@.len(),
    ensures
        r@ == chars@.subrange(from as int, to as int),
{
    let mut out: String = String::new();
    let mut i: usize = from;
    while i < to
        invariant
            from <= i <= to <= chars@.len(),
            out@ == chars@.subrange(from as int, i as int),
        decreases to - i,
    {
        out.push(chars[i]);
        assert(chars@.subrange(from as int, i + 1) == chars@.subrange(from as int, i as int).push(
            chars@[i as int],
        ));
        i = i + 1;
    }
    out
}

/// An owned copy of a text.
pub fn owned(s: &str) -> (r: String)
    ensures
        r@ == s@,
{
    s.to_owned()
}

/// Two texts one after the other.
pub fn cat(a: &str, b: &str) -> (r: String)
    ensures
        r@ == a@ + b@,
{
    let mut out: String = a.to_owned();
    out.append(b);
    out
}

/// Three texts one after the other.
pub fn cat3(a: &str, b: &str, c: &str) -> (r: String)
    ensures
        r@ == a@ + b@ + c@,
{
    let mut out = cat(a, b);
    out.append(c);
    out
}

/// Whether `s` begins with `prefix`.
pub open spec fn begins_with(s: Seq<char>, prefix: Seq<char>) -> bool {
    prefix.len() <= s.len() && s.subrange(0, prefix.len() as int) == prefix
}

/// Whether `s` ends with `suffix`.
pub open spec fn ends_with(s: Seq<char>, suffix: Seq<char>) -> bool {
    suffix.len() <= s.len() && s.subrange(s.len() - suffix.len(), s.len() as int) == suffix
}

pub fn starts_with(s: &str, prefix: &str) -> (r: bool)
    ensures
        r == begins_with(s@, prefix@),
{
    let a = chars_of(s);
    let b = chars_of(prefix);
    occurs_at(&a, &b, 0)
}

/// Whether `b` stands in `a` from position `at` on.
pub fn occurs_at(a: &Vec<char>, b: &Vec<char>, at: usize) -> (r: bool)
    requires
        at <= a@.len(),
    ensures
        r == (b@.len() <= a@.len() - at && a@.subrange(at as int, at + b@.len()) == b@),
{
    if a.len() - at < b.len() {
        return false;
    }
    let mut i: usize = 0;
    while i < b.len()
        invariant
            i <= b@.len() <= a@.len() - at,
            a@.len() <= usize::MAX,
            forall|j: int| 0 <= j < i ==> a@[at + j] == b@[j],
        decreases b@.len() - i,
    {
        if a[at + i] != b[i] {
            assert(a@.subrange(at as int, at + b@.len())[i as int] != b@[i as int]);
            return false;
        }
        i = i + 1;
    }
    assert(a@.subrange(at as int, at + b@.len()) == b@);
    true
}

/// The Unicode white space characters.
pub open spec fn is_white(c: char) -> bool {
    let n = c as u32;
    ||| 0x09 <= n <= 0x0D
    ||| n == 0x20
    ||| n == 0x85
    ||| n == 0xA0
    ||| n == 0x1680
    ||| 0x2000 <= n <= 0x200A
    ||| n == 0x2028
    ||| n == 0x2029
    ||| n == 0x202F
    ||| n == 0x205F
    ||| n == 0x3000
}

pub fn white(c: char) -> (r: bool)
    ensures
        r == is_white(c),
{
    let n: u32 = c as u32;
    (0x09 <= n && n <= 0x0D) || n == 0x20 || n == 0x85 || n == 0xA0 || n == 0x1680 || (0x2000 <= n
        && n <= 0x200A) || n == 0x2028 || n == 0x2029 || n == 0x202F || n == 0x205F || n == 0x3000
}

/// Without the leading characters that `drop` holds of.
pub open spec fn strip_front(s: Seq<char>, drop: spec_fn(char) -> bool) -> Seq<char>
    decreases s.len(),
{
    if s.len() > 0 && drop(s[0]) {
        strip_front(s.drop_first(), drop)
    } else {
        s
    }
}

/// Without the trailing characters that `drop` holds of.
pub open spec fn strip_back(s: Seq<char>, drop: spec_fn(char) -> bool) -> Seq<char>
    decreases s.len(),
{
    if s.len() > 0 && drop(s.last()) {
        strip_back(s.drop_last(), drop)
    } else {
        s
    }
}

/// Without white space at either end.
pub open spec fn trimmed(s: Seq<char>) -> Seq<char> {
    strip_back(strip_front(s, |c: char| is_white(c)), |c: char| is_white(c))
}

/// Without white space at either end.
pub fn trim(s: &str) -> (r: String)
    ensures
        r@ == trimmed(s@),
{
    let chars = chars_of(s);
    let ghost p = |c: char| is_white(c);
    let mut from: usize = 0;
    assert(chars@.subrange(0, chars@.len() as int) == chars@);
    while from < chars.len() && white(chars[from])
        invariant
            from <= chars@.len(),
            chars@ == s@,
            p == (|c: char| is_white(c)),
            strip_front(s@, p) == strip_front(chars@.subrange(from as int, chars@.len() as int), p),
        decreases chars@.len() - from,
    {
        let ghost rest = chars@.subrange(from as int, chars@.len() as int);
        assert(p(rest[0]));
        assert(rest.drop_first() == chars@.subrange(from + 1, chars@.len() as int));
        from = from + 1;
    }
    let ghost kept = chars@.subrange(from as int, chars@.len() as int);
    assert(strip_front(s@, p) == kept) by {
        if kept.len() > 0 {
            assert(!p(kept[0]));
        }
    }
    let mut to: usize = chars.len();
    while to > from && white(chars[to - 1])
        invariant
            from <= to <= chars@.len(),
            p == (|c: char| is_white(c)),
            strip_back(kept, p) == strip_back(chars@.subrange(from as int, to as int), p),
        decreases to,
    {
        let ghost rest = chars@.subrange(from as int, to as int);
        assert(p(rest.last()));
        assert(rest.drop_last() == chars@.subrange(from as int, to - 1));
        to = to - 1;
    }
    let ghost last = chars@.subrange(from as int, to as int);
    assert(strip_back(kept, p) == last) by {
        if last.len() > 0 {
            assert(!p(last.last()));
        }
    }
    string_of(&chars, from, to)
}

/// The pieces of a text between the occurrences of a separator.
pub open spec fn pieces(s: Seq<char>, sep: char) -> Seq<Seq<char>>
    decreases s.len(),
{
    if s.len() == 0 {
        seq![s]
    } else {
        let head = pieces(s.drop_last(), sep);
        if s.last() == sep {
            head.push(Seq::empty())
        } else {
            head.drop_last().push(head.last().push(s.last()))
        }
    }
}

/// The views of a list of texts.
pub open spec fn texts(v: Seq<String>) -> Seq<Seq<char>> {
    v.map_values(|s: String| s@)
}

pub proof fn lemma_pieces_nonempty(s: Seq<char>, sep: char)
    ensures
        pieces(s, sep).len() > 0,
    decreases s.len(),
{
    if s.len() > 0 {
        lemma_pieces_nonempty(s.drop_last(), sep);
    }
}

/// A text without separators is its only piece.
pub proof fn lemma_pieces_single(s: Seq<char>, sep: char)
    requires
        !s.contains(sep),
    ensures
        pieces(s, sep) == seq![s],
    decreases s.len(),
{
    if s.len() > 0 {
        let d = s.drop_last();
        assert(!d.contains(sep)) by {
            if d.contains(sep) {
                let i = choose|i: int| 0 <= i < d.len() && d[i] == sep;
                assert(s[i] == sep);
            }
        }
        lemma_pieces_single(d, sep);
        assert(s[s.len() - 1] == s.last());
        assert(d.push(s.last()) == s);
        assert(seq![d].drop_last().push(s) == seq![s]);
    } else {
        assert(s == Seq::<char>::empty());
    }
}

/// The pieces of two texts with a separator between them.
pub proof fn lemma_pieces_linked(a: Seq<char>, b: Seq<char>, sep: char)
    ensures
        pieces(a + seq![sep] + b, sep) == pieces(a, sep) + pieces(b, sep),
    decreases b.len(),
{
    let s = a + seq![sep] + b;
    let head = pieces(a, sep);
    if b.len() == 0 {
        assert(s.drop_last() == a);
        assert(pieces(b, sep) == seq![b]);
        assert(b == Seq::<char>::empty());
        assert(head.push(Seq::<char>::empty()) == head + seq![b]);
    } else {
        let d = b.drop_last();
        lemma_pieces_linked(a, d, sep);
        lemma_pieces_nonempty(d, sep);
        assert(s.drop_last() == a + seq![sep] + d);
        assert(s.last() == b.last());
        let p = pieces(d, sep);
        assert((head + p).last() == p.last());
        assert((head + p).drop_last() == head + p.drop_last());
        if b.last() == sep {
            assert((head + p).push(Seq::empty()) == head + p.push(Seq::empty()));
        } else {
            let x = p.last().push(b.last());
            assert((head + p.drop_last()).push(x) == head + p.drop_last().push(x));
        }
    }
}

/// The pieces of a text between the occurrences of a separator.
pub fn split(s: &str, sep: char) -> (r: Vec<String>)
    ensures
        texts(r@) == pieces(s@, sep),
        r@.len() > 0,
{
    let chars = chars_of(s);
    let mut out: Vec<String> = Vec::new();
    let mut piece: String = String::new();
    let mut i: usize = 0;
    assert(chars@.take(0) == Seq::<char>::empty());
    assert(texts(out@) + seq![piece@] == seq![Seq::<char>::empty()]);
    while i < chars.len()
        invariant
            i <= chars@.len(),
            texts(out@) + seq![piece@] == pieces(chars@.take(i as int), sep),
        decreases chars@.len() - i,
    {
        let c = chars[i];
        let ghost before = texts(out@) + seq![piece@];
        proof {
            assert(chars@.take(i + 1).drop_last() == chars@.take(i as int));
            assert(before.last() == piece@);
            assert(before.drop_last() == texts(out@));
        }
        if c == sep {
            out.push(piece);
            piece = String::new();
            assert(texts(out@) == before);
            assert(texts(out@) + seq![piece@] == before.push(Seq::empty()));
        } else {
            piece.push(c);
            assert(texts(out@) + seq![piece@] == before.drop_last().push(before.last().push(c)));
        }
        i = i + 1;
    }
    assert(chars@.take(chars@.len() as int) == chars@);
    let ghost before = texts(out@) + seq![piece@];
    out.push(piece);
    assert(texts(out@) == before);
    out
}

/// Where `pattern` first occurs in `s`.
pub open spec fn position(s: Seq<char>, pattern: Seq<char>) -> Option<int>
    decreases s.len(),
{
    if begins_with(s, pattern) {
        Some(0)
    } else if s.len() == 0 {
        None
    } else {
        match position(s.drop_first(), pattern) {
            Some(i) => Some(i + 1),
            None => None,
        }
    }
}

proof fn lemma_position_skip(s: Seq<char>, pattern: Seq<char>, from: int)
    requires
        0 <= from <= s.len(),
        forall|j: int| 0 <= j < from ==> !begins_with(#[trigger] s.skip(j), pattern),
    ensures
        position(s, pattern) == match position(s.skip(from), pattern) {
            Some(i) => Some(i + from),
            None => None::<int>,
        },
    decreases from,
{
    if from == 0 {
        assert(s.skip(0) == s);
    } else {
        let t = s.drop_first();
        assert(s.skip(0) == s);
        assert forall|j: int| 0 <= j < from - 1 implies !begins_with(#[trigger] t.skip(j), pattern) by {
            assert(t.skip(j) == s.skip(j + 1));
        }
        lemma_position_skip(t, pattern, from - 1);
        assert(t.skip(from - 1) == s.skip(from));
    }
}

/// Where `pattern` first occurs in `s`.
pub fn find(s: &Vec<char>, pattern: &Vec<char>) -> (r: Option<usize>)
    ensures
        match r {
            Some(i) => position(s@, pattern@) == Some(i as int) && i + pattern@.len() <= s@.len()
                && s@.subrange(i as int, i + pattern@.len()) == pattern@,
            None => position(s@, pattern@) is None,
        },
{
    let mut i: usize = 0;
    while i < s.len()
        invariant
            i <= s@.len(),
            forall|j: int| 0 <= j < i ==> !begins_with(#[trigger] s@.skip(j), pattern@),
        decreases s@.len() - i,
    {
        let here = occurs_at(s, pattern, i);
        proof {
            let t = s@.skip(i as int);
            if pattern@.len() <= t.len() {
                assert(t.subrange(0, pattern@.len() as int) == s@.subrange(
                    i as int,
                    i + pattern@.len(),
                ));
            }
            assert(here == begins_with(t, pattern@));
        }
        if here {
            proof {
                lemma_position_skip(s@, pattern@, i as int);
            }
            return Some(i);
        }
        i = i + 1;
    }
    proof {
        lemma_position_skip(s@, pattern@, s@.len() as int);
        assert(s@.skip(s@.len() as int) == Seq::<char>::empty());
    }
    if pattern.len() == 0 {
        assert(Seq::<char>::empty().subrange(0, 0) == pattern@);
        assert(s@.subrange(s@.len() as int, s@.len() as int) == pattern@);
        Some(s.len())
    } else {
        None
    }
}

pub open spec fn is_digit(c: char) -> bool {
    '0' <= c && c <= '9'
}

/// The number that a run of decimal digits stands for.
pub open spec fn digits_value(s: Seq<char>) -> nat
    decreases s.len(),
{
    if s.len() == 0 {
        0
    } else {
        10 * digits_value(s.drop_last()) + (s.last() as nat - '0' as nat) as nat
    }
}

/// The digits of a decimal number, without the `+` that may precede them.
pub open spec fn digits_of(s: Seq<char>) -> Seq<char> {
    if s.len() > 0 && s[0] == '+' {
        s.drop_first()
    } else {
        s
    }
}

/// The natural number up to `max` that a text stands for: an optional `+` and
/// at least one decimal digit.
pub open spec fn decimal(s: Seq<char>, max: nat) -> Option<nat> {
    let d = digits_of(s);
    if d.len() > 0 && (forall|i: int| 0 <= i < d.len() ==> is_digit(#[trigger] d[i]))
        && digits_value(d) <= max {
        Some(digits_value(d))
    } else {
        None
    }
}

proof fn lemma_digits_value_grows(s: Seq<char>, n: int)
    requires
        0 <= n <= s.len(),
    ensures
        digits_value(s.take(n)) <= digits_value(s),
    decreases s.len() - n,
{
    if n < s.len() {
        lemma_digits_value_grows(s, n + 1);
        assert(s.take(n + 1).drop_last() == s.take(n));
    } else {
        assert(s.take(n) == s);
    }
}

/// The natural number up to `max` that a text stands for.
pub fn parse_decimal(s: &str, max: u64) -> (r: Option<u64>)
    ensures
        match r {
            Some(n) => decimal(s@, max as nat) == Some(n as nat),
            None => decimal(s@, max as nat) is None,
        },
{
    let chars = chars_of(s);
    let from: usize = if chars.len() > 0 && chars[0] == '+' { 1 } else { 0 };
    let ghost d = digits_of(s@);
    assert(d == chars@.skip(from as int));
    if chars.len() == from {
        return None;
    }
    let mut i: usize = from;
    let mut n: u64 = 0;
    assert(d.take(0) == Seq::<char>::empty());
    while i < chars.len()
        invariant
            from <= i <= chars@.len(),
            d == chars@.skip(from as int),
            d == digits_of(s@),
            n == digits_value(d.take(i - from)),
            n <= max,
            forall|j: int| 0 <= j < i - from ==> is_digit(#[trigger] d[j]),
        decreases chars@.len() - i,
    {
        let c = chars[i];
        let ghost k = i - from;
        assert(d[k] == c);
        if !('0' <= c && c <= '9') {
            assert(!is_digit(d[k]));
            return None;
        }
        let v: u64 = (c as u32 - '0' as u32) as u64;
        assert(v <= 9);
        proof {
            assert(d.take(k + 1).drop_last() == d.take(k));
            assert(d.take(k + 1).last() == c);
            lemma_digits_value_grows(d, k + 1);
        }
        if v > max || n > max / 10 || n * 10 > max - v {
            assert(10 * n + v > max) by {
                if n > max / 10 {
                    assert(n >= max / 10 + 1);
                }
            }
            return None;
        }
        n = n * 10 + v;
        i = i + 1;
    }
    assert(d.take(i - from) == d);
    Some(n)
}

/// The decimal digits of a natural number.
pub open spec fn decimal_text(n: nat) -> Seq<char>
    decreases n,
{
    if n < 10 {
        seq![digit_char(n)]
    } else {
        decimal_text(n / 10).push(digit_char(n % 10))
    }
}

pub open spec fn digit_char(n: nat) -> char {
    (('0' as nat + n) as u32) as char
}

/// The decimal digits of a natural number.
pub fn write_decimal(n: u64) -> (r: String)
    ensures
        r@ == decimal_text(n as nat),
    decreases n,
{
    if n < 10 {
        let mut out: String = String::new();
        out.push((48u8 + n as u8) as char);
        assert(out@ == decimal_text(n as nat));
        out
    } else {
        let mut out = write_decimal(n / 10);
        out.push((48u8 + (n % 10) as u8) as char);
        out
    }
}

/// Reading a number back gives what was written.
pub proof fn lemma_decimal_round_trip(n: nat, max: nat)
    requires
        n <= max,
    ensures
        decimal(decimal_text(n), max) == Some(n),
{
    lemma_decimal_text(n);
    let s = decimal_text(n);
    assert(is_digit(s[0]));
    assert(digits_of(s) == s);
}

/// A number is written in digits.
pub proof fn lemma_decimal_digits(n: nat)
    ensures
        decimal_text(n).len() > 0,
        forall|i: int|
            0 <= i < decimal_text(n).len() ==> '0' <= (#[trigger] decimal_text(n)[i]) <= '9',
{
    lemma_decimal_text(n);
}

proof fn lemma_decimal_text(n: nat)
    ensures
        decimal_text(n).len() > 0,
        forall|i: int| 0 <= i < decimal_text(n).len() ==> is_digit(#[trigger] decimal_text(n)[i]),
        digits_value(decimal_text(n)) == n,
    decreases n,
{
    let s = decimal_text(n);
    if n < 10 {
        assert(s.drop_last() == Seq::<char>::empty());
        assert(digits_value(Seq::<char>::empty()) == 0);
    } else {
        lemma_decimal_text(n / 10);
        assert(s.drop_last() == decimal_text(n / 10));
    }
}

/// One lower-case hexadecimal digit.
pub open spec fn hex_char(n: nat) -> char {
    if n < 10 {
        digit_char(n)
    } else {
        (('a' as nat + n - 10) as u32) as char
    }
}

pub fn hex_digit(n: u8) -> (r: char)
    requires
        n < 16,
    ensures
        r == hex_char(n as nat),
{
    if n < 10 {
        (48u8 + n) as char
    } else {
        (97u8 + (n - 10)) as char
    }
}

/// Two lower-case hexadecimal digits for each byte.
pub open spec fn hex_text(bytes: Seq<u8>) -> Seq<char>
    decreases bytes.len(),
{
    if bytes.len() == 0 {
        Seq::empty()
    } else {
        let b = bytes.last() as nat;
        hex_text(bytes.drop_last()).push(hex_char(b / 16)).push(hex_char(b % 16))
    }
}

/// A text in a form that no separator of a cache key occurs in: the
/// hexadecimal digits of its UTF-8 bytes.
pub open spec fn segment(s: Seq<char>) -> Seq<char> {
    hex_text(encode_utf8(s))
}

/// A text in a form that no separator of a cache key occurs in.
pub fn cache_key_segment(raw: &str) -> (r: String)
    ensures
        r@ == segment(raw@),
{
    let bytes = raw.as_bytes();
    let mut out: String = String::new();
    let mut i: usize = 0;
    assert(bytes@.take(0) == Seq::<u8>::empty());
    while i < bytes.len()
        invariant
            i <= bytes@.len(),
            out@ == hex_text(bytes@.take(i as int)),
        decreases bytes@.len() - i,
    {
        let b = bytes[i];
        out.push(hex_digit(b / 16));
        out.push(hex_digit(b % 16));
        assert(bytes@.take(i + 1).drop_last() == bytes@.take(i as int));
        i = i + 1;
    }
    assert(bytes@.take(bytes@.len() as int) == bytes@);
    out
}

pub open spec fn is_hex_lower(c: char) -> bool {
    is_digit(c) || ('a' <= c && c <= 'f')
}

pub proof fn lemma_hex_text(bytes: Seq<u8>)
    ensures
        hex_text(bytes).len() == 2 * bytes.len(),
        forall|i: int| 0 <= i < hex_text(bytes).len() ==> is_hex_lower(#[trigger] hex_text(bytes)[i]),
        forall|i: int|
            0 <= i < bytes.len() ==> hex_text(bytes)[2 * i] == hex_char(bytes[i] as nat / 16)
                && hex_text(bytes)[2 * i + 1] == hex_char(#[trigger] bytes[i] as nat % 16),
    decreases bytes.len(),
{
    if bytes.len() > 0 {
        let front = bytes.drop_last();
        lemma_hex_text(front);
        assert forall|i: int| 0 <= i < bytes.len() implies hex_text(bytes)[2 * i] == hex_char(
            bytes[i] as nat / 16,
        ) && hex_text(bytes)[2 * i + 1] == hex_char(#[trigger] bytes[i] as nat % 16) by {
            if i < front.len() {
                assert(front[i] == bytes[i]);
            }
        }
    }
}

/// Different texts have different segments.
pub proof fn lemma_segment_injective(a: Seq<char>, b: Seq<char>)
    requires
        segment(a) == segment(b),
    ensures
        a == b,
{
    let x = encode_utf8(a);
    let y = encode_utf8(b);
    lemma_hex_text(x);
    lemma_hex_text(y);
    assert(x.len() == y.len());
    assert forall|i: int| 0 <= i < x.len() implies x[i] == y[i] by {
        let p = x[i] as nat;
        let q = y[i] as nat;
        assert(hex_char(p / 16) == hex_char(q / 16));
        assert(hex_char(p % 16) == hex_char(q % 16));
    }
    assert(x == y);
    lemma_utf8_injective(a, b);
}

/// A segment holds lower-case hexadecimal digits only, so no colon.
pub proof fn lemma_segment_has_no_separator(a: Seq<char>)
    ensures
        forall|i: int| 0 <= i < segment(a).len() ==> is_hex_lower(#[trigger] segment(a)[i]),
        !segment(a).contains(':'),
{
    lemma_hex_text(encode_utf8(a));
}

/// ASCII capital letters made small, all else kept.
pub open spec fn ascii_lower(c: char) -> char {
    if 'A' <= c && c <= 'Z' {
        ((c as nat + 32) as u32) as char
    } else {
        c
    }
}

pub open spec fn ascii_lowered(s: Seq<char>) -> Seq<char> {
    s.map_values(|c: char| ascii_lower(c))
}

/// ASCII capital letters made small, all else kept.
pub fn to_ascii_lower(s: &str) -> (r: String)
    ensures
        r@ == ascii_lowered(s@),
{
    let chars = chars_of(s);
    let mut out: String = String::new();
    let mut i: usize = 0;
    assert(ascii_lowered(chars@.take(0)) == Seq::<char>::empty());
    while i < chars.len()
        invariant
            i <= chars@.len(),
            out@ == ascii_lowered(chars@.take(i as int)),
        decreases chars@.len() - i,
    {
        let c = chars[i];
        let d: char = if 'A' <= c && c <= 'Z' { (c as u8 + 32) as char } else { c };
        out.push(d);
        assert(ascii_lowered(chars@.take(i + 1)) == ascii_lowered(chars@.take(i as int)).push(
            ascii_lower(c),
        ));
        i = i + 1;
    }
    assert(chars@.take(chars@.len() as int) == chars@);
    out
}

/// What `str::to_lowercase` makes of a text.
pub uninterp spec fn lowercase(s: Seq<char>) -> Seq<char>;

/// `str::to_lowercase`: the result depends on the text alone, and of a text
/// that holds only ASCII characters it makes the capital letters small.
#[verifier::external_body]
pub(crate) fn to_lowercase(s: &str) -> (r: String)
    ensures
        r@ == lowercase(s@),
        (forall|i: int| 0 <= i < s@.len() ==> (#[trigger] s@[i] as u32) < 128) ==> r@ == ascii_lowered(s@),
{
    s.to_lowercase()
}

/// The first `max` characters, followed by a mark where some were cut off.
pub open spec fn cut(s: Seq<char>, max: nat) -> Seq<char> {
    if s.len() <= max {
        s
    } else {
        s.take(max as int) + "...[truncated]"@
    }
}

/// The first `max_chars` characters, followed by a mark where some were cut
/// off.
pub fn truncate_string(value: String, max_chars: usize) -> (r: String)
    ensures
        r@ == cut(value@, max_chars as nat),
{
    let chars = chars_of(value.as_str());
    if chars.len() <= max_chars {
        value
    } else {
        assert(chars@.subrange(0, max_chars as int) == value@.take(max_chars as int));
        cat(string_of(&chars, 0, max_chars).as_str(), "...[truncated]")
    }
}

/// Whether the first text comes before the second in lexicographic order of
/// code points.
pub open spec fn text_less(a: Seq<char>, b: Seq<char>) -> bool
    decreases a.len(),
{
    if b.len() == 0 {
        false
    } else if a.len() == 0 {
        true
    } else if a[0] != b[0] {
        a[0] < b[0]
    } else {
        text_less(a.drop_first(), b.drop_first())
    }
}

/// The order of two texts: -1, 0 or 1.
pub open spec fn text_order(a: Seq<char>, b: Seq<char>) -> int {
    if a == b {
        0
    } else if text_less(a, b) {
        -1
    } else {
        1
    }
}

/// The order of two texts by code points: -1, 0 or 1.
pub fn order_texts(a: &str, b: &str) -> (r: i32)
    ensures
        r == text_order(a@, b@),
{
    let x = chars_of(a);
    let y = chars_of(b);
    let mut i: usize = 0;
    assert(x@.skip(0) == x@ && y@.skip(0) == y@);
    while i < x.len() && i < y.len() && x[i] == y[i]
        invariant
            i <= x@.len(),
            i <= y@.len(),
            x@ == a@,
            y@ == b@,
            forall|j: int| 0 <= j < i ==> x@[j] == y@[j],
            text_less(a@, b@) == text_less(x@.skip(i as int), y@.skip(i as int)),
        decreases x@.len() - i,
    {
        assert(x@.skip(i as int).drop_first() == x@.skip(i + 1));
        assert(y@.skip(i as int).drop_first() == y@.skip(i + 1));
        i = i + 1;
    }
    if i == x.len() {
        if i == y.len() {
            assert(a@ == b@);
            0
        } else {
            -1
        }
    } else if i == y.len() {
        1
    } else {
        assert(x@[i as int] != y@[i as int]);
        if x[i] < y[i] {
            -1
        } else {
            1
        }
    }
}

/// The order of texts is antisymmetric.
pub proof fn lemma_text_order_antisymmetric(a: Seq<char>, b: Seq<char>)
    ensures
        text_order(a, b) == -text_order(b, a),
    decreases a.len(),
{
    if a.len() > 0 && b.len() > 0 && a[0] == b[0] {
        lemma_text_order_antisymmetric(a.drop_first(), b.drop_first());
        if a.drop_first() == b.drop_first() {
            assert(a == seq![a[0]] + a.drop_first());
            assert(b == seq![b[0]] + b.drop_first());
        }
        if a == b {
            assert(a.drop_first() == b.drop_first());
        }
    } else if a.len() == 0 && b.len() == 0 {
        assert(a == b);
    }
}

/// The order of texts is transitive.
pub proof fn lemma_text_less_transitive(a: Seq<char>, b: Seq<char>, c: Seq<char>)
    requires
        text_less(a, b),
        text_less(b, c),
    ensures
        text_less(a, c),
    decreases a.len(),
{
    if a.len() > 0 && a[0] == b[0] && b[0] == c[0] {
        lemma_text_less_transitive(a.drop_first(), b.drop_first(), c.drop_first());
    }
}

/// Whether a list of texts is in order.
pub open spec fn in_order(s: Seq<Seq<char>>) -> bool {
    forall|i: int, j: int|
        0 <= i < j < s.len() ==> text_order(#[trigger] s[i], #[trigger] s[j]) <= 0
}

/// Puts a list of texts in order.
pub fn sort_texts(v: Vec<String>) -> (r: Vec<String>)
    ensures
        in_order(texts(r@)),
        texts(r@).to_multiset() == texts(v@).to_multiset(),
{
    let ghost start = texts(v@);
    let mut r: Vec<String> = Vec::new();
    let mut n: usize = 0;
    assert(texts(r@) == start.take(0));
    while n < v.len()
        invariant
            n <= v@.len(),
            start == texts(v@),
            in_order(texts(r@)),
            texts(r@).to_multiset() == start.take(n as int).to_multiset(),
        decreases v@.len() - n,
    {
        let ghost s = texts(r@);
        let ghost x = start[n as int];
        let mut p: usize = 0;
        while p < r.len() && order_texts(r[p].as_str(), v[n].as_str()) <= 0
            invariant
                p <= r@.len(),
                n < v@.len(),
                s == texts(r@),
                start == texts(v@),
                x == start[n as int],
                forall|i: int| 0 <= i < p ==> text_order(#[trigger] s[i], x) <= 0,
            decreases r@.len() - p,
        {
            assert(s[p as int] == r@[p as int]@);
            p = p + 1;
        }
        r.insert(p, v[n].clone());
        proof {
            broadcast use vstd::seq_lib::group_to_multiset_ensures;

            assert(texts(r@) == s.insert(p as int, x));
            assert(start.take(n + 1) == start.take(n as int).push(x));
            lemma_insert_in_order(s, p as int, x);
        }
        n = n + 1;
    }
    assert(start.take(n as int) == start);
    r
}

proof fn lemma_insert_in_order(s: Seq<Seq<char>>, p: int, x: Seq<char>)
    requires
        in_order(s),
        0 <= p <= s.len(),
        forall|i: int| 0 <= i < p ==> text_order(#[trigger] s[i], x) <= 0,
        p < s.len() ==> text_order(s[p], x) > 0,
    ensures
        in_order(s.insert(p, x)),
{
    let t = s.insert(p, x);
    assert forall|i: int, j: int| 0 <= i < j < t.len() implies text_order(
        #[trigger] t[i],
        #[trigger] t[j],
    ) <= 0 by {
        let a = if i < p {
            i
        } else {
            i - 1
        };
        let b = if j < p {
            j
        } else {
            j - 1
        };
        assert(i != p ==> t[i] == s[a]);
        assert(j != p ==> t[j] == s[b]);
        if i == p {
            lemma_text_order_antisymmetric(s[p], x);
            if b > p {
                assert(text_order(s[p], s[b]) <= 0);
                if x != s[p] && s[p] != s[b] {
                    lemma_text_less_transitive(x, s[p], s[b]);
                }
            }
        } else if j != p {
            assert(text_order(s[a], s[b]) <= 0);
        }
    }
}

proof fn lemma_strip_front_part(before: Seq<char>, rest: Seq<char>, drop: spec_fn(char) -> bool)
    requires
        forall|i: int| 0 <= i < before.len() ==> drop(#[trigger] before[i]),
        rest.len() > 0 ==> !drop(rest[0]),
    ensures
        strip_front(before + rest, drop) == rest,
    decreases before.len(),
{
    let s = before + rest;
    if before.len() > 0 {
        assert(drop(before[0]));
        let d = before.drop_first();
        assert forall|i: int| 0 <= i < d.len() implies drop(#[trigger] d[i]) by {
            assert(d[i] == before[i + 1]);
        }
        lemma_strip_front_part(d, rest, drop);
        assert(s.drop_first() == d + rest);
    } else {
        assert(s == rest);
    }
}

proof fn lemma_strip_back_part(rest: Seq<char>, after: Seq<char>, drop: spec_fn(char) -> bool)
    requires
        forall|i: int| 0 <= i < after.len() ==> drop(#[trigger] after[i]),
        rest.len() > 0 ==> !drop(rest.last()),
    ensures
        strip_back(rest + after, drop) == rest,
    decreases after.len(),
{
    let s = rest + after;
    if after.len() > 0 {
        assert(drop(after[after.len() - 1]));
        let d = after.drop_last();
        assert forall|i: int| 0 <= i < d.len() implies drop(#[trigger] d[i]) by {
            assert(d[i] == after[i]);
        }
        lemma_strip_back_part(rest, d, drop);
        assert(s.drop_last() == rest + d);
    } else {
        assert(s == rest);
    }
}

/// Trimming takes away the white space at both ends and nothing else.
pub proof fn lemma_trimming_is_exact(before: Seq<char>, core: Seq<char>, after: Seq<char>)
    requires
        forall|i: int| 0 <= i < before.len() ==> is_white(#[trigger] before[i]),
        forall|i: int| 0 <= i < after.len() ==> is_white(#[trigger] after[i]),
        core.len() > 0 ==> !is_white(core[0]) && !is_white(core.last()),
    ensures
        trimmed(before + core + after) == core,
{
    let white = |c: char| is_white(c);
    if core.len() > 0 {
        assert(before + core + after == before + (core + after));
        lemma_strip_front_part(before, core + after, white);
    } else {
        let all = before + core + after;
        assert forall|i: int| 0 <= i < all.len() implies white(#[trigger] all[i]) by {
            if i < before.len() {
                assert(all[i] == before[i]);
            } else {
                assert(all[i] == after[i - before.len()]);
            }
        }
        assert(all + Seq::<char>::empty() == all);
        lemma_strip_front_part(all, Seq::empty(), white);
        assert(core + Seq::<char>::empty() == strip_front(all, white));
    }
    if core.len() > 0 {
        lemma_strip_back_part(core, after, white);
    }
}

} // verus!
