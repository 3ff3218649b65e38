//! Text: numbers in decimal, tokens, search, and lexicographic order.

use vstd::prelude::*;
use vstd::string::StringExecFns;

verus! {

/// What `Debug` prints for the text `s`: `s` in double quotes, escaped.
pub uninterp spec fn debug_text(s: Seq<char>) -> Seq<char>;

/// `<str as Debug>::fmt`, through `format!`: the text in double quotes with the
/// characters escaped that `Debug` escapes. Which characters those are is left to
/// `debug_text`, the name of the result.
#[verifier::external_body]
pub(crate) fn quoted(s: &str) -> (out: String)
    ensures
        out@ == debug_text(s@),
{
    format!("{s:?}")
}

/// `String::push`: the character is appended to the text.
#[verifier::external_body]
pub(crate) fn push_char(out: &mut String, c: char)
    ensures
        final(out)@ == old(out)@.push(c),
{
    out.push(c);
}

/// Whether the two texts are the same.
pub fn same(a: &str, b: &str) -> (r: bool)
    ensures
        r == (a@ == b@),
{
    a.to_owned() == b.to_owned()
}

/// The characters of `s`.
pub fn chars_of(s: &str) -> (out: Vec<char>)
    ensures
        out@ == s@,
{
    let mut out: Vec<char> = Vec::new();
    for c in it: s.chars()
        invariant
            out@ == s@.take(it.index()),
            it.seq() == s@,
    {
        out.push(c);
        assert(out@ =~= s@.take(it.index() + 1));
    }
    assert(out@ =~= s@);
    out
}

/// The text of the characters from `lo` up to but not with `hi`.
pub fn text_of(chars: &[char], lo: usize, hi: usize) -> (out: String)
    requires
        lo <= hi <= chars.len(),
    ensures
        out@ == chars@.subrange(lo as int, hi as int),
{
    let mut out = String::new();
    let mut i: usize = lo;
    assert(out@ =~= chars@.subrange(lo as int, i as int));
    while i < hi
        invariant
            lo <= i <= hi <= chars.len(),
            out@ == chars@.subrange(lo as int, i as int),
        decreases hi - i,
    {
        push_char(&mut out, chars[i]);
        i = i + 1;
        assert(out@ =~= chars@.subrange(lo as int, i as int));
    }
    out
}

// ---- decimal numbers ----

/// The character of the digit `d`.
pub open spec fn digit_char(d: int) -> char {
    (('0' as int) + d) as char
}

/// `n` in decimal, without leading zeros.
pub open spec fn decimal_text(n: nat) -> Seq<char>
    decreases n,
{
    if n < 10 {
        seq![digit_char(n as int)]
    } else {
        decimal_text(n / 10).push(digit_char((n % 10) as int))
    }
}

/// `n` in decimal, with a minus sign where it is negative.
pub open spec fn signed_text(n: int) -> Seq<char> {
    if n < 0 {
        seq!['-'] + decimal_text((-n) as nat)
    } else {
        decimal_text(n as nat)
    }
}

fn digit(d: u64) -> (c: char)
    requires
        d < 10,
    ensures
        c == digit_char(d as int),
{
    (48u8 + d as u8) as char
}

/// `n` in decimal.
pub fn decimal(n: u64) -> (out: String)
    ensures
        out@ == decimal_text(n as nat),
    decreases n,
{
    let mut out = if n < 10 {
        String::new()
    } else {
        decimal(n / 10)
    };
    push_char(&mut out, digit(n % 10));
    assert(n < 10 ==> out@ =~= decimal_text(n as nat));
    out
}

/// `n` in decimal, with its sign.
pub fn signed_decimal(n: i64) -> (out: String)
    ensures
        out@ == signed_text(n as int),
{
    if n < 0 {
        let mut out = String::new();
        push_char(&mut out, '-');
        let magnitude: u64 = if n == i64::MIN {
            0x8000_0000_0000_0000
        } else {
            (-n) as u64
        };
        out.append(decimal(magnitude).as_str());
        assert(out@ =~= signed_text(n as int));
        out
    } else {
        decimal(n as u64)
    }
}

/// The value of a decimal digit, or none.
pub open spec fn digit_value(c: char) -> Option<int> {
    if '0' as int <= c as int <= '9' as int {
        Some(c as int - '0' as int)
    } else {
        None
    }
}

/// All characters are decimal digits.
pub open spec fn all_digits(s: Seq<char>) -> bool {
    forall|i: int| 0 <= i < s.len() ==> digit_value(#[trigger] s[i]) is Some
}

/// The number that the digits `s` stand for.
pub open spec fn digits_value(s: Seq<char>) -> int
    decreases s.len(),
{
    if s.len() == 0 {
        0
    } else {
        10 * digits_value(s.drop_last()) + digit_value(s.last())->0
    }
}

/// The 64-bit signed number that `s` writes down: an optional sign, then decimal
/// digits, at least one.
pub open spec fn integer_value(s: Seq<char>) -> Option<i64> {
    let signed = s.len() > 0 && (s[0] == '+' || s[0] == '-');
    let digits = if signed {
        s.skip(1)
    } else {
        s
    };
    let value = if signed && s[0] == '-' {
        -digits_value(digits)
    } else {
        digits_value(digits)
    };
    if digits.len() > 0 && all_digits(digits) && i64::MIN <= value <= i64::MAX {
        Some(value as i64)
    } else {
        None
    }
}

proof fn lemma_digits_grow(s: Seq<char>, n: int)
    requires
        all_digits(s),
        0 <= n <= s.len(),
    ensures
        0 <= digits_value(s.take(n)) <= digits_value(s),
    decreases s.len(),
{
    if s.len() == 0 {
        assert(s.take(n) =~= s);
    } else {
        let front = s.drop_last();
        assert(digit_value(s[s.len() - 1]) is Some);
        assert forall|i: int| 0 <= i < front.len() implies digit_value(#[trigger] front[i]) is Some by {
            assert(front[i] == s[i]);
        }
        if n == s.len() {
            assert(s.take(n) =~= s);
            lemma_digits_grow(front, front.len() as int);
            assert(front.take(front.len() as int) =~= front);
        } else {
            lemma_digits_grow(front, n);
            assert(front.take(n) =~= s.take(n));
        }
    }
}

/// Reads a 64-bit signed decimal number.
pub fn parse_integer(s: &str) -> (r: Option<i64>)
    ensures
        r == integer_value(s@),
{
    let chars = chars_of(s);
    let signed: bool = chars.len() > 0 && (chars[0] == '+' || chars[0] == '-');
    let negative: bool = signed && chars[0] == '-';
    let start: usize = if signed {
        1
    } else {
        0
    };
    let ghost digits = s@.skip(start as int);
    assert(signed ==> digits == s@.skip(1));
    assert(!signed ==> digits =~= s@);
    if chars.len() == start {
        return None;
    }
    let mut total: i128 = 0;
    let mut i: usize = start;
    assert(digits.take(0) =~= Seq::empty());
    while i < chars.len()
        invariant
            start <= i <= chars.len(),
            chars@ == s@,
            start <= 1,
            digits == s@.skip(start as int),
            total == digits_value(digits.take(i - start)),
            0 <= total <= 0x8000_0000_0000_0000,
            all_digits(digits.take(i - start)),
            signed ==> digits == s@.skip(1),
            !signed ==> digits == s@,
            signed == (s@.len() > 0 && (s@[0] == '+' || s@[0] == '-')),
            negative == (signed && s@[0] == '-'),
            digits.len() > 0,
        decreases chars.len() - i,
    {
        let c = chars[i];
        let ghost seen = digits.take(i - start);
        let ghost more = digits.take(i - start + 1);
        proof {
            assert(more.drop_last() =~= seen);
            assert(more.last() == c);
            assert(more[more.len() - 1] == c);
        }
        if c < '0' || c > '9' {
            assert(digits[i - start] == c);
            return None;
        }
        total = total * 10 + ((c as u32) - 48) as i128;
        proof {
            assert forall|k: int| 0 <= k < more.len() implies digit_value(
                #[trigger] more[k],
            ) is Some by {
                if k < seen.len() {
                    assert(more[k] == seen[k]);
                }
            }
        }
        if total > 0x8000_0000_0000_0000 {
            proof {
                if all_digits(digits) {
                    lemma_digits_grow(digits, i - start + 1);
                }
            }
            return None;
        }
        i = i + 1;
    }
    assert(digits.take(i - start) =~= digits);
    if negative {
        if total == 0x8000_0000_0000_0000 {
            Some(i64::MIN)
        } else {
            Some(-(total as i64))
        }
    } else if total > 0x7fff_ffff_ffff_ffff {
        None
    } else {
        Some(total as i64)
    }
}

proof fn lemma_decimal_text_reads_back(n: nat)
    ensures
        all_digits(decimal_text(n)),
        decimal_text(n).len() > 0,
        digits_value(decimal_text(n)) == n,
        decimal_text(n)[0] != '-' && decimal_text(n)[0] != '+',
    decreases n,
{
    let t = decimal_text(n);
    if n < 10 {
        assert(t.drop_last() =~= Seq::empty());
        assert(digits_value(t.drop_last()) == 0);
    } else {
        lemma_decimal_text_reads_back(n / 10);
        let front = decimal_text(n / 10);
        assert(t.drop_last() =~= front);
        assert(t[0] == front[0]);
        assert forall|k: int| 0 <= k < t.len() implies digit_value(#[trigger] t[k]) is Some by {
            if k < front.len() {
                assert(t[k] == front[k]);
            }
        }
    }
}

/// Reading a number back from its decimal text gives that number.
pub proof fn lemma_signed_text_reads_back(n: i64)
    ensures
        integer_value(signed_text(n as int)) == Some(n),
{
    let t = signed_text(n as int);
    if n < 0 {
        lemma_decimal_text_reads_back((-n) as nat);
        assert(t.skip(1) =~= decimal_text((-n) as nat));
    } else {
        lemma_decimal_text_reads_back(n as nat);
    }
}

// ---- pieces of text ----

/// The texts that the strings hold.
pub open spec fn texts(v: Seq<String>) -> Seq<Seq<char>> {
    v.map_values(|s: String| s@)
}

/// The texts with `sep` between them.
pub open spec fn joined(parts: Seq<Seq<char>>, sep: Seq<char>) -> Seq<char>
    decreases parts.len(),
{
    if parts.len() == 0 {
        Seq::empty()
    } else if parts.len() == 1 {
        parts[0]
    } else {
        joined(parts.drop_last(), sep) + sep + parts.last()
    }
}

/// The texts with `sep` between them.
pub fn join(parts: &[String], sep: &str) -> (out: String)
    ensures
        out@ == joined(texts(parts@), sep@),
{
    let mut out = String::new();
    let mut i: usize = 0;
    assert(texts(parts@).take(0) =~= Seq::empty());
    while i < parts.len()
        invariant
            i <= parts.len(),
            out@ == joined(texts(parts@).take(i as int), sep@),
        decreases parts.len() - i,
    {
        let ghost seen = texts(parts@).take(i as int);
        let ghost more = texts(parts@).take(i + 1);
        assert(more.drop_last() =~= seen);
        assert(more.last() == parts@[i as int]@);
        if i > 0 {
            out.append(sep);
        }
        out.append(parts[i].as_str());
        assert(i == 0 ==> out@ =~= more[0]);
        i = i + 1;
    }
    assert(texts(parts@).take(i as int) =~= texts(parts@));
    out
}

/// The text before and the text behind the first `mark`, where there is one.
pub fn split_once(s: &str, mark: char) -> (r: Option<(String, String)>)
    ensures
        match r {
            None => !s@.contains(mark),
            Some((head, tail)) => s@ == head@.push(mark) + tail@ && !head@.contains(mark),
        },
{
    let chars = chars_of(s);
    let mut i: usize = 0;
    while i < chars.len()
        invariant
            i <= chars.len(),
            chars@ == s@,
            forall|k: int| 0 <= k < i ==> s@[k] != mark,
        decreases chars.len() - i,
    {
        if chars[i] == mark {
            let head = text_of(&chars, 0, i);
            let tail = text_of(&chars, i + 1, chars.len());
            assert(s@ =~= head@.push(mark) + tail@);
            return Some((head, tail));
        }
        i = i + 1;
    }
    None
}

/// A character with the Unicode property White_Space.
pub open spec fn is_space(c: char) -> bool {
    let u = c as int;
    ||| 0x9 <= u <= 0xd
    ||| u == 0x20
    ||| u == 0x85
    ||| u == 0xa0
    ||| u == 0x1680
    ||| 0x2000 <= u <= 0x200a
    ||| u == 0x2028
    ||| u == 0x2029
    ||| u == 0x202f
    ||| u == 0x205f
    ||| u == 0x3000
}

/// Whether `c` has the Unicode property White_Space.
pub fn space(c: char) -> (r: bool)
    ensures
        r == is_space(c),
{
    let u: u32 = c as u32;
    (0x9 <= u && u <= 0xd) || u == 0x20 || u == 0x85 || u == 0xa0 || u == 0x1680 || (0x2000 <= u
        && u <= 0x200a) || u == 0x2028 || u == 0x2029 || u == 0x202f || u == 0x205f || u == 0x3000
}

/// White space or a comma.
pub open spec fn is_separator(c: char) -> bool {
    is_space(c) || c == ','
}

/// The longest runs of characters that are neither white space nor commas.
pub open spec fn tokens_of(s: Seq<char>) -> Seq<Seq<char>>
    decreases s.len(),
{
    if s.len() == 0 {
        Seq::empty()
    } else {
        let front = tokens_of(s.drop_last());
        if is_separator(s.last()) {
            front
        } else if s.len() == 1 || is_separator(s[s.len() - 2]) {
            front.push(seq![s.last()])
        } else {
            front.drop_last().push(front.last().push(s.last()))
        }
    }
}

/// The words of `s`, taken apart at white space and commas.
pub fn tokens(s: &str) -> (out: Vec<String>)
    ensures
        texts(out@) == tokens_of(s@),
{
    let chars = chars_of(s);
    let mut out: Vec<String> = Vec::new();
    let mut current = String::new();
    let mut inside: bool = false;
    let mut i: usize = 0;
    assert(texts(out@) =~= tokens_of(s@.take(0)));
    while i < chars.len()
        invariant
            i <= chars.len(),
            chars@ == s@,
            inside == (i > 0 && !is_separator(s@[i - 1])),
            inside ==> tokens_of(s@.take(i as int)) == texts(out@).push(current@),
            !inside ==> tokens_of(s@.take(i as int)) == texts(out@) && current@.len() == 0,
        decreases chars.len() - i,
    {
        let c = chars[i];
        let ghost more = s@.take(i + 1);
        assert(more.drop_last() =~= s@.take(i as int));
        assert(more.last() == c);
        let ghost before = texts(out@);
        if space(c) || c == ',' {
            if inside {
                let ghost word = current@;
                out.push(current);
                current = String::new();
                assert(texts(out@) =~= before.push(word));
                inside = false;
            }
        } else {
            let ghost word = current@;
            push_char(&mut current, c);
            proof {
                if inside {
                    assert(before.push(word).drop_last() =~= before);
                } else {
                    assert(current@ =~= seq![c]);
                }
            }
            inside = true;
        }
        i = i + 1;
    }
    assert(s@.take(i as int) =~= s@);
    if inside {
        let ghost before = texts(out@);
        let ghost word = current@;
        out.push(current);
        assert(texts(out@) =~= before.push(word));
    }
    out
}

/// `needle` stands in `hay` from position `at` on.
pub open spec fn stands_at(hay: Seq<char>, needle: Seq<char>, at: int) -> bool {
    0 <= at && at + needle.len() <= hay.len() && hay.subrange(at, at + needle.len()) == needle
}

/// `needle` occurs in `hay`.
pub open spec fn occurs_in(hay: Seq<char>, needle: Seq<char>) -> bool {
    exists|at: int| stands_at(hay, needle, at)
}

fn matches_at(hay: &[char], needle: &[char], at: usize) -> (r: bool)
    requires
        at + needle.len() <= hay.len(),
    ensures
        r == stands_at(hay@, needle@, at as int),
{
    let mut i: usize = 0;
    while i < needle.len()
        invariant
            i <= needle.len(),
            at + needle.len() <= hay.len(),
            forall|k: int| at <= k < at + i ==> #[trigger] hay@[k] == needle@[k - at],
        decreases needle.len() - i,
    {
        if hay[at + i] != needle[i] {
            assert(hay@.subrange(at as int, at + needle@.len())[i as int] != needle@[i as int]);
            return false;
        }
        i = i + 1;
    }
    assert(hay@.subrange(at as int, at + needle@.len()) =~= needle@);
    true
}

/// Whether `needle` occurs in `hay`.
pub fn contains(hay: &str, needle: &str) -> (r: bool)
    ensures
        r == occurs_in(hay@, needle@),
{
    let h = chars_of(hay);
    let n = chars_of(needle);
    if n.len() > h.len() {
        return false;
    }
    let mut at: usize = 0;
    while at <= h.len() - n.len()
        invariant
            h@ == hay@,
            n@ == needle@,
            n.len() <= h.len(),
            at <= h.len() - n.len() + 1,
            forall|k: int| 0 <= k < at ==> !stands_at(hay@, needle@, k),
        decreases h.len() - n.len() + 1 - at,
    {
        if matches_at(&h, &n, at) {
            return true;
        }
        if at == h.len() - n.len() {
            return false;
        }
        at = at + 1;
    }
    false
}

/// `s` begins with `head`.
pub open spec fn begins_with(s: Seq<char>, head: Seq<char>) -> bool {
    stands_at(s, head, 0)
}

/// Whether `s` begins with `head`.
pub fn starts_with(s: &str, head: &str) -> (r: bool)
    ensures
        r == begins_with(s@, head@),
{
    let chars = chars_of(s);
    let wanted = chars_of(head);
    wanted.len() <= chars.len() && matches_at(&chars, &wanted, 0)
}

/// `s` ends with `tail`.
pub open spec fn closes_with(s: Seq<char>, tail: Seq<char>) -> bool {
    stands_at(s, tail, s.len() - tail.len())
}

/// Whether `s` ends with `tail`.
pub fn ends_with(s: &str, tail: &str) -> (r: bool)
    ensures
        r == closes_with(s@, tail@),
{
    let chars = chars_of(s);
    let wanted = chars_of(tail);
    wanted.len() <= chars.len() && matches_at(&chars, &wanted, chars.len() - wanted.len())
}

/// The character with ASCII capitals turned into small letters.
pub open spec fn lower_char(c: char) -> char {
    if 'A' as int <= c as int <= 'Z' as int {
        (c as int + 32) as char
    } else {
        c
    }
}

/// `s` with ASCII capitals turned into small letters.
pub open spec fn lowered(s: Seq<char>) -> Seq<char> {
    s.map_values(|c: char| lower_char(c))
}

/// `s` with ASCII capitals turned into small letters.
pub fn ascii_lowercase(s: &str) -> (out: String)
    ensures
        out@ == lowered(s@),
{
    let chars = chars_of(s);
    let mut out = String::new();
    let mut i: usize = 0;
    let ghost all = lowered(s@);
    assert(out@ =~= all.take(0));
    while i < chars.len()
        invariant
            i <= chars.len(),
            chars@ == s@,
            all == s@.map_values(|c: char| lower_char(c)),
            out@ == all.take(i as int),
        decreases chars.len() - i,
    {
        let c = chars[i];
        if 'A' <= c && c <= 'Z' {
            push_char(&mut out, ((c as u8) + 32) as char);
        } else {
            push_char(&mut out, c);
        }
        i = i + 1;
        assert(out@ =~= all.take(i as int));
    }
    assert(all.take(i as int) =~= all);
    out
}

/// `s` with blanks in front, so that it has at least `width` characters.
pub open spec fn right_aligned(s: Seq<char>, width: nat) -> Seq<char> {
    if s.len() < width {
        Seq::new((width - s.len()) as nat, |i: int| ' ') + s
    } else {
        s
    }
}

/// `s` with blanks in front, so that it has at least `width` characters.
pub fn align_right(s: &str, width: usize) -> (out: String)
    ensures
        out@ == right_aligned(s@, width as nat),
{
    let chars = chars_of(s);
    let mut out = String::new();
    let mut count: usize = chars.len();
    while count < width
        invariant
            chars.len() <= count,
            count <= width || count == chars.len(),
            out@ == Seq::new((count - chars.len()) as nat, |i: int| ' '),
        decreases width - count,
    {
        push_char(&mut out, ' ');
        count = count + 1;
        assert(out@ =~= Seq::new((count - chars.len()) as nat, |i: int| ' '));
    }
    out.append(s);
    assert(out@ =~= right_aligned(s@, width as nat));
    out
}

// ---- lexicographic order ----

/// `a` comes before `b` in the order of their characters, or is the same.
pub open spec fn text_le(a: Seq<char>, b: Seq<char>) -> bool
    decreases a.len(),
{
    if a.len() == 0 {
        true
    } else if b.len() == 0 {
        false
    } else if a[0] == b[0] {
        text_le(a.skip(1), b.skip(1))
    } else {
        (a[0] as int) < (b[0] as int)
    }
}

proof fn lemma_text_order_total(a: Seq<char>, b: Seq<char>)
    ensures
        text_le(a, b) || text_le(b, a),
        text_le(a, b) && text_le(b, a) ==> a == b,
    decreases a.len(),
{
    if a.len() > 0 && b.len() > 0 && a[0] == b[0] {
        lemma_text_order_total(a.skip(1), b.skip(1));
        if text_le(a, b) && text_le(b, a) {
            assert(a =~= seq![a[0]] + a.skip(1));
            assert(b =~= seq![b[0]] + b.skip(1));
        }
    } else if a.len() == 0 && b.len() == 0 {
        assert(a =~= b);
    }
}

proof fn lemma_text_order_transitive(a: Seq<char>, b: Seq<char>, c: Seq<char>)
    requires
        text_le(a, b),
        text_le(b, c),
    ensures
        text_le(a, c),
    decreases a.len(),
{
    if a.len() > 0 && b.len() > 0 && c.len() > 0 && a[0] == b[0] && b[0] == c[0] {
        lemma_text_order_transitive(a.skip(1), b.skip(1), c.skip(1));
    }
}

fn text_at_most(a: &[char], b: &[char]) -> (r: bool)
    ensures
        r == text_le(a@, b@),
{
    let mut i: usize = 0;
    assert(a@.skip(0) =~= a@);
    assert(b@.skip(0) =~= b@);
    while i < a.len() && i < b.len()
        invariant
            i <= a.len(),
            i <= b.len(),
            text_le(a@, b@) == text_le(a@.skip(i as int), b@.skip(i as int)),
        decreases a.len() - i,
    {
        if a[i] != b[i] {
            return a[i] < b[i];
        }
        assert(a@.skip(i as int).skip(1) =~= a@.skip(i + 1));
        assert(b@.skip(i as int).skip(1) =~= b@.skip(i + 1));
        i = i + 1;
    }
    i == a.len()
}

/// The texts stand in lexicographic order.
pub open spec fn texts_ascend(s: Seq<Seq<char>>) -> bool {
    forall|i: int, j: int| 0 <= i <= j < s.len() ==> text_le(#[trigger] s[i], #[trigger] s[j])
}

/// The same texts in lexicographic order.
pub fn sort_texts(items: &[String]) -> (out: Vec<String>)
    ensures
        texts_ascend(texts(out@)),
        texts(out@).to_multiset() == texts(items@).to_multiset(),
{
    let mut out: Vec<String> = Vec::new();
    let mut i: usize = 0;
    assert(texts(out@) =~= texts(items@).take(0));
    while i < items.len()
        invariant
            i <= items.len(),
            texts_ascend(texts(out@)),
            texts(out@).to_multiset() == texts(items@).take(i as int).to_multiset(),
            out.len() == i,
        decreases items.len() - i,
    {
        let ghost before = texts(out@);
        let wanted = chars_of(items[i].as_str());
        let mut at: usize = out.len();
        while at > 0 && !text_at_most(&chars_of(out[at - 1].as_str()), &wanted)
            invariant
                at <= out.len(),
                wanted@ == items@[i as int]@,
                before == texts(out@),
                forall|k: int| at <= k < out.len() ==> !text_le(#[trigger] before[k], wanted@),
            decreases at,
        {
            at = at - 1;
        }
        out.insert(at, items[i].clone());
        proof {
            broadcast use vstd::seq_lib::group_to_multiset_ensures;

            let after = texts(out@);
            assert(after =~= before.insert(at as int, wanted@));
            assert forall|a: int, b: int| 0 <= a <= b < after.len() implies text_le(
                #[trigger] after[a],
                #[trigger] after[b],
            ) by {
                if a < at {
                    assert(after[a] == before[a]);
                }
                if b > at {
                    assert(after[b] == before[b - 1]);
                }
                if a > at {
                    assert(after[a] == before[a - 1]);
                }
                if a == at && b == at {
                    lemma_text_order_total(wanted@, wanted@);
                } else if b == at {
                    assert(text_le(before[a], before[at - 1]));
                    lemma_text_order_transitive(before[a], before[at - 1], wanted@);
                } else if a == at {
                    lemma_text_order_total(wanted@, before[b - 1]);
                }
            }
            assert(texts(items@).take(i + 1) =~= texts(items@).take(i as int).push(wanted@));
        }
        i = i + 1;
    }
    assert(texts(items@).take(i as int) =~= texts(items@));
    out
}

// ---- what the results are, over all inputs ----

/// A number below ten is its digit; a larger one is the number of its tens with the digit of its ones
/// behind it.
pub proof fn lemma_decimal_text_ends_in_the_ones(n: nat, d: int)
    requires
        0 <= d < 10,
    ensures
        decimal_text(d as nat) == seq![(48 + d) as char],
        n > 0 ==> decimal_text((10 * n + d) as nat) == decimal_text(n).push((48 + d) as char),
        n > 0 ==> signed_text(-(n as int)) == seq!['-'] + decimal_text(n),
        signed_text(n as int) == decimal_text(n),
{
    if n > 0 {
        assert((10 * n + d) / 10 == n);
        assert((10 * n + d) % 10 == d);
    }
}

/// An integer is read from digits with at most one sign in front, and from nothing else. A plus does
/// not change it, a minus negates it, and one that is too large is not read.
pub proof fn lemma_integers_are_signed_digits(s: Seq<char>, n: nat)
    ensures
        integer_value(s) is Some ==> s.len() > 0 && (48 <= s[0] as int <= 57 || ((s[0] == '+'
            || s[0] == '-') && s.len() > 1)) && forall|i: int|
            1 <= i < s.len() ==> 48 <= (#[trigger] s[i]) as int <= 57,
        n <= i64::MAX ==> integer_value(decimal_text(n)) == Some(n as i64) && integer_value(
            seq!['+'] + decimal_text(n),
        ) == Some(n as i64),
        n <= i64::MAX + 1 ==> integer_value(seq!['-'] + decimal_text(n)) == Some((-n) as i64),
        n > i64::MAX ==> integer_value(decimal_text(n)) is None && integer_value(
            seq!['+'] + decimal_text(n),
        ) is None,
        n > i64::MAX + 1 ==> integer_value(seq!['-'] + decimal_text(n)) is None,
{
    lemma_decimal_text_reads_back(n);
    let t = decimal_text(n);
    assert((seq!['+'] + t).skip(1) =~= t);
    assert((seq!['-'] + t).skip(1) =~= t);
    if integer_value(s) is Some {
        let signed = s[0] == '+' || s[0] == '-';
        let digits = if signed {
            s.skip(1)
        } else {
            s
        };
        assert(digit_value(digits[0]) is Some);
        assert forall|i: int| 1 <= i < s.len() implies 48 <= (#[trigger] s[i]) as int <= 57 by {
            if signed {
                assert(digit_value(digits[i - 1]) is Some);
            } else {
                assert(digit_value(digits[i]) is Some);
            }
        }
    }
}

/// Put together, the first part stands in front and every other one behind a separator.
pub proof fn lemma_joined_parts_are_separated(parts: Seq<Seq<char>>, sep: Seq<char>)
    ensures
        joined(Seq::empty(), sep) == Seq::<char>::empty(),
        parts.len() > 0 ==> joined(parts, sep) == parts[0] + parts.skip(1).map_values(
            |part: Seq<char>| sep + part,
        ).flatten(),
    decreases parts.len(),
{
    let led = |part: Seq<char>| sep + part;
    if parts.len() == 1 {
        assert(parts.skip(1).map_values(led) =~= Seq::empty());
        assert(joined(parts, sep) =~= parts[0] + Seq::<Seq<char>>::empty().flatten());
    } else if parts.len() > 1 {
        let front = parts.drop_last();
        lemma_joined_parts_are_separated(front, sep);
        let tail = front.skip(1).map_values(led);
        assert(parts.skip(1).map_values(led) =~= tail.push(led(parts.last())));
        tail.lemma_flatten_push(led(parts.last()));
        assert(joined(parts, sep) =~= parts[0] + (tail.flatten() + led(parts.last())));
    }
}

/// A text without a separator is one token; a separator parts the tokens before it from those behind
/// it, and is in none of them.
pub proof fn lemma_separators_part_tokens(word: Seq<char>, before: Seq<char>, c: char, behind: Seq<char>)
    ensures
        tokens_of(Seq::empty()) == Seq::<Seq<char>>::empty(),
        word.len() > 0 && (forall|i: int| 0 <= i < word.len() ==> !is_separator(#[trigger] word[i]))
            ==> tokens_of(word) == seq![word],
        is_separator(c) ==> tokens_of(before.push(c) + behind) == tokens_of(before) + tokens_of(
            behind,
        ),
{
    if word.len() > 0 && (forall|i: int| 0 <= i < word.len() ==> !is_separator(#[trigger] word[i])) {
        lemma_word_is_one_token(word);
    }
    if is_separator(c) {
        lemma_tokens_of_both(before, c, behind);
    }
}

proof fn lemma_word_is_one_token(word: Seq<char>)
    requires
        word.len() > 0,
        forall|i: int| 0 <= i < word.len() ==> !is_separator(#[trigger] word[i]),
    ensures
        tokens_of(word) == seq![word],
    decreases word.len(),
{
    let front = word.drop_last();
    assert(!is_separator(word[word.len() - 1]));
    if word.len() == 1 {
        assert(tokens_of(front) =~= Seq::empty());
        assert(word =~= seq![word.last()]);
        assert(tokens_of(word) =~= seq![word]);
    } else {
        assert forall|i: int| 0 <= i < front.len() implies !is_separator(#[trigger] front[i]) by {
            assert(front[i] == word[i]);
        }
        lemma_word_is_one_token(front);
        assert(!is_separator(word[word.len() - 2]));
        assert(tokens_of(front).last() == front);
        assert(front.push(word.last()) =~= word);
        assert(tokens_of(word) =~= seq![word]);
    }
}

proof fn lemma_tokens_not_empty(s: Seq<char>)
    requires
        s.len() > 0,
        !is_separator(s.last()),
    ensures
        tokens_of(s).len() > 0,
    decreases s.len(),
{
    if s.len() > 1 && !is_separator(s[s.len() - 2]) {
        lemma_tokens_not_empty(s.drop_last());
    }
}

proof fn lemma_tokens_of_both(before: Seq<char>, c: char, behind: Seq<char>)
    requires
        is_separator(c),
    ensures
        tokens_of(before.push(c) + behind) == tokens_of(before) + tokens_of(behind),
    decreases behind.len(),
{
    let s = before.push(c) + behind;
    if behind.len() == 0 {
        assert(s =~= before.push(c));
        assert(s.drop_last() =~= before);
        assert(tokens_of(s) =~= tokens_of(before) + tokens_of(behind));
    } else {
        let rest = behind.drop_last();
        lemma_tokens_of_both(before, c, rest);
        assert(s.drop_last() =~= before.push(c) + rest);
        assert(s.last() == behind.last());
        let front = tokens_of(before) + tokens_of(rest);
        if is_separator(behind.last()) {
        } else if behind.len() == 1 {
            assert(s[s.len() - 2] == c);
            assert(rest =~= Seq::empty());
            assert(tokens_of(s) =~= tokens_of(before) + tokens_of(behind));
        } else {
            assert(s[s.len() - 2] == behind[behind.len() - 2]);
            if is_separator(behind[behind.len() - 2]) {
                assert(tokens_of(s) =~= tokens_of(before) + tokens_of(behind));
            } else {
                lemma_tokens_not_empty(rest);
                assert(front.last() == tokens_of(rest).last());
                assert(front.drop_last() =~= tokens_of(before) + tokens_of(rest).drop_last());
                assert(tokens_of(s) =~= tokens_of(before) + tokens_of(behind));
            }
        }
    }
}

/// Of the first 128 characters the space, the comma and the five from tab to carriage return part
/// tokens; a letter, a digit or a sign never does.
pub proof fn lemma_plain_separators(c: char)
    requires
        c as int <= 127,
    ensures
        is_separator(c) <==> c == ' ' || c == ',' || c as int == 9 || c as int == 10 || c as int
            == 11 || c as int == 12 || c as int == 13,
{
}

/// A text occurs in another exactly where that is something, the text, and something more; it begins
/// it where nothing stands before, and closes it where nothing stands behind.
#[verifier::spinoff_prover]
#[verifier::rlimit(50)]
pub proof fn lemma_occurrences_split(hay: Seq<char>, needle: Seq<char>)
    ensures
        occurs_in(hay, needle) <==> exists|a: Seq<char>, b: Seq<char>| hay == #[trigger] (a + needle
            + b),
        begins_with(hay, needle) <==> exists|b: Seq<char>| hay == #[trigger] (needle + b),
        closes_with(hay, needle) <==> exists|a: Seq<char>| hay == #[trigger] (a + needle),
{
    if occurs_in(hay, needle) {
        let at = choose|at: int| stands_at(hay, needle, at);
        assert(hay =~= hay.take(at) + needle + hay.skip(at + needle.len()));
    }
    if exists|a: Seq<char>, b: Seq<char>| hay == #[trigger] (a + needle + b) {
        let (a, b) = choose|a: Seq<char>, b: Seq<char>| hay == #[trigger] (a + needle + b);
        assert(hay.subrange(a.len() as int, a.len() as int + needle.len()) =~= needle);
        assert(stands_at(hay, needle, a.len() as int));
    }
    if begins_with(hay, needle) {
        assert(hay =~= needle + hay.skip(needle.len() as int));
    }
    if exists|b: Seq<char>| hay == #[trigger] (needle + b) {
        let b = choose|b: Seq<char>| hay == #[trigger] (needle + b);
        assert(hay.subrange(0, needle.len() as int) =~= needle);
    }
    if closes_with(hay, needle) {
        assert(hay =~= hay.take(hay.len() - needle.len()) + needle);
    }
    if exists|a: Seq<char>| hay == #[trigger] (a + needle) {
        let a = choose|a: Seq<char>| hay == #[trigger] (a + needle);
        assert(hay.subrange(hay.len() - needle.len(), hay.len() as int) =~= needle);
    }
}

/// Lowered, a text has no capital of the alphabet: each is replaced by its small letter, and no other
/// character changes.
pub proof fn lemma_capitals_are_lowered(s: Seq<char>, i: int)
    requires
        0 <= i < s.len(),
    ensures
        lowered(s).len() == s.len(),
        lowered(lowered(s)) == lowered(s),
        65 <= s[i] as int <= 90 ==> lowered(s)[i] as int == s[i] as int + 32,
        s[i] as int <= 64 || s[i] as int >= 91 ==> lowered(s)[i] == s[i],
{
    assert(lowered(lowered(s)) =~= lowered(s));
}

/// Aligned, a text is as wide as asked, or as wide as it is; it stands at the right, and before it are
/// spaces.
pub proof fn lemma_aligned_text_stands_right(s: Seq<char>, width: nat, i: int)
    ensures
        ({
            let out = right_aligned(s, width);
            &&& out.len() == vstd::math::max(s.len() as int, width as int)
            &&& out.skip(out.len() - s.len()) == s
            &&& 0 <= i < out.len() - s.len() ==> out[i] == ' '
        }),
{
    let out = right_aligned(s, width);
    assert(out.skip(out.len() - s.len()) =~= s);
}

/// Texts are ordered by the first character in which they differ, and one that is the beginning of
/// another comes before it. The order is total.
pub proof fn lemma_texts_are_ordered_by_first_difference(
    common: Seq<char>,
    a: Seq<char>,
    b: Seq<char>,
    c: Seq<char>,
)
    ensures
        text_le(common, common + a),
        a.len() > 0 ==> !text_le(common + a, common),
        a.len() > 0 && b.len() > 0 && (a[0] as int) < (b[0] as int) ==> text_le(
            common + a,
            common + b,
        ) && !text_le(common + b, common + a),
        text_le(a, b) || text_le(b, a),
        text_le(a, b) && text_le(b, a) ==> a == b,
        text_le(a, b) && text_le(b, c) ==> text_le(a, c),
{
    lemma_common_beginning(common, Seq::empty(), a);
    lemma_common_beginning(common, a, Seq::empty());
    lemma_common_beginning(common, a, b);
    lemma_common_beginning(common, b, a);
    assert(common + Seq::<char>::empty() =~= common);
    lemma_text_order_total(a, b);
    if text_le(a, b) && text_le(b, c) {
        lemma_text_order_transitive(a, b, c);
    }
}

proof fn lemma_common_beginning(common: Seq<char>, a: Seq<char>, b: Seq<char>)
    ensures
        text_le(common + a, common + b) == text_le(a, b),
    decreases common.len(),
{
    if common.len() > 0 {
        lemma_common_beginning(common.skip(1), a, b);
        assert((common + a).skip(1) =~= common.skip(1) + a);
        assert((common + b).skip(1) =~= common.skip(1) + b);
    } else {
        assert(common + a =~= a);
        assert(common + b =~= b);
    }
}

/// Of texts that ascend, none comes before one that stands in front of it.
pub proof fn lemma_ascending_texts_never_go_back(s: Seq<Seq<char>>, i: int, j: int)
    requires
        texts_ascend(s),
        0 <= i < j < s.len(),
    ensures
        text_le(s[i], s[j]),
        s[i] != s[j] ==> !text_le(s[j], s[i]),
{
    lemma_text_order_total(s[i], s[j]);
}

} // verus!
