//! Pieces of text: lines, words, numbers.
use vstd::arithmetic::power::{lemma_pow0, lemma_pow1, lemma_pow_adds, pow};
use vstd::prelude::*;

verus! {

/// What `String::from_utf8_lossy` of std makes of bytes.
pub uninterp spec fn lossy_text(bytes: Seq<u8>) -> Seq<char>;

/// Reads bytes as UTF-8 with `String::from_utf8_lossy` of std. Valid UTF-8 is
/// decoded; of other bytes nothing is claimed but that the text depends on
/// them alone.
#[verifier::external_body]
pub(crate) fn text_of(bytes: &Vec<u8>) -> (res: String)
    ensures
        res@ == lossy_text(bytes@),
        vstd::utf8::valid_utf8(bytes@) ==> res@ == vstd::utf8::decode_utf8(bytes@),
{
    String::from_utf8_lossy(bytes).into_owned()
}

/// The texts of a list of texts.
pub open spec fn texts(list: Seq<Vec<char>>) -> Seq<Seq<char>> {
    Seq::new(list.len(), |i: int| list[i]@)
}

/// How many characters stand before the first one at which to stop.
pub open spec fn prefix_len(s: Seq<char>, stop: spec_fn(char) -> bool) -> nat
    decreases s.len(),
{
    if s.len() == 0 || stop(s[0]) {
        0
    } else {
        1 + prefix_len(s.skip(1), stop)
    }
}

pub open spec fn is_newline() -> spec_fn(char) -> bool {
    |c: char| c == '\n'
}

pub open spec fn is_dash() -> spec_fn(char) -> bool {
    |c: char| c == '-'
}

/// The characters with the Unicode property `White_Space`.
pub open spec fn is_space() -> spec_fn(char) -> bool {
    |c: char|
        {
            ||| '\u{9}' <= c <= '\u{d}'
            ||| c == ' '
            ||| c == '\u{85}'
            ||| c == '\u{a0}'
            ||| c == '\u{1680}'
            ||| '\u{2000}' <= c <= '\u{200a}'
            ||| c == '\u{2028}'
            ||| c == '\u{2029}'
            ||| c == '\u{202f}'
            ||| c == '\u{205f}'
            ||| c == '\u{3000}'
        }
}

/// `s` without a carriage return at its end.
pub open spec fn without_cr(s: Seq<char>) -> Seq<char> {
    if s.len() > 0 && s.last() == '\r' {
        s.drop_last()
    } else {
        s
    }
}

/// The lines of a text. A line ends with a line feed, which may follow a
/// carriage return; the last line may do without.
pub open spec fn lines(text: Seq<char>) -> Seq<Seq<char>>
    decreases text.len(),
{
    let n = prefix_len(text, is_newline()) as int;
    if text.len() == 0 {
        Seq::empty()
    } else if n >= text.len() {
        seq![text]
    } else {
        seq![without_cr(text.take(n))] + lines(text.skip(n + 1))
    }
}

/// The words of a line, which white space separates.
pub open spec fn words(s: Seq<char>) -> Seq<Seq<char>>
    decreases s.len(),
{
    if s.len() == 0 {
        Seq::empty()
    } else if is_space()(s[0]) {
        words(s.skip(1))
    } else {
        proof {
            lemma_prefix_bound(s, is_space());
        }
        let n = prefix_len(s, is_space()) as int;
        seq![s.take(n)] + words(s.skip(n))
    }
}

/// `s` without the white space at its end.
pub open spec fn trim_end(s: Seq<char>) -> Seq<char>
    decreases s.len(),
{
    if s.len() > 0 && is_space()(s.last()) {
        trim_end(s.drop_last())
    } else {
        s
    }
}

/// `s` without the white space at its start and its end.
pub open spec fn trim(s: Seq<char>) -> Seq<char>
    decreases s.len(),
{
    if s.len() > 0 && is_space()(s[0]) {
        trim(s.skip(1))
    } else {
        trim_end(s)
    }
}

/// `needle` stands somewhere in `hay`.
pub open spec fn occurs(hay: Seq<char>, needle: Seq<char>) -> bool {
    exists|i: int| #[trigger] occurs_at(hay, needle, i)
}

/// `needle` stands at position `i` of `hay`.
pub open spec fn occurs_at(hay: Seq<char>, needle: Seq<char>, i: int) -> bool {
    0 <= i && i + needle.len() <= hay.len() && hay.subrange(i, i + needle.len()) == needle
}

/// The value of a digit; 16 for a character that is no hexadecimal digit.
pub open spec fn digit_value(c: char) -> int {
    if '0' <= c <= '9' {
        c as int - '0' as int
    } else if 'a' <= c <= 'f' {
        c as int - 'a' as int + 10
    } else if 'A' <= c <= 'F' {
        c as int - 'A' as int + 10
    } else {
        16
    }
}

/// All characters are digits to the given base.
pub open spec fn all_digits(s: Seq<char>, radix: int) -> bool {
    forall|i: int| 0 <= i < s.len() ==> digit_value(#[trigger] s[i]) < radix
}

/// The number that digits to the given base denote.
pub open spec fn number(s: Seq<char>, radix: int) -> int
    decreases s.len(),
{
    if s.len() == 0 {
        0
    } else {
        number(s.drop_last(), radix) * radix + digit_value(s.last())
    }
}

/// The unsigned number, at most `max`, that `s` denotes: digits, before which
/// one plus sign may stand.
pub open spec fn parsed(s: Seq<char>, radix: int, max: int) -> Option<int> {
    let digits = if s.len() > 0 && s[0] == '+' {
        s.skip(1)
    } else {
        s
    };
    if digits.len() > 0 && all_digits(digits, radix) && number(digits, radix) <= max {
        Some(number(digits, radix))
    } else {
        None
    }
}

/// A prefix is no longer than the text.
pub proof fn lemma_prefix_bound(s: Seq<char>, stop: spec_fn(char) -> bool)
    ensures
        prefix_len(s, stop) <= s.len(),
    decreases s.len(),
{
    if s.len() > 0 && !stop(s[0]) {
        lemma_prefix_bound(s.skip(1), stop);
    }
}

/// The length of a prefix, given what is in it and what follows it.
pub(crate) proof fn lemma_prefix_len(s: Seq<char>, stop: spec_fn(char) -> bool, n: int)
    requires
        0 <= n <= s.len(),
        forall|j: int| 0 <= j < n ==> !stop(#[trigger] s[j]),
        n == s.len() || stop(s[n]),
    ensures
        prefix_len(s, stop) == n,
    decreases s.len(),
{
    if n > 0 {
        let t = s.skip(1);
        assert forall|j: int| 0 <= j < n - 1 implies !stop(#[trigger] t[j]) by {
            assert(t[j] == s[j + 1]);
        }
        if n < s.len() {
            assert(t[n - 1] == s[n]);
        }
        lemma_prefix_len(t, stop, n - 1);
    }
}

/// The characters of a text.
pub fn chars_of(s: &str) -> (v: Vec<char>)
    ensures
        v@ == s@,
{
    let mut v: Vec<char> = Vec::new();
    for c in it: s.chars()
        invariant
            v@ == it.seq().take(it.index() as int),
    {
        v.push(c);
    }
    v
}

/// A copy of a part of a text.
pub(crate) fn part(s: &Vec<char>, from: usize, to: usize) -> (v: Vec<char>)
    requires
        from <= to <= s.len(),
    ensures
        v@ == s@.subrange(from as int, to as int),
{
    let mut v: Vec<char> = Vec::new();
    let mut i: usize = from;
    while i < to
        invariant
            from <= i <= to <= s.len(),
            v@ == s@.subrange(from as int, i as int),
        decreases to - i,
    {
        v.push(s[i]);
        i = i + 1;
    }
    v
}

/// Splits a text into its lines.
pub fn split_lines(text: &Vec<char>) -> (res: Vec<Vec<char>>)
    ensures
        texts(res@) == lines(text@),
{
    let len: usize = text.len();
    let mut res: Vec<Vec<char>> = Vec::new();
    let mut from: usize = 0;
    assert(text@.skip(0) =~= text@);
    assert(texts(res@) + lines(text@) =~= lines(text@));
    while from < len
        invariant
            from <= len,
            len == text.len(),
            texts(res@) + lines(text@.skip(from as int)) == lines(text@),
        decreases len - from,
    {
        let ghost rest = text@.skip(from as int);
        let mut nl: usize = from;
        while nl < len && text[nl] != '\n'
            invariant
                from <= nl <= len,
                len == text.len(),
                forall|j: int| from <= j < nl ==> #[trigger] text@[j] != '\n',
            decreases len - nl,
        {
            nl = nl + 1;
        }
        proof {
            assert forall|j: int| 0 <= j < nl - from implies !is_newline()(#[trigger] rest[j]) by {
                assert(rest[j] == text@[from + j]);
            }
            lemma_prefix_len(rest, is_newline(), nl - from);
        }
        let mut to: usize = nl;
        let mut next: usize = len;
        if nl < len {
            next = nl + 1;
            if nl > from && text[nl - 1] == '\r' {
                to = nl - 1;
            }
        }
        let line: Vec<char> = part(text, from, to);
        let ghost before = texts(res@);
        let ghost model = line@;
        res.push(line);
        proof {
            let n = nl - from;
            let tail = lines(text@.skip(next as int));
            assert(texts(res@) =~= before.push(model));
            assert(rest.take(n) =~= text@.subrange(from as int, nl as int));
            if nl < len {
                if nl > from {
                    assert(rest.take(n).last() == text@[nl - 1]);
                }
                assert(model =~= without_cr(rest.take(n)));
                assert(rest.skip(n + 1) =~= text@.skip(next as int));
            } else {
                assert(model =~= rest);
                assert(text@.skip(next as int).len() == 0);
            }
            assert(lines(rest) =~= seq![model] + tail);
            assert(texts(res@) + tail =~= before + (seq![model] + tail));
        }
        from = next;
    }
    assert(text@.skip(len as int).len() == 0);
    assert(texts(res@) + Seq::<Seq<char>>::empty() =~= texts(res@));
    res
}

/// Whether `c` is white space.
pub fn is_white_space(c: char) -> (res: bool)
    ensures
        res == is_space()(c),
{
    ('\u{9}' <= c && c <= '\u{d}') || c == ' ' || c == '\u{85}' || c == '\u{a0}' || c == '\u{1680}'
        || ('\u{2000}' <= c && c <= '\u{200a}') || c == '\u{2028}' || c == '\u{2029}' || c
        == '\u{202f}' || c == '\u{205f}' || c == '\u{3000}'
}

/// Splits a line into its words.
pub fn split_words(s: &Vec<char>) -> (res: Vec<Vec<char>>)
    ensures
        texts(res@) == words(s@),
{
    let len: usize = s.len();
    let mut res: Vec<Vec<char>> = Vec::new();
    let mut from: usize = 0;
    assert(s@.skip(0) =~= s@);
    assert(texts(res@) + words(s@) =~= words(s@));
    while from < len
        invariant
            from <= len,
            len == s.len(),
            texts(res@) + words(s@.skip(from as int)) == words(s@),
        decreases len - from,
    {
        let ghost rest = s@.skip(from as int);
        if is_white_space(s[from]) {
            proof {
                assert(rest[0] == s@[from as int]);
                assert(rest.skip(1) =~= s@.skip(from + 1));
            }
            from = from + 1;
            continue;
        }
        let mut to: usize = from;
        while to < len && !is_white_space(s[to])
            invariant
                from <= to <= len,
                len == s.len(),
                forall|j: int| from <= j < to ==> !is_space()(#[trigger] s@[j]),
            ensures
                to == len || is_space()(s@[to as int]),
            decreases len - to,
        {
            to = to + 1;
        }
        proof {
            assert forall|j: int| 0 <= j < to - from implies !is_space()(#[trigger] rest[j]) by {
                assert(rest[j] == s@[from + j]);
            }
            if to < len {
                assert(rest[to - from] == s@[to as int]);
            }
            lemma_prefix_len(rest, is_space(), to - from);
            assert(!is_space()(s@[from as int]));
        }
        let word: Vec<char> = part(s, from, to);
        let ghost before = texts(res@);
        let ghost model = word@;
        res.push(word);
        proof {
            let n = to - from;
            let tail = words(s@.skip(to as int));
            assert(texts(res@) =~= before.push(model));
            assert(rest.take(n) =~= model);
            assert(rest.skip(n) =~= s@.skip(to as int));
            assert(texts(res@) + tail =~= before + (seq![model] + tail));
        }
        from = to;
    }
    assert(s@.skip(len as int).len() == 0);
    assert(texts(res@) + Seq::<Seq<char>>::empty() =~= texts(res@));
    res
}

/// Removes the white space at both ends.
pub fn trimmed(s: &Vec<char>) -> (res: Vec<char>)
    ensures
        res@ == trim(s@),
{
    let len: usize = s.len();
    let mut from: usize = 0;
    assert(s@.skip(0) =~= s@);
    while from < len && is_white_space(s[from])
        invariant
            from <= len,
            len == s.len(),
            trim(s@.skip(from as int)) == trim(s@),
        ensures
            from == len || !is_space()(s@[from as int]),
        decreases len - from,
    {
        proof {
            let rest = s@.skip(from as int);
            assert(rest[0] == s@[from as int]);
            assert(rest.skip(1) =~= s@.skip(from + 1));
        }
        from = from + 1;
    }
    let mut to: usize = len;
    proof {
        let rest = s@.skip(from as int);
        if from < len {
            assert(rest[0] == s@[from as int]);
        }
        assert(s@.subrange(from as int, len as int) =~= rest);
        assert(trim(s@) == trim_end(rest));
    }
    while to > from && is_white_space(s[to - 1])
        invariant
            from <= to <= len,
            len == s.len(),
            trim_end(s@.subrange(from as int, to as int)) == trim(s@),
        ensures
            to == from || !is_space()(s@[to - 1]),
        decreases to,
    {
        proof {
            let now = s@.subrange(from as int, to as int);
            assert(now.last() == s@[to - 1]);
            assert(now.drop_last() =~= s@.subrange(from as int, to - 1));
        }
        to = to - 1;
    }
    proof {
        let now = s@.subrange(from as int, to as int);
        if to > from {
            assert(now.last() == s@[to - 1]);
        }
    }
    part(s, from, to)
}

/// Whether `needle` stands somewhere in `hay`.
pub fn contains(hay: &Vec<char>, needle: &Vec<char>) -> (res: bool)
    ensures
        res == occurs(hay@, needle@),
{
    let n: usize = needle.len();
    if hay.len() < n {
        return false;
    }
    let last: usize = hay.len() - n;
    let mut i: usize = 0;
    loop
        invariant
            i <= last,
            last == hay@.len() - n,
            n == needle.len(),
            forall|k: int| 0 <= k < i ==> !#[trigger] occurs_at(hay@, needle@, k),
        decreases last - i,
    {
        let mut j: usize = 0;
        while j < n && hay[i + j] == needle[j]
            invariant
                i <= last,
                last == hay@.len() - n,
                hay.len() == hay@.len(),
                n == needle.len(),
                j <= n,
                forall|k: int| 0 <= k < j ==> hay@[i + k] == #[trigger] needle@[k],
            ensures
                j == n || hay@[i + j] != needle@[j as int],
            decreases n - j,
        {
            j = j + 1;
        }
        if j == n {
            assert(hay@.subrange(i as int, i + n) =~= needle@);
            assert(occurs_at(hay@, needle@, i as int));
            return true;
        }
        proof {
            let there = hay@.subrange(i as int, i + n);
            assert(there[j as int] == hay@[i + j]);
            assert(!occurs_at(hay@, needle@, i as int));
        }
        if i == last {
            assert forall|k: int| !#[trigger] occurs_at(hay@, needle@, k) by {}
            return false;
        }
        i = i + 1;
    }
}

/// Whether a text contains another one.
pub fn contains_str(hay: &Vec<char>, needle: &str) -> (res: bool)
    ensures
        res == occurs(hay@, needle@),
{
    contains(hay, &chars_of(needle))
}

/// The value of a digit.
fn digit(c: char) -> (res: u64)
    ensures
        res == digit_value(c),
{
    if '0' <= c && c <= '9' {
        (c as u64) - 48
    } else if 'a' <= c && c <= 'f' {
        (c as u64) - 97 + 10
    } else if 'A' <= c && c <= 'F' {
        (c as u64) - 65 + 10
    } else {
        16
    }
}

/// Whether `c` is a hexadecimal digit.
pub fn is_hex_digit(c: char) -> (res: bool)
    ensures
        res == (digit_value(c) < 16),
{
    digit(c) < 16
}

/// A number does not shrink when digits are added to it.
proof fn lemma_number_grows(s: Seq<char>, radix: int, n: int)
    requires
        radix >= 2,
        0 <= n <= s.len(),
    ensures
        0 <= number(s.take(n), radix) <= number(s, radix),
    decreases s.len() - n, s.len(),
{
    if n < s.len() {
        assert(s.drop_last().take(n) =~= s.take(n));
        lemma_number_grows(s.drop_last(), radix, n);
        let v = number(s.drop_last(), radix);
        assert(v * radix >= v) by (nonlinear_arith)
            requires
                v >= 0,
                radix >= 2,
        ;
    } else {
        assert(s.take(n) =~= s);
        if s.len() > 0 {
            lemma_number_grows(s.drop_last(), radix, n - 1);
            let v = number(s.drop_last(), radix);
            assert(v * radix >= 0) by (nonlinear_arith)
                requires
                    v >= 0,
                    radix >= 2,
            ;
        }
    }
}

/// Parses an unsigned number of at most `max` to the base `radix`.
pub fn parse(s: &Vec<char>, radix: u64, max: u64) -> (res: Option<u64>)
    requires
        2 <= radix <= 16,
    ensures
        match res {
            Some(v) => parsed(s@, radix as int, max as int) == Some(v as int),
            None => parsed(s@, radix as int, max as int) is None,
        },
{
    let len: usize = s.len();
    let from: usize = if len > 0 && s[0] == '+' {
        1
    } else {
        0
    };
    let ghost digits = s@.skip(from as int);
    assert(from == 0 ==> digits =~= s@);
    if from == len {
        return None;
    }
    let mut v: u64 = 0;
    let mut i: usize = from;
    while i < len
        invariant
            from <= i <= len,
            len == s.len(),
            from < len,
            2 <= radix <= 16,
            digits == s@.skip(from as int),
            v <= max,
            v == number(digits.take(i - from), radix as int),
            forall|j: int| 0 <= j < i - from ==> digit_value(#[trigger] digits[j]) < radix,
            parsed(s@, radix as int, max as int) == (if all_digits(digits, radix as int) && number(
                digits,
                radix as int,
            ) <= max {
                Some(number(digits, radix as int))
            } else {
                None
            }),
        decreases len - i,
    {
        let d: u64 = digit(s[i]);
        let ghost k = i - from;
        assert(digits[k] == s@[i as int]);
        if d >= radix {
            return None;
        }
        assert(v * radix <= 0xFFFF_FFFF_FFFF_FFFF * 16) by (nonlinear_arith)
            requires
                v <= 0xFFFF_FFFF_FFFF_FFFF,
                radix <= 16,
        ;
        let wide: u128 = v as u128 * radix as u128 + d as u128;
        proof {
            assert(digits.take(k + 1).drop_last() =~= digits.take(k));
            assert(digits.take(k + 1).last() == digits[k]);
            lemma_number_grows(digits, radix as int, k + 1);
        }
        if wide > max as u128 {
            return None;
        }
        v = wide as u64;
        i = i + 1;
    }
    assert(digits.take(len - from) =~= digits);
    Some(v)
}

/// The hexadecimal digit of value `d`.
pub open spec fn hex_char(d: int) -> char {
    if d < 10 {
        ('0' as int + d) as char
    } else {
        ('a' as int + d - 10) as char
    }
}

/// A number in hexadecimal, without leading zeros.
pub open spec fn hex_of(n: nat) -> Seq<char>
    decreases n,
{
    if n < 16 {
        seq![hex_char(n as int)]
    } else {
        hex_of(n / 16).push(hex_char((n % 16) as int))
    }
}

/// Appends a number in hexadecimal.
pub fn push_hex(s: &mut String, n: u64)
    ensures
        final(s)@ == old(s)@ + hex_of(n as nat),
    decreases n,
{
    if n >= 16 {
        push_hex(s, n / 16);
    }
    let d: u8 = (n % 16) as u8;
    let c: char = if d < 10 {
        (48 + d) as char
    } else {
        (97 + (d - 10)) as char
    };
    s.push(c);
    assert(s@ =~= old(s)@ + hex_of(n as nat));
}

/// Writing a number in hexadecimal and reading it back gives the number.
pub proof fn law_hex_round_trip(n: u64)
    ensures
        parsed(hex_of(n as nat), 16, u64::MAX as int) == Some(n as int),
{
    lemma_hex_digits(n as nat);
}

proof fn lemma_hex_digits(n: nat)
    ensures
        hex_of(n).len() > 0,
        all_digits(hex_of(n), 16),
        number(hex_of(n), 16) == n,
        hex_of(n)[0] != '+',
    decreases n,
{
    if n < 16 {
        let s = hex_of(n);
        assert(s.drop_last().len() == 0);
        assert(number(s.drop_last(), 16) == 0);
        assert(digit_value(s.last()) == n);
    } else {
        lemma_hex_digits(n / 16);
        let s = hex_of(n);
        assert(s.drop_last() =~= hex_of(n / 16));
        assert(digit_value(s.last()) == n % 16);
        assert(s[0] == hex_of(n / 16)[0]);
    }
}

/// A text is cut into lines at each line feed, with which a carriage return
/// right before it goes; what follows the last line feed is a line if there is
/// anything.
pub proof fn law_lines_are_cut_at_line_feeds(line: Seq<char>, rest: Seq<char>)
    requires
        !line.contains('\n'),
    ensures
        lines(Seq::empty()) == Seq::<Seq<char>>::empty(),
        line.len() > 0 ==> lines(line) == seq![line],
        lines(line + seq!['\r', '\n'] + rest) == seq![line] + lines(rest),
        line.len() == 0 || line.last() != '\r' ==> lines(line + seq!['\n'] + rest) == seq![line]
            + lines(rest),
{
    assert forall|j: int| 0 <= j < line.len() implies !is_newline()(#[trigger] line[j]) by {
        assert(line.contains(line[j]));
    }
    if line.len() > 0 {
        lemma_prefix_len(line, is_newline(), line.len() as int);
    }
    let n = line.len() as int;
    let with_feed = line + seq!['\n'] + rest;
    assert(with_feed.take(n) =~= line);
    assert(with_feed.skip(n + 1) =~= rest);
    assert forall|j: int| 0 <= j < n implies !is_newline()(#[trigger] with_feed[j]) by {
        assert(with_feed[j] == line[j]);
    }
    lemma_prefix_len(with_feed, is_newline(), n);
    let with_both = line + seq!['\r', '\n'] + rest;
    assert(with_both.take(n + 1) =~= line.push('\r'));
    assert(line.push('\r').drop_last() =~= line);
    assert(with_both.skip(n + 2) =~= rest);
    assert forall|j: int| 0 <= j < n + 1 implies !is_newline()(#[trigger] with_both[j]) by {
        if j < n {
            assert(with_both[j] == line[j]);
        }
    }
    lemma_prefix_len(with_both, is_newline(), n + 1);
}

/// White space are the characters of these codes.
pub proof fn law_white_space_codes(c: char)
    ensures
        is_space()(c) <==> {
            let code = c as int;
            ||| 9 <= code <= 13
            ||| code == 32
            ||| code == 133
            ||| code == 160
            ||| code == 5760
            ||| 8192 <= code <= 8202
            ||| code == 8232
            ||| code == 8233
            ||| code == 8239
            ||| code == 8287
            ||| code == 12288
        },
{
}

/// A line is cut into words at white space, however much of it stands together.
pub proof fn law_words_are_cut_at_white_space(word: Seq<char>, rest: Seq<char>, c: char)
    requires
        forall|i: int| 0 <= i < word.len() ==> !is_space()(#[trigger] word[i]),
    ensures
        words(Seq::empty()) == Seq::<Seq<char>>::empty(),
        is_space()(c) ==> words(seq![c] + rest) == words(rest),
        word.len() > 0 && (rest.len() == 0 || is_space()(rest[0])) ==> words(word + rest)
            == seq![word] + words(rest),
{
    let spaced = seq![c] + rest;
    assert(spaced.skip(1) =~= rest);
    let all = word + rest;
    let n = word.len() as int;
    if n > 0 && (rest.len() == 0 || is_space()(rest[0])) {
        assert forall|j: int| 0 <= j < n implies !is_space()(#[trigger] all[j]) by {
            assert(all[j] == word[j]);
        }
        lemma_prefix_len(all, is_space(), n);
        assert(all.take(n) =~= word);
        assert(all.skip(n) =~= rest);
        assert(all[0] == word[0]);
    }
}

/// Trimming takes away all white space before and behind a text, and none of
/// what is inside.
pub proof fn law_trim_takes_white_space_away(
    before: Seq<char>,
    core: Seq<char>,
    behind: Seq<char>,
)
    requires
        forall|i: int| 0 <= i < before.len() ==> is_space()(#[trigger] before[i]),
        forall|i: int| 0 <= i < behind.len() ==> is_space()(#[trigger] behind[i]),
        core.len() == 0 || (!is_space()(core[0]) && !is_space()(core.last())),
    ensures
        trim(before + core + behind) == core,
    decreases before.len() + behind.len(), behind.len(),
{
    let all = before + core + behind;
    if before.len() > 0 {
        let rest = before.skip(1);
        assert forall|i: int| 0 <= i < rest.len() implies is_space()(#[trigger] rest[i]) by {
            assert(rest[i] == before[i + 1]);
        }
        law_trim_takes_white_space_away(rest, core, behind);
        assert(all[0] == before[0]);
        assert(all.skip(1) =~= rest + core + behind);
    } else if core.len() == 0 && behind.len() > 0 {
        law_trim_takes_white_space_away(behind, core, before);
        assert(all =~= behind + core + before);
    } else {
        lemma_trim_end(core, behind);
        assert(all =~= core + behind);
        if core.len() > 0 {
            assert(all[0] == core[0]);
        } else {
            assert(core =~= Seq::<char>::empty());
            assert(all.len() == 0);
        }
    }
}

proof fn lemma_trim_end(core: Seq<char>, behind: Seq<char>)
    requires
        forall|i: int| 0 <= i < behind.len() ==> is_space()(#[trigger] behind[i]),
        core.len() == 0 || !is_space()(core.last()),
    ensures
        trim_end(core + behind) == core,
    decreases behind.len(),
{
    let all = core + behind;
    if behind.len() > 0 {
        let rest = behind.drop_last();
        assert forall|i: int| 0 <= i < rest.len() implies is_space()(#[trigger] rest[i]) by {
            assert(rest[i] == behind[i]);
        }
        lemma_trim_end(core, rest);
        assert(all.last() == behind[behind.len() - 1]);
        assert(all.drop_last() =~= core + rest);
    } else {
        assert(all =~= core);
    }
}

/// A text occurs in another one that is made of it and of what stands before and
/// behind it.
pub proof fn law_occurs_between(hay: Seq<char>, needle: Seq<char>)
    ensures
        occurs(hay, needle) <==> exists|before: Seq<char>, behind: Seq<char>|
            hay == #[trigger] (before + needle + behind),
{
    if occurs(hay, needle) {
        let i = choose|i: int| #[trigger] occurs_at(hay, needle, i);
        let before = hay.take(i);
        let behind = hay.skip(i + needle.len());
        assert(hay =~= before + needle + behind) by {
            assert forall|k: int| 0 <= k < needle.len() implies hay[i + k] == #[trigger] needle[k] by {
                assert(hay.subrange(i, i + needle.len())[k] == needle[k]);
            }
        }
    }
    if exists|before: Seq<char>, behind: Seq<char>| hay == #[trigger] (before + needle + behind) {
        let (before, behind) = choose|before: Seq<char>, behind: Seq<char>|
            hay == #[trigger] (before + needle + behind);
        let i = before.len() as int;
        assert(hay.subrange(i, i + needle.len()) =~= needle);
        assert(occurs_at(hay, needle, i));
    }
}

/// The digits are `0` to `9`, and `a` to `f` and `A` to `F` for ten to fifteen.
pub proof fn law_digit_codes(c: char)
    ensures
        48 <= c as int <= 57 ==> digit_value(c) == c as int - 48,
        97 <= c as int <= 102 ==> digit_value(c) == c as int - 87,
        65 <= c as int <= 70 ==> digit_value(c) == c as int - 55,
        !(48 <= c as int <= 57 || 97 <= c as int <= 102 || 65 <= c as int <= 70) ==> digit_value(c)
            >= 16,
        digit_value(c) >= 0,
{
}

/// Digits are worth more the further left they stand: digits before others count
/// once more times the base for each of these.
pub proof fn law_number_is_positional(a: Seq<char>, b: Seq<char>, c: char, radix: int)
    ensures
        number(seq![c], radix) == digit_value(c),
        number(a + b, radix) == number(a, radix) * pow(radix, b.len()) + number(b, radix),
    decreases b.len(),
{
    assert(seq![c].drop_last().len() == 0);
    assert(number(seq![c].drop_last(), radix) == 0);
    let n = number(a, radix);
    lemma_pow0(radix);
    if b.len() == 0 {
        assert(a + b =~= a);
    } else {
        let most = b.drop_last();
        let k = most.len();
        law_number_is_positional(a, most, c, radix);
        assert((a + b).drop_last() =~= a + most);
        assert((a + b).last() == b.last());
        lemma_pow_adds(radix, k, 1);
        lemma_pow1(radix);
        let m = number(most, radix);
        let p = pow(radix, k);
        assert((n * p + m) * radix == n * (p * radix) + m * radix) by (nonlinear_arith);
    }
}

/// A number is read from digits of its base, with or without one plus sign
/// before them, if it is not too large, and from nothing else.
pub proof fn law_parsed_is_the_number(s: Seq<char>, radix: int, max: int, v: int)
    requires
        2 <= radix <= 16,
        s.len() == 0 || s[0] != '+',
    ensures
        parsed(s, radix, max) == Some(v) <==> {
            &&& s.len() > 0
            &&& forall|i: int| 0 <= i < s.len() ==> digit_value(#[trigger] s[i]) < radix
            &&& v == number(s, radix)
            &&& 0 <= v <= max
        },
        parsed(seq!['+'] + s, radix, max) == parsed(s, radix, max),
        parsed(seq!['+', '+'] + s, radix, max) is None,
{
    let plus = seq!['+'] + s;
    assert(plus.skip(1) =~= s);
    let two = seq!['+', '+'] + s;
    assert(two.skip(1)[0] == '+');
    lemma_number_grows(s, radix, 0);
    assert(s.take(0) =~= Seq::<char>::empty());
}

/// Hexadecimal is written with small letters and without leading zeros.
pub proof fn law_hex_is_plain(n: nat)
    ensures
        hex_of(n).len() > 0,
        hex_of(n)[0] == '0' ==> n == 0 && hex_of(n).len() == 1,
        forall|i: int|
            0 <= i < hex_of(n).len() ==> 48 <= #[trigger] hex_of(n)[i] as int <= 57 || 97
                <= hex_of(n)[i] as int <= 102,
    decreases n,
{
    let s = hex_of(n);
    if n >= 16 {
        law_hex_is_plain(n / 16);
        let most = hex_of(n / 16);
        assert(s[0] == most[0]);
        assert forall|i: int| 0 <= i < s.len() implies 48 <= #[trigger] s[i] as int <= 57 || 97
            <= s[i] as int <= 102 by {
            if i < most.len() {
                assert(s[i] == most[i]);
            }
        }
    }
}

} // verus!
