//! Text helpers over character sequences: trimming, line splitting, numbers in digits.
use vstd::prelude::*;
use vstd::string::*;

verus! {

/// `String::push` appends one character.
pub assume_specification[ String::push ](text: &mut String, c: char)
    ensures
        final(text)@ == old(text)@.push(c),
;

/// The characters of a text, one by one.
pub fn chars_of(text: &str) -> (chars: Vec<char>)
    ensures
        chars@ == text@,
{
    let mut chars: Vec<char> = Vec::new();
    for c in it: text.chars()
        invariant
            it.seq() == text@,
            chars@ == text@.take(it.index()),
    {
        chars.push(c);
    }
    chars
}

/// The text made of the characters `from..to`.
pub fn string_of(chars: &Vec<char>, from: usize, to: usize) -> (text: String)
    requires
        from <= to <= chars@.len(),
    ensures
        text@ == chars@.subrange(from as int, to as int),
{
    let mut text = String::new();
    let mut at: usize = from;
    while at < to
        invariant
            from <= at <= to <= chars@.len(),
            text@ == chars@.subrange(from as int, at as int),
        decreases to - at,
    {
        text.push(chars[at]);
        at = at + 1;
        assert(chars@.subrange(from as int, at as int) == chars@.subrange(
            from as int,
            at - 1,
        ).push(chars@[at - 1]));
    }
    text
}

/// Whether two texts hold the same characters.
pub fn same_text(a: &str, b: &str) -> (same: bool)
    ensures
        same == (a@ == b@),
{
    let left = chars_of(a);
    let right = chars_of(b);
    if left.len() != right.len() {
        return false;
    }
    let mut at: usize = 0;
    while at < left.len()
        invariant
            at <= left@.len(),
            left@.len() == right@.len(),
            left@ == a@,
            right@ == b@,
            forall|j: int| 0 <= j < at ==> left@[j] == right@[j],
        decreases left@.len() - at,
    {
        if left[at] != right[at] {
            return false;
        }
        at = at + 1;
    }
    assert(left@ == right@);
    true
}

/// The characters with Unicode's `White_Space` property.
pub open spec fn is_white_space(c: char) -> bool {
    ||| '\u{9}' <= c <= '\u{d}'
    ||| c == '\u{20}'
    ||| c == '\u{85}'
    ||| c == '\u{a0}'
    ||| c == '\u{1680}'
    ||| '\u{2000}' <= c <= '\u{200a}'
    ||| c == '\u{2028}'
    ||| c == '\u{2029}'
    ||| c == '\u{202f}'
    ||| c == '\u{205f}'
    ||| c == '\u{3000}'
}

/// Whether a character is white space.
pub fn white_space(c: char) -> (white: bool)
    ensures
        white == is_white_space(c),
{
    ('\u{9}' <= c && c <= '\u{d}') || c == '\u{20}' || c == '\u{85}' || c == '\u{a0}' || c
        == '\u{1680}' || ('\u{2000}' <= c && c <= '\u{200a}') || c == '\u{2028}' || c == '\u{2029}'
        || c == '\u{202f}' || c == '\u{205f}' || c == '\u{3000}'
}

/// A text without its leading white space.
pub open spec fn trimmed_start(text: Seq<char>) -> Seq<char>
    decreases text.len(),
{
    if text.len() > 0 && is_white_space(text[0]) {
        trimmed_start(text.drop_first())
    } else {
        text
    }
}

/// A text without its trailing white space.
pub open spec fn trimmed_end(text: Seq<char>) -> Seq<char>
    decreases text.len(),
{
    if text.len() > 0 && is_white_space(text.last()) {
        trimmed_end(text.drop_last())
    } else {
        text
    }
}

/// A text without its leading and trailing white space.
pub open spec fn trimmed(text: Seq<char>) -> Seq<char> {
    trimmed_end(trimmed_start(text))
}

/// Removes leading and trailing white space.
pub fn trim(text: &str) -> (inner: String)
    ensures
        inner@ == trimmed(text@),
{
    let chars = chars_of(text);
    let mut from: usize = 0;
    assert(chars@.skip(0) == chars@);
    while from < chars.len() && white_space(chars[from])
        invariant
            from <= chars@.len(),
            trimmed_start(chars@) == trimmed_start(chars@.skip(from as int)),
        decreases chars@.len() - from,
    {
        from = from + 1;
        assert(chars@.skip(from - 1).drop_first() == chars@.skip(from as int));
    }
    let mut to: usize = chars.len();
    let ghost start = trimmed_start(chars@);
    assert(start == chars@.skip(from as int));
    assert(chars@.subrange(from as int, to as int) == start);
    while to > from && white_space(chars[to - 1])
        invariant
            from <= to <= chars@.len(),
            trimmed_end(start) == trimmed_end(chars@.subrange(from as int, to as int)),
        decreases to,
    {
        to = to - 1;
        assert(chars@.subrange(from as int, to + 1).drop_last() == chars@.subrange(
            from as int,
            to as int,
        ));
    }
    string_of(&chars, from, to)
}

/// A line without the carriage return that may stand before its line feed.
pub open spec fn without_return(line: Seq<char>) -> Seq<char> {
    if line.len() > 0 && line.last() == '\r' {
        line.drop_last()
    } else {
        line
    }
}

/// Where the first line of a text ends: at its first line feed, or where the text ends.
pub open spec fn line_end(text: Seq<char>) -> nat
    decreases text.len(),
{
    if text.len() == 0 || text[0] == '\n' {
        0
    } else {
        1 + line_end(text.drop_first())
    }
}

/// The lines of a text. Each ends at a line feed, which belongs to no line, and neither
/// does a carriage return right before it. What follows the last line feed is a line as
/// it stands, unless it is empty.
pub open spec fn lines_of(text: Seq<char>) -> Seq<Seq<char>>
    decreases text.len(),
{
    let end = line_end(text);
    if text.len() == 0 {
        Seq::empty()
    } else if end < text.len() {
        seq![without_return(text.take(end as int))] + lines_of(text.skip(end as int + 1))
    } else {
        seq![text]
    }
}

/// The texts of a list of strings.
pub open spec fn texts(list: Seq<String>) -> Seq<Seq<char>> {
    list.map_values(|s: String| s@)
}

/// A line feed at `end` with none before it is where the first line ends.
pub proof fn lemma_line_end(text: Seq<char>, end: nat)
    requires
        end <= text.len(),
        forall|j: int| 0 <= j < end ==> text[j] != '\n',
        end < text.len() ==> text[end as int] == '\n',
    ensures
        line_end(text) == end,
    decreases text.len(),
{
    if text.len() > 0 && text[0] != '\n' {
        assert(end > 0);
        lemma_line_end(text.drop_first(), (end - 1) as nat);
    }
}

/// Splits a text into its lines.
pub fn split_lines(text: &str) -> (lines: Vec<String>)
    ensures
        texts(lines@) == lines_of(text@),
{
    let chars = chars_of(text);
    let mut lines: Vec<String> = Vec::new();
    let mut start: usize = 0;
    let mut at: usize = 0;
    assert(chars@.skip(0) == chars@);
    assert(texts(lines@) + lines_of(chars@) == lines_of(chars@));
    while at < chars.len()
        invariant
            start <= at <= chars@.len(),
            forall|j: int| start <= j < at ==> chars@[j] != '\n',
            lines_of(chars@) == texts(lines@) + lines_of(chars@.skip(start as int)),
        decreases chars@.len() - at,
    {
        if chars[at] == '\n' {
            let ghost rest = chars@.skip(start as int);
            let ghost before = texts(lines@);
            let end: usize = if at > start && chars[at - 1] == '\r' {
                at - 1
            } else {
                at
            };
            let line = string_of(&chars, start, end);
            proof {
                lemma_line_end(rest, (at - start) as nat);
                assert(rest.take(at - start) == chars@.subrange(start as int, at as int));
                assert(without_return(rest.take(at - start)) == line@);
                assert(rest.skip(at - start + 1) == chars@.skip(at + 1));
                assert(texts(lines@.push(line)) == before.push(line@));
                assert(before + (seq![line@] + lines_of(chars@.skip(at + 1))) == before.push(line@)
                    + lines_of(chars@.skip(at + 1)));
            }
            lines.push(line);
            start = at + 1;
        }
        at = at + 1;
    }
    let ghost rest = chars@.skip(start as int);
    let ghost before = texts(lines@);
    proof {
        lemma_line_end(rest, rest.len());
    }
    if start < chars.len() {
        let line = string_of(&chars, start, chars.len());
        assert(line@ == rest);
        assert(texts(lines@.push(line)) == before.push(line@));
        lines.push(line);
    }
    lines
}

/// The character of a decimal digit.
pub open spec fn digit_char(digit: nat) -> char {
    (48 + digit) as char
}

/// A number in decimal digits, without leading zeros.
pub open spec fn decimal_of(n: nat) -> Seq<char>
    decreases n,
{
    if n < 10 {
        seq![digit_char(n)]
    } else {
        decimal_of(n / 10).push(digit_char(n % 10))
    }
}

/// Writes a number in decimal digits.
pub fn decimal(n: u64) -> (text: String)
    ensures
        text@ == decimal_of(n as nat),
    decreases n,
{
    let digit: u8 = 48 + (n % 10) as u8;
    let mut text = if n < 10 {
        String::new()
    } else {
        decimal(n / 10)
    };
    text.push(digit as char);
    text
}

/// Appends a number in decimal digits.
pub fn append_decimal(text: &mut String, n: usize)
    ensures
        final(text)@ == old(text)@ + decimal_of(n as nat),
{
    let digits = decimal(n as u64);
    text.append(digits.as_str());
}

/// The lowercase character of a hexadecimal digit.
pub open spec fn hex_char(digit: int) -> char {
    if digit < 10 {
        (48 + digit) as char
    } else {
        (87 + digit) as char
    }
}

/// Bytes in lowercase hexadecimal, two characters each, the high half first.
pub open spec fn hex_of(bytes: Seq<u8>) -> Seq<char> {
    Seq::new(
        2 * bytes.len(),
        |i: int|
            if i % 2 == 0 {
                hex_char(bytes[i / 2] as int / 16)
            } else {
                hex_char(bytes[i / 2] as int % 16)
            },
    )
}

fn hex_digit(digit: u8) -> (c: char)
    requires
        digit < 16,
    ensures
        c == hex_char(digit as int),
{
    if digit < 10 {
        (48 + digit) as char
    } else {
        (87 + digit) as char
    }
}

/// Writes bytes in lowercase hexadecimal.
pub fn hex(bytes: &Vec<u8>) -> (text: String)
    ensures
        text@ == hex_of(bytes@),
{
    let mut text = String::new();
    let mut at: usize = 0;
    while at < bytes.len()
        invariant
            at <= bytes@.len(),
            text@ == hex_of(bytes@.take(at as int)),
        decreases bytes@.len() - at,
    {
        let byte: u8 = bytes[at];
        let ghost before = text@;
        text.push(hex_digit(byte / 16));
        text.push(hex_digit(byte % 16));
        at = at + 1;
        assert(text@ == before.push(hex_char(byte as int / 16)).push(hex_char(byte as int % 16)));
        assert(text@ =~= hex_of(bytes@.take(at as int)));
    }
    assert(bytes@.take(bytes@.len() as int) == bytes@);
    text
}

/// The value of a run of decimal digits: `None` where a character is no digit or the run
/// is empty.
pub open spec fn digits_value(digits: Seq<char>) -> Option<nat>
    decreases digits.len(),
{
    if digits.len() == 0 || !('0' <= digits.last() <= '9') {
        None
    } else if digits.len() == 1 {
        Some((digits[0] as nat - 48) as nat)
    } else {
        match digits_value(digits.drop_last()) {
            Some(high) => Some(10 * high + (digits.last() as nat - 48) as nat),
            None => None,
        }
    }
}

/// The number that a text spells for a `usize`: decimal digits, with a plus sign allowed
/// in front, of a value that fits.
pub open spec fn parsed_usize(text: Seq<char>) -> Option<usize> {
    let digits = if text.len() > 1 && text[0] == '+' {
        text.drop_first()
    } else {
        text
    };
    match digits_value(digits) {
        Some(value) if value <= usize::MAX => Some(value as usize),
        _ => None,
    }
}

/// Parses a `usize`.
pub fn parse_usize(text: &str) -> (value: Option<usize>)
    ensures
        value == parsed_usize(text@),
{
    let chars = chars_of(text);
    let from: usize = if chars.len() > 1 && chars[0] == '+' {
        1
    } else {
        0
    };
    let ghost digits = chars@.skip(from as int);
    assert(from == 0 ==> digits == chars@);
    assert(from == 1 ==> digits == chars@.drop_first());
    if from >= chars.len() {
        return None;
    }
    let mut value: usize = 0;
    let mut at: usize = from;
    while at < chars.len()
        invariant
            from <= at <= chars@.len(),
            from < chars@.len(),
            digits == chars@.skip(from as int),
            parsed_usize(text@) == (match digits_value(digits) {
                Some(v) if v <= usize::MAX => Some(v as usize),
                _ => None,
            }),
            at > from ==> digits_value(digits.take(at - from)) == Some(value as nat),
            at == from ==> value == 0,
        decreases chars@.len() - at,
    {
        let c = chars[at];
        let ghost prefix = digits.take(at + 1 - from);
        assert(prefix.last() == c);
        assert(prefix.drop_last() == digits.take(at - from));
        if !('0' <= c && c <= '9') {
            proof {
                lemma_digits_prefix(digits, at + 1 - from);
            }
            return None;
        }
        let digit: usize = (c as u32 - 48) as usize;
        let scaled = value.checked_mul(10);
        let next: Option<usize> = match scaled {
            Some(high) => high.checked_add(digit),
            None => None,
        };
        assert(digits_value(prefix) == Some((10 * value + digit) as nat));
        match next {
            Some(v) => {
                value = v;
            },
            None => {
                proof {
                    lemma_digits_prefix(digits, at + 1 - from);
                }
                return None;
            },
        }
        at = at + 1;
    }
    assert(digits.take(chars@.len() - from) == digits);
    Some(value)
}

/// A run of digits spells no number where a prefix of it spells none, and no smaller number
/// than its prefix.
proof fn lemma_digits_prefix(digits: Seq<char>, n: int)
    requires
        0 < n <= digits.len(),
    ensures
        digits_value(digits) matches Some(whole) ==> digits_value(digits.take(n)) matches Some(
            part,
        ) && part <= whole,
    decreases digits.len(),
{
    if n == digits.len() {
        assert(digits.take(n) == digits);
    } else {
        lemma_digits_prefix(digits.drop_last(), n);
        assert(digits.drop_last().take(n) == digits.take(n));
    }
}

/// Where the last `c` of a text stands, if it has one.
pub open spec fn last_position(text: Seq<char>, c: char) -> Option<nat>
    decreases text.len(),
{
    if text.len() == 0 {
        None
    } else if text.last() == c {
        Some((text.len() - 1) as nat)
    } else {
        last_position(text.drop_last(), c)
    }
}

/// What follows the last `c` of a text: the whole text where it has none.
pub open spec fn after_last(text: Seq<char>, c: char) -> Seq<char> {
    match last_position(text, c) {
        Some(at) => text.skip(at as int + 1),
        None => text,
    }
}

/// The part of a text that follows its last `c`, or all of it.
pub fn tail_after(text: &str, c: char) -> (tail: String)
    ensures
        tail@ == after_last(text@, c),
{
    let chars = chars_of(text);
    let mut end: usize = chars.len();
    assert(chars@.take(end as int) == chars@);
    while end > 0
        invariant
            end <= chars@.len(),
            chars@ == text@,
            last_position(chars@, c) == last_position(chars@.take(end as int), c),
        decreases end,
    {
        assert(chars@.take(end as int).last() == chars@[end - 1]);
        if chars[end - 1] == c {
            return string_of(&chars, end, chars.len());
        }
        assert(chars@.take(end as int).drop_last() == chars@.take(end - 1));
        end = end - 1;
    }
    string_of(&chars, 0, chars.len())
}

/// Whether one text comes before another: where they first differ it has the lower character,
/// or it ends there.
pub open spec fn before(a: Seq<char>, b: Seq<char>) -> bool
    decreases a.len(),
{
    if b.len() == 0 {
        false
    } else if a.len() == 0 {
        true
    } else if a[0] != b[0] {
        a[0] < b[0]
    } else {
        before(a.drop_first(), b.drop_first())
    }
}

/// Decides whether one text comes before another.
pub fn comes_before(a: &str, b: &str) -> (earlier: bool)
    ensures
        earlier == before(a@, b@),
{
    let left = chars_of(a);
    let right = chars_of(b);
    let mut at: usize = 0;
    assert(left@.skip(0) == left@);
    assert(right@.skip(0) == right@);
    while at < left.len() && at < right.len()
        invariant
            at <= left@.len(),
            at <= right@.len(),
            before(a@, b@) == before(left@.skip(at as int), right@.skip(at as int)),
        decreases left@.len() - at,
    {
        if left[at] != right[at] {
            return left[at] < right[at];
        }
        assert(left@.skip(at as int).drop_first() == left@.skip(at + 1));
        assert(right@.skip(at as int).drop_first() == right@.skip(at + 1));
        at = at + 1;
    }
    at < right.len()
}

/// Texts are totally ordered: of two different ones exactly one comes before the other, and
/// none comes before itself.
pub proof fn lemma_before_total(a: Seq<char>, b: Seq<char>)
    ensures
        a == b ==> !before(a, b),
        a != b ==> before(a, b) != before(b, a),
    decreases a.len(),
{
    if a.len() > 0 && b.len() > 0 && a[0] == b[0] {
        lemma_before_total(a.drop_first(), b.drop_first());
        if a.drop_first() == b.drop_first() {
            assert(a == seq![a[0]] + a.drop_first());
            assert(b == seq![b[0]] + b.drop_first());
        }
    } else if a.len() == 0 && b.len() == 0 {
        assert(a == b);
    }
}

/// The order of texts is transitive.
pub proof fn lemma_before_transitive(a: Seq<char>, b: Seq<char>, c: Seq<char>)
    requires
        before(a, b),
        before(b, c),
    ensures
        before(a, c),
    decreases a.len(),
{
    if a.len() > 0 && a[0] == b[0] && b[0] == c[0] {
        lemma_before_transitive(a.drop_first(), b.drop_first(), c.drop_first());
    }
}

/// Whether texts stand in ascending order, each once.
pub open spec fn ascending(list: Seq<Seq<char>>) -> bool {
    forall|i: int, j: int|
        0 <= i < j < list.len() ==> before(#[trigger] list[i], #[trigger] list[j])
}

/// A text put in its place in an ascending list; a list that has it stays as it is.
pub open spec fn joined(list: Seq<Seq<char>>, text: Seq<char>) -> Seq<Seq<char>>
    decreases list.len(),
{
    if list.len() == 0 {
        seq![text]
    } else if list.last() == text {
        list
    } else if before(list.last(), text) {
        list.push(text)
    } else {
        joined(list.drop_last(), text).push(list.last())
    }
}

/// Puts a text in its place in a list.
pub fn join_text(list: &mut Vec<String>, text: String)
    ensures
        texts(final(list)@) == joined(texts(old(list)@), text@),
{
    let ghost all = texts(list@);
    let mut at: usize = list.len();
    assert(all.take(at as int) == all);
    assert(joined(all, text@) + all.skip(at as int) == joined(all, text@));
    assert(all.take(0).push(text@) == seq![text@]);
    while at > 0
        invariant
            at <= list@.len(),
            *list == *old(list),
            all == texts(list@),
            joined(all, text@) == joined(all.take(at as int), text@) + all.skip(at as int),
            all.take(0).push(text@) == seq![text@],
        ensures
            at <= list@.len(),
            joined(all, text@) == all.take(at as int).push(text@) + all.skip(at as int),
        decreases at,
    {
        let ghost head = all.take(at as int);
        assert(head.last() == list@[at - 1]@);
        if same_text(list[at - 1].as_str(), text.as_str()) {
            assert(head + all.skip(at as int) == all);
            return;
        }
        if comes_before(list[at - 1].as_str(), text.as_str()) {
            break;
        }
        assert(head.drop_last() == all.take(at - 1));
        assert(joined(all.take(at - 1), text@).push(head.last()) + all.skip(at as int) == joined(
            all.take(at - 1),
            text@,
        ) + all.skip(at - 1));
        at = at - 1;
    }
    list.insert(at, text);
    assert(texts(list@) == all.take(at as int).push(text@) + all.skip(at as int));
}

/// Joining keeps a list ascending, and adds the text and nothing else.
pub proof fn lemma_joined(list: Seq<Seq<char>>, text: Seq<char>)
    requires
        ascending(list),
    ensures
        ascending(joined(list, text)),
        forall|other: Seq<char>| #[trigger]
            joined(list, text).contains(other) <==> list.contains(other) || other == text,
    decreases list.len(),
{
    let now = joined(list, text);
    if list.len() == 0 {
        assert(now[0] == text);
    } else {
        let front = list.drop_last();
        let last = list.last();
        assert(forall|i: int| 0 <= i < front.len() ==> #[trigger] front[i] == list[i]);
        assert(forall|i: int|
            0 <= i < front.len() ==> before(#[trigger] front[i], list[list.len() - 1]));
        lemma_before_total(last, text);
        if last == text {
            assert(list[list.len() - 1] == text);
        } else if before(last, text) {
            assert forall|i: int, j: int| 0 <= i < j < now.len() implies before(
                #[trigger] now[i],
                #[trigger] now[j],
            ) by {
                if j == list.len() && i < front.len() {
                    assert(before(front[i], last));
                    lemma_before_transitive(list[i], last, text);
                }
            }
            assert(now[list.len() as int] == text);
            assert(forall|i: int| 0 <= i < list.len() ==> now[i] == #[trigger] list[i]);
        } else {
            lemma_joined(front, text);
            let inner = joined(front, text);
            assert(now == inner.push(last));
            assert forall|i: int, j: int| 0 <= i < j < now.len() implies before(
                #[trigger] now[i],
                #[trigger] now[j],
            ) by {
                if j == inner.len() {
                    assert(inner.contains(inner[i]));
                    if inner[i] != text {
                        let k = choose|k: int| 0 <= k < front.len() && front[k] == inner[i];
                        assert(before(front[k], last));
                    }
                }
            }
            assert forall|other: Seq<char>| #[trigger] now.contains(other) <==> list.contains(
                other,
            ) || other == text by {
                if now.contains(other) {
                    let k = choose|k: int| 0 <= k < now.len() && now[k] == other;
                    if k < inner.len() {
                        assert(inner[k] == other);
                        assert(inner.contains(other));
                        if other != text {
                            let m = choose|m: int| 0 <= m < front.len() && front[m] == other;
                            assert(list[m] == other);
                        }
                    } else {
                        assert(list[list.len() - 1] == other);
                    }
                }
                if list.contains(other) {
                    let k = choose|k: int| 0 <= k < list.len() && list[k] == other;
                    if k < front.len() {
                        assert(front[k] == other);
                        assert(front.contains(other));
                        assert(inner.contains(other));
                        let m = choose|m: int| 0 <= m < inner.len() && inner[m] == other;
                        assert(now[m] == other);
                    } else {
                        assert(now[inner.len() as int] == other);
                    }
                }
                if other == text {
                    assert(inner.contains(text));
                    let m = choose|m: int| 0 <= m < inner.len() && inner[m] == text;
                    assert(now[m] == text);
                }
            }
        }
    }
}

/// White space is the tab, the line feed, the vertical tab, the form feed, the carriage return,
/// the space, and the spaces and separators of Unicode beyond ASCII; no other character is.
pub proof fn white_space_is_a_fixed_set(c: char)
    ensures
        is_white_space(c) <==> {
            let code = c as u32;
            ||| 9 <= code <= 13
            ||| code == 32
            ||| code == 133
            ||| code == 160
            ||| code == 5760
            ||| 8192 <= code <= 8202
            ||| code == 8232
            ||| code == 8233
            ||| code == 8239
            ||| code == 8287
            ||| code == 12288
        },
{
}

proof fn lemma_trimmed_start(text: Seq<char>) -> (from: int)
    ensures
        0 <= from <= text.len(),
        trimmed_start(text) == text.skip(from),
        forall|i: int| 0 <= i < from ==> is_white_space(#[trigger] text[i]),
        from < text.len() ==> !is_white_space(text[from]),
    decreases text.len(),
{
    if text.len() > 0 && is_white_space(text[0]) {
        let rest = text.drop_first();
        let from = lemma_trimmed_start(rest);
        assert(rest.skip(from) == text.skip(from + 1));
        assert forall|i: int| 0 <= i < from + 1 implies is_white_space(#[trigger] text[i]) by {
            if i > 0 {
                assert(text[i] == rest[i - 1]);
            }
        }
        from + 1
    } else {
        assert(text.skip(0) == text);
        0
    }
}

proof fn lemma_trimmed_end(text: Seq<char>) -> (to: int)
    ensures
        0 <= to <= text.len(),
        trimmed_end(text) == text.take(to),
        forall|i: int| to <= i < text.len() ==> is_white_space(#[trigger] text[i]),
        to > 0 ==> !is_white_space(text[to - 1]),
    decreases text.len(),
{
    if text.len() > 0 && is_white_space(text.last()) {
        let front = text.drop_last();
        let to = lemma_trimmed_end(front);
        assert(front.take(to) == text.take(to));
        assert forall|i: int| to <= i < text.len() implies is_white_space(#[trigger] text[i]) by {
            if i < front.len() {
                assert(text[i] == front[i]);
            }
        }
        to
    } else {
        assert(text.take(text.len() as int) == text);
        text.len() as int
    }
}

/// Trimming cuts a text down to one run of its characters: all that is cut off on either side is
/// white space, and what is left neither begins nor ends with white space.
pub proof fn trimming_cuts_white_space_only(text: Seq<char>)
    ensures
        exists|from: int, to: int|
            {
                &&& 0 <= from <= to <= text.len()
                &&& trimmed(text) == #[trigger] text.subrange(from, to)
                &&& forall|i: int|
                    (0 <= i < from || to <= i < text.len()) ==> is_white_space(#[trigger] text[i])
                &&& from < to ==> !is_white_space(text[from]) && !is_white_space(text[to - 1])
            },
{
    let from = lemma_trimmed_start(text);
    let rest = text.skip(from);
    let kept = lemma_trimmed_end(rest);
    let to = from + kept;
    assert(rest.take(kept) == text.subrange(from, to));
    assert forall|i: int| (0 <= i < from || to <= i < text.len()) implies is_white_space(
        #[trigger] text[i],
    ) by {
        if i >= to {
            assert(text[i] == rest[i - from]);
        }
    }
    if from < to {
        assert(rest[kept - 1] == text[to - 1]);
    }
    assert(trimmed(text) == text.subrange(from, to));
}

/// A line feed ends a line, and a carriage return right before it goes with it. What no line feed
/// ends is a line as it stands, and nothing is no line.
pub proof fn a_line_feed_ends_a_line(line: Seq<char>, rest: Seq<char>)
    requires
        forall|i: int| 0 <= i < line.len() ==> #[trigger] line[i] != '\n',
    ensures
        lines_of(line.push('\n') + rest) == seq![
            if line.len() > 0 && line.last() == '\r' {
                line.drop_last()
            } else {
                line
            },
        ] + lines_of(rest),
        line.len() > 0 ==> lines_of(line) == seq![line],
        lines_of(Seq::empty()) == Seq::<Seq<char>>::empty(),
{
    let text = line.push('\n') + rest;
    assert forall|j: int| 0 <= j < line.len() implies text[j] != '\n' by {
        assert(text[j] == line[j]);
    }
    assert(text[line.len() as int] == '\n');
    lemma_line_end(text, line.len());
    assert(text.take(line.len() as int) == line);
    assert(text.skip(line.len() as int + 1) == rest);
    lemma_line_end(line, line.len());
}

/// A number in digits is no digit too long and reads back as itself: it has no leading zero, and
/// the digits are worth the number.
pub proof fn digits_read_back_as_their_number(n: nat)
    ensures
        decimal_of(n).len() > 0,
        forall|i: int|
            0 <= i < decimal_of(n).len() ==> '0' <= #[trigger] decimal_of(n)[i] <= '9',
        n > 0 ==> decimal_of(n)[0] != '0',
        n == 0 ==> decimal_of(n) == seq!['0'],
        digits_value(decimal_of(n)) == Some(n),
    decreases n,
{
    if n >= 10 {
        let high = n / 10;
        digits_read_back_as_their_number(high);
        let digits = decimal_of(n);
        assert(digits.drop_last() == decimal_of(high));
        assert(digits[0] == decimal_of(high)[0]);
        assert forall|i: int| 0 <= i < digits.len() implies '0' <= #[trigger] digits[i]
            <= '9' by {
            if i < digits.len() - 1 {
                assert(digits[i] == decimal_of(high)[i]);
            }
        }
    }
}

/// A run of characters is worth a number exactly where it is not empty and holds digits only. One
/// digit is worth itself, and a digit behind others adds itself to ten times their worth.
pub proof fn digits_are_worth_their_places(digits: Seq<char>, c: char)
    ensures
        digits_value(digits) is Some <==> digits.len() > 0 && forall|i: int|
            0 <= i < digits.len() ==> '0' <= #[trigger] digits[i] <= '9',
        '0' <= c <= '9' ==> digits_value(seq![c]) == Some((c as nat - 48) as nat),
        '0' <= c <= '9' && digits_value(digits) is Some ==> digits_value(digits.push(c)) == Some(
            (10 * digits_value(digits)->0 + (c as nat - 48)) as nat,
        ),
    decreases digits.len(),
{
    assert(digits.push(c).drop_last() == digits);
    if digits.len() > 0 {
        let front = digits.drop_last();
        digits_are_worth_their_places(front, c);
        assert(forall|i: int| 0 <= i < front.len() ==> #[trigger] front[i] == digits[i]);
        assert(digits[digits.len() - 1] == digits.last());
        if digits_value(digits) is Some {
            assert forall|i: int| 0 <= i < digits.len() implies '0' <= #[trigger] digits[i]
                <= '9' by {
                if i < front.len() {
                    assert(front[i] == digits[i]);
                }
            }
        }
    }
}

/// The number in a text is the one that its digits write, with or without a plus sign in front,
/// as long as it fits; a text that is neither holds no number.
pub proof fn a_number_is_parsed_from_its_digits(n: nat, text: Seq<char>)
    ensures
        n <= usize::MAX ==> parsed_usize(decimal_of(n)) == Some(n as usize),
        n <= usize::MAX ==> parsed_usize(seq!['+'] + decimal_of(n)) == Some(n as usize),
        n > usize::MAX ==> parsed_usize(decimal_of(n)) is None,
        parsed_usize(text) matches Some(value) ==> {
            ||| digits_value(text) == Some(value as nat)
            ||| text[0] == '+' && digits_value(text.drop_first()) == Some(value as nat)
        },
        (digits_value(text) matches Some(value) && value <= usize::MAX) ==> parsed_usize(text)
            is Some,
        text.len() > 0 && text[0] == '+' && digits_value(text.drop_first()) is Some
            && digits_value(text.drop_first())->0 <= usize::MAX ==> parsed_usize(text) is Some,
{
    digits_read_back_as_their_number(n);
    let plain = decimal_of(n);
    assert(plain[0] != '+');
    let signed = seq!['+'] + plain;
    assert(signed.drop_first() == plain);
    if digits_value(text) is Some {
        digits_are_worth_their_places(text, '0');
        assert(text[0] != '+');
    }
}

/// What follows the last `c` of a text ends the text and holds no `c`, and a `c` stands right
/// before it unless it is the whole text.
pub proof fn nothing_after_the_last_is_lost(text: Seq<char>, c: char)
    ensures
        exists|from: int|
            {
                &&& 0 <= from <= text.len()
                &&& after_last(text, c) == #[trigger] text.skip(from)
                &&& forall|i: int| from <= i < text.len() ==> #[trigger] text[i] != c
                &&& from == 0 || text[from - 1] == c
            },
    decreases text.len(),
{
    if text.len() == 0 {
        assert(text.skip(0) == text);
    } else if text.last() == c {
        assert(text.skip(text.len() as int).len() == 0);
    } else {
        let front = text.drop_last();
        nothing_after_the_last_is_lost(front, c);
        let from = choose|from: int|
            {
                &&& 0 <= from <= front.len()
                &&& after_last(front, c) == #[trigger] front.skip(from)
                &&& forall|i: int| from <= i < front.len() ==> #[trigger] front[i] != c
                &&& from == 0 || front[from - 1] == c
            };
        lemma_last_position(front, c);
        assert(after_last(text, c) =~= text.skip(from)) by {
            match last_position(front, c) {
                Some(at) => {
                    assert(front.skip(at as int + 1).len() == front.skip(from).len());
                },
                None => {
                    assert(front.len() == front.skip(from).len());
                    assert(text.skip(0) == text);
                },
            }
        }
        assert forall|i: int| from <= i < text.len() implies #[trigger] text[i] != c by {
            if i < front.len() {
                assert(front[i] == text[i]);
            }
        }
    }
}

proof fn lemma_last_position(text: Seq<char>, c: char)
    ensures
        last_position(text, c) matches Some(at) ==> at < text.len(),
    decreases text.len(),
{
    if text.len() > 0 && text.last() != c {
        lemma_last_position(text.drop_last(), c);
    }
}

/// Each byte is written as two lowercase hexadecimal digits that are worth it, the high one
/// first, and nothing else is written.
pub proof fn hex_digits_are_worth_their_bytes(bytes: Seq<u8>, i: int)
    requires
        0 <= i < bytes.len(),
    ensures
        hex_of(bytes).len() == 2 * bytes.len(),
        ({
            let high = hex_of(bytes)[2 * i];
            let low = hex_of(bytes)[2 * i + 1];
            let worth = |c: char|
                if c <= '9' {
                    c as int - 48
                } else {
                    c as int - 87
                };
            &&& '0' <= high <= '9' || 'a' <= high <= 'f'
            &&& '0' <= low <= '9' || 'a' <= low <= 'f'
            &&& 16 * worth(high) + worth(low) == bytes[i]
        }),
{
    assert((2 * i) / 2 == i && (2 * i) % 2 == 0);
    assert((2 * i + 1) / 2 == i && (2 * i + 1) % 2 == 1);
}

/// Bytes that are written alike are alike.
pub proof fn hex_tells_bytes_apart(a: Seq<u8>, b: Seq<u8>)
    requires
        hex_of(a) == hex_of(b),
    ensures
        a == b,
{
    assert(hex_of(a).len() == 2 * a.len());
    assert(hex_of(b).len() == 2 * b.len());
    assert forall|i: int| 0 <= i < a.len() implies a[i] == b[i] by {
        hex_digits_are_worth_their_bytes(a, i);
        hex_digits_are_worth_their_bytes(b, i);
    }
    assert(a =~= b);
}

/// One text comes before another exactly where they agree up to some place at which it ends and
/// the other does not, or at which it has the lower character.
pub proof fn texts_are_ordered_where_they_first_differ(a: Seq<char>, b: Seq<char>)
    ensures
        before(a, b) <==> exists|k: int|
            {
                &&& 0 <= k <= a.len()
                &&& k < b.len()
                &&& #[trigger] a.take(k) == b.take(k)
                &&& k == a.len() || a[k] < b[k]
            },
    decreases a.len(),
{
    let splits = |k: int|
        {
            &&& 0 <= k <= a.len()
            &&& k < b.len()
            &&& a.take(k) == b.take(k)
            &&& k == a.len() || a[k] < b[k]
        };
    if a.len() > 0 && b.len() > 0 && a[0] == b[0] {
        let x = a.drop_first();
        let y = b.drop_first();
        texts_are_ordered_where_they_first_differ(x, y);
        if before(x, y) {
            let k = choose|k: int|
                {
                    &&& 0 <= k <= x.len()
                    &&& k < y.len()
                    &&& #[trigger] x.take(k) == y.take(k)
                    &&& k == x.len() || x[k] < y[k]
                };
            assert(a.take(k + 1) == seq![a[0]] + x.take(k));
            assert(b.take(k + 1) == seq![b[0]] + y.take(k));
            assert(splits(k + 1));
        }
        if exists|k: int| #[trigger] splits(k) {
            let k = choose|k: int| #[trigger] splits(k);
            assert(k > 0);
            assert(a.take(k).drop_first() == x.take(k - 1));
            assert(b.take(k).drop_first() == y.take(k - 1));
            assert(x.take(k - 1) == y.take(k - 1));
        }
        assert(before(a, b) <==> exists|k: int| #[trigger] splits(k));
    } else {
        if before(a, b) {
            assert(a.take(0) == b.take(0));
            assert(splits(0));
        }
        if exists|k: int| #[trigger] splits(k) {
            let k = choose|k: int| #[trigger] splits(k);
            if k > 0 {
                assert(a.take(k)[0] == a[0]);
                assert(b.take(k)[0] == b[0]);
            }
        }
    }
    assert forall|k: int|
        {
            &&& 0 <= k <= a.len()
            &&& k < b.len()
            &&& #[trigger] a.take(k) == b.take(k)
            &&& k == a.len() || a[k] < b[k]
        } implies splits(k) by {}
    if exists|k: int| #[trigger] splits(k) {
        let k = choose|k: int| #[trigger] splits(k);
        assert(a.take(k) == b.take(k));
    }
}

/// The texts of a list are what its strings say, one for each, in order.
pub proof fn a_list_says_what_its_strings_say(list: Seq<String>)
    ensures
        texts(list).len() == list.len(),
        forall|i: int| 0 <= i < list.len() ==> #[trigger] texts(list)[i] == list[i]@,
{
}

} // verus!
