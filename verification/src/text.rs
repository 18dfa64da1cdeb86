//! Text as sequences of characters: lines, trimming, splitting, decimal
//! numbers.

use vstd::prelude::*;

verus! {

/// The characters of a string.
pub fn chars_of(s: &str) -> (chars: Vec<char>)
    ensures
        chars@ == s@,
{
    let mut chars: Vec<char> = Vec::new();
    for c in it: s.chars()
        invariant
            it.seq() == s@,
            chars@ == s@.take(it.index() as int),
    {
        chars.push(c);
        proof {
            assert(s@.take(it.index() + 1) =~= s@.take(it.index() as int).push(c));
        }
    }
    proof {
        assert(s@.take(s@.len() as int) =~= s@);
    }
    chars
}

/// `String::from_iter` on characters: the string that consists of them.
#[verifier::external_body]
fn std_string_from_chars(chars: &Vec<char>) -> (s: String)
    ensures
        s@ == chars@,
{
    String::from_iter(chars)
}

/// The string that consists of some characters.
pub fn string_of(chars: &Vec<char>) -> (s: String)
    ensures
        s@ == chars@,
{
    std_string_from_chars(chars)
}

/// Where a character first occurs, or the length.
pub open spec fn find(s: Seq<char>, c: char) -> nat
    decreases s.len(),
{
    if s.len() == 0 || s[0] == c {
        0
    } else {
        1 + find(s.skip(1), c)
    }
}

/// The place of the first occurrence is the one that has none before it.
pub proof fn lemma_find(s: Seq<char>, c: char, at: nat)
    requires
        at <= s.len(),
        forall|k: int| 0 <= k < at ==> s[k] != c,
        at < s.len() ==> s[at as int] == c,
    ensures
        find(s, c) == at,
    decreases at,
{
    if at > 0 {
        lemma_find(s.skip(1), c, (at - 1) as nat);
    }
}

/// A character does not occur before its first occurrence.
pub proof fn lemma_find_first(s: Seq<char>, c: char)
    ensures
        find(s, c) <= s.len(),
        forall|k: int| 0 <= k < find(s, c) ==> s[k] != c,
        find(s, c) < s.len() ==> s[find(s, c) as int] == c,
    decreases s.len(),
{
    if s.len() > 0 && s[0] != c {
        lemma_find_first(s.skip(1), c);
        assert forall|k: int| 0 <= k < find(s, c) implies s[k] != c by {
            if k > 0 {
                assert(s.skip(1)[k - 1] == s[k]);
            }
        }
    }
}

/// Some characters of a text.
pub fn slice(s: &Vec<char>, from: usize, to: usize) -> (part: Vec<char>)
    requires
        from <= to <= s@.len(),
    ensures
        part@ == s@.subrange(from as int, to as int),
{
    let mut part: Vec<char> = Vec::new();
    let mut i: usize = from;
    while i < to
        invariant
            from <= i <= to <= s@.len(),
            part@ == s@.subrange(from as int, i as int),
        decreases to - i,
    {
        part.push(s[i]);
        proof {
            assert(s@.subrange(from as int, i + 1) =~= s@.subrange(from as int, i as int).push(
                s@[i as int],
            ));
        }
        i = i + 1;
    }
    part
}

/// Where a character first occurs from some place on, or the length.
fn find_from(s: &Vec<char>, c: char, from: usize) -> (at: usize)
    requires
        from <= s@.len(),
    ensures
        from <= at <= s@.len(),
        at == from + find(s@.skip(from as int), c),
{
    let mut i: usize = from;
    while i < s.len()
        invariant
            from <= i <= s@.len(),
            forall|k: int| from <= k < i ==> s@[k] != c,
        decreases s@.len() - i,
    {
        if s[i] == c {
            proof {
                lemma_find(s@.skip(from as int), c, (i - from) as nat);
            }
            return i;
        }
        i = i + 1;
    }
    proof {
        lemma_find(s@.skip(from as int), c, (i - from) as nat);
    }
    i
}

/// Whether two texts are the same.
pub fn same_text(a: &Vec<char>, b: &Vec<char>) -> (same: bool)
    ensures
        same == (a@ == b@),
{
    if a.len() != b.len() {
        return false;
    }
    let mut i: usize = 0;
    while i < a.len()
        invariant
            i <= a@.len(),
            a@.len() == b@.len(),
            forall|k: int| 0 <= k < i ==> a@[k] == b@[k],
        decreases a@.len() - i,
    {
        if a[i] != b[i] {
            return false;
        }
        i = i + 1;
    }
    proof {
        assert(a@ =~= b@);
    }
    true
}

/// Whether a text starts with another one.
pub fn has_prefix(s: &Vec<char>, prefix: &Vec<char>) -> (starts: bool)
    ensures
        starts == prefix@.is_prefix_of(s@),
{
    if prefix.len() > s.len() {
        return false;
    }
    let start: Vec<char> = slice(s, 0, prefix.len());
    proof {
        assert(prefix@.is_prefix_of(s@) == (start@ == prefix@));
    }
    same_text(&start, prefix)
}

/// A line without the carriage return that ends it, if one does.
pub open spec fn without_return(s: Seq<char>) -> Seq<char> {
    if s.len() > 0 && s.last() == '\r' {
        s.drop_last()
    } else {
        s
    }
}

/// The lines of a text. A line ends in a newline, or in a carriage return and
/// a newline; the ending of the last line is optional.
pub open spec fn lines_of(s: Seq<char>) -> Seq<Seq<char>>
    decreases s.len(),
{
    let at = find(s, '\n');
    if s.len() == 0 {
        Seq::empty()
    } else if at >= s.len() {
        seq![s]
    } else {
        seq![without_return(s.take(at as int))] + lines_of(s.skip(at as int + 1))
    }
}

/// The texts of a list.
pub open spec fn texts(list: Seq<Vec<char>>) -> Seq<Seq<char>> {
    Seq::new(list.len(), |i: int| list[i]@)
}

/// The texts of a list of strings.
pub open spec fn strings(list: Seq<String>) -> Seq<Seq<char>> {
    Seq::new(list.len(), |i: int| list[i]@)
}

/// The lines of a text.
pub fn lines(s: &Vec<char>) -> (list: Vec<Vec<char>>)
    ensures
        texts(list@) == lines_of(s@),
{
    let mut list: Vec<Vec<char>> = Vec::new();
    let mut from: usize = 0;
    proof {
        assert(s@.skip(0) =~= s@);
        assert(texts(list@) + lines_of(s@.skip(0)) =~= lines_of(s@));
    }
    while from < s.len()
        invariant
            from <= s@.len(),
            texts(list@) + lines_of(s@.skip(from as int)) == lines_of(s@),
        decreases s@.len() - from,
    {
        let ghost before = texts(list@);
        let ghost rest = s@.skip(from as int);
        let at: usize = find_from(s, '\n', from);
        if at >= s.len() {
            let line: Vec<char> = slice(s, from, s.len());
            proof {
                assert(line@ =~= rest);
            }
            list.push(line);
            proof {
                assert(texts(list@) =~= before.push(rest));
                assert(before + lines_of(rest) =~= texts(list@));
                assert(s@.skip(s@.len() as int).len() == 0);
                assert(texts(list@) + lines_of(s@.skip(s@.len() as int)) =~= texts(list@));
            }
            from = s.len();
        } else {
            let end: usize = if at > from && s[at - 1] == '\r' {
                at - 1
            } else {
                at
            };
            let line: Vec<char> = slice(s, from, end);
            proof {
                let whole = rest.take(at - from);
                assert(whole =~= s@.subrange(from as int, at as int));
                assert(line@ =~= without_return(whole));
                assert(rest.skip(at - from + 1) =~= s@.skip(at + 1));
            }
            list.push(line);
            proof {
                assert(texts(list@) =~= before.push(line@));
                assert(before + lines_of(rest) =~= texts(list@) + lines_of(s@.skip(at + 1)));
            }
            from = at + 1;
        }
    }
    proof {
        assert(s@.skip(from as int).len() == 0);
        assert(texts(list@) =~= texts(list@) + lines_of(s@.skip(from as int)));
    }
    list
}

/// Lines, each with a newline behind it.
pub open spec fn written(lines: Seq<Seq<char>>) -> Seq<char>
    decreases lines.len(),
{
    if lines.len() == 0 {
        Seq::empty()
    } else {
        lines[0].push('\n') + written(lines.skip(1))
    }
}

/// One more line is written behind the others.
pub proof fn lemma_written_push(lines: Seq<Seq<char>>, line: Seq<char>)
    ensures
        written(lines.push(line)) == written(lines) + line.push('\n'),
    decreases lines.len(),
{
    let all = lines.push(line);
    if lines.len() == 0 {
        reveal_with_fuel(written, 2);
        assert(written(all) =~= line.push('\n'));
        assert(written(lines) + line.push('\n') =~= line.push('\n'));
    } else {
        assert(all.skip(1) =~= lines.skip(1).push(line));
        lemma_written_push(lines.skip(1), line);
        assert(written(all) =~= written(lines) + line.push('\n'));
    }
}

/// A line without a newline, and with no white space around it.
pub open spec fn is_tight(line: Seq<char>) -> bool {
    &&& line.len() > 0
    &&& !is_space(line[0])
    &&& !is_space(line.last())
    &&& forall|k: int| 0 <= k < line.len() ==> line[k] != '\n'
}

/// Written lines are read back.
pub proof fn lemma_lines_written(lines: Seq<Seq<char>>)
    requires
        forall|i: int| 0 <= i < lines.len() ==> is_tight(#[trigger] lines[i]),
    ensures
        lines_of(written(lines)) == lines,
    decreases lines.len(),
{
    if lines.len() > 0 {
        let s = written(lines);
        let rest = lines.skip(1);
        assert(is_tight(lines[0]));
        assert forall|i: int| 0 <= i < rest.len() implies is_tight(#[trigger] rest[i]) by {
            assert(rest[i] == lines[i + 1]);
        }
        lemma_lines_written(rest);
        let at = lines[0].len();
        assert(forall|k: int| 0 <= k < at ==> s[k] == lines[0][k]);
        assert(s[at as int] == '\n');
        lemma_find(s, '\n', at);
        assert(s.take(at as int) =~= lines[0]);
        assert(s.skip(at as int + 1) =~= written(rest));
        assert(lines_of(s) =~= seq![lines[0]] + rest);
        assert(seq![lines[0]] + rest =~= lines);
    }
}

/// Trimming leaves a tight line alone.
pub proof fn lemma_trim_tight(line: Seq<char>)
    requires
        is_tight(line),
    ensures
        trim_of(line) == line,
{
}

/// The pieces of a text between the occurrences of a character.
pub open spec fn split_of(s: Seq<char>, c: char) -> Seq<Seq<char>>
    decreases s.len(),
{
    let at = find(s, c);
    if at >= s.len() {
        seq![s]
    } else {
        seq![s.take(at as int)] + split_of(s.skip(at as int + 1), c)
    }
}

/// The pieces of a text between the occurrences of a character.
pub fn split(s: &Vec<char>, c: char) -> (list: Vec<Vec<char>>)
    ensures
        texts(list@) == split_of(s@, c),
{
    let mut list: Vec<Vec<char>> = Vec::new();
    let mut from: usize = 0;
    proof {
        assert(s@.skip(0) =~= s@);
        assert(texts(list@) + split_of(s@.skip(0), c) =~= split_of(s@, c));
    }
    loop
        invariant
            from <= s@.len(),
            texts(list@) + split_of(s@.skip(from as int), c) == split_of(s@, c),
        decreases s@.len() - from,
    {
        let ghost before = texts(list@);
        let ghost rest = s@.skip(from as int);
        let at: usize = find_from(s, c, from);
        let piece: Vec<char> = slice(s, from, at);
        proof {
            assert(piece@ =~= rest.take(at - from));
        }
        list.push(piece);
        if at >= s.len() {
            proof {
                assert(piece@ =~= rest);
                assert(texts(list@) =~= before.push(rest));
                assert(before + split_of(rest, c) =~= texts(list@));
            }
            return list;
        }
        proof {
            assert(rest.skip(at - from + 1) =~= s@.skip(at + 1));
            assert(texts(list@) =~= before.push(piece@));
            assert(before + split_of(rest, c) =~= texts(list@) + split_of(s@.skip(at + 1), c));
        }
        from = at + 1;
    }
}

/// What stands before and after the first occurrence of a character.
pub open spec fn split_once_of(s: Seq<char>, c: char) -> Option<(Seq<char>, Seq<char>)> {
    let at = find(s, c);
    if at >= s.len() {
        None
    } else {
        Some((s.take(at as int), s.skip(at as int + 1)))
    }
}

/// What stands before and after the first occurrence of a character.
pub fn split_once(s: &Vec<char>, c: char) -> (parts: Option<(Vec<char>, Vec<char>)>)
    ensures
        match parts {
            Some((a, b)) => split_once_of(s@, c) == Some((a@, b@)),
            None => split_once_of(s@, c) is None,
        },
{
    let at: usize = find_from(s, c, 0);
    proof {
        assert(s@.skip(0) =~= s@);
    }
    if at >= s.len() {
        return None;
    }
    let a: Vec<char> = slice(s, 0, at);
    let b: Vec<char> = slice(s, at + 1, s.len());
    proof {
        assert(a@ =~= s@.take(at as int));
        assert(b@ =~= s@.skip(at + 1));
    }
    Some((a, b))
}

/// The characters with the Unicode property `White_Space`.
pub open spec fn is_space(c: char) -> bool {
    ||| '\t' <= c && c <= '\r'
    ||| c == ' '
    ||| c == '\u{85}'
    ||| c == '\u{a0}'
    ||| c == '\u{1680}'
    ||| '\u{2000}' <= c && c <= '\u{200a}'
    ||| c == '\u{2028}'
    ||| c == '\u{2029}'
    ||| c == '\u{202f}'
    ||| c == '\u{205f}'
    ||| c == '\u{3000}'
}

/// Whether a character is white space.
pub fn is_white(c: char) -> (white: bool)
    ensures
        white == is_space(c),
{
    ('\t' <= c && c <= '\r') || c == ' ' || c == '\u{85}' || c == '\u{a0}' || c == '\u{1680}' || (
    '\u{2000}' <= c && c <= '\u{200a}') || c == '\u{2028}' || c == '\u{2029}' || c == '\u{202f}' || c
        == '\u{205f}' || c == '\u{3000}'
}

/// A text without the white space at its start.
pub open spec fn trim_start_of(s: Seq<char>) -> Seq<char>
    decreases s.len(),
{
    if s.len() > 0 && is_space(s[0]) {
        trim_start_of(s.skip(1))
    } else {
        s
    }
}

/// A text without the white space at its end.
pub open spec fn trim_end_of(s: Seq<char>) -> Seq<char>
    decreases s.len(),
{
    if s.len() > 0 && is_space(s.last()) {
        trim_end_of(s.drop_last())
    } else {
        s
    }
}

/// A text without the white space around it.
pub open spec fn trim_of(s: Seq<char>) -> Seq<char> {
    trim_end_of(trim_start_of(s))
}

/// A text without the white space around it.
pub fn trim(s: &Vec<char>) -> (trimmed: Vec<char>)
    ensures
        trimmed@ == trim_of(s@),
{
    let mut from: usize = 0;
    proof {
        assert(s@.skip(0) =~= s@);
    }
    while from < s.len() && is_white(s[from])
        invariant
            from <= s@.len(),
            trim_start_of(s@) == trim_start_of(s@.skip(from as int)),
        decreases s@.len() - from,
    {
        proof {
            assert(s@.skip(from as int).skip(1) =~= s@.skip(from + 1));
        }
        from = from + 1;
    }
    let ghost started = s@.skip(from as int);
    let mut to: usize = s.len();
    proof {
        assert(s@.subrange(from as int, to as int) =~= started);
        assert(trim_start_of(s@) == started);
    }
    while to > from && is_white(s[to - 1])
        invariant
            from <= to <= s@.len(),
            trim_end_of(started) == trim_end_of(s@.subrange(from as int, to as int)),
        decreases to,
    {
        proof {
            assert(s@.subrange(from as int, to as int).drop_last() =~= s@.subrange(
                from as int,
                to - 1,
            ));
        }
        to = to - 1;
    }
    slice(s, from, to)
}

/// A line that says nothing: blank, or a comment.
pub open spec fn is_remark(line: Seq<char>) -> bool {
    line.len() == 0 || line[0] == '#'
}

/// Whether a line says nothing.
pub fn remark(line: &Vec<char>) -> (says_nothing: bool)
    ensures
        says_nothing == is_remark(line@),
{
    line.len() == 0 || line[0] == '#'
}

/// A line that gives a key a value.
pub open spec fn field_line(field: (Seq<char>, Seq<char>)) -> Seq<char> {
    field.0 + "="@ + field.1
}

/// The line of a plain field is read back as it.
pub proof fn lemma_field_line(field: (Seq<char>, Seq<char>))
    requires
        field.0.len() > 0,
        field.0[0] != '#',
        forall|k: int| 0 <= k < field.0.len() ==> field.0[k] != '=',
    ensures
        !is_remark(field_line(field)),
        split_once_of(field_line(field), '=') == Some(field),
{
    reveal_strlit("=");
    let line = field_line(field);
    let at = field.0.len();
    assert(forall|k: int| 0 <= k < at ==> line[k] == field.0[k]);
    assert(line[at as int] == '=');
    lemma_find(line, '=', at);
    assert(line.take(at as int) =~= field.0);
    assert(line.skip(at as int + 1) =~= field.1);
}

/// The character of a decimal digit.
pub open spec fn digit_char(d: nat) -> char {
    (48 + d) as char
}

/// A number in decimal.
pub open spec fn decimal(n: nat) -> Seq<char>
    decreases n,
{
    if n < 10 {
        seq![digit_char(n)]
    } else {
        decimal(n / 10).push(digit_char(n % 10))
    }
}

/// A number in decimal.
pub fn to_decimal(n: u128) -> (chars: Vec<char>)
    ensures
        chars@ == decimal(n as nat),
    decreases n,
{
    let digit: char = ((n % 10) as u8 + 48) as char;
    if n < 10 {
        let chars: Vec<char> = vec![digit];
        proof {
            assert(chars@ =~= decimal(n as nat));
        }
        chars
    } else {
        let mut chars: Vec<char> = to_decimal(n / 10);
        chars.push(digit);
        chars
    }
}

/// Why a text is not a number.
#[derive(Clone, Copy, Debug, PartialEq, Eq, Structural)]
pub enum IntFault {
    /// There is no character.
    Empty,
    /// A character is not a digit.
    InvalidDigit,
    /// The number is too large.
    PosOverflow,
}

/// The number that the first `n` digits spell, or the first fault.
pub open spec fn digits_value(s: Seq<char>, n: nat, max: nat) -> Result<nat, IntFault>
    decreases n,
{
    if n == 0 {
        Ok(0)
    } else {
        match digits_value(s, (n - 1) as nat, max) {
            Err(e) => Err(e),
            Ok(v) => {
                let c = s[n - 1];
                if !('0' <= c && c <= '9') {
                    Err(IntFault::InvalidDigit)
                } else if v * 10 + (c as nat - 48) > max {
                    Err(IntFault::PosOverflow)
                } else {
                    Ok((v * 10 + (c as nat - 48)) as nat)
                }
            },
        }
    }
}

/// The number that a text spells: an optional plus sign, and then decimal
/// digits.
pub open spec fn parsed_int(s: Seq<char>, max: nat) -> Result<nat, IntFault> {
    if s.len() == 0 {
        Err(IntFault::Empty)
    } else if s.len() == 1 && s[0] == '+' {
        Err(IntFault::InvalidDigit)
    } else if s[0] == '+' {
        digits_value(s.skip(1), (s.len() - 1) as nat, max)
    } else {
        digits_value(s, s.len(), max)
    }
}

/// A fault stays the first one.
proof fn lemma_fault_stays(s: Seq<char>, m: nat, n: nat, max: nat)
    requires
        m <= n,
        digits_value(s, m, max) is Err,
    ensures
        digits_value(s, n, max) == digits_value(s, m, max),
    decreases n,
{
    if m < n {
        lemma_fault_stays(s, m, (n - 1) as nat, max);
    }
}

/// The number that a text spells.
pub fn parse_int(s: &Vec<char>, max: u64) -> (number: Result<u64, IntFault>)
    ensures
        match number {
            Ok(n) => parsed_int(s@, max as nat) == Ok::<nat, IntFault>(n as nat),
            Err(e) => parsed_int(s@, max as nat) == Err::<nat, IntFault>(e),
        },
{
    if s.len() == 0 {
        return Err(IntFault::Empty);
    }
    if s.len() == 1 && s[0] == '+' {
        return Err(IntFault::InvalidDigit);
    }
    let from: usize = if s[0] == '+' {
        1
    } else {
        0
    };
    let ghost digits = s@.skip(from as int);
    proof {
        assert(from == 0 ==> digits =~= s@);
    }
    let mut value: u64 = 0;
    let mut i: usize = from;
    while i < s.len()
        invariant
            from <= i <= s@.len(),
            digits == s@.skip(from as int),
            digits_value(digits, digits.len(), max as nat) == parsed_int(s@, max as nat),
            digits_value(digits, (i - from) as nat, max as nat) == Ok::<nat, IntFault>(
                value as nat,
            ),
        decreases s@.len() - i,
    {
        let c: char = s[i];
        let ghost next = (i - from + 1) as nat;
        proof {
            assert(digits[i - from] == c);
        }
        if !('0' <= c && c <= '9') {
            proof {
                lemma_fault_stays(digits, next, digits.len(), max as nat);
            }
            return Err(IntFault::InvalidDigit);
        }
        let d: u64 = c as u64 - 48;
        let wide: u128 = value as u128 * 10 + d as u128;
        if wide > max as u128 {
            proof {
                lemma_fault_stays(digits, next, digits.len(), max as nat);
            }
            return Err(IntFault::PosOverflow);
        }
        value = wide as u64;
        i = i + 1;
    }
    Ok(value)
}

/// The digits behind do not matter.
proof fn lemma_digits_same(s: Seq<char>, t: Seq<char>, n: nat, max: nat)
    requires
        n <= s.len(),
        n <= t.len(),
        forall|k: int| 0 <= k < n ==> s[k] == t[k],
    ensures
        digits_value(s, n, max) == digits_value(t, n, max),
    decreases n,
{
    if n > 0 {
        lemma_digits_same(s, t, (n - 1) as nat, max);
    }
}

proof fn lemma_decimal_digits(n: nat, max: nat)
    requires
        n <= max,
    ensures
        decimal(n).len() > 0,
        forall|k: int| 0 <= k < decimal(n).len() ==> '0' <= #[trigger] decimal(n)[k] <= '9',
        digits_value(decimal(n), decimal(n).len(), max) == Ok::<nat, IntFault>(n),
    decreases n,
{
    let s = decimal(n);
    if n < 10 {
        reveal_with_fuel(digits_value, 2);
    } else {
        let t = decimal(n / 10);
        lemma_decimal_digits(n / 10, max);
        lemma_digits_same(s, t, t.len(), max);
        assert(s.last() == digit_char(n % 10));
        assert(s.drop_last() =~= t);
        assert(s.len() == t.len() + 1);
    }
}

/// **Decimal numbers round-trip.** A number that is written in decimal, in
/// digits alone, is read back.
pub proof fn lemma_decimal_roundtrip(n: nat, max: nat)
    requires
        n <= max,
    ensures
        decimal(n).len() > 0,
        forall|k: int| 0 <= k < decimal(n).len() ==> '0' <= #[trigger] decimal(n)[k] <= '9',
        parsed_int(decimal(n), max) == Ok::<nat, IntFault>(n),
{
    lemma_decimal_digits(n, max);
    assert('0' <= decimal(n)[0] <= '9');
}

/// Keys with different numbers differ.
pub proof fn lemma_numbers_differ(name: Seq<char>, i: nat, j: nat)
    requires
        i != j,
    ensures
        name + decimal(i) != name + decimal(j),
{
    let max = i + j;
    lemma_decimal_roundtrip(i, max);
    lemma_decimal_roundtrip(j, max);
    if name + decimal(i) == name + decimal(j) {
        assert((name + decimal(i)).skip(name.len() as int) =~= decimal(i));
        assert((name + decimal(j)).skip(name.len() as int) =~= decimal(j));
    }
}

/// What a number fault is called.
pub open spec fn int_fault_text(e: IntFault) -> Seq<char> {
    match e {
        IntFault::Empty => "cannot parse integer from empty string"@,
        IntFault::InvalidDigit => "invalid digit found in string"@,
        IntFault::PosOverflow => "number too large to fit in target type"@,
    }
}

/// What a number fault is called.
pub fn int_fault_name(e: IntFault) -> (text: &'static str)
    ensures
        text@ == int_fault_text(e),
{
    match e {
        IntFault::Empty => "cannot parse integer from empty string",
        IntFault::InvalidDigit => "invalid digit found in string",
        IntFault::PosOverflow => "number too large to fit in target type",
    }
}

/// Appends a text.
pub fn append_text(out: &mut Vec<char>, more: &Vec<char>)
    ensures
        final(out)@ == old(out)@ + more@,
{
    let mut i: usize = 0;
    proof {
        assert(out@ =~= old(out)@ + more@.take(0));
    }
    while i < more.len()
        invariant
            i <= more@.len(),
            out@ == old(out)@ + more@.take(i as int),
        decreases more@.len() - i,
    {
        out.push(more[i]);
        proof {
            assert(out@ =~= old(out)@ + more@.take(i + 1));
        }
        i = i + 1;
    }
    proof {
        assert(more@.take(more@.len() as int) =~= more@);
    }
}

/// Appends a string.
pub fn append_str(out: &mut Vec<char>, more: &str)
    ensures
        final(out)@ == old(out)@ + more@,
{
    let chars: Vec<char> = chars_of(more);
    append_text(out, &chars);
}

/// A string and a text, one after the other.
pub fn labelled(a: &str, b: &Vec<char>) -> (text: String)
    ensures
        text@ == a@ + b@,
{
    let mut out: Vec<char> = chars_of(a);
    append_text(&mut out, b);
    string_of(&out)
}

/// A string, a text and a string, one after the other.
pub fn message(a: &str, b: &Vec<char>, c: &str) -> (text: String)
    ensures
        text@ == a@ + b@ + c@,
{
    let mut out: Vec<char> = chars_of(a);
    append_text(&mut out, b);
    append_str(&mut out, c);
    string_of(&out)
}

} // verus!
