//! Laws of texts: lines, pieces, white space and numbers.

use crate::text::{
    decimal, digits_value, find, is_space, lemma_find, lines, lines_of, parse_int, split, split_of,
    split_once, texts, to_decimal, trim, trim_end_of, trim_of, trim_start_of, IntFault,
};
use vstd::prelude::*;

verus! {

/// A character does not occur in a text.
pub open spec fn lacks(s: Seq<char>, c: char) -> bool {
    forall|i: int| 0 <= i < s.len() ==> #[trigger] s[i] != c
}

pub(crate) proof fn lemma_found(s: Seq<char>, c: char)
    ensures
        find(s, c) <= s.len(),
        lacks(s.take(find(s, c) as int), c),
        find(s, c) < s.len() ==> s[find(s, c) as int] == c,
    decreases s.len(),
{
    if s.len() > 0 && s[0] != c {
        lemma_found(s.skip(1), c);
        let at = find(s, c) as int;
        assert forall|i: int| 0 <= i < at implies #[trigger] s.take(at)[i] != c by {
            if i > 0 {
                assert(s.skip(1).take(at - 1)[i - 1] == s[i]);
            }
        }
    }
}

/// What is before the first occurrence of a character.
proof fn lemma_first(a: Seq<char>, c: char, b: Seq<char>)
    requires
        lacks(a, c),
    ensures
        find(a.push(c) + b, c) == a.len(),
        (a.push(c) + b).take(a.len() as int) == a,
        (a.push(c) + b).skip(a.len() as int + 1) == b,
        find(a, c) == a.len(),
{
    let s = a.push(c) + b;
    assert forall|k: int| 0 <= k < a.len() implies s[k] != c by {
        assert(s[k] == a[k]);
    }
    lemma_find(s, c, a.len());
    lemma_find(a, c, a.len());
    assert(s.take(a.len() as int) =~= a);
    assert(s.skip(a.len() as int + 1) =~= b);
}

/// **Lines.** A text without a newline is its only line, if it is not empty;
/// any other begins with the line before its first newline, less one carriage
/// return at its end, and goes on with the lines of what follows.
pub proof fn lemma_lines(
    s: &Vec<char>,
    all: Vec<Vec<char>>,
    first: Seq<char>,
    rest: &Vec<char>,
    others: Vec<Vec<char>>,
)
    requires
        call_ensures(lines, (s,), all),
        call_ensures(lines, (rest,), others),
        lacks(first, '\n'),
        s@ == first || s@ == first.push('\n') + rest@,
    ensures
        s@.len() == 0 ==> all@.len() == 0,
        s@ == first && s@.len() > 0 ==> all@.len() == 1 && all@[0]@ == s@,
        s@ == first.push('\n') + rest@ ==> {
            &&& all@.len() == 1 + others@.len()
            &&& first.len() > 0 && first.last() == '\r' ==> all@[0]@ == first.drop_last()
            &&& !(first.len() > 0 && first.last() == '\r') ==> all@[0]@ == first
            &&& forall|i: int|
                0 <= i < others@.len() ==> all@[i + 1]@ == (#[trigger] others@[i])@
        },
{
    lemma_first(first, '\n', rest@);
    let got = lines_of(s@);
    assert(texts(all@) == got);
    assert forall|i: int| 0 <= i < all@.len() implies (#[trigger] all@[i])@ == got[i] by {
        assert(texts(all@)[i] == all@[i]@);
    }
    assert(got.len() == all@.len());
    let tail = lines_of(rest@);
    assert(tail.len() == others@.len()) by {
        assert(texts(others@) == tail);
    }
    assert forall|i: int| 0 <= i < others@.len() implies (#[trigger] others@[i])@ == tail[i] by {
        assert(texts(others@)[i] == others@[i]@);
    }
}

/// Pieces with a character between any two of them.
pub open spec fn joined(pieces: Seq<Seq<char>>, c: char) -> Seq<char>
    decreases pieces.len(),
{
    if pieces.len() == 0 {
        Seq::empty()
    } else if pieces.len() == 1 {
        pieces[0]
    } else {
        pieces[0].push(c) + joined(pieces.skip(1), c)
    }
}

/// The pieces of a text lack the character, and are the text when joined.
pub(crate) proof fn lemma_pieces(s: Seq<char>, c: char)
    ensures
        split_of(s, c).len() > 0,
        joined(split_of(s, c), c) == s,
        forall|i: int| 0 <= i < split_of(s, c).len() ==> lacks(#[trigger] split_of(s, c)[i], c),
    decreases s.len(),
{
    lemma_found(s, c);
    let at = find(s, c) as int;
    let pieces = split_of(s, c);
    if at < s.len() {
        let rest = s.skip(at + 1);
        lemma_pieces(rest, c);
        assert(pieces.skip(1) =~= split_of(rest, c));
        assert(joined(pieces, c) =~= s);
        assert forall|i: int| 0 <= i < pieces.len() implies lacks(#[trigger] pieces[i], c) by {
            if i > 0 {
                assert(pieces[i] == split_of(rest, c)[i - 1]);
            }
        }
    } else {
        assert(s.take(at) =~= s);
    }
}

/// Pieces that lack the character are those of their joining.
pub(crate) proof fn lemma_unjoined(pieces: Seq<Seq<char>>, c: char)
    requires
        pieces.len() > 0,
        forall|i: int| 0 <= i < pieces.len() ==> lacks(#[trigger] pieces[i], c),
    ensures
        split_of(joined(pieces, c), c) == pieces,
    decreases pieces.len(),
{
    if pieces.len() == 1 {
        lemma_first(pieces[0], c, Seq::empty());
        assert(split_of(joined(pieces, c), c) =~= pieces);
    } else {
        let rest = pieces.skip(1);
        assert forall|i: int| 0 <= i < rest.len() implies lacks(#[trigger] rest[i], c) by {
            assert(rest[i] == pieces[i + 1]);
        }
        lemma_unjoined(rest, c);
        lemma_first(pieces[0], c, joined(rest, c));
        assert(split_of(joined(pieces, c), c) =~= pieces);
    }
}

/// **Splitting.** A text's pieces are the only ones without the character that
/// are the text when they are joined by it.
pub proof fn lemma_split(s: &Vec<char>, c: char, list: Vec<Vec<char>>, pieces: Seq<Seq<char>>)
    requires
        call_ensures(split, (s, c), list),
    ensures
        list@.len() > 0,
        joined(texts(list@), c) == s@,
        forall|i: int| 0 <= i < list@.len() ==> lacks((#[trigger] list@[i])@, c),
        pieces.len() > 0 && joined(pieces, c) == s@ && (forall|i: int|
            0 <= i < pieces.len() ==> lacks(#[trigger] pieces[i], c)) ==> texts(list@) == pieces,
{
    lemma_pieces(s@, c);
    assert forall|i: int| 0 <= i < list@.len() implies lacks((#[trigger] list@[i])@, c) by {
        assert(texts(list@)[i] == list@[i]@);
    }
    if pieces.len() > 0 && joined(pieces, c) == s@ && (forall|i: int|
        0 <= i < pieces.len() ==> lacks(#[trigger] pieces[i], c)) {
        lemma_unjoined(pieces, c);
    }
}

/// **Splitting once.** A text with the character is parted at its first
/// occurrence; one without is not.
pub proof fn lemma_split_once(s: &Vec<char>, c: char, parts: Option<(Vec<char>, Vec<char>)>)
    requires
        call_ensures(split_once, (s, c), parts),
    ensures
        parts is None <==> lacks(s@, c),
        parts matches Some((a, b)) ==> lacks(a@, c) && s@ == a@.push(c) + b@,
{
    lemma_found(s@, c);
    let at = find(s@, c) as int;
    if at < s@.len() {
        assert(s@ =~= s@.take(at).push(c) + s@.skip(at + 1));
    } else {
        assert(s@.take(at) =~= s@);
    }
}

/// A text of white space alone.
pub open spec fn blank(s: Seq<char>) -> bool {
    forall|i: int| 0 <= i < s.len() ==> is_space(#[trigger] s[i])
}

proof fn lemma_start_trimmed(s: Seq<char>) -> (before: Seq<char>)
    ensures
        blank(before),
        s == before + trim_start_of(s),
        trim_start_of(s).len() > 0 ==> !is_space(trim_start_of(s)[0]),
    decreases s.len(),
{
    if s.len() > 0 && is_space(s[0]) {
        let inner = lemma_start_trimmed(s.skip(1));
        let before = seq![s[0]] + inner;
        assert(s =~= seq![s[0]] + s.skip(1));
        assert(seq![s[0]] + (inner + trim_start_of(s)) =~= before + trim_start_of(s));
        before
    } else {
        assert(s =~= Seq::empty() + s);
        Seq::empty()
    }
}

proof fn lemma_end_trimmed(s: Seq<char>) -> (after: Seq<char>)
    ensures
        blank(after),
        s == trim_end_of(s) + after,
        trim_end_of(s).len() > 0 ==> !is_space(trim_end_of(s).last()),
        trim_end_of(s).len() > 0 ==> s.len() > 0 && trim_end_of(s)[0] == s[0],
    decreases s.len(),
{
    if s.len() > 0 && is_space(s.last()) {
        let inner = lemma_end_trimmed(s.drop_last());
        let after = inner.push(s.last());
        assert(s =~= s.drop_last().push(s.last()));
        assert((trim_end_of(s) + inner).push(s.last()) =~= trim_end_of(s) + after);
        after
    } else {
        assert(s =~= s + Seq::empty());
        Seq::empty()
    }
}

/// **Trimming** takes away white space alone, and leaves none at either end.
pub proof fn lemma_trimmed(s: &Vec<char>, trimmed: Vec<char>)
    requires
        call_ensures(trim, (s,), trimmed),
    ensures
        exists|before: Seq<char>, after: Seq<char>|
            #![trigger blank(before), blank(after)]
            blank(before) && blank(after) && s@ == before + trimmed@ + after,
        trimmed@.len() > 0 ==> !is_space(trimmed@[0]) && !is_space(trimmed@.last()),
{
    let before = lemma_start_trimmed(s@);
    let after = lemma_end_trimmed(trim_start_of(s@));
    assert(s@ =~= before + trim_of(s@) + after);
    assert(blank(before) && blank(after));
}

/// Decimal digits alone.
pub open spec fn all_digits(s: Seq<char>) -> bool {
    forall|i: int| 0 <= i < s.len() ==> '0' <= #[trigger] s[i] <= '9'
}

/// The number that decimal digits spell.
pub open spec fn spelled_by(s: Seq<char>) -> nat
    decreases s.len(),
{
    if s.len() == 0 {
        0
    } else {
        (spelled_by(s.drop_last()) * 10 + (s.last() as nat - 48)) as nat
    }
}

/// The digits of a number's text, behind an optional plus sign.
pub open spec fn unsigned(s: Seq<char>) -> Seq<char> {
    if s.len() > 1 && s[0] == '+' {
        s.skip(1)
    } else {
        s
    }
}

proof fn lemma_digits(s: Seq<char>, n: nat, max: nat)
    requires
        n <= s.len(),
    ensures
        digits_value(s, n, max) matches Ok(v) ==> all_digits(s.take(n as int)) && v == spelled_by(
            s.take(n as int),
        ) && v <= max || n == 0,
        digits_value(s, n, max) matches Ok(v) ==> v == spelled_by(s.take(n as int)),
        all_digits(s.take(n as int)) && spelled_by(s.take(n as int)) <= max ==> digits_value(
            s,
            n,
            max,
        ) is Ok,
        digits_value(s, n, max) == Err::<nat, IntFault>(IntFault::InvalidDigit) ==> !all_digits(
            s.take(n as int),
        ),
        digits_value(s, n, max) == Err::<nat, IntFault>(IntFault::PosOverflow) ==> exists|k: int|
            0 < k <= n && all_digits(#[trigger] s.take(k)) && spelled_by(s.take(k)) > max,
        digits_value(s, n, max) != Err::<nat, IntFault>(IntFault::Empty),
    decreases n,
{
    if n > 0 {
        let m = (n - 1) as nat;
        lemma_digits(s, m, max);
        let (all, before) = (s.take(n as int), s.take(m as int));
        assert(all.drop_last() =~= before);
        assert(all.last() == s[m as int]);
        if all_digits(all) {
            assert forall|i: int| 0 <= i < m implies '0' <= #[trigger] before[i] <= '9' by {
                assert(all[i] == before[i]);
            }
            let d = s[m as int];
            assert('0' <= d && d <= '9') by {
                assert(all[m as int] == d);
            }
        }
        if digits_value(s, n, max) is Ok {
            assert forall|i: int| 0 <= i < n implies '0' <= #[trigger] all[i] <= '9' by {
                if i < m {
                    assert(all[i] == before[i]);
                }
            }
        }
        match digits_value(s, m, max) {
            Err(e) => {
                if !all_digits(before) {
                    let i = choose|i: int|
                        0 <= i < before.len() && !('0' <= #[trigger] before[i] <= '9');
                    assert(all[i] == before[i]);
                }
            },
            Ok(v) => {
                if n == 1 {
                    assert(before =~= Seq::empty());
                }
                let c = s[m as int];
                if !('0' <= c && c <= '9') {
                    assert(all[m as int] == c);
                } else if v * 10 + (c as nat - 48) > max {
                    assert forall|i: int| 0 <= i < n implies '0' <= #[trigger] all[i] <= '9' by {
                        if i < m {
                            assert(all[i] == before[i]);
                        }
                    }
                    assert(all_digits(s.take(n as int)) && spelled_by(s.take(n as int)) > max);
                }
            },
        }
    } else {
        assert(s.take(0) =~= Seq::empty());
    }
}

/// **Reading numbers.** A text is a number if and only if it is decimal digits,
/// one at least, behind at most one plus sign, and the number is no larger than
/// the bound; the number is what the digits spell. An empty text, a character
/// that is no digit and a number that grows past the bound are told apart.
pub proof fn lemma_numbers(s: &Vec<char>, max: u64, number: Result<u64, IntFault>)
    requires
        call_ensures(parse_int, (s, max), number),
    ensures
        number is Ok <==> s@.len() > 0 && all_digits(unsigned(s@)) && spelled_by(unsigned(s@))
            <= max,
        number matches Ok(n) ==> n == spelled_by(unsigned(s@)),
        number == Err::<u64, IntFault>(IntFault::Empty) <==> s@.len() == 0,
        number == Err::<u64, IntFault>(IntFault::InvalidDigit) ==> !all_digits(unsigned(s@)),
        number == Err::<u64, IntFault>(IntFault::PosOverflow) ==> exists|k: int|
            0 < k <= unsigned(s@).len() && all_digits(#[trigger] unsigned(s@).take(k))
                && spelled_by(unsigned(s@).take(k)) > max,
{
    let digits = unsigned(s@);
    assert(digits.take(digits.len() as int) =~= digits);
    lemma_digits(digits, digits.len(), max as nat);
    if s@.len() == 1 && s@[0] == '+' {
        assert(!all_digits(digits));
    }
}

proof fn lemma_decimal_digits(n: nat)
    ensures
        decimal(n).len() > 0,
        all_digits(decimal(n)),
        spelled_by(decimal(n)) == n,
        n > 0 ==> decimal(n)[0] != '0',
        n == 0 ==> decimal(n).len() == 1,
    decreases n,
{
    let s = decimal(n);
    if n < 10 {
        assert(s.drop_last() =~= Seq::empty());
        reveal_with_fuel(spelled_by, 2);
    } else {
        lemma_decimal_digits(n / 10);
        let high = decimal(n / 10);
        assert(s.drop_last() =~= high);
        assert forall|i: int| 0 <= i < s.len() implies '0' <= #[trigger] s[i] <= '9' by {
            if i < high.len() {
                assert(s[i] == high[i]);
            }
        }
    }
}

/// **Writing numbers.** A number is written in the decimal digits that spell
/// it, without leading zeros, and is read back.
pub proof fn lemma_numbers_read_back(
    n: u128,
    chars: Vec<char>,
    max: u64,
    read: Result<u64, IntFault>,
)
    requires
        call_ensures(to_decimal, (n,), chars),
        call_ensures(parse_int, (&chars, max), read),
    ensures
        chars@.len() > 0,
        all_digits(chars@),
        spelled_by(chars@) == n,
        n > 0 ==> chars@[0] != '0',
        n == 0 ==> chars@.len() == 1,
        n <= max ==> read == Ok::<u64, IntFault>(n as u64),
        n > max ==> read is Err,
{
    lemma_decimal_digits(n as nat);
    assert('0' <= chars@[0] <= '9');
    lemma_numbers(&chars, max, read);
}

} // verus!
