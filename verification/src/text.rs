//! Reading and writing the small texts that results are kept in.

use vstd::prelude::*;
use vstd::string::*;

verus! {

// ---------------------------------------------------------------------------------------
// Characters.
// ---------------------------------------------------------------------------------------

/// The characters with the Unicode property `White_Space`.
pub open spec fn white_space(c: char) -> bool {
    ||| '\u{9}' <= c <= '\u{d}'
    ||| c == ' '
    ||| c == '\u{85}'
    ||| c == '\u{a0}'
    ||| c == '\u{1680}'
    ||| '\u{2000}' <= c <= '\u{200a}'
    ||| c == '\u{2028}'
    ||| c == '\u{2029}'
    ||| c == '\u{202f}'
    ||| c == '\u{205f}'
    ||| c == '\u{3000}'
}

/// What is stripped off a text.
#[derive(Clone, Copy, Debug, PartialEq, Eq, Structural)]
pub enum Strip {
    White,
    Comma,
    Quote,
}

impl Strip {
    /// `c` is stripped.
    pub open spec fn strips(self, c: char) -> bool {
        match self {
            Strip::White => white_space(c),
            Strip::Comma => c == ',',
            Strip::Quote => c == '"',
        }
    }

    fn takes(self, c: char) -> (r: bool)
        ensures
            r == self.strips(c),
    {
        match self {
            Strip::White => ('\u{9}' <= c && c <= '\u{d}') || c == ' ' || c == '\u{85}' || c
                == '\u{a0}' || c == '\u{1680}' || ('\u{2000}' <= c && c <= '\u{200a}') || c
                == '\u{2028}' || c == '\u{2029}' || c == '\u{202f}' || c == '\u{205f}' || c
                == '\u{3000}',
            Strip::Comma => c == ',',
            Strip::Quote => c == '"',
        }
    }
}

/// The characters of a text.
pub fn chars_of(s: &str) -> (r: Vec<char>)
    ensures
        r@ == s@,
{
    let n = s.unicode_len();
    let mut r: Vec<char> = Vec::new();
    for c in it: s.chars()
        invariant
            it.seq() == s@,
            r@ == s@.take(it.index()),
    {
        r.push(c);
        assert(r@ =~= s@.take(it.index() + 1));
    }
    assert(s@.take(n as int) =~= s@);
    r
}

// ---------------------------------------------------------------------------------------
// Stripping.
// ---------------------------------------------------------------------------------------

/// `s` without the characters at its front that are stripped.
pub open spec fn strip_front(s: Seq<char>, what: Strip) -> Seq<char>
    decreases s.len(),
{
    if s.len() > 0 && what.strips(s[0]) {
        strip_front(s.skip(1), what)
    } else {
        s
    }
}

/// `s` without the characters at its back that are stripped.
pub open spec fn strip_back(s: Seq<char>, what: Strip) -> Seq<char>
    decreases s.len(),
{
    if s.len() > 0 && what.strips(s.last()) {
        strip_back(s.drop_last(), what)
    } else {
        s
    }
}

/// `s` without the characters at either end that are stripped.
pub open spec fn strip_both(s: Seq<char>, what: Strip) -> Seq<char> {
    strip_back(strip_front(s, what), what)
}

/// Strip the front of a text.
pub fn without_front(s: &str, what: Strip) -> (r: &str)
    ensures
        r@ == strip_front(s@, what),
{
    let chars = chars_of(s);
    let mut i: usize = 0;
    assert(s@.skip(0) =~= s@);
    while i < chars.len() && what.takes(chars[i])
        invariant
            i <= chars@.len(),
            chars@ == s@,
            strip_front(s@, what) == strip_front(s@.skip(i as int), what),
        decreases chars@.len() - i,
    {
        assert(s@.skip(i as int).skip(1) =~= s@.skip(i + 1));
        i += 1;
    }
    let r = s.substring_char(i, chars.len());
    assert(r@ =~= s@.skip(i as int));
    r
}

/// Strip the back of a text.
pub fn without_back(s: &str, what: Strip) -> (r: &str)
    ensures
        r@ == strip_back(s@, what),
{
    let chars = chars_of(s);
    let mut i: usize = chars.len();
    assert(s@.take(i as int) =~= s@);
    while i > 0 && what.takes(chars[i - 1])
        invariant
            i <= chars@.len(),
            chars@ == s@,
            strip_back(s@, what) == strip_back(s@.take(i as int), what),
        decreases i,
    {
        assert(s@.take(i as int).drop_last() =~= s@.take(i - 1));
        i -= 1;
    }
    let r = s.substring_char(0, i);
    assert(r@ =~= s@.take(i as int));
    r
}

/// Strip both ends of a text.
pub fn without(s: &str, what: Strip) -> (r: &str)
    ensures
        r@ == strip_both(s@, what),
{
    without_back(without_front(s, what), what)
}

// ---------------------------------------------------------------------------------------
// Finding.
// ---------------------------------------------------------------------------------------

/// `needle` stands at position `at` of `s`.
pub open spec fn occurs_at(s: Seq<char>, needle: Seq<char>, at: nat) -> bool {
    at + needle.len() <= s.len() && s.subrange(at as int, at + needle.len() as int) == needle
}

/// The first position from `from` on at which `needle` stands.
pub open spec fn first_at(s: Seq<char>, needle: Seq<char>, from: nat) -> Option<nat>
    decreases s.len() + 1 - from,
{
    if from + needle.len() > s.len() {
        None
    } else if occurs_at(s, needle, from) {
        Some(from)
    } else {
        first_at(s, needle, from + 1)
    }
}

/// Does `needle` stand at position `at`?
fn stands_at(chars: &Vec<char>, needle: &Vec<char>, at: usize) -> (r: bool)
    requires
        at + needle@.len() <= chars@.len(),
    ensures
        r == occurs_at(chars@, needle@, at as nat),
{
    assert(chars.len() == chars@.len());
    let mut k: usize = 0;
    while k < needle.len()
        invariant
            k <= needle@.len(),
            at + needle@.len() <= chars@.len(),
            chars@.len() <= usize::MAX,
            forall|j: int| 0 <= j < k ==> chars@[at + j] == #[trigger] needle@[j],
        decreases needle@.len() - k,
    {
        if chars[at + k] != needle[k] {
            assert(chars@.subrange(at as int, at + needle@.len())[k as int] != needle@[k as int]);
            return false;
        }
        k += 1;
    }
    assert(chars@.subrange(at as int, at + needle@.len()) =~= needle@);
    true
}

/// Find the first place of `needle` in `s` from position `from` on, counted in characters.
pub fn find_from(s: &str, needle: &str, from: usize) -> (r: Option<usize>)
    ensures
        match r {
            Some(i) => first_at(s@, needle@, from as nat) == Some(i as nat),
            None => first_at(s@, needle@, from as nat) is None,
        },
{
    let chars = chars_of(s);
    let wanted = chars_of(needle);
    assert(chars.len() == chars@.len());
    let mut i: usize = from;
    while i <= chars.len() && wanted.len() <= chars.len() - i
        invariant
            chars@ == s@,
            wanted@ == needle@,
            chars@.len() <= usize::MAX,
            first_at(s@, needle@, from as nat) == first_at(s@, needle@, i as nat),
        decreases chars@.len() + 1 - i,
    {
        if stands_at(&chars, &wanted, i) {
            return Some(i);
        }
        proof {
            if needle@.len() == 0 {
                assert(s@.subrange(i as int, i as int) =~= needle@);
            }
        }
        i += 1;
    }
    None
}

/// `s` begins with `prefix`.
pub open spec fn starts_with(s: Seq<char>, prefix: Seq<char>) -> bool {
    occurs_at(s, prefix, 0)
}

/// What follows `prefix`, if the text begins with it.
pub fn after_prefix<'a>(s: &'a str, prefix: &str) -> (r: Option<&'a str>)
    ensures
        match r {
            Some(rest) => starts_with(s@, prefix@) && rest@ == s@.skip(prefix@.len() as int),
            None => !starts_with(s@, prefix@),
        },
{
    let chars = chars_of(s);
    let wanted = chars_of(prefix);
    if wanted.len() > chars.len() || !stands_at(&chars, &wanted, 0) {
        return None;
    }
    let rest = s.substring_char(wanted.len(), chars.len());
    assert(rest@ =~= s@.skip(prefix@.len() as int));
    Some(rest)
}

/// What [`first_at`] finds is an occurrence, and the first.
pub proof fn lemma_first_at(s: Seq<char>, needle: Seq<char>, from: nat)
    ensures
        match first_at(s, needle, from) {
            Some(i) => {
                &&& from <= i
                &&& occurs_at(s, needle, i)
                &&& forall|j: nat| from <= j < i ==> !#[trigger] occurs_at(s, needle, j)
            },
            None => forall|j: nat| from <= j ==> !#[trigger] occurs_at(s, needle, j),
        },
    decreases s.len() + 1 - from,
{
    if from + needle.len() <= s.len() && !occurs_at(s, needle, from) {
        if needle.len() == 0 {
            assert(s.subrange(from as int, from as int) =~= needle);
        }
        lemma_first_at(s, needle, from + 1);
    }
}

// ---------------------------------------------------------------------------------------
// Lines.
// ---------------------------------------------------------------------------------------

/// A line without the carriage return that its line feed had before it.
pub open spec fn chomped(line: Seq<char>) -> Seq<char> {
    if line.len() > 0 && line.last() == '\r' {
        line.drop_last()
    } else {
        line
    }
}

/// The lines of a text. They end at line feeds, with or without a carriage return before them;
/// the last line may do without.
pub open spec fn lines_of(s: Seq<char>) -> Seq<Seq<char>>
    decreases s.len(),
{
    if s.len() == 0 {
        seq![]
    } else {
        match first_at(s, seq!['\n'], 0) {
            None => seq![s],
            Some(e) => {
                proof {
                    lemma_first_at(s, seq!['\n'], 0);
                }
                seq![chomped(s.take(e as int))] + lines_of(s.skip(e + 1int))
            },
        }
    }
}

/// The texts of some strings.
pub open spec fn texts(parts: Seq<&str>) -> Seq<Seq<char>> {
    Seq::new(parts.len(), |i: int| parts[i]@)
}

/// Cut a text into its lines.
pub fn lines<'a>(s: &'a str) -> (r: Vec<&'a str>)
    ensures
        texts(r@) == lines_of(s@),
{
    let mut r: Vec<&'a str> = Vec::new();
    let mut rest: &'a str = s;
    let mut left: usize = s.unicode_len();
    assert(texts(r@) + lines_of(s@) =~= lines_of(s@));
    proof {
        reveal_strlit("\n");
        reveal_strlit("\r");
        assert("\n"@ =~= seq!['\n']);
    }
    while left > 0
        invariant
            left == rest@.len(),
            "\n"@ == seq!['\n'],
            texts(r@) + lines_of(rest@) == lines_of(s@),
        decreases left,
    {
        let ghost before = r@;
        match find_from(rest, "\n", 0) {
            None => {
                r.push(rest);
                assert(texts(r@) =~= texts(before).push(rest@));
                assert(texts(before) + seq![rest@] =~= texts(r@));
                return r;
            },
            Some(e) => {
                proof {
                    lemma_first_at(rest@, seq!['\n'], 0);
                }
                let line = rest.substring_char(0, e);
                assert(line@ =~= rest@.take(e as int));
                let line = if e > 0 && line.get_char(e - 1) == '\r' {
                    let shorter = line.substring_char(0, e - 1);
                    assert(shorter@ =~= line@.drop_last());
                    shorter
                } else {
                    line
                };
                assert(line@ == chomped(rest@.take(e as int)));
                r.push(line);
                let after = rest.substring_char(e + 1, left);
                assert(after@ =~= rest@.skip(e + 1));
                assert(texts(r@) + lines_of(after@) =~= texts(before) + (seq![line@] + lines_of(
                    after@,
                )));
                rest = after;
                left = left - e - 1;
            },
        }
    }
    assert(texts(r@) + lines_of(rest@) =~= texts(r@));
    r
}

// ---------------------------------------------------------------------------------------
// Numbers.
// ---------------------------------------------------------------------------------------

/// The digit for `d`.
pub open spec fn digit(d: nat) -> char {
    (48 + d) as char
}

/// `c` is a decimal digit.
pub open spec fn is_digit(c: char) -> bool {
    '0' <= c <= '9'
}

/// `n` in decimal.
pub open spec fn decimal(n: nat) -> Seq<char>
    decreases n,
{
    if n < 10 {
        seq![digit(n)]
    } else {
        decimal(n / 10).push(digit(n % 10))
    }
}

/// The number that a run of digits stands for.
pub open spec fn number(digits: Seq<char>) -> nat
    decreases digits.len(),
{
    if digits.len() == 0 {
        0
    } else {
        number(digits.drop_last()) * 10 + (digits.last() as nat - 48) as nat
    }
}

/// Every character is a digit.
pub open spec fn all_digits(s: Seq<char>) -> bool {
    forall|i: int| 0 <= i < s.len() ==> is_digit(#[trigger] s[i])
}

/// The number that a text stands for, if it is one no larger than `max`: digits, and maybe a
/// plus sign before them.
pub open spec fn parsed(s: Seq<char>, max: nat) -> Option<nat> {
    let digits = if s.len() > 0 && s[0] == '+' {
        s.skip(1)
    } else {
        s
    };
    if digits.len() > 0 && all_digits(digits) && number(digits) <= max {
        Some(number(digits))
    } else {
        None
    }
}

fn digit_text(d: u128) -> (r: &'static str)
    requires
        d < 10,
    ensures
        r@ == seq![digit(d as nat)],
{
    proof {
        reveal_strlit("0");
        reveal_strlit("1");
        reveal_strlit("2");
        reveal_strlit("3");
        reveal_strlit("4");
        reveal_strlit("5");
        reveal_strlit("6");
        reveal_strlit("7");
        reveal_strlit("8");
        reveal_strlit("9");
    }
    let r = if d == 0 {
        "0"
    } else if d == 1 {
        "1"
    } else if d == 2 {
        "2"
    } else if d == 3 {
        "3"
    } else if d == 4 {
        "4"
    } else if d == 5 {
        "5"
    } else if d == 6 {
        "6"
    } else if d == 7 {
        "7"
    } else if d == 8 {
        "8"
    } else {
        "9"
    };
    assert(r@ =~= seq![digit(d as nat)]);
    r
}

/// Append a number in decimal.
pub fn push_decimal(out: &mut String, n: u128)
    ensures
        final(out)@ == old(out)@ + decimal(n as nat),
    decreases n,
{
    let ghost before = out@;
    if n >= 10 {
        push_decimal(out, n / 10);
    }
    out.append(digit_text(n % 10));
    assert(out@ =~= before + decimal(n as nat));
}

/// Read a number no larger than `max`.
pub fn parse_number(s: &str, max: u64) -> (r: Option<u64>)
    ensures
        match r {
            Some(n) => parsed(s@, max as nat) == Some(n as nat),
            None => parsed(s@, max as nat) is None,
        },
{
    let chars = chars_of(s);
    let start: usize = if chars.len() > 0 && chars[0] == '+' {
        1
    } else {
        0
    };
    let ghost digits = s@.skip(start as int);
    assert(s@.skip(0) =~= s@);
    if start == chars.len() {
        return None;
    }
    let mut n: u64 = 0;
    let mut i: usize = start;
    assert(digits.take(0) =~= seq![]);
    while i < chars.len()
        invariant
            start <= i <= chars@.len(),
            chars@ == s@,
            digits == s@.skip(start as int),
            digits.len() > 0,
            parsed(s@, max as nat) == if all_digits(digits) && number(digits) <= max {
                Some(number(digits))
            } else {
                None
            },
            all_digits(digits.take(i - start)),
            n == number(digits.take(i - start)),
            n <= max,
        decreases chars@.len() - i,
    {
        let c = chars[i];
        assert(digits[i - start] == c);
        if !('0' <= c && c <= '9') {
            assert(!is_digit(digits[i - start]));
            return None;
        }
        let d = (c as u32 - 48) as u64;
        let ghost upto = digits.take(i + 1 - start);
        proof {
            assert(upto.drop_last() =~= digits.take(i - start));
            assert(number(upto) == n * 10 + d);
            lemma_number_grows(digits, (i + 1 - start) as nat);
        }
        if n > max / 10 || d > max - n * 10 {
            return None;
        }
        n = n * 10 + d;
        i += 1;
        assert forall|k: int| 0 <= k < upto.len() implies is_digit(#[trigger] upto[k]) by {
            if k < upto.len() - 1 {
                assert(upto[k] == digits.take(i - 1 - start)[k]);
            }
        }
    }
    assert(digits.take(i - start) =~= digits);
    Some(n)
}

/// A number has at least the value of each of its fronts.
proof fn lemma_number_grows(digits: Seq<char>, n: nat)
    requires
        n <= digits.len(),
    ensures
        number(digits.take(n as int)) <= number(digits),
    decreases digits.len(),
{
    if n == digits.len() {
        assert(digits.take(n as int) =~= digits);
    } else {
        lemma_number_grows(digits.drop_last(), n);
        assert(digits.drop_last().take(n as int) =~= digits.take(n as int));
    }
}

/// A number is written in digits, and reading them gives it back.
pub proof fn lemma_decimal(n: nat)
    ensures
        decimal(n).len() > 0,
        all_digits(decimal(n)),
        number(decimal(n)) == n,
    decreases n,
{
    if n < 10 {
        assert(decimal(n).drop_last() =~= seq![]);
        assert(number(Seq::<char>::empty()) == 0);
        assert(decimal(n).last() == digit(n));
    } else {
        lemma_decimal(n / 10);
        assert(decimal(n).drop_last() =~= decimal(n / 10));
        assert(decimal(n).last() == digit(n % 10));
    }
}

/// What is printed in decimal is read back.
pub proof fn law_parse_undoes_decimal(n: nat, max: nat)
    requires
        n <= max,
    ensures
        parsed(decimal(n), max) == Some(n),
{
    lemma_decimal(n);
    assert(is_digit(decimal(n)[0]));
}

// ---------------------------------------------------------------------------------------
// Thousands.
// ---------------------------------------------------------------------------------------

/// The first `n` digits, with a comma before every group of three that others precede.
pub open spec fn grouped(digits: Seq<char>, n: nat) -> Seq<char>
    decreases n,
{
    if n == 0 || n > digits.len() {
        seq![]
    } else {
        let before = grouped(digits, (n - 1) as nat);
        let left = digits.len() - (n - 1);
        (if n > 1 && left % 3 == 0 {
            before.push(',')
        } else {
            before
        }).push(digits[n - 1])
    }
}

/// Print a number with a comma between groups of three digits.
pub fn thousands(n: u64) -> (r: String)
    ensures
        r@ == grouped(decimal(n as nat), decimal(n as nat).len()),
{
    let mut plain = String::new();
    push_decimal(&mut plain, n as u128);
    assert(plain@ =~= decimal(n as nat));
    let digits = plain.as_str();
    let len = digits.unicode_len();
    let mut out = String::new();
    let mut i: usize = 0;
    proof {
        reveal_strlit(",");
    }
    while i < len
        invariant
            i <= len,
            len == digits@.len(),
            digits@ == decimal(n as nat),
            ","@.len() == 1,
            ","@[0] == ',',
            out@ == grouped(digits@, i as nat),
        decreases len - i,
    {
        let ghost before = out@;
        if i > 0 && (len - i) % 3 == 0 {
            out.append(",");
            assert(out@ =~= before.push(','));
        }
        let ghost now = out@;
        out.append(digits.substring_char(i, i + 1));
        assert(out@ =~= now.push(digits@[i as int]));
        i += 1;
    }
    out
}

/// `s` without its commas.
pub open spec fn without_commas(s: Seq<char>) -> Seq<char>
    decreases s.len(),
{
    if s.len() == 0 {
        seq![]
    } else if s.last() == ',' {
        without_commas(s.drop_last())
    } else {
        without_commas(s.drop_last()).push(s.last())
    }
}

/// Separators change nothing but the look of a number.
pub proof fn law_separators_leave_the_number(n: nat)
    ensures
        without_commas(grouped(decimal(n), decimal(n).len())) == decimal(n),
        number(without_commas(grouped(decimal(n), decimal(n).len()))) == n,
{
    lemma_decimal(n);
    lemma_grouped(decimal(n), decimal(n).len());
    assert(decimal(n).take(decimal(n).len() as int) =~= decimal(n));
}

proof fn lemma_grouped(digits: Seq<char>, n: nat)
    requires
        n <= digits.len(),
        all_digits(digits),
    ensures
        without_commas(grouped(digits, n)) == digits.take(n as int),
    decreases n,
{
    if n == 0 {
        assert(digits.take(0) =~= seq![]);
    } else {
        let before = grouped(digits, (n - 1) as nat);
        let s = grouped(digits, n);
        lemma_grouped(digits, (n - 1) as nat);
        assert(is_digit(digits[n - 1]));
        assert(before.push(',').drop_last() =~= before);
        assert(without_commas(before.push(',')) == without_commas(before));
        assert(s.drop_last() =~= before || s.drop_last() =~= before.push(','));
        assert(digits.take(n as int) =~= digits.take(n - 1).push(digits[n - 1]));
    }
}

// ---------------------------------------------------------------------------------------
// What holds of these texts.
// ---------------------------------------------------------------------------------------

/// Stripping takes all that it should and nothing else: a text is what was taken off its front,
/// what is left, and what was taken off its back. All that was taken is to be stripped, and what
/// is left neither begins nor ends with what is.
pub proof fn law_stripping_takes_the_ends(s: Seq<char>, what: Strip)
    ensures
        exists|front: Seq<char>| #[trigger]
            only(front, what) && s == front + strip_front(s, what),
        exists|back: Seq<char>| #[trigger] only(back, what) && s == strip_back(s, what) + back,
        exists|front: Seq<char>, back: Seq<char>| #[trigger]
            only(front, what) && #[trigger] only(back, what) && s == front + strip_both(s, what)
                + back,
        strip_front(s, what).len() > 0 ==> !what.strips(strip_front(s, what)[0]),
        strip_back(s, what).len() > 0 ==> !what.strips(strip_back(s, what).last()),
        strip_both(s, what).len() > 0 ==> !what.strips(strip_both(s, what)[0]) && !what.strips(
            strip_both(s, what).last(),
        ),
{
    lemma_strip_front(s, what);
    lemma_strip_back(s, what);
    let front = choose|front: Seq<char>| #[trigger]
        only(front, what) && s == front + strip_front(s, what);
    let mid = strip_front(s, what);
    lemma_strip_back(mid, what);
    let back = choose|back: Seq<char>| #[trigger]
        only(back, what) && mid == strip_back(mid, what) + back;
    assert(s =~= front + strip_both(s, what) + back);
    if strip_both(s, what).len() > 0 {
        assert(mid[0] == strip_both(s, what)[0]);
    }
}

/// Every character of `s` is to be stripped.
pub open spec fn only(s: Seq<char>, what: Strip) -> bool {
    forall|i: int| 0 <= i < s.len() ==> what.strips(#[trigger] s[i])
}

proof fn lemma_strip_front(s: Seq<char>, what: Strip)
    ensures
        exists|front: Seq<char>| #[trigger]
            only(front, what) && s == front + strip_front(s, what),
        strip_front(s, what).len() > 0 ==> !what.strips(strip_front(s, what)[0]),
    decreases s.len(),
{
    if s.len() > 0 && what.strips(s[0]) {
        let rest = s.skip(1);
        lemma_strip_front(rest, what);
        let front = choose|front: Seq<char>| #[trigger]
            only(front, what) && rest == front + strip_front(rest, what);
        let more = seq![s[0]] + front;
        assert forall|i: int| 0 <= i < more.len() implies what.strips(#[trigger] more[i]) by {
            if i > 0 {
                assert(more[i] == front[i - 1]);
            }
        }
        assert(only(more, what));
        assert(strip_front(s, what) == strip_front(rest, what));
        assert(s =~= seq![s[0]] + rest);
        assert(s =~= more + strip_front(s, what));
    } else {
        let none = Seq::<char>::empty();
        assert(only(none, what));
        assert(s =~= none + strip_front(s, what));
    }
}

proof fn lemma_strip_back(s: Seq<char>, what: Strip)
    ensures
        exists|back: Seq<char>| #[trigger] only(back, what) && s == strip_back(s, what) + back,
        strip_back(s, what).len() > 0 ==> !what.strips(strip_back(s, what).last()),
    decreases s.len(),
{
    if s.len() > 0 && what.strips(s.last()) {
        let rest = s.drop_last();
        lemma_strip_back(rest, what);
        let back = choose|back: Seq<char>| #[trigger]
            only(back, what) && rest == strip_back(rest, what) + back;
        let more = back.push(s.last());
        assert forall|i: int| 0 <= i < more.len() implies what.strips(#[trigger] more[i]) by {
            if i < back.len() {
                assert(more[i] == back[i]);
            }
        }
        assert(only(more, what));
        assert(strip_back(s, what) == strip_back(rest, what));
        assert(s =~= rest.push(s.last()));
        assert(s =~= strip_back(s, what) + more);
    } else {
        let none = Seq::<char>::empty();
        assert(only(none, what));
        assert(s =~= strip_back(s, what) + none);
    }
}

/// `needle` stands at position `at` of `s`, character by character.
pub open spec fn spelled_at(s: Seq<char>, needle: Seq<char>, at: int) -> bool {
    &&& 0 <= at
    &&& at + needle.len() <= s.len()
    &&& forall|k: int| 0 <= k < needle.len() ==> s[at + k] == #[trigger] needle[k]
}

/// What is found is there, and is the first: a text is found at `i` just when it stands there
/// character by character and at no earlier place from `from` on, and is not found just when it
/// stands nowhere from there on.
pub proof fn law_the_first_place_is_found(s: Seq<char>, needle: Seq<char>, from: nat, i: nat)
    ensures
        first_at(s, needle, from) == Some(i) <==> from <= i && spelled_at(s, needle, i as int)
            && forall|j: int| from <= j < i ==> !#[trigger] spelled_at(s, needle, j),
        first_at(s, needle, from) is None <==> forall|j: int|
            from <= j ==> !#[trigger] spelled_at(s, needle, j),
{
    lemma_first_at(s, needle, from);
    assert forall|j: int| 0 <= j implies #[trigger] spelled_at(s, needle, j) == occurs_at(
        s,
        needle,
        j as nat,
    ) by {
        if j + needle.len() <= s.len() {
            let there = s.subrange(j, j + needle.len());
            if occurs_at(s, needle, j as nat) {
                assert forall|k: int| 0 <= k < needle.len() implies s[j + k]
                    == #[trigger] needle[k] by {
                    assert(there[k] == s[j + k]);
                }
            }
            if spelled_at(s, needle, j) {
                assert(there =~= needle);
            }
        }
    }
    if let Some(f) = first_at(s, needle, from) {
        assert(spelled_at(s, needle, f as int));
    }
    if first_at(s, needle, from) is None {
        assert forall|j: int| from <= j implies !#[trigger] spelled_at(s, needle, j) by {
            assert(!occurs_at(s, needle, j as nat));
        }
    }
}

/// A text is cut at its line feeds and nowhere else. Nothing has no lines; a text without a line
/// feed is one line, as it is; and a line in front of a text, with a line feed behind it, is its
/// first line, without the carriage return that may stand at its end.
pub proof fn law_lines_end_at_line_feeds(line: Seq<char>, rest: Seq<char>)
    requires
        forall|i: int| 0 <= i < line.len() ==> #[trigger] line[i] != '\n',
    ensures
        lines_of(seq![]) == Seq::<Seq<char>>::empty(),
        line.len() > 0 ==> lines_of(line) == seq![line],
        line.len() == 0 || line.last() != '\r' ==> lines_of(line.push('\n') + rest) == seq![line]
            + lines_of(rest),
        lines_of(line.push('\r').push('\n') + rest) == seq![line] + lines_of(rest),
{
    let feed = seq!['\n'];
    lemma_first_at(line, feed, 0);
    if let Some(i) = first_at(line, feed, 0) {
        assert(line.subrange(i as int, i + 1int)[0] == line[i as int]);
    }
    lemma_one_line_more(line, rest);
    let longer = line.push('\r');
    assert forall|i: int| 0 <= i < longer.len() implies #[trigger] longer[i] != '\n' by {
        if i < line.len() {
            assert(longer[i] == line[i]);
        }
    }
    lemma_one_line_more(longer, rest);
    assert(longer.drop_last() =~= line);
}

proof fn lemma_one_line_more(line: Seq<char>, rest: Seq<char>)
    requires
        forall|i: int| 0 <= i < line.len() ==> #[trigger] line[i] != '\n',
    ensures
        lines_of(line.push('\n') + rest) == seq![chomped(line)] + lines_of(rest),
{
    let feed = seq!['\n'];
    let s = line.push('\n') + rest;
    lemma_first_at(s, feed, 0);
    assert(s.subrange(line.len() as int, line.len() + 1int) =~= feed);
    assert(occurs_at(s, feed, line.len()));
    let e = first_at(s, feed, 0)->Some_0;
    assert(s.subrange(e as int, e + 1int)[0] == s[e as int]);
    if e < line.len() {
        assert(s[e as int] == line[e as int]);
    }
    assert(s.take(e as int) =~= line);
    assert(s.skip(e + 1int) =~= rest);
}

/// Numbers are written in tens: a number below ten is its digit, and `10 * n + d` is `n` with the
/// digit of `d` behind it. No number but zero begins with a zero.
pub proof fn law_decimals_are_positional(n: nat, d: nat)
    requires
        d < 10,
    ensures
        decimal(d).len() == 1,
        decimal(d)[0] as u32 == '0' as u32 + d,
        n > 0 ==> decimal(10 * n + d) == decimal(n) + decimal(d),
        n > 0 ==> decimal(n)[0] != '0',
    decreases n,
{
    assert(decimal(d) =~= seq![digit(d)]);
    if n > 0 {
        assert((10 * n + d) / 10 == n && (10 * n + d) % 10 == d);
        assert(decimal(10 * n + d) =~= decimal(n) + decimal(d));
        if n >= 10 {
            law_decimals_are_positional(n / 10, n % 10);
            lemma_decimal(n / 10);
            assert(decimal(n)[0] == decimal(n / 10)[0]);
        } else {
            assert(decimal(n)[0] as u32 == 48 + n);
        }
    }
}

/// What is read as a number. A plus sign may stand before the digits, once; zeros in front change
/// nothing; a digit behind makes ten of every one and adds itself, as long as the bound allows;
/// and nothing is read from a text with anything else in it, or with no digit.
pub proof fn law_numbers_are_read_in_tens(s: Seq<char>, d: nat, max: nat, i: int)
    requires
        d < 10,
    ensures
        parsed(seq![], max) is None,
        parsed(decimal(d), max) == (if d <= max {
            Some(d)
        } else {
            None
        }),
        s.len() == 0 || s[0] != '+' ==> parsed(seq!['+'] + s, max) == parsed(s, max),
        s.len() > 0 && s[0] == '+' ==> parsed(seq!['+'] + s, max) is None,
        s.len() > 0 && s[0] != '+' ==> parsed(seq!['0'] + s, max) == parsed(s, max),
        parsed(s, max) matches Some(n) ==> n <= max && parsed(s + decimal(d), max) == (if 10 * n + d
            <= max {
            Some(10 * n + d)
        } else {
            None
        }),
        0 <= i < s.len() && !('0' <= s[i] <= '9') && !(i == 0 && s[0] == '+') ==> parsed(s, max)
            is None,
        forall|bound: nat|
            max <= bound && (#[trigger] parsed(s, bound)) is Some ==> parsed(s, max) == (
            if parsed(s, bound)->Some_0 <= max {
                parsed(s, bound)
            } else {
                None
            }),
{
    lemma_decimal(d);
    let own = decimal(d);
    assert(own =~= seq![digit(d)]);
    assert(is_digit(own[0]));
    let plus = seq!['+'] + s;
    assert(plus.skip(1) =~= s);
    if s.len() > 0 && s[0] == '+' {
        assert(!is_digit(s[0]));
    }
    let zero = seq!['0'] + s;
    if s.len() > 0 {
        lemma_zero_in_front(s);
        if all_digits(s) {
            assert forall|k: int| 0 <= k < zero.len() implies is_digit(#[trigger] zero[k]) by {
                if k > 0 {
                    assert(zero[k] == s[k - 1]);
                }
            }
        }
        if all_digits(zero) {
            assert forall|k: int| 0 <= k < s.len() implies is_digit(#[trigger] s[k]) by {
                assert(zero[k + 1] == s[k]);
            }
        }
    }
    if parsed(s, max) is Some {
        let digits = without_sign(s);
        let more = s + own;
        assert(without_sign(more) =~= digits + own);
        assert((digits + own).drop_last() =~= digits);
        assert((digits + own).last() == digit(d));
        assert forall|k: int| 0 <= k < (digits + own).len() implies is_digit(
            #[trigger] (digits + own)[k],
        ) by {
            if k < digits.len() {
                assert((digits + own)[k] == digits[k]);
            }
        }
        assert(number(digits + own) == 10 * number(digits) + d);
    }
    if 0 <= i < s.len() && !('0' <= s[i] <= '9') && !(i == 0 && s[0] == '+') {
        let digits = without_sign(s);
        if s[0] == '+' {
            assert(digits[i - 1] == s[i]);
        } else {
            assert(digits[i] == s[i]);
        }
    }
}

/// A text without the plus sign that it may begin with.
pub open spec fn without_sign(s: Seq<char>) -> Seq<char> {
    if s.len() > 0 && s[0] == '+' {
        s.skip(1)
    } else {
        s
    }
}

proof fn lemma_zero_in_front(s: Seq<char>)
    ensures
        number(seq!['0'] + s) == number(s),
    decreases s.len(),
{
    let zero = seq!['0'] + s;
    if s.len() == 0 {
        assert(zero.drop_last() =~= seq![]);
        assert(zero.last() == '0');
        assert(number(zero) == number(zero.drop_last()) * 10);
        assert(number(Seq::<char>::empty()) == 0);
        assert(s =~= seq![]);
    } else {
        assert(zero.drop_last() =~= seq!['0'] + s.drop_last());
        lemma_zero_in_front(s.drop_last());
        assert(zero.last() == s.last());
    }
}

/// Separators stand between groups of three: up to three digits are as they are, and a comma
/// parts three digits from what is before them, which is separated likewise.
pub proof fn law_groups_are_of_three(digits: Seq<char>, three: Seq<char>)
    requires
        three.len() == 3,
    ensures
        digits.len() <= 3 ==> grouped(digits, digits.len()) == digits,
        digits.len() > 0 ==> grouped(digits + three, digits.len() + 3) == grouped(
            digits,
            digits.len(),
        ) + seq![','] + three,
{
    if digits.len() <= 3 {
        reveal_with_fuel(grouped, 5);
        assert(grouped(digits, digits.len()) =~= digits);
    }
    if digits.len() > 0 {
        let all = digits + three;
        let n = digits.len();
        lemma_groups_in_front(digits, three, n);
        reveal_with_fuel(grouped, 4);
        assert(all[n as int] == three[0] && all[n + 1int] == three[1] && all[n + 2int]
            == three[2]);
        assert(grouped(all, n + 3) =~= grouped(digits, n) + seq![','] + three);
    }
}

proof fn lemma_groups_in_front(digits: Seq<char>, three: Seq<char>, n: nat)
    requires
        three.len() == 3,
        n <= digits.len(),
    ensures
        grouped(digits + three, n) == grouped(digits, n),
    decreases n,
{
    if n > 0 {
        lemma_groups_in_front(digits, three, (n - 1) as nat);
        assert((digits + three)[n - 1] == digits[n - 1]);
        assert(((digits + three).len() - (n - 1)) % 3 == (digits.len() - (n - 1)) % 3);
    }
}

/// Stripping is undone by nothing but what it takes: whatever is to be stripped may stand around
/// a text that neither begins nor ends with it, and the text is what stripping leaves.
pub proof fn law_stripping_leaves_the_middle(
    front: Seq<char>,
    middle: Seq<char>,
    back: Seq<char>,
    what: Strip,
)
    requires
        only(front, what),
        only(back, what),
        middle.len() > 0 ==> !what.strips(middle[0]) && !what.strips(middle.last()),
    ensures
        strip_front(front + middle, what) == middle,
        strip_back(middle + back, what) == middle,
        strip_both(front + middle + back, what) == middle,
{
    lemma_front_goes(front, middle, what);
    lemma_back_goes(middle, back, what);
    if middle.len() > 0 {
        lemma_front_goes(front, middle + back, what);
        assert(front + (middle + back) =~= front + middle + back);
    } else {
        let all = front + middle + back;
        assert forall|i: int| 0 <= i < all.len() implies what.strips(#[trigger] all[i]) by {
            if i < front.len() {
                assert(all[i] == front[i]);
            } else {
                assert(all[i] == back[i - front.len()]);
            }
        }
        lemma_front_goes(all, seq![], what);
        assert(all + seq![] =~= all);
        assert(middle =~= seq![]);
    }
}

proof fn lemma_front_goes(front: Seq<char>, rest: Seq<char>, what: Strip)
    requires
        only(front, what),
        rest.len() > 0 ==> !what.strips(rest[0]),
    ensures
        strip_front(front + rest, what) == rest,
    decreases front.len(),
{
    let s = front + rest;
    if front.len() == 0 {
        assert(s =~= rest);
    } else {
        assert(s[0] == front[0]);
        assert(s.skip(1) =~= front.skip(1) + rest);
        lemma_front_goes(front.skip(1), rest, what);
    }
}

proof fn lemma_back_goes(rest: Seq<char>, back: Seq<char>, what: Strip)
    requires
        only(back, what),
        rest.len() > 0 ==> !what.strips(rest.last()),
    ensures
        strip_back(rest + back, what) == rest,
    decreases back.len(),
{
    let s = rest + back;
    if back.len() == 0 {
        assert(s =~= rest);
    } else {
        assert(s.last() == back.last());
        assert(s.drop_last() =~= rest + back.drop_last());
        lemma_back_goes(rest, back.drop_last(), what);
    }
}

} // verus!
