//! The texts that stand for floating-point numbers.

use crate::text;
use crate::text::chars_of;
use vstd::prelude::*;

verus! {

/// Where the digits that start at `i` end.
pub open spec fn digits_end(s: Seq<char>, i: nat) -> nat
    decreases s.len() - i,
{
    if i < s.len() && text::is_digit(s[i as int]) {
        digits_end(s, i + 1)
    } else {
        i
    }
}

/// Behind the sign at `i`, if there is one.
pub open spec fn sign_end(s: Seq<char>, i: nat) -> nat {
    if i < s.len() && (s[i as int] == '+' || s[i as int] == '-') {
        i + 1
    } else {
        i
    }
}

/// From `i` on there is an exponent, or nothing: `e`, a sign or none, and digits.
pub open spec fn is_exponent(s: Seq<char>, i: nat) -> bool {
    i >= s.len() || {
        let j = sign_end(s, i + 1);
        &&& s[i as int] == 'e' || s[i as int] == 'E'
        &&& j < digits_end(s, j)
        &&& digits_end(s, j) == s.len()
    }
}

/// From `i` on there are digits, with a point in front of, behind or among them or none, and an
/// exponent or none.
pub open spec fn is_number(s: Seq<char>, i: nat) -> bool {
    let a = digits_end(s, i);
    if a < s.len() && s[a as int] == '.' {
        let b = digits_end(s, a + 1);
        (a > i || b > a + 1) && is_exponent(s, b)
    } else {
        a > i && is_exponent(s, a)
    }
}

/// `c` is the small letter `letter`, or its capital.
pub open spec fn same_letter(c: char, letter: char) -> bool {
    c == letter || ('A' <= c <= 'Z' && c as u32 + 32 == letter as u32)
}

/// From `i` on there is `word`, in small letters or capitals.
pub open spec fn spelled(s: Seq<char>, i: nat, word: Seq<char>) -> bool {
    &&& s.len() == i + word.len()
    &&& forall|k: int| 0 <= k < word.len() ==> same_letter(s[i + k], #[trigger] word[k])
}

/// `s` stands for a floating-point number: a sign or none, and a number in decimal, `inf`,
/// `infinity` or `nan`.
pub open spec fn is_float(s: Seq<char>) -> bool {
    let i = sign_end(s, 0);
    ||| is_number(s, i)
    ||| spelled(s, i, "inf"@)
    ||| spelled(s, i, "infinity"@)
    ||| spelled(s, i, "nan"@)
}

fn after_digits(chars: &Vec<char>, i: usize) -> (r: usize)
    requires
        i <= chars@.len(),
    ensures
        r == digits_end(chars@, i as nat),
        i <= r <= chars@.len(),
{
    let mut j: usize = i;
    while j < chars.len() && '0' <= chars[j] && chars[j] <= '9'
        invariant
            i <= j <= chars@.len(),
            digits_end(chars@, i as nat) == digits_end(chars@, j as nat),
        decreases chars@.len() - j,
    {
        j += 1;
    }
    j
}

fn after_sign(chars: &Vec<char>, i: usize) -> (r: usize)
    requires
        i <= chars@.len(),
    ensures
        r == sign_end(chars@, i as nat),
        i <= r <= chars@.len(),
{
    if i < chars.len() && (chars[i] == '+' || chars[i] == '-') {
        i + 1
    } else {
        i
    }
}

fn ends_in_exponent(chars: &Vec<char>, i: usize) -> (r: bool)
    requires
        i <= chars@.len(),
    ensures
        r == is_exponent(chars@, i as nat),
{
    if i == chars.len() {
        return true;
    }
    if chars[i] != 'e' && chars[i] != 'E' {
        return false;
    }
    let j = after_sign(chars, i + 1);
    let end = after_digits(chars, j);
    j < end && end == chars.len()
}

fn reads_number(chars: &Vec<char>, i: usize) -> (r: bool)
    requires
        i <= chars@.len(),
    ensures
        r == is_number(chars@, i as nat),
{
    let a = after_digits(chars, i);
    if a < chars.len() && chars[a] == '.' {
        let b = after_digits(chars, a + 1);
        (a > i || b > a + 1) && ends_in_exponent(chars, b)
    } else {
        a > i && ends_in_exponent(chars, a)
    }
}

fn reads_word(chars: &Vec<char>, i: usize, word: &str) -> (r: bool)
    requires
        i <= chars@.len(),
    ensures
        r == spelled(chars@, i as nat, word@),
{
    let letters = chars_of(word);
    if chars.len() - i != letters.len() {
        return false;
    }
    let mut k: usize = 0;
    while k < letters.len()
        invariant
            k <= letters@.len(),
            letters@ == word@,
            chars@.len() == i + letters@.len(),
            chars@.len() <= usize::MAX,
            forall|j: int| 0 <= j < k ==> same_letter(chars@[i + j], #[trigger] word@[j]),
        decreases letters@.len() - k,
    {
        let c = chars[i + k];
        let w = letters[k];
        if !(c == w || ('A' <= c && c <= 'Z' && c as u32 + 32 == w as u32)) {
            assert(!same_letter(chars@[i + k], word@[k as int]));
            return false;
        }
        k += 1;
    }
    true
}

/// Does a text stand for a floating-point number?
pub fn reads_float(s: &str) -> (r: bool)
    ensures
        r == is_float(s@),
{
    let chars = chars_of(s);
    let i = after_sign(&chars, 0);
    reads_number(&chars, i) || reads_word(&chars, i, "inf") || reads_word(&chars, i, "infinity")
        || reads_word(&chars, i, "nan")
}

/// A text that stands for a floating-point number.
pub struct FloatText {
    text: String,
}

impl View for FloatText {
    type V = Seq<char>;

    closed spec fn view(&self) -> Seq<char> {
        self.text@
    }
}

impl FloatText {
    #[verifier::type_invariant]
    spec fn inv(self) -> bool {
        is_float(self.text@)
    }

    /// Take `text` as a floating-point number, if it stands for one.
    pub fn new(text: String) -> (r: Option<FloatText>)
        ensures
            match r {
                Some(float) => is_float(text@) && float@ == text@,
                None => !is_float(text@),
            },
    {
        if reads_float(text.as_str()) {
            Some(FloatText { text })
        } else {
            None
        }
    }

    /// The text.
    pub fn as_str(&self) -> (r: &str)
        ensures
            r@ == self@,
            is_float(r@),
    {
        proof {
            use_type_invariant(self);
        }
        self.text.as_str()
    }
}

/// A character that numbers are written with: a digit, a letter, a sign or a point.
pub open spec fn figure_char(c: char) -> bool {
    ||| text::is_digit(c)
    ||| 'a' <= c <= 'z'
    ||| 'A' <= c <= 'Z'
    ||| c == '+'
    ||| c == '-'
    ||| c == '.'
}

proof fn lemma_digits(s: Seq<char>, i: nat)
    requires
        i <= s.len(),
    ensures
        i <= digits_end(s, i) <= s.len(),
        forall|k: int| i <= k < digits_end(s, i) ==> figure_char(#[trigger] s[k]),
    decreases s.len() - i,
{
    if i < s.len() && text::is_digit(s[i as int]) {
        lemma_digits(s, i + 1);
    }
}

proof fn lemma_exponent(s: Seq<char>, i: nat)
    requires
        i <= s.len(),
        is_exponent(s, i),
    ensures
        forall|k: int| i <= k < s.len() ==> figure_char(#[trigger] s[k]),
{
    if i < s.len() {
        lemma_digits(s, sign_end(s, i + 1));
    }
}

proof fn lemma_word(s: Seq<char>, i: nat, word: Seq<char>)
    requires
        i <= s.len(),
        spelled(s, i, word),
        forall|k: int| 0 <= k < word.len() ==> 'a' <= #[trigger] word[k] <= 'z',
    ensures
        forall|k: int| i <= k < s.len() ==> figure_char(#[trigger] s[k]),
{
    assert forall|k: int| i <= k < s.len() implies figure_char(#[trigger] s[k]) by {
        assert('a' <= word[k - i] <= 'z');
        assert(same_letter(s[i + (k - i)], word[k - i]));
    }
}

/// A number is written in digits, letters, signs and points, and at least one of them.
pub proof fn law_floats_are_plain(s: Seq<char>)
    requires
        is_float(s),
    ensures
        s.len() > 0,
        forall|k: int| 0 <= k < s.len() ==> figure_char(#[trigger] s[k]),
{
    let i = sign_end(s, 0);
    reveal_strlit("inf");
    reveal_strlit("infinity");
    reveal_strlit("nan");
    if is_number(s, i) {
        let a = digits_end(s, i);
        lemma_digits(s, i);
        if a < s.len() && s[a as int] == '.' {
            lemma_digits(s, a + 1);
            lemma_exponent(s, digits_end(s, a + 1));
        } else {
            lemma_exponent(s, a);
        }
    } else if spelled(s, i, "inf"@) {
        lemma_word(s, i, "inf"@);
    } else if spelled(s, i, "infinity"@) {
        lemma_word(s, i, "infinity"@);
    } else {
        lemma_word(s, i, "nan"@);
    }
}

// ---------------------------------------------------------------------------------------
// What holds of these texts.
// ---------------------------------------------------------------------------------------

/// `m` is digits with a point in front of, behind or among them or none; at least one digit.
pub open spec fn is_mantissa(m: Seq<char>) -> bool {
    ||| m.len() > 0 && text::all_digits(m)
    ||| exists|a: Seq<char>, b: Seq<char>| #[trigger]
        text::all_digits(a) && #[trigger] text::all_digits(b) && a.len() + b.len() > 0 && m == a
            + seq!['.'] + b
}

/// `head` is a letter `e`, and a sign or none.
pub open spec fn is_power_head(head: Seq<char>) -> bool {
    &&& head.len() == 1 || head.len() == 2
    &&& head[0] == 'e' || head[0] == 'E'
    &&& head.len() == 2 ==> head[1] == '+' || head[1] == '-'
}

/// `e` is nothing, or a letter `e`, a sign or none, and at least one digit.
pub open spec fn is_power(e: Seq<char>) -> bool {
    e.len() == 0 || exists|head: Seq<char>, c: Seq<char>| #[trigger]
        is_power_head(head) && #[trigger] text::all_digits(c) && c.len() > 0 && e == head + c
}

proof fn lemma_digits_run(s: Seq<char>, i: nat)
    requires
        i <= s.len(),
    ensures
        i <= digits_end(s, i) <= s.len(),
        text::all_digits(s.subrange(i as int, digits_end(s, i) as int)),
        digits_end(s, i) < s.len() ==> !text::is_digit(s[digits_end(s, i) as int]),
    decreases s.len() - i,
{
    if i < s.len() && text::is_digit(s[i as int]) {
        lemma_digits_run(s, i + 1);
        let run = s.subrange(i as int, digits_end(s, i) as int);
        let rest = s.subrange(i + 1int, digits_end(s, i) as int);
        assert forall|k: int| 0 <= k < run.len() implies text::is_digit(#[trigger] run[k]) by {
            if k > 0 {
                assert(run[k] == rest[k - 1]);
            }
        }
    }
}

/// Digits end where they do.
proof fn lemma_digits_end_at(s: Seq<char>, i: nat, j: nat)
    requires
        i <= j <= s.len(),
        forall|k: int| i <= k < j ==> text::is_digit(#[trigger] s[k]),
        j < s.len() ==> !text::is_digit(s[j as int]),
    ensures
        digits_end(s, i) == j,
    decreases j - i,
{
    if i < j {
        assert(text::is_digit(s[i as int]));
        lemma_digits_end_at(s, i + 1, j);
    }
}

/// An exponent is a power, and the other way round.
proof fn lemma_exponent_is_power(s: Seq<char>, i: nat)
    requires
        i <= s.len(),
    ensures
        is_exponent(s, i) <==> is_power(s.skip(i as int)),
{
    let e = s.skip(i as int);
    if i < s.len() && is_exponent(s, i) {
        let j = sign_end(s, i + 1);
        lemma_digits_run(s, j);
        let c = s.subrange(j as int, s.len() as int);
        let head = s.subrange(i as int, j as int);
        assert(text::all_digits(c));
        assert(is_power_head(head));
        assert(e =~= head + c);
    }
    if i < s.len() && is_power(e) {
        let (head, c) = choose|head: Seq<char>, c: Seq<char>| #[trigger]
            is_power_head(head) && #[trigger] text::all_digits(c) && c.len() > 0 && e == head + c;
        let n = i + head.len();
        assert(e.len() == head.len() + c.len());
        assert(e[0] == s[i as int] && e[0] == head[0]);
        assert(text::is_digit(c[0]));
        assert forall|k: int| n <= k < s.len() implies text::is_digit(#[trigger] s[k]) by {
            assert(s[k] == e[k - i]);
            assert(text::is_digit(c[k - n]));
        }
        assert(e[1] == s[i + 1int]);
        if n == i + 2 {
            assert(e[1] == head[1]);
        } else {
            assert(e[1] == c[0]);
        }
        assert(sign_end(s, i + 1) == n);
        lemma_digits_end_at(s, n, s.len());
    }
}

proof fn lemma_number_parts(s: Seq<char>, i: nat) -> (parts: (Seq<char>, Seq<char>))
    requires
        i <= s.len(),
        is_number(s, i),
    ensures
        is_mantissa(parts.0),
        is_power(parts.1),
        s.skip(i as int) == parts.0 + parts.1,
{
    let t = s.skip(i as int);
    let a = digits_end(s, i);
    lemma_digits_run(s, i);
    let x = s.subrange(i as int, a as int);
    if a < s.len() && s[a as int] == '.' {
        let b = digits_end(s, a + 1);
        lemma_digits_run(s, a + 1);
        let y = s.subrange(a + 1int, b as int);
        let m = x + seq!['.'] + y;
        assert(text::all_digits(x) && text::all_digits(y));
        assert(is_mantissa(m));
        lemma_exponent_is_power(s, b);
        assert(t =~= m + s.skip(b as int));
        (m, s.skip(b as int))
    } else {
        assert(is_mantissa(x));
        lemma_exponent_is_power(s, a);
        assert(t =~= x + s.skip(a as int));
        (x, s.skip(a as int))
    }
}

proof fn lemma_number_of_parts(s: Seq<char>, i: nat, m: Seq<char>, e: Seq<char>)
    requires
        i <= s.len(),
        is_mantissa(m),
        is_power(e),
        s.skip(i as int) == m + e,
    ensures
        is_number(s, i),
{
    let t = s.skip(i as int);
    let end = i + m.len();
    assert(t.len() == m.len() + e.len());
    assert(s.skip(end as int) =~= e) by {
        assert(t.skip(m.len() as int) =~= e);
        assert(s.skip(end as int) =~= t.skip(m.len() as int));
    }
    lemma_exponent_is_power(s, end);
    if e.len() > 0 {
        assert(s[end as int] == e[0]) by {
            assert(s.skip(end as int)[0] == s[end as int]);
        }
        let (head, c) = choose|head: Seq<char>, c: Seq<char>| #[trigger]
            is_power_head(head) && #[trigger] text::all_digits(c) && c.len() > 0 && e == head + c;
        assert(e[0] == head[0]);
    }
    assert(end < s.len() ==> !text::is_digit(s[end as int]) && s[end as int] != '.');
    if text::all_digits(m) && m.len() > 0 {
        assert forall|k: int| i <= k < end implies text::is_digit(#[trigger] s[k]) by {
            assert(s[k] == t[k - i]);
            assert(text::is_digit(m[k - i]));
        }
        lemma_digits_end_at(s, i, end);
    } else {
        let (x, y) = choose|a: Seq<char>, b: Seq<char>| #[trigger]
            text::all_digits(a) && #[trigger] text::all_digits(b) && a.len() + b.len() > 0 && m == a
                + seq!['.'] + b;
        let p = i + x.len();
        assert(m.len() == x.len() + 1 + y.len());
        assert(s[p as int] == '.') by {
            assert(s[p as int] == t[p - i]);
            assert(m[p - i] == '.');
        }
        assert forall|k: int| i <= k < p implies text::is_digit(#[trigger] s[k]) by {
            assert(s[k] == t[k - i]);
            assert(m[k - i] == x[k - i]);
            assert(text::is_digit(x[k - i]));
        }
        lemma_digits_end_at(s, i, p);
        assert forall|k: int| p + 1 <= k < end implies text::is_digit(#[trigger] s[k]) by {
            assert(s[k] == t[k - i]);
            assert(m[k - i] == y[k - p - 1]);
            assert(text::is_digit(y[k - p - 1]));
        }
        lemma_digits_end_at(s, p + 1, end);
    }
}

/// A number in decimal is a mantissa and an exponent, or no exponent, and every such text is one.
pub proof fn law_numbers_are_mantissa_and_exponent(s: Seq<char>, i: nat)
    requires
        i <= s.len(),
    ensures
        is_number(s, i) <==> exists|m: Seq<char>, e: Seq<char>| #[trigger]
            is_mantissa(m) && #[trigger] is_power(e) && s.skip(i as int) == m + e,
{
    if is_number(s, i) {
        let (m, e) = lemma_number_parts(s, i);
        assert(is_mantissa(m) && is_power(e));
    }
    if exists|m: Seq<char>, e: Seq<char>| #[trigger]
        is_mantissa(m) && #[trigger] is_power(e) && s.skip(i as int) == m + e {
        let (m, e) = choose|m: Seq<char>, e: Seq<char>| #[trigger]
            is_mantissa(m) && #[trigger] is_power(e) && s.skip(i as int) == m + e;
        lemma_number_of_parts(s, i, m, e);
    }
}

/// One sign may stand in front of a number, and changes nothing of its being one; a second may
/// not.
pub proof fn law_one_sign_may_stand_in_front(s: Seq<char>, sign: char)
    requires
        sign == '+' || sign == '-',
    ensures
        s.len() == 0 || (s[0] != '+' && s[0] != '-') ==> is_float(seq![sign] + s) == is_float(s),
        s.len() > 0 && (s[0] == '+' || s[0] == '-') ==> !is_float(seq![sign] + s),
        !is_float(seq![]),
{
    let t = seq![sign] + s;
    reveal_strlit("inf");
    reveal_strlit("infinity");
    reveal_strlit("nan");
    assert(sign_end(t, 0) == 1);
    assert(t.skip(1) =~= s);
    assert(s.skip(0) =~= s);
    law_numbers_are_mantissa_and_exponent(t, 1);
    law_numbers_are_mantissa_and_exponent(s, 0);
    lemma_spelled_behind(sign, s, "inf"@);
    lemma_spelled_behind(sign, s, "infinity"@);
    lemma_spelled_behind(sign, s, "nan"@);
    if s.len() > 0 && (s[0] == '+' || s[0] == '-') {
        assert(t[1] == s[0]);
        assert(digits_end(t, 1) == 1);
        assert(!is_number(t, 1));
        if spelled(s, 0, "inf"@) {
            assert(same_letter(s[0 + 0int], "inf"@[0]));
        }
        if spelled(s, 0, "infinity"@) {
            assert(same_letter(s[0 + 0int], "infinity"@[0]));
        }
        if spelled(s, 0, "nan"@) {
            assert(same_letter(s[0 + 0int], "nan"@[0]));
        }
    }
}

proof fn lemma_spelled_behind(sign: char, s: Seq<char>, word: Seq<char>)
    ensures
        spelled(seq![sign] + s, 1, word) == spelled(s, 0, word),
{
    let t = seq![sign] + s;
    if s.len() == word.len() {
        assert forall|k: int| 0 <= k < word.len() implies same_letter(t[1 + k], #[trigger] word[k])
            == same_letter(s[0 + k], word[k]) by {
            assert(t[1 + k] == s[k]);
        }
        if spelled(t, 1, word) {
            assert forall|k: int| 0 <= k < word.len() implies same_letter(
                s[0 + k],
                #[trigger] word[k],
            ) by {
                assert(same_letter(t[1 + k], word[k]));
            }
        }
        if spelled(s, 0, word) {
            assert forall|k: int| 0 <= k < word.len() implies same_letter(
                t[1 + k],
                #[trigger] word[k],
            ) by {
                assert(same_letter(s[0 + k], word[k]));
            }
        }
    }
}

/// The same letter, small or capital, or the same character.
pub open spec fn same_but_for_case(a: char, b: char) -> bool {
    ||| a == b
    ||| 'A' <= a <= 'Z' && a as u32 + 32 == b as u32
    ||| 'A' <= b <= 'Z' && b as u32 + 32 == a as u32
}

/// A letter is told apart from others whatever its case, and a sign from everything else.
proof fn lemma_letters_by_case(a: char, b: char, letter: char)
    requires
        same_but_for_case(a, b),
        'a' <= letter <= 'z',
    ensures
        same_letter(a, letter) == same_letter(b, letter),
        (a == 'e' || a == 'E') == (b == 'e' || b == 'E'),
        (a == '+') == (b == '+') && (a == '-') == (b == '-') && (a == '.') == (b == '.'),
        text::is_digit(a) == text::is_digit(b),
{
}

proof fn lemma_digits_by_case(s: Seq<char>, t: Seq<char>, i: nat)
    requires
        s.len() == t.len(),
        forall|k: int| 0 <= k < s.len() ==> same_but_for_case(#[trigger] s[k], t[k]),
    ensures
        digits_end(s, i) == digits_end(t, i),
    decreases s.len() - i,
{
    if i < s.len() {
        lemma_letters_by_case(s[i as int], t[i as int], 'e');
        lemma_digits_by_case(s, t, i + 1);
    }
}

proof fn lemma_exponent_by_case(s: Seq<char>, t: Seq<char>, i: nat)
    requires
        s.len() == t.len(),
        forall|k: int| 0 <= k < s.len() ==> same_but_for_case(#[trigger] s[k], t[k]),
    ensures
        sign_end(s, i) == sign_end(t, i),
        is_exponent(s, i) == is_exponent(t, i),
{
    if i < s.len() {
        lemma_letters_by_case(s[i as int], t[i as int], 'e');
    }
    if i + 1 < s.len() {
        lemma_letters_by_case(s[i + 1int], t[i + 1int], 'e');
    }
    lemma_digits_by_case(s, t, sign_end(s, i + 1));
}

proof fn lemma_word_by_case(s: Seq<char>, t: Seq<char>, i: nat, word: Seq<char>)
    requires
        s.len() == t.len(),
        forall|k: int| 0 <= k < s.len() ==> same_but_for_case(#[trigger] s[k], t[k]),
        forall|k: int| 0 <= k < word.len() ==> 'a' <= #[trigger] word[k] <= 'z',
        spelled(s, i, word),
    ensures
        spelled(t, i, word),
{
    assert forall|k: int| 0 <= k < word.len() implies same_letter(t[i + k], #[trigger] word[k]) by {
        assert(same_letter(s[i + k], word[k]));
        lemma_letters_by_case(s[i + k], t[i + k], word[k]);
    }
}

/// Capitals do not matter: of two texts that differ in nothing else, both are numbers or neither
/// is.
pub proof fn law_capitals_do_not_matter(s: Seq<char>, t: Seq<char>)
    requires
        s.len() == t.len(),
        forall|k: int| 0 <= k < s.len() ==> same_but_for_case(#[trigger] s[k], t[k]),
    ensures
        is_float(s) == is_float(t),
{
    assert forall|k: int| 0 <= k < t.len() implies same_but_for_case(#[trigger] t[k], s[k]) by {
        assert(same_but_for_case(s[k], t[k]));
    }
    reveal_strlit("inf");
    reveal_strlit("infinity");
    reveal_strlit("nan");
    lemma_exponent_by_case(s, t, 0);
    let i = sign_end(s, 0);
    lemma_digits_by_case(s, t, i);
    let a = digits_end(s, i);
    if a < s.len() {
        lemma_letters_by_case(s[a as int], t[a as int], 'e');
    }
    lemma_digits_by_case(s, t, a + 1);
    lemma_exponent_by_case(s, t, digits_end(s, a + 1));
    lemma_exponent_by_case(s, t, a);
    assert(is_number(s, i) == is_number(t, i));
    if spelled(s, i, "inf"@) {
        lemma_word_by_case(s, t, i, "inf"@);
    }
    if spelled(s, i, "infinity"@) {
        lemma_word_by_case(s, t, i, "infinity"@);
    }
    if spelled(s, i, "nan"@) {
        lemma_word_by_case(s, t, i, "nan"@);
    }
    if spelled(t, i, "inf"@) {
        lemma_word_by_case(t, s, i, "inf"@);
    }
    if spelled(t, i, "infinity"@) {
        lemma_word_by_case(t, s, i, "infinity"@);
    }
    if spelled(t, i, "nan"@) {
        lemma_word_by_case(t, s, i, "nan"@);
    }
}

/// Without a digit, three words stand for numbers and nothing else does, be it in small letters or
/// capitals.
pub proof fn law_three_words_are_numbers(s: Seq<char>)
    requires
        forall|k: int| 0 <= k < s.len() ==> !('0' <= #[trigger] s[k] <= '9'),
        s.len() > 0 ==> s[0] != '+' && s[0] != '-',
    ensures
        is_float(s) <==> spelled(s, 0, "inf"@) || spelled(s, 0, "infinity"@) || spelled(
            s,
            0,
            "nan"@,
        ),
        s == "inf"@ || s == "infinity"@ || s == "nan"@ ==> is_float(s),
        is_float(s) ==> s.len() == 3 || s.len() == 8,
{
    reveal_strlit("inf");
    reveal_strlit("infinity");
    reveal_strlit("nan");
    assert(sign_end(s, 0) == 0);
    assert(digits_end(s, 0) == 0);
    assert(!is_number(s, 0)) by {
        if s.len() > 0 && s[0] == '.' && s.len() > 1 {
            assert(!text::is_digit(s[1]));
        }
        assert(digits_end(s, 1) == 1);
    }
}

} // verus!
