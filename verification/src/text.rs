//! Text of metric files: white space, decimal digits and unsigned integers.
//!
//! A metric file holds one value as text. Surrounding white space is dropped,
//! and what is left is read as a base-10 unsigned integer: an optional `+`
//! followed by ASCII digits. A text is scanned from the left, and the first
//! character that cannot be accepted decides the failure.

use vstd::prelude::*;

verus! {

/// Whether `c` has the Unicode property `White_Space`.
pub open spec fn is_whitespace(c: char) -> bool {
    let n = c as u32;
    ||| 0x09 <= n <= 0x0d
    ||| n == 0x20
    ||| n == 0x85
    ||| n == 0xa0
    ||| n == 0x1680
    ||| 0x2000 <= n <= 0x200a
    ||| n == 0x2028
    ||| n == 0x2029
    ||| n == 0x202f
    ||| n == 0x205f
    ||| n == 0x3000
}

/// How many characters of white space `s` starts with.
pub open spec fn leading_whitespace(s: Seq<char>) -> nat
    decreases s.len(),
{
    if s.len() > 0 && is_whitespace(s[0]) {
        1 + leading_whitespace(s.drop_first())
    } else {
        0
    }
}

/// How many characters of white space `s` ends with.
pub open spec fn trailing_whitespace(s: Seq<char>) -> nat
    decreases s.len(),
{
    if s.len() > 0 && is_whitespace(s.last()) {
        1 + trailing_whitespace(s.drop_last())
    } else {
        0
    }
}

/// `s` without the white space at its two ends.
pub open spec fn trimmed(s: Seq<char>) -> Seq<char> {
    let rest = s.skip(leading_whitespace(s) as int);
    rest.take(rest.len() - trailing_whitespace(rest))
}

/// Whether every character of `s` is white space.
pub open spec fn all_whitespace(s: Seq<char>) -> bool {
    forall|i: int| 0 <= i < s.len() ==> is_whitespace(#[trigger] s[i])
}

/// Whether `c` is one of the ASCII digits `0` to `9`.
pub open spec fn is_digit(c: char) -> bool {
    0x30 <= c as u32 <= 0x39
}

/// The value of the ASCII digit `c`.
pub open spec fn digit_value(c: char) -> nat
    recommends
        is_digit(c),
{
    (c as u32 - 0x30) as nat
}

/// Whether `s` holds ASCII digits only.
pub open spec fn all_digits(s: Seq<char>) -> bool {
    forall|i: int| 0 <= i < s.len() ==> is_digit(#[trigger] s[i])
}

/// The number that the digits of `s` write in base 10; 0 for the empty text.
pub open spec fn decimal(s: Seq<char>) -> nat
    recommends
        all_digits(s),
    decreases s.len(),
{
    if s.len() == 0 {
        0
    } else {
        decimal(s.drop_last()) * 10 + digit_value(s.last())
    }
}

/// How many ASCII digits `s` starts with.
pub open spec fn leading_digits(s: Seq<char>) -> nat
    decreases s.len(),
{
    if s.len() > 0 && is_digit(s[0]) {
        1 + leading_digits(s.drop_first())
    } else {
        0
    }
}

/// How many ASCII digits `s` ends with.
pub open spec fn trailing_digits(s: Seq<char>) -> nat
    decreases s.len(),
{
    if s.len() > 0 && is_digit(s.last()) {
        1 + trailing_digits(s.drop_last())
    } else {
        0
    }
}

/// The ASCII digit that writes `d`.
pub open spec fn digit_char(d: nat) -> char
    recommends
        d < 10,
{
    ((0x30 + d) as u8) as char
}

/// `n` written in base 10, without leading zeros.
pub open spec fn digits_of(n: nat) -> Seq<char>
    decreases n,
{
    if n < 10 {
        seq![digit_char(n)]
    } else {
        digits_of(n / 10).push(digit_char(n % 10))
    }
}

/// Why a text is not an unsigned integer of the width asked for.
#[derive(Clone, Copy, Debug, PartialEq, Eq, Structural)]
pub enum ParseFailure {
    /// The text is empty.
    Empty,
    /// A character is no digit, or a sign stands alone.
    InvalidDigit,
    /// The digits read so far already exceed the largest value of the type.
    Overflow,
}

impl ParseFailure {
    /// The sentence that describes the failure.
    pub open spec fn description(self) -> Seq<char> {
        match self {
            ParseFailure::Empty => "cannot parse integer from empty string"@,
            ParseFailure::InvalidDigit => "invalid digit found in string"@,
            ParseFailure::Overflow => "number too large to fit in target type"@,
        }
    }

    /// Writes out `description`.
    pub fn describe(self) -> (text: String)
        ensures
            text@ == self.description(),
    {
        match self {
            ParseFailure::Empty => String::from_str("cannot parse integer from empty string"),
            ParseFailure::InvalidDigit => String::from_str("invalid digit found in string"),
            ParseFailure::Overflow => String::from_str("number too large to fit in target type"),
        }
    }
}

/// What `s` says as an unsigned integer no larger than `max`.
///
/// After an optional leading `+` come the digits. The text is a number when
/// there is at least one digit, nothing else, and the value fits. Otherwise
/// the longest run of digits at the start decides: if it already exceeds
/// `max` the failure is `Overflow`, else it is `InvalidDigit`.
pub open spec fn unsigned(s: Seq<char>, max: nat) -> Result<nat, ParseFailure> {
    if s.len() == 0 {
        Err(ParseFailure::Empty)
    } else {
        let body = if s[0] == '+' {
            s.drop_first()
        } else {
            s
        };
        let digits = body.take(leading_digits(body) as int);
        if decimal(digits) > max {
            Err(ParseFailure::Overflow)
        } else if digits.len() < body.len() || body.len() == 0 {
            Err(ParseFailure::InvalidDigit)
        } else {
            Ok(decimal(digits))
        }
    }
}

/// A count of leading white space is settled by the first character that is none.
pub proof fn lemma_leading_whitespace(s: Seq<char>, k: nat)
    requires
        k <= s.len(),
        forall|j: int| 0 <= j < k ==> is_whitespace(#[trigger] s[j]),
        k == s.len() || !is_whitespace(s[k as int]),
    ensures
        leading_whitespace(s) == k,
    decreases k,
{
    if k > 0 {
        let rest = s.drop_first();
        assert forall|j: int| 0 <= j < k - 1 implies is_whitespace(#[trigger] rest[j]) by {
            assert(rest[j] == s[j + 1]);
        }
        lemma_leading_whitespace(rest, (k - 1) as nat);
    }
}

/// A count of trailing white space is settled by the last character that is none.
pub proof fn lemma_trailing_whitespace(s: Seq<char>, k: nat)
    requires
        k <= s.len(),
        forall|j: int| s.len() - k <= j < s.len() ==> is_whitespace(#[trigger] s[j]),
        k == s.len() || !is_whitespace(s[s.len() - k - 1]),
    ensures
        trailing_whitespace(s) == k,
    decreases k,
{
    if k > 0 {
        let rest = s.drop_last();
        assert forall|j: int| rest.len() - (k - 1) <= j < rest.len() implies is_whitespace(
            #[trigger] rest[j],
        ) by {
            assert(rest[j] == s[j]);
        }
        lemma_trailing_whitespace(rest, (k - 1) as nat);
    }
}

/// Trimming cuts a text into white space, what is kept, and white space; what
/// is kept neither starts nor ends with white space, and it is empty exactly
/// when the text holds white space only.
pub proof fn lemma_trimmed(s: Seq<char>)
    ensures
        s == s.take(leading_whitespace(s) as int) + trimmed(s) + s.skip(
            (leading_whitespace(s) + trimmed(s).len()) as int,
        ),
        all_whitespace(s.take(leading_whitespace(s) as int)),
        all_whitespace(s.skip((leading_whitespace(s) + trimmed(s).len()) as int)),
        trimmed(s).len() > 0 ==> !is_whitespace(trimmed(s)[0]) && !is_whitespace(trimmed(s).last()),
        trimmed(s).len() == 0 <==> all_whitespace(s),
{
    lemma_whitespace_ends(s);
    let a = leading_whitespace(s);
    let rest = s.skip(a as int);
    lemma_whitespace_ends(rest);
    let b = trailing_whitespace(rest);
    let kept = trimmed(s);
    assert(kept == rest.take(rest.len() - b));
    if a == s.len() {
        assert(all_whitespace(s)) by {
            assert(s.take(a as int) == s);
        }
    } else {
        assert(!is_whitespace(rest[0]));
        assert(b < rest.len()) by {
            if b == rest.len() {
                assert(rest.skip(0) == rest);
                assert(is_whitespace(rest.skip(0)[0]));
            }
        }
        assert(kept[0] == rest[0]);
        assert(kept.last() == rest[rest.len() - b - 1]);
        assert(!all_whitespace(s)) by {
            assert(s[a as int] == rest[0]);
        }
    }
    let tail = s.skip((a + kept.len()) as int);
    assert(tail == rest.skip(rest.len() - b));
    assert(s == s.take(a as int) + kept + tail);
}

/// The white space counted at the two ends of a text is white space, and what
/// stands next to it is none.
pub proof fn lemma_whitespace_ends(s: Seq<char>)
    ensures
        leading_whitespace(s) <= s.len(),
        trailing_whitespace(s) <= s.len(),
        all_whitespace(s.take(leading_whitespace(s) as int)),
        all_whitespace(s.skip(s.len() - trailing_whitespace(s))),
        leading_whitespace(s) < s.len() ==> !is_whitespace(s[leading_whitespace(s) as int]),
        trailing_whitespace(s) < s.len() ==> !is_whitespace(
            s[s.len() - trailing_whitespace(s) - 1],
        ),
    decreases s.len(),
{
    if s.len() > 0 && is_whitespace(s[0]) {
        let rest = s.drop_first();
        lemma_whitespace_ends(rest);
        let k = leading_whitespace(s);
        let head = s.take(k as int);
        assert forall|i: int| 0 <= i < head.len() implies is_whitespace(#[trigger] head[i]) by {
            if i > 0 {
                assert(head[i] == rest.take(k - 1)[i - 1]);
            }
        }
        if k < s.len() {
            assert(s[k as int] == rest[k - 1]);
        }
    } else {
        assert(s.take(0) =~= Seq::<char>::empty());
    }
    if s.len() > 0 && is_whitespace(s.last()) {
        let rest = s.drop_last();
        lemma_whitespace_ends(rest);
        let k = trailing_whitespace(s);
        let tail = s.skip(s.len() - k);
        assert forall|i: int| 0 <= i < tail.len() implies is_whitespace(#[trigger] tail[i]) by {
            if i < tail.len() - 1 {
                assert(tail[i] == rest.skip(rest.len() - (k - 1))[i]);
            }
        }
        if k < s.len() {
            assert(s[s.len() - k - 1] == rest[rest.len() - (k - 1) - 1]);
        }
    } else {
        assert(s.skip(s.len() as int) =~= Seq::<char>::empty());
    }
}

/// The leading digits are digits, and what follows them is none.
pub proof fn lemma_leading_digits(s: Seq<char>)
    ensures
        leading_digits(s) <= s.len(),
        all_digits(s.take(leading_digits(s) as int)),
        leading_digits(s) < s.len() ==> !is_digit(s[leading_digits(s) as int]),
    decreases s.len(),
{
    if s.len() > 0 && is_digit(s[0]) {
        let rest = s.drop_first();
        lemma_leading_digits(rest);
        let k = leading_digits(s);
        assert forall|i: int| 0 <= i < k implies is_digit(#[trigger] s.take(k as int)[i]) by {
            if i > 0 {
                assert(s.take(k as int)[i] == rest.take(k - 1)[i - 1]);
            }
        }
        if k < s.len() {
            assert(s[k as int] == rest[k - 1]);
        }
    }
}

/// A count of leading digits is settled by the first character that is none.
pub proof fn lemma_leading_digits_is(s: Seq<char>, k: nat)
    requires
        k <= s.len(),
        forall|j: int| 0 <= j < k ==> is_digit(#[trigger] s[j]),
        k == s.len() || !is_digit(s[k as int]),
    ensures
        leading_digits(s) == k,
    decreases k,
{
    if k > 0 {
        let rest = s.drop_first();
        assert forall|j: int| 0 <= j < k - 1 implies is_digit(#[trigger] rest[j]) by {
            assert(rest[j] == s[j + 1]);
        }
        lemma_leading_digits_is(rest, (k - 1) as nat);
    }
}

/// Digits at the start are counted among the leading digits.
pub proof fn lemma_leading_digits_at_least(s: Seq<char>, k: nat)
    requires
        k <= s.len(),
        forall|j: int| 0 <= j < k ==> is_digit(#[trigger] s[j]),
    ensures
        leading_digits(s) >= k,
    decreases k,
{
    if k > 0 {
        let rest = s.drop_first();
        assert forall|j: int| 0 <= j < k - 1 implies is_digit(#[trigger] rest[j]) by {
            assert(rest[j] == s[j + 1]);
        }
        lemma_leading_digits_at_least(rest, (k - 1) as nat);
    }
}

/// The trailing digits are digits, and what stands before them is none.
pub proof fn lemma_trailing_digits(s: Seq<char>)
    ensures
        trailing_digits(s) <= s.len(),
        all_digits(s.skip(s.len() - trailing_digits(s))),
        trailing_digits(s) < s.len() ==> !is_digit(s[s.len() - trailing_digits(s) - 1]),
    decreases s.len(),
{
    if s.len() > 0 && is_digit(s.last()) {
        let rest = s.drop_last();
        lemma_trailing_digits(rest);
        let k = trailing_digits(s);
        let tail = s.skip(s.len() - k);
        assert forall|i: int| 0 <= i < tail.len() implies is_digit(#[trigger] tail[i]) by {
            if i < tail.len() - 1 {
                assert(tail[i] == rest.skip(rest.len() - (k - 1))[i]);
            }
        }
        if k < s.len() {
            assert(s[s.len() - k - 1] == rest[rest.len() - (k - 1) - 1]);
        }
    }
}

/// A count of trailing digits is settled by the last character that is none.
pub proof fn lemma_trailing_digits_is(s: Seq<char>, k: nat)
    requires
        k <= s.len(),
        forall|j: int| s.len() - k <= j < s.len() ==> is_digit(#[trigger] s[j]),
        k == s.len() || !is_digit(s[s.len() - k - 1]),
    ensures
        trailing_digits(s) == k,
    decreases k,
{
    if k > 0 {
        let rest = s.drop_last();
        assert forall|j: int| rest.len() - (k - 1) <= j < rest.len() implies is_digit(
            #[trigger] rest[j],
        ) by {
            assert(rest[j] == s[j]);
        }
        lemma_trailing_digits_is(rest, (k - 1) as nat);
    }
}

/// Reading one more digit multiplies by ten and adds the digit.
pub proof fn lemma_decimal_step(s: Seq<char>, i: int)
    requires
        0 <= i < s.len(),
    ensures
        decimal(s.take(i + 1)) == decimal(s.take(i)) * 10 + digit_value(s[i]),
{
    assert(s.take(i + 1).drop_last() == s.take(i));
}

/// A longer run of digits never writes a smaller number.
pub proof fn lemma_decimal_grows(s: Seq<char>, i: int, j: int)
    requires
        0 <= i <= j <= s.len(),
    ensures
        decimal(s.take(i)) <= decimal(s.take(j)),
    decreases j - i,
{
    if i < j {
        lemma_decimal_grows(s, i, j - 1);
        lemma_decimal_step(s, j - 1);
    }
}

/// A text is a number exactly when it is an optional `+`, then one digit or
/// more and nothing else, with a value that fits; the number is that value.
pub proof fn lemma_unsigned_ok(s: Seq<char>, max: nat)
    ensures
        unsigned(s, max) is Ok <==> {
            let body = if s.len() > 0 && s[0] == '+' {
                s.drop_first()
            } else {
                s
            };
            body.len() > 0 && all_digits(body) && decimal(body) <= max
        },
        unsigned(s, max) matches Ok(v) ==> v <= max && v == decimal(
            if s[0] == '+' {
                s.drop_first()
            } else {
                s
            },
        ),
{
    if s.len() > 0 {
        let body = if s[0] == '+' {
            s.drop_first()
        } else {
            s
        };
        lemma_leading_digits(body);
        let k = leading_digits(body);
        if k == body.len() {
            assert(body.take(k as int) == body);
        } else {
            assert(!is_digit(body[k as int]));
        }
        if all_digits(body) {
            lemma_leading_digits_is(body, body.len());
        }
    }
}

/// What is written in base 10 reads back as the same number.
pub proof fn lemma_digits_of(n: nat)
    ensures
        digits_of(n).len() > 0,
        all_digits(digits_of(n)),
        decimal(digits_of(n)) == n,
    decreases n,
{
    if n < 10 {
        assert(digits_of(n).drop_last() =~= Seq::<char>::empty());
        assert(decimal(digits_of(n).drop_last()) == 0);
    } else {
        lemma_digits_of(n / 10);
        assert(digits_of(n).drop_last() =~= digits_of(n / 10));
    }
}

/// A number that fits is read back from what writes it in base 10.
pub proof fn lemma_unsigned_digits_of(n: nat, max: nat)
    requires
        n <= max,
    ensures
        unsigned(digits_of(n), max) == Ok::<nat, ParseFailure>(n),
{
    lemma_digits_of(n);
    lemma_unsigned_ok(digits_of(n), max);
}

/// Decides `is_whitespace`.
pub fn whitespace(c: char) -> (b: bool)
    ensures
        b == is_whitespace(c),
{
    let n: u32 = c as u32;
    (0x09 <= n && n <= 0x0d) || n == 0x20 || n == 0x85 || n == 0xa0 || n == 0x1680 || (0x2000 <= n
        && n <= 0x200a) || n == 0x2028 || n == 0x2029 || n == 0x202f || n == 0x205f || n == 0x3000
}

/// The value of `c` where it is an ASCII digit.
pub fn digit(c: char) -> (d: Option<u8>)
    ensures
        d is Some <==> is_digit(c),
        d matches Some(v) ==> v == digit_value(c),
{
    let n: u32 = c as u32;
    if 0x30 <= n && n <= 0x39 {
        Some((n - 0x30) as u8)
    } else {
        None
    }
}

/// The characters of `s`, in order.
pub fn chars_of(s: &str) -> (v: Vec<char>)
    ensures
        v@ == s@,
{
    broadcast use vstd::string::group_string_axioms;

    let mut v: Vec<char> = Vec::new();
    for c in it: s.chars()
        invariant
            it.seq() == s@,
            v@ == s@.take(it.index() as int),
    {
        v.push(c);
    }
    v
}

/// `s` without the white space at its two ends.
pub fn trim(s: &str) -> (t: String)
    ensures
        t@ == trimmed(s@),
{
    let chars = chars_of(s);
    let n: usize = chars.len();
    let mut start: usize = 0;
    while start < n && whitespace(chars[start])
        invariant
            start <= n,
            n == chars@.len(),
            forall|j: int| 0 <= j < start ==> is_whitespace(#[trigger] chars@[j]),
        decreases n - start,
    {
        start += 1;
    }
    let mut end: usize = n;
    while end > start && whitespace(chars[end - 1])
        invariant
            start <= end <= n,
            n == chars@.len(),
            forall|j: int| end <= j < n ==> is_whitespace(#[trigger] chars@[j]),
        decreases end,
    {
        end -= 1;
    }
    proof {
        lemma_leading_whitespace(s@, start as nat);
        let rest = s@.skip(start as int);
        assert forall|j: int| rest.len() - (n - end) <= j < rest.len() implies is_whitespace(
            #[trigger] rest[j],
        ) by {
            assert(rest[j] == s@[j + start]);
        }
        lemma_trailing_whitespace(rest, (n - end) as nat);
        assert(s@.subrange(start as int, end as int) == rest.take(rest.len() - (n - end)));
    }
    s.substring_char(start, end).to_owned()
}

/// Reads the digits `chars[from..to]` as a number no larger than `max`.
///
/// `None` where one of them is no digit or the value exceeds `max`.
pub fn digits_value(chars: &Vec<char>, from: usize, to: usize, max: u64) -> (value: Option<u64>)
    requires
        from <= to <= chars.len(),
    ensures
        value is Some <==> all_digits(chars@.subrange(from as int, to as int)) && decimal(
            chars@.subrange(from as int, to as int),
        ) <= max,
        value matches Some(v) ==> v == decimal(chars@.subrange(from as int, to as int)),
{
    let ghost run = chars@.subrange(from as int, to as int);
    let mut i: usize = from;
    let mut acc: u64 = 0;
    while i < to
        invariant
            from <= i <= to <= chars.len(),
            run == chars@.subrange(from as int, to as int),
            acc == decimal(run.take(i - from)),
            acc <= max,
            forall|j: int| 0 <= j < i - from ==> is_digit(#[trigger] run[j]),
        decreases to - i,
    {
        proof {
            lemma_decimal_step(run, i - from);
            lemma_decimal_grows(run, i - from + 1, run.len() as int);
            assert(run.take(run.len() as int) == run);
        }
        match digit(chars[i]) {
            None => {
                assert(!is_digit(run[i - from]));
                return None;
            },
            Some(d) => {
                if d as u64 > max || acc > (max - d as u64) / 10 {
                    return None;
                }
                acc = acc * 10 + d as u64;
            },
        }
        i += 1;
    }
    proof {
        assert(run.take(run.len() as int) == run);
    }
    Some(acc)
}

/// Reads `chars` as an unsigned integer no larger than `max`.
pub fn parse_unsigned(chars: &Vec<char>, max: u64) -> (r: Result<u64, ParseFailure>)
    ensures
        match r {
            Ok(v) => unsigned(chars@, max as nat) == Ok::<nat, ParseFailure>(v as nat),
            Err(e) => unsigned(chars@, max as nat) == Err::<nat, ParseFailure>(e),
        },
{
    let n: usize = chars.len();
    if n == 0 {
        return Err(ParseFailure::Empty);
    }
    let start: usize = if chars[0] == '+' {
        1
    } else {
        0
    };
    let ghost body = chars@.skip(start as int);
    assert(body == if chars@[0] == '+' {
        chars@.drop_first()
    } else {
        chars@
    });
    let mut i: usize = start;
    let mut acc: u64 = 0;
    while i < n
        invariant
            start <= i <= n,
            n == chars@.len(),
            n > 0,
            body == if chars@[0] == '+' {
                chars@.drop_first()
            } else {
                chars@
            },
            body.len() == n - start,
            acc == decimal(body.take(i - start)),
            acc <= max,
            forall|j: int| 0 <= j < i - start ==> is_digit(#[trigger] body[j]),
        decreases n - i,
    {
        proof {
            lemma_decimal_step(body, i - start);
        }
        match digit(chars[i]) {
            None => {
                proof {
                    assert(!is_digit(body[i - start]));
                    lemma_leading_digits_is(body, (i - start) as nat);
                }
                return Err(ParseFailure::InvalidDigit);
            },
            Some(d) => {
                if d as u64 > max || acc > (max - d as u64) / 10 {
                    proof {
                        lemma_leading_digits_at_least(body, (i - start + 1) as nat);
                        lemma_leading_digits(body);
                        lemma_decimal_grows(
                            body.take(leading_digits(body) as int),
                            i - start + 1,
                            leading_digits(body) as int,
                        );
                        assert(body.take(leading_digits(body) as int).take(i - start + 1)
                            == body.take(i - start + 1));
                        assert(body.take(leading_digits(body) as int).take(
                            leading_digits(body) as int,
                        ) == body.take(leading_digits(body) as int));
                    }
                    return Err(ParseFailure::Overflow);
                }
                acc = acc * 10 + d as u64;
            },
        }
        i += 1;
    }
    proof {
        lemma_leading_digits_is(body, body.len());
        assert(body.take(body.len() as int) == body);
    }
    if i == start {
        Err(ParseFailure::InvalidDigit)
    } else {
        Ok(acc)
    }
}

/// The ASCII digit that writes `d`, as a text of one character.
fn digit_text(d: u8) -> (text: &'static str)
    requires
        d < 10,
    ensures
        text@ == seq![digit_char(d as nat)],
{
    proof {
        reveal_strlit("0");
        reveal_strlit("1");
        reveal_strlit("2");
        reveal_strlit("3");
        reveal_strlit("4");
        reveal_strlit("5");
        reveal_strlit("6");
        reveal_strlit("7");
        reveal_strlit("8");
        reveal_strlit("9");
    }
    let text = if d == 0 {
        "0"
    } else if d == 1 {
        "1"
    } else if d == 2 {
        "2"
    } else if d == 3 {
        "3"
    } else if d == 4 {
        "4"
    } else if d == 5 {
        "5"
    } else if d == 6 {
        "6"
    } else if d == 7 {
        "7"
    } else if d == 8 {
        "8"
    } else {
        "9"
    };
    assert(text@ =~= seq![digit_char(d as nat)]);
    text
}

/// `n` written in base 10, without leading zeros.
pub fn decimal_text(n: u64) -> (text: String)
    ensures
        text@ == digits_of(n as nat),
    decreases n,
{
    if n < 10 {
        String::from_str(digit_text(n as u8))
    } else {
        let mut text = decimal_text(n / 10);
        text.append(digit_text((n % 10) as u8));
        text
    }
}

/// Reads `text` as an unsigned integer of 64 bits.
pub fn parse_u64(text: &str) -> (r: Result<u64, ParseFailure>)
    ensures
        match r {
            Ok(v) => unsigned(text@, u64::MAX as nat) == Ok::<nat, ParseFailure>(v as nat),
            Err(e) => unsigned(text@, u64::MAX as nat) == Err::<nat, ParseFailure>(e),
        },
{
    let chars = chars_of(text);
    parse_unsigned(&chars, u64::MAX)
}

/// Reads `text` as an unsigned integer of 8 bits.
pub fn parse_u8(text: &str) -> (r: Result<u8, ParseFailure>)
    ensures
        match r {
            Ok(v) => unsigned(text@, u8::MAX as nat) == Ok::<nat, ParseFailure>(v as nat),
            Err(e) => unsigned(text@, u8::MAX as nat) == Err::<nat, ParseFailure>(e),
        },
{
    let chars = chars_of(text);
    match parse_unsigned(&chars, 255) {
        Ok(v) => Ok(v as u8),
        Err(e) => Err(e),
    }
}

} // verus!
