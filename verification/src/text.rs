//! Text as sequences of characters: the operations on strings that the rest
//! of the library is stated in.
use vstd::prelude::*;

verus! {

/// `String::push` appends one character.
pub assume_specification[ String::push ](text: &mut String, c: char)
    ensures
        final(text)@ == old(text)@.push(c),
;

/// `s` in upper case, as Unicode maps it.
pub uninterp spec fn upper_case(s: Seq<char>) -> Seq<char>;

/// `str::to_uppercase`. What it gives is determined by the characters of
/// `text`; ASCII text is mapped letter by letter.
#[verifier::external_body]
fn uppercase(text: &str) -> (upper: String)
    ensures
        upper@ == upper_case(text@),
        vstd::utf8::is_ascii_chars(text@) ==> upper@ == text@.map_values(|c: char| ascii_upper(c)),
{
    text.to_uppercase()
}

/// `text` in upper case. ASCII text is mapped letter by letter.
pub fn to_upper(text: &str) -> (upper: String)
    ensures
        upper@ == upper_case(text@),
        vstd::utf8::is_ascii_chars(text@) ==> upper@ == text@.map_values(|c: char| ascii_upper(c)),
{
    uppercase(text)
}

/// The characters of each of some strings.
pub open spec fn texts(values: Seq<String>) -> Seq<Seq<char>> {
    values.map_values(|value: String| value@)
}

/// The characters of a string that may be missing.
pub open spec fn maybe_text(value: Option<String>) -> Option<Seq<char>> {
    match value {
        Some(value) => Some(value@),
        None => None,
    }
}

/// The characters of `text`, one by one.
pub fn chars_of(text: &str) -> (chars: Vec<char>)
    ensures
        chars@ == text@,
{
    let mut chars: Vec<char> = Vec::new();
    for c in it: text.chars()
        invariant
            chars@ == it.seq().take(it.index() as int),
            it.seq() == text@,
    {
        chars.push(c);
    }
    chars
}

/// The string made of the characters from `from` to `to`.
pub fn text_of(chars: &Vec<char>, from: usize, to: usize) -> (text: String)
    requires
        from <= to <= chars@.len(),
    ensures
        text@ == chars@.subrange(from as int, to as int),
{
    let mut text = String::new();
    let mut i: usize = from;
    while i < to
        invariant
            from <= i <= to <= chars@.len(),
            text@ == chars@.subrange(from as int, i as int),
        decreases to - i,
    {
        text.push(chars[i]);
        i += 1;
    }
    text
}

/// The first `k` characters of `a` and `b` agree, and there `a` ends or has the
/// smaller character.
pub open spec fn text_before_at(a: Seq<char>, b: Seq<char>, k: int) -> bool {
    &&& 0 <= k <= a.len()
    &&& k < b.len()
    &&& forall|i: int| 0 <= i < k ==> a[i] == b[i]
    &&& k == a.len() || a[k] < b[k]
}

/// Whether `a` comes before `b` in the order of their code points, which is
/// also the order of their UTF-8 bytes.
pub open spec fn text_before(a: Seq<char>, b: Seq<char>) -> bool {
    exists|k: int| text_before_at(a, b, k)
}

/// No text comes before itself.
pub proof fn text_before_irreflexive(a: Seq<char>)
    ensures
        !text_before(a, a),
{
}

/// The order of texts is transitive.
pub proof fn text_before_transitive(a: Seq<char>, b: Seq<char>, c: Seq<char>)
    requires
        text_before(a, b),
        text_before(b, c),
    ensures
        text_before(a, c),
{
    let j = choose|k: int| text_before_at(a, b, k);
    let k = choose|k: int| text_before_at(b, c, k);
    let m = if j < k {
        j
    } else {
        k
    };
    assert(text_before_at(a, c, m));
}

/// Of two different texts, one comes before the other.
pub proof fn text_before_total(a: Seq<char>, b: Seq<char>)
    ensures
        text_before(a, b) || text_before(b, a) || a == b,
{
    text_before_total_from(a, b, 0);
}

proof fn text_before_total_from(a: Seq<char>, b: Seq<char>, k: int)
    requires
        0 <= k <= a.len(),
        k <= b.len(),
        forall|i: int| 0 <= i < k ==> a[i] == b[i],
    ensures
        text_before(a, b) || text_before(b, a) || a == b,
    decreases a.len() - k,
{
    if k < a.len() && k < b.len() && a[k] == b[k] {
        text_before_total_from(a, b, k + 1);
    } else if k == a.len() && k == b.len() {
        assert(a =~= b);
    } else if k == a.len() || (k < b.len() && a[k] < b[k]) {
        assert(text_before_at(a, b, k));
    } else {
        assert(text_before_at(b, a, k));
    }
}

/// Where one text stands relative to another.
#[derive(Clone, Copy, PartialEq, Eq, Structural)]
pub enum Place {
    Before,
    Same,
    After,
}

/// Where `a` stands relative to `b` in the order of texts.
pub fn place(a: &str, b: &str) -> (place: Place)
    ensures
        place == Place::Before <==> text_before(a@, b@),
        place == Place::Same <==> a@ == b@,
        place == Place::After <==> text_before(b@, a@),
{
    let left = chars_of(a);
    let right = chars_of(b);
    let mut i: usize = 0;
    while i < left.len() && i < right.len() && left[i] == right[i]
        invariant
            i <= left@.len(),
            i <= right@.len(),
            forall|j: int| 0 <= j < i ==> left@[j] == right@[j],
        decreases left@.len() - i,
    {
        i += 1;
    }
    let found = if i == left.len() && i == right.len() {
        proof {
            assert(left@ =~= right@);
        }
        Place::Same
    } else if i == left.len() || (i < right.len() && left[i] < right[i]) {
        proof {
            assert(text_before_at(left@, right@, i as int));
        }
        Place::Before
    } else {
        proof {
            assert(text_before_at(right@, left@, i as int));
        }
        Place::After
    };
    proof {
        text_before_irreflexive(left@);
        text_before_irreflexive(right@);
        if text_before(left@, right@) && text_before(right@, left@) {
            text_before_transitive(left@, right@, left@);
        }
    }
    found
}

/// Whether two strings hold the same characters.
pub fn same_text(a: &str, b: &str) -> (same: bool)
    ensures
        same == (a@ == b@),
{
    match place(a, b) {
        Place::Same => true,
        _ => false,
    }
}

/// Whether two lists hold the same strings in the same order.
pub fn same_texts(a: &Vec<String>, b: &Vec<String>) -> (same: bool)
    ensures
        same == (texts(a@) == texts(b@)),
{
    if a.len() != b.len() {
        proof {
            assert(texts(a@).len() != texts(b@).len());
        }
        return false;
    }
    let mut i: usize = 0;
    while i < a.len()
        invariant
            i <= a@.len() == b@.len(),
            forall|j: int| 0 <= j < i ==> #[trigger] a@[j]@ == b@[j]@,
        decreases a@.len() - i,
    {
        if !same_text(a[i].as_str(), b[i].as_str()) {
            proof {
                assert(texts(a@)[i as int] != texts(b@)[i as int]);
            }
            return false;
        }
        i += 1;
    }
    proof {
        assert(texts(a@) =~= texts(b@));
    }
    true
}

/// Whether `c` has the Unicode property White_Space.
pub open spec fn white_space(c: char) -> bool {
    ||| '\u{9}' <= c <= '\u{d}'
    ||| c == '\u{20}'
    ||| c == '\u{85}'
    ||| c == '\u{a0}'
    ||| c == '\u{1680}'
    ||| '\u{2000}' <= c <= '\u{200a}'
    ||| c == '\u{2028}'
    ||| c == '\u{2029}'
    ||| c == '\u{202f}'
    ||| c == '\u{205f}'
    ||| c == '\u{3000}'
}

/// Whether `c` is white space.
pub fn is_white_space(c: char) -> (yes: bool)
    ensures
        yes == white_space(c),
{
    ('\u{9}' <= c && c <= '\u{d}') || c == '\u{20}' || c == '\u{85}' || c == '\u{a0}'
        || c == '\u{1680}' || ('\u{2000}' <= c && c <= '\u{200a}') || c == '\u{2028}'
        || c == '\u{2029}' || c == '\u{202f}' || c == '\u{205f}' || c == '\u{3000}'
}

/// `s` without the characters at its start that satisfy `drop`.
pub open spec fn stripped_start(s: Seq<char>, drop: spec_fn(char) -> bool) -> Seq<char>
    decreases s.len(),
{
    if s.len() > 0 && drop(s[0]) {
        stripped_start(s.drop_first(), drop)
    } else {
        s
    }
}

/// `s` without the characters at its end that satisfy `drop`.
pub open spec fn stripped_end(s: Seq<char>, drop: spec_fn(char) -> bool) -> Seq<char>
    decreases s.len(),
{
    if s.len() > 0 && drop(s.last()) {
        stripped_end(s.drop_last(), drop)
    } else {
        s
    }
}

/// `s` without white space at either end.
pub open spec fn trimmed(s: Seq<char>) -> Seq<char> {
    let white = |c: char| white_space(c);
    stripped_end(stripped_start(s, white), white)
}

/// Stripping the start takes `i` characters where those and no more satisfy
/// `drop`.
pub proof fn lemma_stripped_start(s: Seq<char>, drop: spec_fn(char) -> bool, i: int)
    requires
        0 <= i <= s.len(),
        forall|j: int| 0 <= j < i ==> #[trigger] drop(s[j]),
        i < s.len() ==> !drop(s[i]),
    ensures
        stripped_start(s, drop) == s.skip(i),
    decreases i,
{
    if i > 0 {
        let rest = s.drop_first();
        assert forall|j: int| 0 <= j < i - 1 implies #[trigger] drop(rest[j]) by {
            assert(drop(s[j + 1]));
        }
        assert(drop(s[0]));
        lemma_stripped_start(rest, drop, i - 1);
        assert(rest.skip(i - 1) =~= s.skip(i));
    } else {
        assert(s.skip(0) =~= s);
    }
}

/// Stripping the end leaves `i` characters where those after them and no more
/// satisfy `drop`.
pub proof fn lemma_stripped_end(s: Seq<char>, drop: spec_fn(char) -> bool, i: int)
    requires
        0 <= i <= s.len(),
        forall|j: int| i <= j < s.len() ==> #[trigger] drop(s[j]),
        i > 0 ==> !drop(s[i - 1]),
    ensures
        stripped_end(s, drop) == s.take(i),
    decreases s.len() - i,
{
    if i < s.len() {
        let rest = s.drop_last();
        assert(drop(s[s.len() - 1]));
        assert forall|j: int| i <= j < rest.len() implies #[trigger] drop(rest[j]) by {
            assert(drop(s[j]));
        }
        lemma_stripped_end(rest, drop, i);
        assert(rest.take(i) =~= s.take(i));
    } else {
        assert(s.take(i) =~= s);
    }
}

proof fn lemma_stripped_start_first(s: Seq<char>, drop: spec_fn(char) -> bool)
    ensures
        stripped_start(s, drop).len() > 0 ==> !drop(stripped_start(s, drop)[0]),
    decreases s.len(),
{
    if s.len() > 0 && drop(s[0]) {
        lemma_stripped_start_first(s.drop_first(), drop);
    }
}

/// What is left after stripping the end: the start of `s`, up to a character
/// that stays.
pub proof fn lemma_stripped_end_prefix(s: Seq<char>, drop: spec_fn(char) -> bool)
    ensures
        stripped_end(s, drop).len() <= s.len(),
        stripped_end(s, drop) == s.take(stripped_end(s, drop).len() as int),
        stripped_end(s, drop).len() > 0 ==> !drop(stripped_end(s, drop).last()),
    decreases s.len(),
{
    if s.len() > 0 && drop(s.last()) {
        lemma_stripped_end_prefix(s.drop_last(), drop);
        let n = stripped_end(s, drop).len() as int;
        assert(s.drop_last().take(n) =~= s.take(n));
    } else {
        assert(s.take(s.len() as int) =~= s);
    }
}

/// What is left after trimming neither starts nor ends with white space.
pub proof fn lemma_trimmed_ends(s: Seq<char>)
    ensures
        trimmed(s).len() > 0 ==> !white_space(trimmed(s)[0]) && !white_space(trimmed(s).last()),
{
    let white = |c: char| white_space(c);
    let inner = stripped_start(s, white);
    lemma_stripped_start_first(s, white);
    lemma_stripped_end_prefix(inner, white);
}

/// `text` without white space at either end.
pub fn trim(text: &str) -> (result: String)
    ensures
        result@ == trimmed(text@),
{
    let chars = chars_of(text);
    let ghost white = |c: char| white_space(c);
    let mut from: usize = 0;
    while from < chars.len() && is_white_space(chars[from])
        invariant
            from <= chars@.len(),
            white == |c: char| white_space(c),
            forall|j: int| 0 <= j < from ==> #[trigger] white(chars@[j]),
        decreases chars@.len() - from,
    {
        proof {
            assert(white(chars@[from as int]));
        }
        from += 1;
    }
    proof {
        lemma_stripped_start(chars@, white, from as int);
    }
    let ghost rest = chars@.skip(from as int);
    let mut to: usize = chars.len();
    while from < to && is_white_space(chars[to - 1])
        invariant
            from <= to <= chars@.len(),
            rest == chars@.skip(from as int),
            white == |c: char| white_space(c),
            forall|j: int| to - from <= j < rest.len() ==> #[trigger] white(rest[j]),
        decreases to - from,
    {
        proof {
            assert(white(rest[to - from - 1]));
        }
        to -= 1;
    }
    proof {
        lemma_stripped_end(rest, white, to - from);
        assert(rest.take(to - from) =~= chars@.subrange(from as int, to as int));
    }
    text_of(&chars, from, to)
}

/// Whether a text holds nothing but white space.
pub open spec fn blank(s: Seq<char>) -> bool {
    trimmed(s).len() == 0
}

/// Whether `text` holds nothing but white space.
pub fn is_blank(text: &str) -> (yes: bool)
    ensures
        yes == blank(text@),
{
    trim(text).as_str().is_empty()
}

/// Whether `c` is one of the ten ASCII digits.
pub open spec fn ascii_digit(c: char) -> bool {
    '0' <= c <= '9'
}

/// Whether `c` is an ASCII letter or digit.
pub open spec fn ascii_alphanumeric(c: char) -> bool {
    ascii_digit(c) || 'a' <= c <= 'z' || 'A' <= c <= 'Z'
}

/// Whether `c` is one of the ten ASCII digits.
pub fn is_ascii_digit(c: char) -> (yes: bool)
    ensures
        yes == ascii_digit(c),
{
    '0' <= c && c <= '9'
}

/// Whether `c` is an ASCII letter or digit.
pub fn is_ascii_alphanumeric(c: char) -> (yes: bool)
    ensures
        yes == ascii_alphanumeric(c),
{
    is_ascii_digit(c) || ('a' <= c && c <= 'z') || ('A' <= c && c <= 'Z')
}

/// `c` in ASCII lower case; other characters are left as they are.
pub open spec fn ascii_lower(c: char) -> char {
    if 'A' <= c <= 'Z' {
        (c as u8 + 32) as char
    } else {
        c
    }
}

/// `c` in ASCII upper case; other characters are left as they are.
pub open spec fn ascii_upper(c: char) -> char {
    if 'a' <= c <= 'z' {
        (c as u8 - 32) as char
    } else {
        c
    }
}

/// `c` in ASCII lower case.
pub fn to_ascii_lower(c: char) -> (lower: char)
    ensures
        lower == ascii_lower(c),
{
    if 'A' <= c && c <= 'Z' {
        (c as u8 + 32) as char
    } else {
        c
    }
}

/// Whether two texts are the same but for the case of ASCII letters.
pub open spec fn same_but_for_case(a: Seq<char>, b: Seq<char>) -> bool {
    &&& a.len() == b.len()
    &&& forall|i: int| 0 <= i < a.len() ==> ascii_lower(#[trigger] a[i]) == ascii_lower(b[i])
}

/// Whether two strings are the same but for the case of ASCII letters.
pub fn same_ignoring_case(a: &str, b: &str) -> (same: bool)
    ensures
        same == same_but_for_case(a@, b@),
{
    let left = chars_of(a);
    let right = chars_of(b);
    if left.len() != right.len() {
        return false;
    }
    let mut i: usize = 0;
    while i < left.len()
        invariant
            i <= left@.len() == right@.len(),
            left@ == a@,
            right@ == b@,
            forall|j: int|
                0 <= j < i ==> ascii_lower(#[trigger] left@[j]) == ascii_lower(right@[j]),
        decreases left@.len() - i,
    {
        if to_ascii_lower(left[i]) != to_ascii_lower(right[i]) {
            proof {
                assert(ascii_lower(a@[i as int]) != ascii_lower(b@[i as int]));
            }
            return false;
        }
        i += 1;
    }
    true
}

/// The character of a decimal digit.
pub open spec fn digit(d: nat) -> char {
    (48 + d) as char
}

/// `n` in decimal, without leading zeros.
pub open spec fn decimal(n: nat) -> Seq<char>
    decreases n,
{
    if n < 10 {
        seq![digit(n)]
    } else {
        decimal(n / 10).push(digit(n % 10))
    }
}

/// `n` in decimal, with a leading zero where it would have one digit only.
pub open spec fn two_digits(n: nat) -> Seq<char> {
    if n < 10 {
        seq!['0'] + decimal(n)
    } else {
        decimal(n)
    }
}

/// `n` in decimal.
pub fn decimal_text(n: u64) -> (text: String)
    ensures
        text@ == decimal(n as nat),
    decreases n,
{
    let last = (48 + (n % 10) as u8) as char;
    if n < 10 {
        let mut text = String::new();
        text.push(last);
        proof {
            assert(text@ =~= seq![digit(n as nat)]);
        }
        text
    } else {
        let mut text = decimal_text(n / 10);
        text.push(last);
        text
    }
}

/// `n` in decimal, with at least two digits.
pub fn two_digit_text(n: u64) -> (text: String)
    ensures
        text@ == two_digits(n as nat),
{
    if n < 10 {
        let mut text = String::new();
        text.push('0');
        text.append(decimal_text(n).as_str());
        proof {
            assert(text@ =~= seq!['0'] + decimal(n as nat));
        }
        text
    } else {
        decimal_text(n)
    }
}

/// The number that a run of decimal digits stands for.
pub open spec fn decimal_value(digits: Seq<char>) -> nat
    decreases digits.len(),
{
    if digits.len() == 0 {
        0
    } else {
        10 * decimal_value(digits.drop_last()) + (digits.last() as nat - 48) as nat
    }
}

/// A number in decimal is made of digits, and stands for the number.
pub proof fn lemma_decimal(n: nat)
    ensures
        decimal(n).len() > 0,
        forall|i: int| 0 <= i < decimal(n).len() ==> ascii_digit(#[trigger] decimal(n)[i]),
        decimal_value(decimal(n)) == n,
    decreases n,
{
    if n < 10 {
        reveal_with_fuel(decimal_value, 2);
        assert(decimal(n).drop_last() =~= seq![]);
    } else {
        lemma_decimal(n / 10);
        assert(decimal(n).drop_last() =~= decimal(n / 10));
    }
}

/// A number with at least two digits is made of digits, and stands for the
/// number.
pub proof fn lemma_two_digits(n: nat)
    ensures
        forall|i: int| 0 <= i < two_digits(n).len() ==> ascii_digit(#[trigger] two_digits(n)[i]),
        decimal_value(two_digits(n)) == n,
{
    lemma_decimal(n);
    if n < 10 {
        reveal_with_fuel(decimal_value, 3);
        assert(two_digits(n) =~= seq!['0', digit(n)]);
        assert(two_digits(n).drop_last() =~= seq!['0']);
        assert(seq!['0'].drop_last() =~= seq![]);
    }
}

/// How many ASCII digits `s` starts with.
pub open spec fn leading_digits(s: Seq<char>) -> nat
    decreases s.len(),
{
    if s.len() > 0 && ascii_digit(s[0]) {
        1 + leading_digits(s.drop_first())
    } else {
        0
    }
}

/// The number that `s` starts with: none where it starts with no digit, or
/// where the number is more than sixteen bits hold.
pub open spec fn leading_number(s: Seq<char>) -> Option<u16> {
    let digits = s.take(leading_digits(s) as int);
    if digits.len() == 0 || decimal_value(digits) > u16::MAX {
        None
    } else {
        Some(decimal_value(digits) as u16)
    }
}

proof fn lemma_leading_digits(s: Seq<char>, n: int)
    requires
        0 <= n <= s.len(),
        forall|j: int| 0 <= j < n ==> ascii_digit(#[trigger] s[j]),
        n < s.len() ==> !ascii_digit(s[n]),
    ensures
        leading_digits(s) == n,
    decreases n,
{
    if n > 0 {
        let rest = s.drop_first();
        assert(ascii_digit(s[0]));
        assert forall|j: int| 0 <= j < n - 1 implies ascii_digit(#[trigger] rest[j]) by {
            assert(ascii_digit(s[j + 1]));
        }
        lemma_leading_digits(rest, n - 1);
    }
}

/// The number that `text` starts with, if it fits.
pub fn leading_number_of(text: &str) -> (number: Option<u16>)
    ensures
        number == leading_number(text@),
{
    let chars = chars_of(text);
    let mut value: u32 = 0;
    let mut fits = true;
    let mut n: usize = 0;
    while n < chars.len() && is_ascii_digit(chars[n])
        invariant
            n <= chars@.len(),
            forall|j: int| 0 <= j < n ==> ascii_digit(#[trigger] chars@[j]),
            fits ==> value <= u16::MAX && value == decimal_value(chars@.take(n as int)),
            !fits ==> decimal_value(chars@.take(n as int)) > u16::MAX,
        decreases chars@.len() - n,
    {
        proof {
            assert(chars@.take(n + 1).drop_last() =~= chars@.take(n as int));
        }
        if fits {
            value = value * 10 + (chars[n] as u32 - 48);
            fits = value <= 65535;
        }
        n += 1;
    }
    proof {
        lemma_leading_digits(chars@, n as int);
    }
    if n == 0 || !fits {
        None
    } else {
        Some(value as u16)
    }
}

/// Some texts, one after the other, with `separator` between them.
pub open spec fn joined(parts: Seq<Seq<char>>, separator: Seq<char>) -> Seq<char>
    decreases parts.len(),
{
    if parts.len() == 0 {
        seq![]
    } else if parts.len() == 1 {
        parts[0]
    } else {
        joined(parts.drop_last(), separator) + separator + parts.last()
    }
}

/// The strings of `parts`, one after the other, with `separator` between them.
pub fn join(parts: &Vec<String>, separator: &str) -> (result: String)
    ensures
        result@ == joined(texts(parts@), separator@),
{
    let mut result = String::new();
    let mut i: usize = 0;
    while i < parts.len()
        invariant
            i <= parts@.len(),
            result@ == joined(texts(parts@).take(i as int), separator@),
        decreases parts@.len() - i,
    {
        if i > 0 {
            result.append(separator);
        }
        result.append(parts[i].as_str());
        i += 1;
        proof {
            let taken = texts(parts@).take(i as int);
            assert(taken.drop_last() =~= texts(parts@).take(i - 1));
            if i == 1 {
                assert(result@ =~= taken[0]);
            }
        }
    }
    proof {
        assert(texts(parts@).take(i as int) =~= texts(parts@));
    }
    result
}

/// `pattern` stands in `s` at position `i`.
pub open spec fn occurs_at(s: Seq<char>, pattern: Seq<char>, i: int) -> bool {
    &&& 0 <= i
    &&& i + pattern.len() <= s.len()
    &&& s.subrange(i, i + pattern.len()) == pattern
}

/// Where `pattern` first stands in `s`, at `from` or later.
pub open spec fn found_from(s: Seq<char>, pattern: Seq<char>, from: int) -> Option<int>
    decreases s.len() + 1 - from,
{
    if from + pattern.len() > s.len() {
        None
    } else if occurs_at(s, pattern, from) {
        Some(from)
    } else {
        found_from(s, pattern, from + 1)
    }
}

/// What a search from `from` finds, and that there is nothing before it.
pub proof fn lemma_found_from(s: Seq<char>, pattern: Seq<char>, from: int)
    requires
        0 <= from,
    ensures
        found_from(s, pattern, from) matches Some(i) ==> from <= i && occurs_at(s, pattern, i) && (
        forall|j: int| from <= j < i ==> !occurs_at(s, pattern, j)),
        found_from(s, pattern, from) is None ==> forall|j: int|
            from <= j ==> !occurs_at(s, pattern, j),
    decreases s.len() + 1 - from,
{
    if from + pattern.len() <= s.len() && !occurs_at(s, pattern, from) {
        lemma_found_from(s, pattern, from + 1);
    }
}

/// Where `pattern` first stands in `chars`, at `from` or later.
pub fn find_from(chars: &Vec<char>, pattern: &Vec<char>, from: usize) -> (found: Option<usize>)
    ensures
        found is Some <==> found_from(chars@, pattern@, from as int) is Some,
        found matches Some(i) ==> found_from(chars@, pattern@, from as int) == Some(i as int),
        found matches Some(i) ==> from <= i && i + pattern@.len() <= chars@.len(),
{
    if pattern.len() > chars.len() {
        return None;
    }
    let len = chars.len();
    let last = len - pattern.len();
    let mut i: usize = from;
    while i <= last
        invariant
            pattern@.len() <= len,
            len == chars@.len(),
            last == len - pattern@.len(),
            from <= i,
            i <= last + 1 || i == from,
            found_from(chars@, pattern@, from as int) == found_from(chars@, pattern@, i as int),
        decreases last + 1 - i,
    {
        let mut k: usize = 0;
        while k < pattern.len() && chars[i + k] == pattern[k]
            invariant
                i <= last,
                last == len - pattern@.len(),
                pattern@.len() <= len,
                len == chars@.len(),
                k <= pattern@.len(),
                forall|j: int| 0 <= j < k ==> chars@[i + j] == pattern@[j],
            decreases pattern@.len() - k,
        {
            k += 1;
        }
        if k == pattern.len() {
            proof {
                assert(chars@.subrange(i as int, i + pattern@.len()) =~= pattern@);
            }
            return Some(i);
        }
        proof {
            assert(chars@.subrange(i as int, i + pattern@.len())[k as int] == chars@[i + k]);
            assert(!occurs_at(chars@, pattern@, i as int));
        }
        if i == last {
            proof {
                assert(found_from(chars@, pattern@, i + 1) is None);
            }
            return None;
        }
        i += 1;
    }
    None
}

/// Whether `pattern` stands anywhere in `s`.
pub open spec fn contains_text(s: Seq<char>, pattern: Seq<char>) -> bool {
    exists|i: int| occurs_at(s, pattern, i)
}

/// Whether `pattern` stands anywhere in `chars`.
pub fn holds(chars: &Vec<char>, pattern: &Vec<char>) -> (yes: bool)
    ensures
        yes == contains_text(chars@, pattern@),
{
    proof {
        lemma_found_from(chars@, pattern@, 0);
    }
    find_from(chars, pattern, 0).is_some()
}

/// `s` with each occurrence of `pattern`, from left to right, replaced.
pub open spec fn replaced(s: Seq<char>, pattern: Seq<char>, with: Seq<char>) -> Seq<char>
    decreases s.len(),
{
    match found_from(s, pattern, 0) {
        Some(i) => if pattern.len() == 0 || i < 0 || i + pattern.len() > s.len() {
            s
        } else {
            s.take(i) + with + replaced(s.skip(i + pattern.len()), pattern, with)
        },
        None => s,
    }
}

/// A search in what is left of a text behind `cut` finds what one in the text does
/// from there on.
pub proof fn lemma_found_from_skip(s: Seq<char>, pattern: Seq<char>, cut: int, from: int)
    requires
        0 <= cut <= s.len(),
        0 <= from,
    ensures
        found_from(s.skip(cut), pattern, from) == match found_from(s, pattern, cut + from) {
            Some(i) => Some(i - cut),
            None => None,
        },
    decreases s.len() + 1 - cut - from,
{
    if cut + from + pattern.len() <= s.len() {
        assert(s.skip(cut).subrange(from, from + pattern.len()) =~= s.subrange(
            cut + from,
            cut + from + pattern.len(),
        ));
        if !occurs_at(s, pattern, cut + from) {
            lemma_found_from_skip(s, pattern, cut, from + 1);
        }
    }
}

/// `text` with each occurrence of `pattern` replaced by `with`.
pub fn replace(text: &str, pattern: &str, with: &str) -> (result: String)
    requires
        pattern@.len() > 0,
    ensures
        result@ == replaced(text@, pattern@, with@),
{
    let chars = chars_of(text);
    let sought = chars_of(pattern);
    let len = chars.len();
    let mut result = String::new();
    let mut from: usize = 0;
    proof {
        assert(chars@.skip(0) =~= chars@);
    }
    loop
        invariant
            from <= chars@.len() == len,
            sought@ == pattern@,
            chars@ == text@,
            pattern@.len() > 0,
            result@ + replaced(chars@.skip(from as int), pattern@, with@) == replaced(
                chars@,
                pattern@,
                with@,
            ),
        decreases chars@.len() - from,
    {
        proof {
            lemma_found_from_skip(chars@, pattern@, from as int, 0);
            lemma_found_from(chars@, pattern@, from as int);
        }
        let ghost rest = chars@.skip(from as int);
        match find_from(&chars, &sought, from) {
            None => {
                result.append(text_of(&chars, from, chars.len()).as_str());
                proof {
                    assert(rest =~= chars@.subrange(from as int, chars@.len() as int));
                }
                return result;
            },
            Some(i) => {
                let ghost before = result@;
                result.append(text_of(&chars, from, i).as_str());
                result.append(with);
                proof {
                    assert(rest.take(i - from) =~= chars@.subrange(from as int, i as int));
                    assert(rest.skip(i - from + pattern@.len()) =~= chars@.skip(
                        i + pattern@.len(),
                    ));
                    assert(before + (rest.take(i - from) + with@ + replaced(
                        chars@.skip(i + pattern@.len()),
                        pattern@,
                        with@,
                    )) =~= result@ + replaced(chars@.skip(i + pattern@.len()), pattern@, with@));
                }
                from = i + sought.len();
            },
        }
    }
}

/// The parts of `s` between the occurrences of `separator`.
pub open spec fn split(s: Seq<char>, separator: char) -> Seq<Seq<char>>
    decreases s.len(),
{
    if s.len() == 0 {
        seq![s]
    } else {
        let before = split(s.drop_last(), separator);
        if s.last() == separator {
            before.push(seq![])
        } else {
            before.update(before.len() - 1, before.last().push(s.last()))
        }
    }
}

/// The parts of `text` between the occurrences of `separator`.
pub fn split_text(text: &str, separator: char) -> (parts: Vec<String>)
    ensures
        texts(parts@) == split(text@, separator),
        parts@.len() >= 1,
{
    let chars = chars_of(text);
    let mut parts: Vec<String> = Vec::new();
    let mut part = String::new();
    let mut i: usize = 0;
    proof {
        assert(chars@.take(0) =~= seq![]);
        assert(texts(parts@).push(part@) =~= seq![chars@.take(0)]);
    }
    while i < chars.len()
        invariant
            i <= chars@.len(),
            texts(parts@).push(part@) == split(chars@.take(i as int), separator),
        decreases chars@.len() - i,
    {
        let ghost before = texts(parts@).push(part@);
        let ghost old_parts = parts@;
        let c = chars[i];
        proof {
            assert(chars@.take(i + 1).drop_last() =~= chars@.take(i as int));
        }
        if c == separator {
            parts.push(part);
            part = String::new();
            proof {
                assert(texts(parts@) =~= before);
                assert(texts(parts@).push(part@) =~= before.push(seq![]));
            }
        } else {
            part.push(c);
            proof {
                assert(texts(parts@).push(part@) =~= before.update(
                    before.len() - 1,
                    before.last().push(c),
                ));
            }
        }
        i += 1;
    }
    let ghost whole = texts(parts@).push(part@);
    parts.push(part);
    proof {
        assert(chars@.take(i as int) =~= chars@);
        assert(texts(parts@) =~= whole);
    }
    parts
}

/// `n` spaces.
pub open spec fn spaces(n: int) -> Seq<char> {
    Seq::new(if n > 0 { n as nat } else { 0 }, |i: int| ' ')
}

/// `s` with spaces after it, up to `width` characters.
pub open spec fn padded(s: Seq<char>, width: int) -> Seq<char> {
    s + spaces(width - s.len())
}

/// `text` with spaces after it, up to `width` characters.
pub fn pad(text: &str, width: usize) -> (result: String)
    ensures
        result@ == padded(text@, width as int),
{
    let mut n = text.unicode_len();
    let mut result = text.to_owned();
    proof {
        assert(result@ =~= text@ + spaces(0));
    }
    while n < width
        invariant
            n <= width || n == text@.len(),
            text@.len() <= n,
            result@ == text@ + spaces(n - text@.len()),
        decreases width - n,
    {
        result.push(' ');
        n += 1;
        proof {
            assert(result@ =~= text@ + spaces(n - text@.len()));
        }
    }
    proof {
        if text@.len() >= width {
            assert(spaces(width - text@.len()) =~= spaces(n - text@.len()));
        }
    }
    result
}

/// Whether `s` starts with `prefix`.
pub open spec fn starts_with(s: Seq<char>, prefix: Seq<char>) -> bool {
    prefix.len() <= s.len() && s.take(prefix.len() as int) == prefix
}

/// `s` without `prefix`, as often as it starts with it.
pub open spec fn without_prefix(s: Seq<char>, prefix: Seq<char>) -> Seq<char>
    decreases s.len(),
{
    if prefix.len() > 0 && starts_with(s, prefix) {
        without_prefix(s.skip(prefix.len() as int), prefix)
    } else {
        s
    }
}

/// `text` without `prefix`, as often as it starts with it.
pub fn strip_prefix(text: &str, prefix: &str) -> (result: String)
    requires
        prefix@.len() > 0,
    ensures
        result@ == without_prefix(text@, prefix@),
{
    let chars = chars_of(text);
    let sought = chars_of(prefix);
    let len = chars.len();
    let mut from: usize = 0;
    proof {
        assert(chars@.skip(0) =~= chars@);
    }
    loop
        invariant
            chars@ == text@,
            sought@ == prefix@,
            prefix@.len() > 0,
            from <= chars@.len() == len,
            without_prefix(chars@.skip(from as int), prefix@) == without_prefix(text@, prefix@),
        decreases chars@.len() - from,
    {
        let ghost rest = chars@.skip(from as int);
        let mut k: usize = 0;
        while k < sought.len() && k < chars.len() - from && chars[from + k] == sought[k]
            invariant
                from <= chars@.len(),
                k <= sought@.len(),
                k <= chars@.len() - from,
                rest == chars@.skip(from as int),
                forall|j: int| 0 <= j < k ==> rest[j] == sought@[j],
            decreases sought@.len() - k,
        {
            k += 1;
        }
        if k < sought.len() {
            proof {
                if starts_with(rest, prefix@) {
                    assert(rest.take(prefix@.len() as int)[k as int] == rest[k as int]);
                }
                assert(rest =~= chars@.subrange(from as int, chars@.len() as int));
            }
            return text_of(&chars, from, chars.len());
        }
        proof {
            assert(rest.take(prefix@.len() as int) =~= prefix@);
            assert(rest.skip(prefix@.len() as int) =~= chars@.skip(from + prefix@.len()));
        }
        from += k;
    }
}

/// How many bytes `c` takes in UTF-8.
pub open spec fn char_bytes(c: char) -> nat {
    if c <= '\u{7f}' {
        1
    } else if c <= '\u{7ff}' {
        2
    } else if c <= '\u{ffff}' {
        3
    } else {
        4
    }
}

/// How many bytes `s` takes in UTF-8.
pub open spec fn byte_len(s: Seq<char>) -> nat
    decreases s.len(),
{
    if s.len() == 0 {
        0
    } else {
        byte_len(s.drop_last()) + char_bytes(s.last())
    }
}

/// As much of the start of `s` as fits in `limit` bytes, in whole characters.
pub open spec fn within(s: Seq<char>, limit: nat) -> Seq<char>
    decreases s.len(),
{
    if byte_len(s) <= limit || s.len() == 0 {
        s
    } else {
        within(s.drop_last(), limit)
    }
}

proof fn lemma_within(s: Seq<char>, limit: nat, n: int)
    requires
        0 <= n <= s.len(),
        byte_len(s.take(n)) <= limit,
        n < s.len() ==> byte_len(s.take(n + 1)) > limit,
    ensures
        within(s, limit) == s.take(n),
    decreases s.len(),
{
    if n == s.len() {
        assert(s.take(n) =~= s);
    } else {
        lemma_byte_len_grows(s, n + 1);
        let front = s.drop_last();
        assert(front.take(n) =~= s.take(n));
        if n + 1 < s.len() {
            assert(front.take(n + 1) =~= s.take(n + 1));
        }
        lemma_within(front, limit, n);
    }
}

/// A start of `s` takes no more bytes than `s`.
pub proof fn lemma_byte_len_grows(s: Seq<char>, n: int)
    requires
        0 <= n <= s.len(),
    ensures
        byte_len(s.take(n)) <= byte_len(s),
    decreases s.len(),
{
    if n == s.len() {
        assert(s.take(n) =~= s);
    } else {
        lemma_byte_len_grows(s.drop_last(), n);
        assert(s.drop_last().take(n) =~= s.take(n));
    }
}

/// What fits in `limit` bytes is a start of `s`, and takes no more than that.
pub proof fn lemma_within_prefix(s: Seq<char>, limit: nat)
    ensures
        within(s, limit).len() <= s.len(),
        within(s, limit) == s.take(within(s, limit).len() as int),
        byte_len(within(s, limit)) <= limit,
    decreases s.len(),
{
    if byte_len(s) <= limit || s.len() == 0 {
        assert(s.take(s.len() as int) =~= s);
    } else {
        lemma_within_prefix(s.drop_last(), limit);
        let n = within(s, limit).len() as int;
        assert(s.drop_last().take(n) =~= s.take(n));
    }
}

/// What fits whole is not cut.
pub proof fn lemma_within_whole(s: Seq<char>, limit: nat)
    requires
        byte_len(s) <= limit,
    ensures
        within(s, limit) == s,
{
}

/// ASCII text takes one byte for each character.
pub proof fn lemma_ascii_bytes(s: Seq<char>)
    requires
        forall|i: int| 0 <= i < s.len() ==> #[trigger] s[i] <= '\u{7f}',
    ensures
        byte_len(s) == s.len(),
    decreases s.len(),
{
    if s.len() > 0 {
        let front = s.drop_last();
        assert forall|i: int| 0 <= i < front.len() implies #[trigger] front[i] <= '\u{7f}' by {
            assert(front[i] == s[i]);
        }
        lemma_ascii_bytes(front);
        assert(s[s.len() - 1] <= '\u{7f}');
    }
}

/// Two texts, one after the other, take as many bytes as both.
pub proof fn lemma_byte_len_add(a: Seq<char>, b: Seq<char>)
    ensures
        byte_len(a + b) == byte_len(a) + byte_len(b),
    decreases b.len(),
{
    if b.len() == 0 {
        assert(a + b =~= a);
    } else {
        assert((a + b).drop_last() =~= a + b.drop_last());
        lemma_byte_len_add(a, b.drop_last());
    }
}

/// How many bytes `c` takes in UTF-8.
fn bytes_of(c: char) -> (n: usize)
    ensures
        n == char_bytes(c),
{
    if c <= '\u{7f}' {
        1
    } else if c <= '\u{7ff}' {
        2
    } else if c <= '\u{ffff}' {
        3
    } else {
        4
    }
}

/// As much of the start of `text` as fits in `limit` bytes, and how many of
/// them it takes.
pub fn take_within(text: &str, limit: usize) -> (start: (String, usize))
    ensures
        start.0@ == within(text@, limit as nat),
        start.1 == byte_len(start.0@),
{
    let chars = chars_of(text);
    let mut used: usize = 0;
    let mut n: usize = 0;
    while n < chars.len() && bytes_of(chars[n]) <= limit - used
        invariant
            n <= chars@.len(),
            used == byte_len(chars@.take(n as int)),
            used <= limit,
        decreases chars@.len() - n,
    {
        proof {
            assert(chars@.take(n + 1).drop_last() =~= chars@.take(n as int));
        }
        used += bytes_of(chars[n]);
        n += 1;
    }
    proof {
        if n < chars@.len() {
            assert(chars@.take(n + 1).drop_last() =~= chars@.take(n as int));
        }
        lemma_within(chars@, limit as nat, n as int);
        assert(chars@.subrange(0, n as int) =~= chars@.take(n as int));
    }
    (text_of(&chars, 0, n), used)
}

/// A copy of some strings.
pub fn copy_all(values: &Vec<String>) -> (copy: Vec<String>)
    ensures
        copy@ == values@,
{
    let mut copy: Vec<String> = Vec::new();
    let mut i: usize = 0;
    while i < values.len()
        invariant
            i <= values@.len(),
            copy@ == values@.take(i as int),
        decreases values@.len() - i,
    {
        copy.push(values[i].clone());
        i += 1;
        proof {
            assert(copy@ =~= values@.take(i as int));
        }
    }
    proof {
        assert(values@.take(i as int) =~= values@);
    }
    copy
}

/// A copy of a string that may be missing.
pub fn copy_maybe(value: &Option<String>) -> (copy: Option<String>)
    ensures
        copy == *value,
{
    match value {
        Some(value) => Some(value.clone()),
        None => None,
    }
}

/// A number in decimal, digit by digit: a number below ten is its digit, each
/// further digit makes ten times the number before it, and no number but zero
/// starts with a zero.
pub proof fn decimal_goes_digit_by_digit(n: nat, d: nat)
    requires
        d < 10,
    ensures
        decimal(d) == seq![('0' as u32 + d) as char],
        n > 0 ==> decimal(10 * n + d) == decimal(n).push(('0' as u32 + d) as char),
        n > 0 ==> decimal(n)[0] != '0',
    decreases n,
{
    if n > 0 {
        assert((10 * n + d) / 10 == n);
        assert((10 * n + d) % 10 == d);
    }
    if n >= 10 {
        decimal_goes_digit_by_digit(n / 10, d);
        lemma_decimal(n / 10);
        assert(decimal(n)[0] == decimal(n / 10)[0]);
    }
}

/// A number below a hundred takes two digits, that of the tens and that of the
/// ones, and every other number as many as it has.
pub proof fn two_digits_are_tens_and_ones(n: nat)
    ensures
        n < 100 ==> two_digits(n) == seq![
            ('0' as u32 + n / 10) as char,
            ('0' as u32 + n % 10) as char,
        ],
        n >= 100 ==> two_digits(n) == decimal(n),
        two_digits(n).len() >= 2,
    decreases n,
{
    reveal_with_fuel(decimal, 3);
    if n < 10 {
        assert(two_digits(n) =~= seq!['0', digit(n)]);
    } else if n < 100 {
        assert(decimal(n) =~= seq![digit(n / 10), digit(n % 10)]);
    } else {
        lemma_decimal(n / 10);
    }
}

/// Of two letters the case alone is ignored: two characters are the same in lower
/// case, and so in upper case, just where they are the same or one is an ASCII
/// capital letter and the other that letter in lower case.
pub proof fn case_alone_is_ignored(a: char, b: char)
    ensures
        ascii_lower(a) == ascii_lower(b) <==> (a == b || ('A' <= a <= 'Z' && b as u32 == a as u32
            + 32) || ('A' <= b <= 'Z' && a as u32 == b as u32 + 32)),
        ascii_upper(a) == ascii_upper(b) <==> ascii_lower(a) == ascii_lower(b),
        ascii_lower(ascii_upper(a)) == ascii_lower(a),
        !('A' <= ascii_lower(a) <= 'Z'),
        !('a' <= ascii_upper(a) <= 'z'),
        a > 'z' ==> ascii_lower(a) == a && ascii_upper(a) == a,
{
}

/// To be the same but for case is what two texts have in common that are the same
/// in lower case: every text is the same as itself, it does not matter which
/// comes first, and two that are the same as a third are the same.
pub proof fn sameness_but_for_case(a: Seq<char>, b: Seq<char>, c: Seq<char>)
    ensures
        same_but_for_case(a, a),
        same_but_for_case(a, b) == same_but_for_case(b, a),
        same_but_for_case(a, b) && same_but_for_case(b, c) ==> same_but_for_case(a, c),
        same_but_for_case(a, b) <==> a.map_values(|c: char| ascii_lower(c)) == b.map_values(
            |c: char| ascii_lower(c),
        ),
{
    let lower = |c: char| ascii_lower(c);
    let x = a.map_values(lower);
    let y = b.map_values(lower);
    if x == y {
        assert(a.len() == x.len() && b.len() == y.len());
        assert forall|i: int| 0 <= i < a.len() implies ascii_lower(#[trigger] a[i]) == ascii_lower(
            b[i],
        ) by {
            assert(x[i] == y[i]);
        }
    }
    if same_but_for_case(a, b) {
        assert(x =~= y);
        assert forall|i: int| 0 <= i < b.len() implies ascii_lower(#[trigger] b[i]) == ascii_lower(
            a[i],
        ) by {
            assert(ascii_lower(a[i]) == ascii_lower(b[i]));
        }
    }
    if same_but_for_case(b, a) {
        assert forall|i: int| 0 <= i < a.len() implies ascii_lower(#[trigger] a[i]) == ascii_lower(
            b[i],
        ) by {
            assert(ascii_lower(b[i]) == ascii_lower(a[i]));
        }
    }
    if same_but_for_case(a, b) && same_but_for_case(b, c) {
        assert forall|i: int| 0 <= i < a.len() implies ascii_lower(#[trigger] a[i]) == ascii_lower(
            c[i],
        ) by {
            assert(ascii_lower(b[i]) == ascii_lower(c[i]));
        }
    }
}

/// Texts are put in order by their first difference: what two texts start with
/// does not count where they have it in common, a text comes before what it is
/// the start of, and else the smaller character decides.
pub proof fn first_difference_decides(
    common: Seq<char>,
    a: char,
    b: char,
    rest_a: Seq<char>,
    rest_b: Seq<char>,
)
    ensures
        text_before(common, common.push(b) + rest_b),
        !text_before(common.push(a) + rest_a, common),
        a < b ==> text_before(common.push(a) + rest_a, common.push(b) + rest_b),
        b < a ==> !text_before(common.push(a) + rest_a, common.push(b) + rest_b),
{
    let n = common.len() as int;
    let x = common.push(a) + rest_a;
    let y = common.push(b) + rest_b;
    assert(text_before_at(common, y, n));
    if text_before(x, common) {
        let k = choose|k: int| text_before_at(x, common, k);
        assert(x[k] == common[k]);
    }
    if a < b {
        assert(text_before_at(x, y, n));
    }
    if b < a && text_before(x, y) {
        let k = choose|k: int| text_before_at(x, y, k);
        if k < n {
            assert(x[k] == y[k]);
        } else {
            assert(x[n] == a && y[n] == b);
        }
    }
}

/// Trimming takes white space alone, and all of it at either end; a text is blank
/// where it holds nothing else. Of the ASCII characters the space and those from
/// the tabulator to the carriage return are white space, and of the others those
/// that Unicode has for it.
pub proof fn trimming_takes_white_space_alone(s: Seq<char>) -> (cut: (int, int))
    ensures
        0 <= cut.0 <= cut.1 <= s.len(),
        trimmed(s) == s.subrange(cut.0, cut.1),
        forall|i: int| 0 <= i < cut.0 ==> white_space(#[trigger] s[i]),
        forall|i: int| cut.1 <= i < s.len() ==> white_space(#[trigger] s[i]),
        cut.0 < cut.1 ==> !white_space(s[cut.0]) && !white_space(s[cut.1 - 1]),
        blank(s) <==> forall|i: int| 0 <= i < s.len() ==> white_space(#[trigger] s[i]),
        forall|c: char|
            c <= '\u{7f}' ==> (#[trigger] white_space(c) <==> c == ' ' || '\t' <= c <= '\r'),
        forall|c: char|
            c > '\u{7f}' ==> (#[trigger] white_space(c) <==> seq![
                '\u{85}',
                '\u{a0}',
                '\u{1680}',
                '\u{2028}',
                '\u{2029}',
                '\u{202f}',
                '\u{205f}',
                '\u{3000}',
            ].contains(c) || '\u{2000}' <= c <= '\u{200a}'),
{
    let white = |c: char| white_space(c);
    let inner = stripped_start(s, white);
    let from = lemma_start_cut(s, white);
    lemma_stripped_start_first(s, white);
    lemma_stripped_end_prefix(inner, white);
    lemma_end_cut(inner, white);
    let n = trimmed(s).len() as int;
    let cut = (from, from + n);
    assert(trimmed(s) =~= s.subrange(cut.0, cut.1));
    assert forall|i: int| 0 <= i < cut.0 implies white_space(#[trigger] s[i]) by {
        assert(white(s[i]));
    }
    assert forall|i: int| cut.1 <= i < s.len() implies white_space(#[trigger] s[i]) by {
        assert(white(inner[i - from]));
    }
    if n > 0 {
        assert(inner[0] == s[from]);
        assert(!white(inner[0]));
        assert(trimmed(s).last() == s[cut.1 - 1]);
        assert(!white(trimmed(s).last()));
    }
    if forall|i: int| 0 <= i < s.len() ==> white_space(#[trigger] s[i]) {
        if n > 0 {
            assert(white_space(s[from]));
        }
    }
    let others = seq![
        '\u{85}',
        '\u{a0}',
        '\u{1680}',
        '\u{2028}',
        '\u{2029}',
        '\u{202f}',
        '\u{205f}',
        '\u{3000}',
    ];
    assert(others[0] == '\u{85}' && others[1] == '\u{a0}' && others[2] == '\u{1680}');
    assert(others[3] == '\u{2028}' && others[4] == '\u{2029}' && others[5] == '\u{202f}');
    assert(others[6] == '\u{205f}' && others[7] == '\u{3000}');
    cut
}

proof fn lemma_start_cut(s: Seq<char>, drop: spec_fn(char) -> bool) -> (from: int)
    ensures
        0 <= from <= s.len(),
        stripped_start(s, drop) == s.skip(from),
        forall|i: int| 0 <= i < from ==> #[trigger] drop(s[i]),
    decreases s.len(),
{
    if s.len() > 0 && drop(s[0]) {
        let rest = s.drop_first();
        let from = lemma_start_cut(rest, drop);
        assert(rest.skip(from) =~= s.skip(from + 1));
        assert forall|i: int| 0 <= i < from + 1 implies #[trigger] drop(s[i]) by {
            if i > 0 {
                assert(drop(rest[i - 1]));
            }
        }
        from + 1
    } else {
        assert(s.skip(0) =~= s);
        0
    }
}

/// What stripping the end takes satisfies `drop`.
pub proof fn lemma_end_cut(s: Seq<char>, drop: spec_fn(char) -> bool)
    ensures
        stripped_end(s, drop).len() <= s.len(),
        forall|i: int| stripped_end(s, drop).len() <= i < s.len() ==> #[trigger] drop(s[i]),
    decreases s.len(),
{
    if s.len() > 0 && drop(s.last()) {
        let front = s.drop_last();
        lemma_end_cut(front, drop);
        assert forall|i: int| stripped_end(s, drop).len() <= i < s.len() implies #[trigger] drop(
            s[i],
        ) by {
            if i < front.len() {
                assert(drop(front[i]));
            }
        }
    }
}

/// A number that was written is read back, with or without a zero in front, and
/// whatever comes behind it that is no digit; where it is more than sixteen bits
/// hold, there is none, and neither is there where a text starts with no digit.
pub proof fn numbers_are_read_back(n: nat, rest: Seq<char>)
    requires
        rest.len() > 0 ==> !ascii_digit(rest[0]),
    ensures
        n <= 65535 ==> leading_number(decimal(n) + rest) == Some(n as u16),
        n <= 65535 ==> leading_number(two_digits(n) + rest) == Some(n as u16),
        n > 65535 ==> leading_number(decimal(n) + rest) is None,
        leading_number(rest) is None,
{
    lemma_decimal(n);
    lemma_two_digits(n);
    lemma_read_back(decimal(n), rest);
    lemma_read_back(two_digits(n), rest);
    two_digits_are_tens_and_ones(n);
    lemma_leading_digits(rest, 0);
}

proof fn lemma_read_back(digits: Seq<char>, rest: Seq<char>)
    requires
        forall|i: int| 0 <= i < digits.len() ==> ascii_digit(#[trigger] digits[i]),
        rest.len() > 0 ==> !ascii_digit(rest[0]),
    ensures
        (digits + rest).take(leading_digits(digits + rest) as int) == digits,
{
    let s = digits + rest;
    let n = digits.len() as int;
    assert forall|j: int| 0 <= j < n implies ascii_digit(#[trigger] s[j]) by {
        assert(s[j] == digits[j]);
    }
    lemma_leading_digits(s, n);
    assert(s.take(n) =~= digits);
}

/// What is joined stands there whole and in turn, with the separator between two
/// parts and nowhere else.
pub proof fn joining_puts_the_separator_between(
    parts: Seq<Seq<char>>,
    part: Seq<char>,
    separator: Seq<char>,
)
    ensures
        joined(seq![], separator) == Seq::<char>::empty(),
        joined(seq![part], separator) == part,
        parts.len() > 0 ==> joined(parts.push(part), separator) == joined(parts, separator)
            + separator + part,
{
    if parts.len() > 0 {
        assert(parts.push(part).drop_last() =~= parts);
    }
}

/// Splitting is undone by joining: no part holds the separator, and with the
/// separator between them the parts are the text again.
pub proof fn splitting_is_undone_by_joining(s: Seq<char>, separator: char)
    ensures
        split(s, separator).len() >= 1,
        joined(split(s, separator), seq![separator]) == s,
        forall|i: int|
            0 <= i < split(s, separator).len() ==> !(#[trigger] split(s, separator)[i]).contains(
                separator,
            ),
    decreases s.len(),
{
    let parts = split(s, separator);
    if s.len() > 0 {
        let front = s.drop_last();
        let c = s.last();
        splitting_is_undone_by_joining(front, separator);
        let before = split(front, separator);
        let n = before.len() - 1;
        assert(s =~= front.push(c));
        if c == separator {
            assert(parts.drop_last() =~= before);
            assert(joined(before, seq![separator]) + seq![separator] + Seq::<char>::empty()
                =~= front.push(c));
        } else {
            assert(parts.drop_last() =~= before.drop_last());
            if n == 0 {
                assert(joined(parts, seq![separator]) == before[0].push(c));
            } else {
                assert(joined(before.drop_last(), seq![separator]) + seq![separator]
                    + before.last().push(c) =~= (joined(before.drop_last(), seq![separator])
                    + seq![separator] + before.last()).push(c));
            }
        }
        assert forall|i: int| 0 <= i < parts.len() implies !(#[trigger] parts[i]).contains(
            separator,
        ) by {
            if i < n || (c == separator && i == n) {
                assert(parts[i] == before[i]);
            } else if c != separator {
                let part = parts[i];
                assert(part == before[n].push(c));
                if part.contains(separator) {
                    let k = choose|k: int| 0 <= k < part.len() && part[k] == separator;
                    assert(before[n][k] == separator);
                    assert(before[n].contains(separator));
                }
            }
        }
    }
}

/// Replacing leaves a text as it is that does not hold the pattern, and else puts
/// the other text in place of the first occurrence and goes on behind it.
pub proof fn replacing_goes_from_left_to_right(
    s: Seq<char>,
    pattern: Seq<char>,
    with: Seq<char>,
    i: int,
)
    requires
        pattern.len() > 0,
    ensures
        !contains_text(s, pattern) ==> replaced(s, pattern, with) == s,
        occurs_at(s, pattern, i) && (forall|j: int| 0 <= j < i ==> !occurs_at(s, pattern, j))
            ==> replaced(s, pattern, with) == s.take(i) + with + replaced(
            s.skip(i + pattern.len()),
            pattern,
            with,
        ),
{
    lemma_found_from(s, pattern, 0);
    if let Some(k) = found_from(s, pattern, 0) {
        assert(occurs_at(s, pattern, k));
    }
}

/// A prefix is taken off as often as it stands in front, and nothing else is.
pub proof fn prefix_is_taken_off(s: Seq<char>, prefix: Seq<char>)
    requires
        prefix.len() > 0,
    ensures
        without_prefix(prefix + s, prefix) == without_prefix(s, prefix),
        !starts_with(s, prefix) ==> without_prefix(s, prefix) == s,
        !starts_with(without_prefix(s, prefix), prefix),
    decreases s.len(),
{
    let longer = prefix + s;
    assert(longer.take(prefix.len() as int) =~= prefix);
    assert(longer.skip(prefix.len() as int) =~= s);
    if starts_with(s, prefix) {
        prefix_is_taken_off(s.skip(prefix.len() as int), prefix);
    }
}

/// Padding leaves a text as it is and puts nothing but spaces behind it, just as
/// many as are wanting.
pub proof fn padding_puts_spaces_behind(s: Seq<char>, width: nat)
    ensures
        padded(s, width as int).take(s.len() as int) == s,
        forall|i: int|
            s.len() <= i < padded(s, width as int).len() ==> #[trigger] padded(
                s,
                width as int,
            )[i] == ' ',
        padded(s, width as int).len() == if s.len() < width {
            width
        } else {
            s.len()
        },
{
    assert(padded(s, width as int).take(s.len() as int) =~= s);
}

/// The bytes that are counted are those of the text in UTF-8, and as many whole
/// characters are kept as fit: one more would be too many.
pub proof fn bytes_are_those_of_utf8(s: Seq<char>, limit: nat)
    ensures
        byte_len(s) == vstd::utf8::encode_utf8(s).len(),
        within(s, limit).len() < s.len() ==> byte_len(s.take(within(s, limit).len() as int + 1))
            > limit,
    decreases s.len(),
{
    if s.len() > 0 {
        let front = s.drop_last();
        bytes_are_those_of_utf8(front, limit);
        lemma_encoded_last(s);
        if byte_len(s) > limit {
            lemma_within_prefix(front, limit);
            let n = within(front, limit).len() as int;
            if n < front.len() {
                assert(front.take(n + 1) =~= s.take(n + 1));
            } else {
                assert(s.take(n + 1) =~= s);
            }
        }
    }
}

proof fn lemma_encoded_char(c: char)
    ensures
        vstd::utf8::encode_scalar(c as u32).len() == char_bytes(c),
{
    broadcast use vstd::utf8::char_is_scalar;

}

proof fn lemma_encoded_last(s: Seq<char>)
    requires
        s.len() > 0,
    ensures
        vstd::utf8::encode_utf8(s).len() == vstd::utf8::encode_utf8(s.drop_last()).len()
            + char_bytes(s.last()),
    decreases s.len(),
{
    let front = s.drop_last();
    let rest = s.drop_first();
    if s.len() == 1 {
        lemma_encoded_char(s[0]);
        assert(vstd::utf8::encode_utf8(rest).len() == 0);
        assert(vstd::utf8::encode_utf8(front).len() == 0);
    } else {
        lemma_encoded_last(rest);
        assert(front[0] == s[0]);
        assert(rest.drop_last() =~= front.drop_first());
        assert(rest.last() == s.last());
    }
}

/// The first part of a text is what stands before the first separator, and the
/// text itself where it holds none.
pub proof fn splitting_starts_with_the_first_part(
    first: Seq<char>,
    separator: char,
    rest: Seq<char>,
)
    requires
        !first.contains(separator),
    ensures
        split(first, separator) == seq![first],
        split(first.push(separator) + rest, separator)[0] == first,
        split(first.push(separator) + rest, separator).len() >= 2,
    decreases first.len() + rest.len(),
{
    if first.len() > 0 {
        let front = first.drop_last();
        assert(first[first.len() - 1] == first.last());
        assert(first.contains(first.last()));
        if front.contains(separator) {
            let i = choose|i: int| 0 <= i < front.len() && front[i] == separator;
            assert(first[i] == separator);
            assert(first.contains(separator));
        }
        splitting_starts_with_the_first_part(front, separator, seq![]);
        assert(front.push(first.last()) =~= first);
        assert(split(first, separator) =~= seq![first]);
    } else {
        assert(split(first, separator) =~= seq![first]);
    }
    let s = first.push(separator) + rest;
    if rest.len() > 0 {
        splitting_starts_with_the_first_part(first, separator, rest.drop_last());
        assert(s.drop_last() =~= first.push(separator) + rest.drop_last());
    } else {
        assert(s =~= first.push(separator));
        assert(s.drop_last() =~= first);
    }
}

/// Behind the first separator the rest is split as if it stood alone.
pub proof fn splitting_goes_on_behind_the_separator(
    first: Seq<char>,
    separator: char,
    rest: Seq<char>,
)
    requires
        !first.contains(separator),
    ensures
        split(first.push(separator) + rest, separator) == seq![first] + split(rest, separator),
    decreases rest.len(),
{
    let s = first.push(separator) + rest;
    splitting_starts_with_the_first_part(first, separator, rest);
    if rest.len() == 0 {
        assert(s =~= first.push(separator));
        assert(s.drop_last() =~= first);
        assert(rest =~= seq![]);
        assert(split(rest, separator) == seq![rest]);
        assert(split(s, separator) == seq![first].push(seq![]));
        assert(split(s, separator) =~= seq![first] + split(rest, separator));
    } else {
        let front = rest.drop_last();
        splitting_goes_on_behind_the_separator(first, separator, front);
        assert(s.drop_last() =~= first.push(separator) + front);
        assert(s.last() == rest.last());
        splitting_is_undone_by_joining(front, separator);
        assert(split(s, separator) =~= seq![first] + split(rest, separator));
    }
}

} // verus!
