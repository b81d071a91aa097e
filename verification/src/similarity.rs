//! Whether two names are much the same.
use vstd::prelude::*;

use crate::text::{
    ascii_alphanumeric, ascii_lower, case_alone_is_ignored, chars_of, contains_text, holds,
    occurs_at, same_but_for_case, sameness_but_for_case,
};

verus! {

/// Whether `c` is a letter or a digit, as Unicode has it.
pub uninterp spec fn alphanumeric(c: char) -> bool;

/// `c` in lower case, as Unicode maps it.
pub uninterp spec fn lower_case(c: char) -> Seq<char>;

/// `char::is_alphanumeric`. What it says is determined by `c`; of the ASCII
/// characters it holds of the letters and digits.
#[verifier::external_body]
fn is_alphanumeric(c: char) -> (yes: bool)
    ensures
        yes == alphanumeric(c),
        c <= '\u{7f}' ==> yes == ascii_alphanumeric(c),
{
    c.is_alphanumeric()
}

/// `char::to_lowercase`. What it gives is determined by `c`; an ASCII character
/// gives one, its lower case.
#[verifier::external_body]
fn to_lower(c: char) -> (lower: Vec<char>)
    ensures
        lower@ == lower_case(c),
        c <= '\u{7f}' ==> lower@ == seq![ascii_lower(c)],
{
    c.to_lowercase().collect()
}

/// What counts of a name: its letters and digits, in lower case.
pub open spec fn folded(name: Seq<char>) -> Seq<char>
    decreases name.len(),
{
    if name.len() == 0 {
        seq![]
    } else if alphanumeric(name.last()) {
        folded(name.drop_last()) + lower_case(name.last())
    } else {
        folded(name.drop_last())
    }
}

/// The ASCII letters and digits of a name, in lower case.
pub open spec fn letters_and_digits(name: Seq<char>) -> Seq<char> {
    name.filter(|c: char| ascii_alphanumeric(c)).map_values(|c: char| ascii_lower(c))
}

/// Whether a name is made of ASCII characters.
pub open spec fn all_ascii(name: Seq<char>) -> bool {
    forall|i: int| 0 <= i < name.len() ==> #[trigger] name[i] <= '\u{7f}'
}

/// Whether a name holds an ASCII letter or digit.
pub open spec fn holds_ascii_alphanumeric(name: Seq<char>) -> bool {
    exists|i: int| 0 <= i < name.len() && ascii_alphanumeric(#[trigger] name[i])
}

/// Whether Unicode has a character, where it is one of ASCII, for a letter or
/// digit just where ASCII does, and with the same lower case.
pub open spec fn as_in_ascii(c: char) -> bool {
    c <= '\u{7f}' ==> {
        &&& alphanumeric(c) == ascii_alphanumeric(c)
        &&& ascii_alphanumeric(c) ==> lower_case(c) == seq![ascii_lower(c)]
    }
}

/// Each letter and digit of a name counts, in lower case, and nothing else does:
/// what counts of two names, one after the other, is what counts of each, and of
/// a single character its lower case counts where it is a letter or a digit.
pub proof fn every_letter_and_digit_counts(a: Seq<char>, b: Seq<char>, c: char)
    ensures
        folded(a + b) == folded(a) + folded(b),
        alphanumeric(c) ==> folded(seq![c]) == lower_case(c),
        !alphanumeric(c) ==> folded(seq![c]) == Seq::<char>::empty(),
    decreases b.len(),
{
    let single = seq![c];
    assert(single.drop_last() =~= seq![]);
    assert(folded(single.drop_last()) =~= seq![]);
    assert(Seq::<char>::empty() + lower_case(c) =~= lower_case(c));
    if b.len() == 0 {
        assert(a + b =~= a);
        assert(folded(a) + folded(b) =~= folded(a));
    } else {
        every_letter_and_digit_counts(a, b.drop_last(), c);
        assert((a + b).drop_last() =~= a + b.drop_last());
        assert((a + b).last() == b.last());
        assert(folded(a) + (folded(b.drop_last()) + lower_case(b.last())) =~= folded(a) + folded(
            b.drop_last(),
        ) + lower_case(b.last()));
    }
}

/// Of a name in ASCII the letters and digits count, all of them, in lower case;
/// and of any name something counts where it holds one of these.
pub proof fn ascii_letters_and_digits_count(name: Seq<char>)
    ensures
        (forall|i: int| 0 <= i < name.len() ==> as_in_ascii(#[trigger] name[i])) ==> {
            &&& all_ascii(name) ==> folded(name) == letters_and_digits(name)
            &&& holds_ascii_alphanumeric(name) ==> folded(name).len() > 0
        },
    decreases name.len(),
{
    if name.len() > 0 && (forall|i: int|
        0 <= i < name.len() ==> as_in_ascii(#[trigger] name[i])) {
        reveal(Seq::filter);
        let front = name.drop_last();
        let keep = |c: char| ascii_alphanumeric(c);
        let lower = |c: char| ascii_lower(c);
        assert forall|i: int| 0 <= i < front.len() implies as_in_ascii(#[trigger] front[i]) by {
            assert(as_in_ascii(name[i]));
        }
        ascii_letters_and_digits_count(front);
        assert(as_in_ascii(name[name.len() - 1]));
        if all_ascii(name) {
            assert forall|i: int| 0 <= i < front.len() implies #[trigger] front[i]
                <= '\u{7f}' by {
                assert(name[i] <= '\u{7f}');
            }
            assert(name[name.len() - 1] <= '\u{7f}');
            let kept = front.filter(keep);
            let c = name.last();
            if keep(c) {
                assert(name.filter(keep) == kept.push(c));
                assert(kept.push(c).map_values(lower) =~= kept.map_values(lower) + seq![lower(c)]);
            }
        }
        if holds_ascii_alphanumeric(name) {
            let i = choose|i: int| 0 <= i < name.len() && ascii_alphanumeric(#[trigger] name[i]);
            if i < front.len() {
                assert(ascii_alphanumeric(front[i]));
            }
        }
    }
    if name.len() == 0 {
        assert(folded(name) =~= letters_and_digits(name)) by {
            reveal(Seq::filter);
        }
    }
}

/// What counts of a name.
fn fold(name: &str) -> (kept: Vec<char>)
    ensures
        kept@ == folded(name@),
        all_ascii(name@) ==> kept@ == letters_and_digits(name@),
        holds_ascii_alphanumeric(name@) ==> kept@.len() > 0,
{
    let chars = chars_of(name);
    let mut kept: Vec<char> = Vec::new();
    let mut i: usize = 0;
    proof {
        assert(chars@.take(0) =~= seq![]);
    }
    while i < chars.len()
        invariant
            i <= chars@.len(),
            kept@ == folded(chars@.take(i as int)),
            forall|j: int| 0 <= j < i ==> as_in_ascii(#[trigger] chars@[j]),
        decreases chars@.len() - i,
    {
        proof {
            assert(chars@.take(i + 1).drop_last() =~= chars@.take(i as int));
        }
        if is_alphanumeric(chars[i]) {
            let mut lower = to_lower(chars[i]);
            kept.append(&mut lower);
        }
        i += 1;
    }
    proof {
        assert(chars@.take(i as int) =~= chars@);
        ascii_letters_and_digits_count(chars@);
    }
    kept
}

/// Whether one of two texts stands in the other, and neither is empty.
pub open spec fn overlapping(left: Seq<char>, right: Seq<char>) -> bool {
    left.len() > 0 && right.len() > 0 && (contains_text(left, right) || contains_text(right, left))
}

/// Whether one of two texts stands in the other, and neither is empty.
pub fn overlap(left: &Vec<char>, right: &Vec<char>) -> (yes: bool)
    ensures
        yes == overlapping(left@, right@),
{
    left.len() > 0 && right.len() > 0 && (holds(left, right) || holds(right, left))
}

/// Whether two names are much the same: what counts of one stands in what
/// counts of the other.
pub open spec fn alike(left: Seq<char>, right: Seq<char>) -> bool {
    overlapping(folded(left), folded(right))
}

/// Whether two names are much the same. Of names in ASCII the letters and digits
/// decide, whatever their case: of two of the same length that hold nothing else
/// just those are alike that are the same but for case. Any name that holds one
/// is like itself.
pub fn similar(left: &str, right: &str) -> (yes: bool)
    ensures
        yes == alike(left@, right@),
        all_ascii(left@) && all_ascii(right@) ==> yes == overlapping(
            letters_and_digits(left@),
            letters_and_digits(right@),
        ),
        left@.len() == right@.len() && (forall|i: int|
            0 <= i < left@.len() ==> ascii_alphanumeric(#[trigger] left@[i])) && (forall|i: int|
            0 <= i < right@.len() ==> ascii_alphanumeric(#[trigger] right@[i])) ==> yes == (
        left@.len() > 0 && same_but_for_case(left@, right@)),
        holds_ascii_alphanumeric(left@) && same_but_for_case(left@, right@) && all_ascii(left@)
            ==> yes,
        holds_ascii_alphanumeric(left@) && left@ == right@ ==> yes,
{
    let ghost a = left@;
    let ghost b = right@;
    let left = fold(left);
    let right = fold(right);
    proof {
        likeness_is_mutual(a, b);
        sameness_but_for_case(a, b, b);
        if same_but_for_case(a, b) && all_ascii(a) {
            lemma_same_ascii(a, b);
            likeness_is_mutual(b, a);
            let all = letters_and_digits(a);
            assert(all.subrange(0, all.len() as int) =~= all);
            assert(occurs_at(all, all, 0));
        }
        if a.len() == b.len() && (forall|i: int|
            0 <= i < a.len() ==> ascii_alphanumeric(#[trigger] a[i])) && (forall|i: int|
            0 <= i < b.len() ==> ascii_alphanumeric(#[trigger] b[i])) {
            lemma_all_kept(a);
            lemma_all_kept(b);
            lemma_same_length(left@, right@);
        }
    }
    overlap(&left, &right)
}

proof fn lemma_all_kept(name: Seq<char>)
    requires
        forall|i: int| 0 <= i < name.len() ==> ascii_alphanumeric(#[trigger] name[i]),
    ensures
        all_ascii(name),
        letters_and_digits(name) == name.map_values(|c: char| ascii_lower(c)),
{
    assert forall|i: int| 0 <= i < name.len() implies #[trigger] name[i] <= '\u{7f}' by {
        assert(ascii_alphanumeric(name[i]));
    }
    lemma_kept(name);
}

proof fn lemma_kept(name: Seq<char>)
    requires
        forall|i: int| 0 <= i < name.len() ==> ascii_alphanumeric(#[trigger] name[i]),
    ensures
        name.filter(|c: char| ascii_alphanumeric(c)) == name,
    decreases name.len(),
{
    reveal(Seq::filter);
    let keep = |c: char| ascii_alphanumeric(c);
    if name.len() > 0 {
        let front = name.drop_last();
        assert forall|i: int| 0 <= i < front.len() implies ascii_alphanumeric(
            #[trigger] front[i],
        ) by {
            assert(ascii_alphanumeric(name[i]));
        }
        lemma_kept(front);
        assert(keep(name[name.len() - 1]));
        assert(name.filter(keep) =~= name);
    } else {
        assert(name.filter(keep) =~= name);
    }
}

proof fn lemma_same_length(left: Seq<char>, right: Seq<char>)
    requires
        left.len() == right.len(),
    ensures
        overlapping(left, right) <==> (left.len() > 0 && left == right),
{
    assert(left.subrange(0, left.len() as int) =~= left);
    assert(right.subrange(0, right.len() as int) =~= right);
    if left == right {
        assert(occurs_at(left, right, 0));
    }
}

proof fn lemma_same_ascii(a: Seq<char>, b: Seq<char>)
    requires
        same_but_for_case(a, b),
        all_ascii(a),
    ensures
        all_ascii(b),
        letters_and_digits(a) == letters_and_digits(b),
    decreases a.len(),
{
    reveal(Seq::filter);
    let keep = |c: char| ascii_alphanumeric(c);
    let lower = |c: char| ascii_lower(c);
    assert forall|i: int| 0 <= i < b.len() implies #[trigger] b[i] <= '\u{7f}' by {
        assert(a[i] <= '\u{7f}');
        case_alone_is_ignored(a[i], b[i]);
    }
    if a.len() > 0 {
        let x = a.drop_last();
        let y = b.drop_last();
        assert forall|i: int| 0 <= i < x.len() implies ascii_lower(#[trigger] x[i])
            == ascii_lower(y[i]) by {
            assert(ascii_lower(a[i]) == ascii_lower(b[i]));
        }
        assert forall|i: int| 0 <= i < x.len() implies #[trigger] x[i] <= '\u{7f}' by {
            assert(a[i] <= '\u{7f}');
        }
        lemma_same_ascii(x, y);
        let n = a.len() - 1;
        assert(ascii_lower(a[n]) == ascii_lower(b[n]));
        case_alone_is_ignored(a[n], b[n]);
        assert(keep(a[n]) == keep(b[n]));
        if keep(a[n]) {
            assert(x.filter(keep).push(a[n]).map_values(lower) =~= x.filter(keep).map_values(
                lower,
            ).push(lower(a[n])));
            assert(y.filter(keep).push(b[n]).map_values(lower) =~= y.filter(keep).map_values(
                lower,
            ).push(lower(b[n])));
        }
    } else {
        assert(a =~= b);
    }
}

/// Two names are much the same where what counts of one of them, which is not
/// nothing, stands in what counts of the other as it is, whatever is before or
/// behind it; and only there.
pub proof fn likeness_is_one_in_the_other(
    left: Seq<char>,
    right: Seq<char>,
    before: Seq<char>,
    behind: Seq<char>,
)
    ensures
        folded(right).len() > 0 && folded(left) == before + folded(right) + behind ==> alike(
            left,
            right,
        ) && alike(right, left),
        alike(left, right) ==> folded(left).len() > 0 && folded(right).len() > 0 && exists|i: int|
            occurs_at(folded(left), folded(right), i) || occurs_at(folded(right), folded(left), i),
{
    let a = folded(left);
    let b = folded(right);
    if a == before + b + behind {
        let i = before.len() as int;
        assert(a.subrange(i, i + b.len()) =~= b);
        assert(occurs_at(a, b, i));
    }
}

/// It does not matter which of two names comes first, and a name of which
/// something counts is like itself.
pub proof fn likeness_is_mutual(left: Seq<char>, right: Seq<char>)
    ensures
        alike(left, right) == alike(right, left),
        alike(left, left) == (folded(left).len() > 0),
{
    let all = folded(left);
    assert(all.subrange(0, all.len() as int) =~= all);
    assert(occurs_at(all, all, 0));
}

} // verus!
