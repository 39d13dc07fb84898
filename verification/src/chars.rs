//! Characters and character sequences: the classes of characters that the
//! tokenizer tells apart, and the conversions between strings and vectors of
//! characters.

use vstd::prelude::*;
use vstd::utf8::is_scalar;

verus! {

/// Whether `c` has the Unicode property `White_Space`.
pub open spec fn is_whitespace(c: char) -> bool {
    let n = c as u32;
    ||| 0x09 <= n <= 0x0D
    ||| n == 0x20
    ||| n == 0x85
    ||| n == 0xA0
    ||| n == 0x1680
    ||| 0x2000 <= n <= 0x200A
    ||| n == 0x2028
    ||| n == 0x2029
    ||| n == 0x202F
    ||| n == 0x205F
    ||| n == 0x3000
}

/// Tells whether `c` is a whitespace character.
pub fn char_is_whitespace(c: char) -> (b: bool)
    ensures
        b == is_whitespace(c),
{
    let n: u32 = c as u32;
    (0x09 <= n && n <= 0x0D) || n == 0x20 || n == 0x85 || n == 0xA0 || n == 0x1680 || (0x2000 <= n
        && n <= 0x200A) || n == 0x2028 || n == 0x2029 || n == 0x202F || n == 0x205F || n == 0x3000
}

/// The value of `c` as a hexadecimal digit, in either case.
pub open spec fn hex_value(c: char) -> Option<u32> {
    let n = c as u32;
    if 0x30 <= n <= 0x39 {
        Some((n - 0x30) as u32)
    } else if 0x41 <= n <= 0x46 {
        Some((n - 0x41 + 10) as u32)
    } else if 0x61 <= n <= 0x66 {
        Some((n - 0x61 + 10) as u32)
    } else {
        None
    }
}

/// Reads `c` as a hexadecimal digit.
pub fn hex_digit(c: char) -> (digit: Option<u32>)
    ensures
        digit == hex_value(c),
        digit matches Some(d) ==> d < 16,
{
    let n: u32 = c as u32;
    if 0x30 <= n && n <= 0x39 {
        Some(n - 0x30)
    } else if 0x41 <= n && n <= 0x46 {
        Some(n - 0x41 + 10)
    } else if 0x61 <= n && n <= 0x66 {
        Some(n - 0x61 + 10)
    } else {
        None
    }
}

/// The character with code point `value`, where there is one.
pub open spec fn scalar_char(value: u32) -> Option<char> {
    if is_scalar(value) {
        Some(value as char)
    } else {
        None
    }
}

/// `char::from_u32`: the character whose code point is `value`, or `None`
/// where `value` is a surrogate or lies beyond `0x10FFFF`.
#[verifier::external_body]
pub(crate) fn char_from_u32(value: u32) -> (c: Option<char>)
    ensures
        c == scalar_char(value),
{
    char::from_u32(value)
}

/// `String::push`: appends the one character `c` to `s`.
#[verifier::external_body]
pub(crate) fn push_char(s: &mut String, c: char)
    ensures
        final(s)@ == old(s)@.push(c),
{
    s.push(c)
}

/// The characters of `s`, in order.
pub fn chars_of(s: &str) -> (chars: Vec<char>)
    ensures
        chars@ == s@,
{
    let mut chars: Vec<char> = Vec::new();
    for c in it: s.chars()
        invariant
            chars@ == it.seq().take(it.index() as int),
            it.seq() == s@,
    {
        chars.push(c);
    }
    chars
}

/// The characters of `chars` from `from` up to `to`; none where these are
/// not two positions of `chars` in their order.
pub open spec fn part(chars: Seq<char>, from: int, to: int) -> Seq<char> {
    if 0 <= from <= to <= chars.len() {
        chars.subrange(from, to)
    } else {
        Seq::empty()
    }
}

/// The string made of the characters of `chars` from `from` up to `to`.
pub fn string_of(chars: &[char], from: usize, to: usize) -> (s: String)
    ensures
        s@ == part(chars@, from as int, to as int),
{
    let mut s = String::new();
    if from > to || to > chars.len() {
        return s;
    }
    let mut i: usize = from;
    assert(s@ =~= chars@.subrange(from as int, i as int));
    while i < to
        invariant
            from <= i <= to <= chars@.len(),
            s@ == chars@.subrange(from as int, i as int),
        decreases to - i,
    {
        push_char(&mut s, chars[i]);
        i += 1;
        assert(s@ =~= chars@.subrange(from as int, i as int));
    }
    s
}

/// Whether `needle` stands in `chars` at position `at`.
pub open spec fn occurs_at(chars: Seq<char>, at: int, needle: Seq<char>) -> bool {
    &&& 0 <= at
    &&& at + needle.len() <= chars.len()
    &&& chars.subrange(at, at + needle.len()) == needle
}

/// Whether `part` stands somewhere in `text`.
pub open spec fn contains(text: Seq<char>, part: Seq<char>) -> bool {
    exists|at: int| occurs_at(text, at, part)
}

/// Tells whether `needle` stands in `chars` at position `at`.
pub fn starts_with_at(chars: &[char], at: usize, needle: &[char]) -> (found: bool)
    requires
        at <= chars@.len(),
    ensures
        found == occurs_at(chars@, at as int, needle@),
{
    if needle.len() > chars.len() - at {
        return false;
    }
    let mut i: usize = 0;
    while i < needle.len()
        invariant
            i <= needle@.len(),
            at + needle@.len() <= chars@.len() <= usize::MAX,
            chars@.subrange(at as int, at + i) == needle@.subrange(0, i as int),
        decreases needle.len() - i,
    {
        if chars[at + i] != needle[i] {
            assert(chars@.subrange(at as int, at + needle@.len())[i as int] != needle@[i as int]);
            return false;
        }
        assert(chars@.subrange(at as int, at + i + 1) =~= chars@.subrange(at as int, at + i).push(
            chars@[at + i],
        ));
        assert(needle@.subrange(0, i + 1) =~= needle@.subrange(0, i as int).push(needle@[i as int]));
        i += 1;
    }
    assert(needle@.subrange(0, needle@.len() as int) =~= needle@);
    true
}

/// The sequence of `count` times the character `c`.
pub open spec fn fill(c: char, count: nat) -> Seq<char> {
    Seq::new(count, |i: int| c)
}

/// The sequence of `count` spaces.
pub open spec fn spaces(count: nat) -> Seq<char> {
    fill(' ', count)
}

/// The sequence of `count` copies of `text`, one after another.
pub open spec fn repeat(text: Seq<char>, count: nat) -> Seq<char>
    decreases count,
{
    if count == 0 {
        Seq::empty()
    } else {
        repeat(text, (count - 1) as nat) + text
    }
}

/// Appends `count` times the character `c` to `out`.
pub fn push_fill(out: &mut String, c: char, count: usize)
    ensures
        final(out)@ == old(out)@ + fill(c, count as nat),
{
    let mut i: usize = 0;
    assert(out@ =~= old(out)@ + fill(c, 0));
    while i < count
        invariant
            i <= count,
            out@ == old(out)@ + fill(c, i as nat),
        decreases count - i,
    {
        push_char(out, c);
        i += 1;
        assert(out@ =~= old(out)@ + fill(c, i as nat));
    }
}

/// Appends `count` copies of `text` to `out`.
pub fn push_repeat(out: &mut String, text: &str, count: usize)
    ensures
        final(out)@ == old(out)@ + repeat(text@, count as nat),
{
    let mut i: usize = 0;
    assert(out@ =~= old(out)@ + repeat(text@, 0));
    while i < count
        invariant
            i <= count,
            out@ == old(out)@ + repeat(text@, i as nat),
        decreases count - i,
    {
        out.append(text);
        i += 1;
        assert(out@ =~= old(out)@ + repeat(text@, i as nat));
    }
}

/// The characters of the text that are no whitespace, in their order.
pub open spec fn visible(text: Seq<char>) -> Seq<char>
    decreases text.len(),
{
    if text.len() == 0 {
        Seq::empty()
    } else if is_whitespace(text.last()) {
        visible(text.drop_last())
    } else {
        visible(text.drop_last()).push(text.last())
    }
}

/// Whether all characters of the text are whitespace.
pub open spec fn is_blank_text(text: Seq<char>) -> bool {
    forall|i: int| 0 <= i < text.len() ==> is_whitespace(#[trigger] text[i])
}

/// The visible characters of two texts, one after another, are those of the
/// first and then those of the second.
pub proof fn lemma_visible_concat(first: Seq<char>, second: Seq<char>)
    ensures
        visible(first + second) == visible(first) + visible(second),
    decreases second.len(),
{
    if second.len() == 0 {
        assert(first + second =~= first);
        assert(visible(first) + visible(second) =~= visible(first));
    } else {
        lemma_visible_concat(first, second.drop_last());
        assert((first + second).drop_last() =~= first + second.drop_last());
        assert((first + second).last() == second.last());
        if !is_whitespace(second.last()) {
            assert(visible(first + second) =~= visible(first) + visible(second));
        }
    }
}

/// A text of whitespace has no visible characters.
pub proof fn lemma_visible_blank(text: Seq<char>)
    requires
        is_blank_text(text),
    ensures
        visible(text) == Seq::<char>::empty(),
    decreases text.len(),
{
    if text.len() > 0 {
        assert(is_whitespace(text[text.len() - 1]));
        assert(is_blank_text(text.drop_last())) by {
            assert forall|i: int| 0 <= i < text.drop_last().len() implies is_whitespace(
                #[trigger] text.drop_last()[i],
            ) by {
                assert(text.drop_last()[i] == text[i]);
            }
        }
        lemma_visible_blank(text.drop_last());
    }
}

/// Copies of a text of whitespace are whitespace.
pub proof fn lemma_repeat_blank(text: Seq<char>, count: nat)
    requires
        is_blank_text(text),
    ensures
        is_blank_text(repeat(text, count)),
    decreases count,
{
    if count > 0 {
        lemma_repeat_blank(text, (count - 1) as nat);
        let before = repeat(text, (count - 1) as nat);
        assert forall|i: int| 0 <= i < (before + text).len() implies is_whitespace(
            #[trigger] (before + text)[i],
        ) by {
            if i < before.len() {
                assert((before + text)[i] == before[i]);
            } else {
                assert((before + text)[i] == text[i - before.len()]);
            }
        }
    }
}

} // verus!
