//! The order of texts: the order of `str`, which goes by the first
//! character in which two texts differ, and puts a text before every longer
//! text that starts with it.

use crate::chars::chars_of;
use vstd::prelude::*;

verus! {

/// Whether `first` stands before `second` in the order of texts: `first` is
/// the start of the longer `second`, or in the first place where they
/// differ `first` has the character with the smaller code.
pub open spec fn precedes(first: Seq<char>, second: Seq<char>) -> bool
    decreases first.len(),
{
    if second.len() == 0 {
        false
    } else if first.len() == 0 {
        true
    } else if first[0] != second[0] {
        (first[0] as u32) < (second[0] as u32)
    } else {
        precedes(first.drop_first(), second.drop_first())
    }
}

/// Of two different texts one stands before the other, and never both; no
/// text stands before itself.
pub proof fn lemma_precedes_total(first: Seq<char>, second: Seq<char>)
    ensures
        first != second ==> precedes(first, second) || precedes(second, first),
        !(precedes(first, second) && precedes(second, first)),
        first == second ==> !precedes(first, second),
    decreases first.len(),
{
    if first.len() > 0 && second.len() > 0 {
        lemma_precedes_total(first.drop_first(), second.drop_first());
        if first[0] == second[0] {
            if first.drop_first() == second.drop_first() {
                assert forall|i: int| 0 <= i < first.len() implies first[i] == second[i] by {
                    if i > 0 {
                        assert(first[i] == first.drop_first()[i - 1]);
                        assert(second[i] == second.drop_first()[i - 1]);
                    }
                }
                assert(first.len() == first.drop_first().len() + 1);
                assert(second.len() == second.drop_first().len() + 1);
                assert(first =~= second);
            }
        } else {
            vstd::utf8::char_u32_cast(first[0], first[0] as u32);
            vstd::utf8::char_u32_cast(second[0], second[0] as u32);
        }
    } else if first.len() == 0 && second.len() == 0 {
        assert(first =~= second);
    }
}

/// What stands before a text stands before every text behind that one.
pub proof fn lemma_precedes_transitive(first: Seq<char>, second: Seq<char>, third: Seq<char>)
    requires
        precedes(first, second),
        precedes(second, third),
    ensures
        precedes(first, third),
    decreases first.len(),
{
    if first.len() > 0 && second.len() > 0 && third.len() > 0 {
        if first[0] == second[0] && second[0] == third[0] {
            lemma_precedes_transitive(
                first.drop_first(),
                second.drop_first(),
                third.drop_first(),
            );
        }
    }
}

/// Tells whether `first` stands before `second` in the order of texts.
pub fn text_precedes(first: &str, second: &str) -> (before: bool)
    ensures
        before == precedes(first@, second@),
{
    let a = chars_of(first);
    let b = chars_of(second);
    let mut i: usize = 0;
    proof {
        assert(a@.skip(0) =~= a@);
        assert(b@.skip(0) =~= b@);
    }
    while i < a.len() && i < b.len()
        invariant
            i <= a@.len(),
            i <= b@.len(),
            a@ == first@,
            b@ == second@,
            precedes(a@, b@) == precedes(a@.skip(i as int), b@.skip(i as int)),
        decreases a@.len() - i,
    {
        proof {
            assert(a@.skip(i as int).drop_first() =~= a@.skip(i + 1));
            assert(b@.skip(i as int).drop_first() =~= b@.skip(i + 1));
            assert(a@.skip(i as int)[0] == a@[i as int]);
            assert(b@.skip(i as int)[0] == b@[i as int]);
        }
        if a[i] != b[i] {
            return (a[i] as u32) < (b[i] as u32);
        }
        i += 1;
    }
    i < b.len()
}

/// Whether every text stands before all texts behind it: the texts are in
/// their order, and none is there twice.
pub open spec fn increasing(texts: Seq<Seq<char>>) -> bool {
    forall|i: int, j: int| 0 <= i < j < texts.len() ==> precedes(#[trigger] texts[i], #[trigger] texts[j])
}

/// The texts of the strings.
pub open spec fn string_views(strings: Seq<String>) -> Seq<Seq<char>> {
    Seq::new(strings.len(), |i: int| strings[i]@)
}

/// Whether `after` holds the texts of `before` and `text`, and no other.
pub open spec fn holds_also(before: Seq<Seq<char>>, text: Seq<char>, after: Seq<Seq<char>>) -> bool {
    forall|other: Seq<char>| #[trigger]
        after.contains(other) <==> before.contains(other) || other == text
}

/// The number of the first texts that stand before `text`.
pub open spec fn rank(texts: Seq<Seq<char>>, text: Seq<char>, from: int) -> int
    decreases texts.len() - from,
{
    if from < 0 {
        0
    } else if from >= texts.len() || !precedes(texts[from], text) {
        from
    } else {
        rank(texts, text, from + 1)
    }
}

/// A text put at its rank among texts in their order leaves them in their
/// order, unless it is there already.
pub proof fn lemma_insert_increasing(texts: Seq<Seq<char>>, text: Seq<char>, at: int)
    requires
        increasing(texts),
        0 <= at <= texts.len(),
        forall|i: int| 0 <= i < at ==> precedes(#[trigger] texts[i], text),
        at < texts.len() ==> !precedes(texts[at], text) && texts[at] != text,
    ensures
        increasing(texts.insert(at, text)),
        holds_also(texts, text, texts.insert(at, text)),
        !texts.contains(text),
{
    let after = texts.insert(at, text);
    assert forall|j: int| at <= j < texts.len() implies precedes(text, #[trigger] texts[j]) by {
        lemma_precedes_total(texts[at], text);
        if j > at {
            lemma_precedes_transitive(text, texts[at], texts[j]);
        }
    }
    assert forall|i: int, j: int| 0 <= i < j < after.len() implies precedes(
        #[trigger] after[i],
        #[trigger] after[j],
    ) by {
        if j < at {
        } else if j == at {
            assert(after[i] == texts[i]);
        } else if i < at {
            assert(after[j] == texts[j - 1]);
            if j - 1 == i {
            }
        } else if i == at {
            assert(after[j] == texts[j - 1]);
        } else {
            assert(after[i] == texts[i - 1]);
            assert(after[j] == texts[j - 1]);
        }
    }
    assert forall|other: Seq<char>| #[trigger]
        after.contains(other) <==> texts.contains(other) || other == text by {
        if texts.contains(other) {
            let k = choose|k: int| 0 <= k < texts.len() && texts[k] == other;
            if k < at {
                assert(after[k] == other);
            } else {
                assert(after[k + 1] == other);
            }
        }
        if other == text {
            assert(after[at] == other);
        }
        if after.contains(other) {
            let k = choose|k: int| 0 <= k < after.len() && after[k] == other;
            if k < at {
                assert(texts[k] == other);
            } else if k > at {
                assert(texts[k - 1] == other);
            }
        }
    }
    if texts.contains(text) {
        let k = choose|k: int| 0 <= k < texts.len() && texts[k] == text;
        lemma_precedes_total(text, text);
        if k >= at {
            assert(precedes(text, texts[k]));
        } else {
            assert(precedes(texts[k], text));
        }
    }
}

/// Texts in their order that hold the same texts are the same texts: the
/// order and the texts fix the sequence.
pub proof fn lemma_increasing_unique(first: Seq<Seq<char>>, second: Seq<Seq<char>>)
    requires
        increasing(first),
        increasing(second),
        forall|text: Seq<char>| first.contains(text) <==> second.contains(text),
    ensures
        first == second,
    decreases first.len(),
{
    if first.len() == 0 {
        if second.len() > 0 {
            assert(second.contains(second[0]));
        }
        assert(first =~= second);
    } else {
        assert(first.contains(first[0]));
        let k = choose|k: int| 0 <= k < second.len() && second[k] == first[0];
        assert(second.contains(second[0]));
        let m = choose|m: int| 0 <= m < first.len() && first[m] == second[0];
        lemma_precedes_total(first[0], second[0]);
        if k > 0 {
            assert(precedes(second[0], second[k]));
            if m > 0 {
                assert(precedes(first[0], first[m]));
            }
        }
        assert(first[0] == second[0]);
        let rest = first.drop_first();
        let others = second.drop_first();
        assert forall|text: Seq<char>| rest.contains(text) <==> others.contains(text) by {
            lemma_precedes_total(first[0], text);
            if rest.contains(text) {
                let i = choose|i: int| 0 <= i < rest.len() && rest[i] == text;
                assert(first[i + 1] == text);
                assert(precedes(first[0], first[i + 1]));
                assert(first.contains(text));
                let j = choose|j: int| 0 <= j < second.len() && second[j] == text;
                assert(j > 0);
                assert(others[j - 1] == text);
            }
            if others.contains(text) {
                let j = choose|j: int| 0 <= j < others.len() && others[j] == text;
                assert(second[j + 1] == text);
                assert(precedes(second[0], second[j + 1]));
                assert(second.contains(text));
                let i = choose|i: int| 0 <= i < first.len() && first[i] == text;
                assert(i > 0);
                assert(rest[i - 1] == text);
            }
        }
        assert forall|i: int, j: int| 0 <= i < j < rest.len() implies precedes(
            #[trigger] rest[i],
            #[trigger] rest[j],
        ) by {
            assert(precedes(first[i + 1], first[j + 1]));
        }
        assert forall|i: int, j: int| 0 <= i < j < others.len() implies precedes(
            #[trigger] others[i],
            #[trigger] others[j],
        ) by {
            assert(precedes(second[i + 1], second[j + 1]));
        }
        lemma_increasing_unique(rest, others);
        assert(first =~= seq![first[0]] + rest);
        assert(second =~= seq![second[0]] + others);
    }
}

/// Where among `names`, which are in their order, `name` stands or would
/// stand: the number of the names before it.
pub fn rank_of(names: &Vec<String>, name: &str) -> (at: usize)
    ensures
        at <= names@.len(),
        at == rank(string_views(names@), name@, 0),
        forall|i: int| 0 <= i < at ==> precedes(#[trigger] names@[i]@, name@),
        at < names@.len() ==> !precedes(names@[at as int]@, name@),
{
    let mut at: usize = 0;
    while at < names.len() && text_precedes(names[at].as_str(), name)
        invariant
            at <= names@.len(),
            rank(string_views(names@), name@, 0) == rank(string_views(names@), name@, at as int),
            forall|i: int| 0 <= i < at ==> precedes(#[trigger] names@[i]@, name@),
        decreases names@.len() - at,
    {
        at += 1;
    }
    at
}

/// Puts `name` among `names` where it belongs, unless it is there already.
pub fn insert_name(names: &mut Vec<String>, name: String)
    requires
        increasing(string_views(old(names)@)),
    ensures
        increasing(string_views(final(names)@)),
        holds_also(string_views(old(names)@), name@, string_views(final(names)@)),
{
    let at = rank_of(names, name.as_str());
    let ghost before = string_views(names@);
    if at < names.len() && names[at] == name {
        proof {
            assert(before[at as int] == name@);
        }
    } else {
        names.insert(at, name);
        proof {
            assert(string_views(names@) =~= before.insert(at as int, name@));
            assert forall|i: int| 0 <= i < at implies precedes(#[trigger] before[i], name@) by {
                assert(before[i] == old(names)@[i]@);
            }
            lemma_insert_increasing(before, name@, at as int);
        }
    }
}

} // verus!
