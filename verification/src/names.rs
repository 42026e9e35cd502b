//! The names of tests.

use vstd::prelude::*;

use crate::text::{chars_of, last_place, lemma_last_place, text_of};

verus! {

/// The character is a letter or a digit of ASCII.
pub open spec fn is_plain(c: char) -> bool {
    'a' <= c <= 'z' || 'A' <= c <= 'Z' || '0' <= c <= '9'
}

/// A character with a small letter for a capital of ASCII.
pub open spec fn lowered(c: char) -> char {
    if 'A' <= c <= 'Z' {
        (c as int + 32) as char
    } else {
        c
    }
}

/// A text as the name of a test: its letters and digits, small, with one `_` for whatever else
/// stands between two of them.
pub open spec fn sanitized(s: Seq<char>) -> Seq<char>
    decreases s.len(),
{
    if s.len() == 0 {
        seq![]
    } else {
        let before = sanitized(s.drop_last());
        if !is_plain(s.last()) {
            before
        } else if before.len() > 0 && !is_plain(s[s.len() - 2]) {
            before + seq!['_', lowered(s.last())]
        } else {
            before.push(lowered(s.last()))
        }
    }
}

/// The name holds small letters, digits and `_`; it neither begins nor ends with `_`, and no two
/// of them stand together.
pub open spec fn is_clean(name: Seq<char>) -> bool {
    &&& forall|i: int|
        0 <= i < name.len() ==> 'a' <= #[trigger] name[i] <= 'z' || '0' <= name[i] <= '9'
            || name[i] == '_'
    &&& name.len() > 0 ==> name[0] != '_' && name.last() != '_'
    &&& forall|i: int| 0 < i < name.len() && #[trigger] name[i] == '_' ==> name[i - 1] != '_'
}

/// The letter or digit that the character is in the name of a test.
fn lowered_char(c: char) -> (res: char)
    requires
        is_plain(c),
    ensures
        res == lowered(c),
{
    if 'A' <= c && c <= 'Z' {
        (c as u8 + 32u8) as char
    } else {
        c
    }
}

/// The name that a test gets from a text.
pub fn sanitize_test_name(text: &str) -> (name: String)
    ensures
        name@ == sanitized(text@),
        is_clean(name@),
{
    proof {
        law_sanitized_is_clean(text@);
    }
    let chars = chars_of(text);
    let mut name = String::new();
    let mut i: usize = 0;
    assert(chars@.take(0).len() == 0);
    while i < chars.len()
        invariant
            i <= chars@.len(),
            name@ == sanitized(chars@.take(i as int)),
        decreases chars@.len() - i,
    {
        let ghost before = name@;
        let ghost longer = chars@.take(i + 1);
        assert(longer.drop_last() == chars@.take(i as int));
        let c = chars[i];
        if ('a' <= c && c <= 'z') || ('A' <= c && c <= 'Z') || ('0' <= c && c <= '9') {
            if i > 0 && !name.as_str().is_empty() {
                let last = chars[i - 1];
                assert(longer[longer.len() - 2] == last);
                if !(('a' <= last && last <= 'z') || ('A' <= last && last <= 'Z') || ('0' <= last
                    && last <= '9')) {
                    name.push('_');
                }
            }
            name.push(lowered_char(c));
            assert(before + seq!['_', lowered(c)] == before.push('_').push(lowered(c)));
        }
        i += 1;
    }
    assert(chars@.take(i as int) == chars@);
    name
}

/// What stands behind the last `_` of the name of a test: the line that it begins at.
pub fn get_line_number_from_test_name(name: &str) -> (number: String)
    ensures
        number@ == name@.skip(last_place(name@, '_') + 1),
        forall|i: int| 0 <= i < number@.len() ==> #[trigger] number@[i] != '_',
        number@ == name@ || (number@.len() < name@.len() && name@ == name@.take(
            name@.len() - number@.len() - 1,
        ) + seq!['_'] + number@),
{
    let chars = chars_of(name);
    let mut k: usize = chars.len();
    while k > 0 && chars[k - 1] != '_'
        invariant
            k <= chars@.len(),
            forall|j: int| k <= j < chars@.len() ==> chars@[j] != '_',
        ensures
            k <= chars@.len(),
            forall|j: int| k <= j < chars@.len() ==> chars@[j] != '_',
            k > 0 ==> chars@[k - 1] == '_',
        decreases k,
    {
        k -= 1;
    }
    proof {
        lemma_last_place(name@, '_', k - 1);
        let number = name@.skip(k as int);
        assert(chars@.subrange(k as int, chars@.len() as int) == number);
        assert(number == name@ || name@ == name@.take(k - 1) + seq!['_'] + number);
    }
    text_of(&chars, k, chars.len())
}

/// The name of a test is clean.
pub proof fn law_sanitized_is_clean(s: Seq<char>)
    ensures
        is_clean(sanitized(s)),
    decreases s.len(),
{
    if s.len() > 0 {
        law_sanitized_is_clean(s.drop_last());
        let before = sanitized(s.drop_last());
        let name = sanitized(s);
        assert forall|i: int| 0 < i < name.len() && #[trigger] name[i] == '_' implies name[i - 1]
            != '_' by {
            if i < before.len() {
                assert(before[i] == '_');
            } else if is_plain(s.last()) && before.len() > 0 && !is_plain(s[s.len() - 2]) {
                assert(name[i - 1] == before.last());
            }
        }
    }
}

/// A name that is clean stays as it is.
pub proof fn law_clean_name_is_kept(name: Seq<char>)
    requires
        is_clean(name),
    ensures
        sanitized(name) == name,
{
    lemma_clean_prefix_is_kept(name, name.len() as int);
    assert(name.take(name.len() as int) == name);
}

/// What a clean name begins with comes out as it is, but for a `_` at its end.
proof fn lemma_clean_prefix_is_kept(name: Seq<char>, k: int)
    requires
        is_clean(name),
        0 <= k <= name.len(),
    ensures
        sanitized(name.take(k)) == if k > 0 && name[k - 1] == '_' {
            name.take(k - 1)
        } else {
            name.take(k)
        },
    decreases k,
{
    if k > 0 {
        lemma_clean_prefix_is_kept(name, k - 1);
        let s = name.take(k);
        assert(s.drop_last() == name.take(k - 1));
        if name[k - 1] != '_' && k > 1 {
            if name[k - 2] == '_' {
                assert(name.take(k - 2) + seq!['_', name[k - 1]] == name.take(k));
            } else {
                assert(name.take(k - 1).push(name[k - 1]) == name.take(k));
            }
        }
        if name[k - 1] != '_' && k == 1 {
            assert(name.take(0).push(name[0]) == name.take(1));
        }
    }
}

/// To make the name of a test from one changes nothing.
pub proof fn law_sanitizing_twice_is_once(s: Seq<char>)
    ensures
        sanitized(sanitized(s)) == sanitized(s),
{
    law_sanitized_is_clean(s);
    law_clean_name_is_kept(sanitized(s));
}

/// Letters and digits of ASCII are all kept, in their order; a capital becomes the small letter,
/// which stands 32 places behind it.
pub proof fn law_letters_and_digits_are_kept(s: Seq<char>)
    requires
        forall|i: int|
            0 <= i < s.len() ==> 'a' <= #[trigger] s[i] <= 'z' || 'A' <= s[i] <= 'Z' || '0' <= s[i]
                <= '9',
    ensures
        sanitized(s).len() == s.len(),
        forall|i: int|
            0 <= i < s.len() && 'A' <= s[i] <= 'Z' ==> #[trigger] sanitized(s)[i] as int
                == s[i] as int + 32,
        forall|i: int|
            0 <= i < s.len() && !('A' <= s[i] <= 'Z') ==> #[trigger] sanitized(s)[i] == s[i],
    decreases s.len(),
{
    if s.len() > 0 {
        let shorter = s.drop_last();
        assert forall|i: int| 0 <= i < shorter.len() implies 'a' <= #[trigger] shorter[i] <= 'z'
            || 'A' <= shorter[i] <= 'Z' || '0' <= shorter[i] <= '9' by {
            assert(shorter[i] == s[i]);
        }
        law_letters_and_digits_are_kept(shorter);
        let last = s.len() - 1;
        assert('a' <= s[last] <= 'z' || 'A' <= s[last] <= 'Z' || '0' <= s[last] <= '9');
        if last > 0 {
            assert('a' <= s[last - 1] <= 'z' || 'A' <= s[last - 1] <= 'Z' || '0' <= s[last - 1]
                <= '9');
        }
        let name = sanitized(s);
        assert(name == sanitized(shorter).push(lowered(s[last])));
        assert forall|i: int| 0 <= i < last implies #[trigger] name[i] == sanitized(shorter)[i]
            && s[i] == shorter[i] by {}
    }
}

/// Any other character separates what stands before it from what stands behind: one `_` is put
/// between the two names, and none where one of them is empty.
pub proof fn law_other_characters_separate(before: Seq<char>, c: char, after: Seq<char>)
    requires
        !('a' <= c <= 'z' || 'A' <= c <= 'Z' || '0' <= c <= '9'),
    ensures
        sanitized(before + seq![c] + after) == if sanitized(before).len() == 0 || sanitized(
            after,
        ).len() == 0 {
            sanitized(before) + sanitized(after)
        } else {
            sanitized(before) + seq!['_'] + sanitized(after)
        },
    decreases after.len(),
{
    let s = before + seq![c] + after;
    let first = sanitized(before);
    if after.len() == 0 {
        assert(s.drop_last() == before);
        assert(s.last() == c);
        assert(first + sanitized(after) == first);
    } else {
        let shorter = after.drop_last();
        law_other_characters_separate(before, c, shorter);
        assert(s.drop_last() == before + seq![c] + shorter);
        let last = after.last();
        assert(s.last() == last);
        if shorter.len() == 0 {
            assert(s[s.len() - 2] == c);
            assert(sanitized(shorter).len() == 0);
        } else {
            assert(s[s.len() - 2] == after[after.len() - 2]);
            assert(shorter.last() == after[after.len() - 2]);
        }
        let second = sanitized(shorter);
        if is_plain(last) {
            let l = lowered(last);
            if second.len() == 0 {
                assert(sanitized(after) == seq![l]);
                assert(first + second == first);
                assert(first + seq!['_'] + seq![l] == first + seq!['_', l]);
                assert(first.push(l) == first + seq![l]);
            } else if !is_plain(shorter.last()) {
                assert(sanitized(after) == second + seq!['_', l]);
                assert(first + seq!['_'] + (second + seq!['_', l]) == first + seq!['_'] + second
                    + seq!['_', l]);
                assert(first + (second + seq!['_', l]) == first + second + seq!['_', l]);
            } else {
                assert(sanitized(after) == second.push(l));
                assert(first + seq!['_'] + second.push(l) == (first + seq!['_'] + second).push(l));
                assert(first + second.push(l) == (first + second).push(l));
            }
        }
    }
}

/// What stands behind the last `_` of a name is its number, all of it; a name without `_` is
/// itself the number.
pub proof fn law_number_stands_behind_the_last_underscore(before: Seq<char>, number: Seq<char>)
    requires
        forall|i: int| 0 <= i < number.len() ==> #[trigger] number[i] != '_',
    ensures
        ({
            let name = before + seq!['_'] + number;
            name.skip(last_place(name, '_') + 1) == number
        }),
        number.skip(last_place(number, '_') + 1) == number,
{
    let name = before + seq!['_'] + number;
    let n = before.len() as int;
    assert(name[n] == '_');
    assert forall|j: int| n < j < name.len() implies name[j] != '_' by {
        assert(name[j] == number[j - n - 1]);
    }
    lemma_last_place(name, '_', n);
    lemma_last_place(number, '_', -1);
    assert(name.skip(n + 1) == number);
    assert(number.skip(0) == number);
}

} // verus!
