//! Texts as sequences of characters.

use vstd::prelude::*;

verus! {

/// `String::push` of the standard library puts one character behind what the text holds.
pub assume_specification[ String::push ](s: &mut String, c: char)
    ensures
        final(s)@ == old(s)@.push(c),
;

/// The characters of a text.
pub fn chars_of(text: &str) -> (chars: Vec<char>)
    ensures
        chars@ == text@,
{
    let mut chars: Vec<char> = Vec::new();
    for c in it: text.chars()
        invariant
            it.seq() == text@,
            chars@ == text@.take(it.index() as int),
    {
        chars.push(c);
        assert(text@.take(it.index() + 1) == text@.take(it.index() as int).push(c));
    }
    assert(text@.take(text@.len() as int) == text@);
    chars
}

/// The text that a range of characters spells.
pub fn text_of(chars: &Vec<char>, from: usize, to: usize) -> (text: String)
    requires
        from <= to <= chars@.len(),
    ensures
        text@ == chars@.subrange(from as int, to as int),
{
    let mut text = String::new();
    let mut i: usize = from;
    while i < to
        invariant
            from <= i <= to <= chars@.len(),
            text@ == chars@.subrange(from as int, i as int),
        decreases to - i,
    {
        text.push(chars[i]);
        i += 1;
        assert(chars@.subrange(from as int, i as int) == chars@.subrange(from as int, i - 1).push(
            chars@[i - 1],
        ));
    }
    text
}

/// A text with one character put for another wherever it stands.
pub open spec fn replaced(s: Seq<char>, from: char, to: char) -> Seq<char> {
    s.map_values(|c: char| if c == from { to } else { c })
}

/// The place of the first such character, or the length of the text where there is none.
pub open spec fn first_place(s: Seq<char>, c: char) -> int
    decreases s.len(),
{
    if s.len() == 0 || s[0] == c {
        0
    } else {
        1 + first_place(s.drop_first(), c)
    }
}

/// The place of the last such character, or -1 where there is none.
pub open spec fn last_place(s: Seq<char>, c: char) -> int
    decreases s.len(),
{
    if s.len() == 0 {
        -1
    } else if s.last() == c {
        s.len() - 1
    } else {
        last_place(s.drop_last(), c)
    }
}

/// A place with no such character before it is the first, if it holds one or is the end.
pub proof fn lemma_first_place(s: Seq<char>, c: char, i: int)
    requires
        0 <= i <= s.len(),
        forall|j: int| 0 <= j < i ==> s[j] != c,
        i < s.len() ==> s[i] == c,
    ensures
        first_place(s, c) == i,
    decreases s.len(),
{
    if i > 0 {
        assert(s[0] != c);
        assert forall|j: int| 0 <= j < i - 1 implies s.drop_first()[j] != c by {
            assert(s[j + 1] != c);
        }
        lemma_first_place(s.drop_first(), c, i - 1);
    }
}

/// A place with no such character behind it is the last, if it holds one or is -1.
pub proof fn lemma_last_place(s: Seq<char>, c: char, i: int)
    requires
        -1 <= i < s.len(),
        forall|j: int| i < j < s.len() ==> s[j] != c,
        i >= 0 ==> s[i] == c,
    ensures
        last_place(s, c) == i,
    decreases s.len(),
{
    if s.len() > 0 && i < s.len() - 1 {
        lemma_last_place(s.drop_last(), c, i);
    }
}

/// The place of the first such character is in the text or at its end.
pub proof fn lemma_first_place_bounds(s: Seq<char>, c: char)
    ensures
        0 <= first_place(s, c) <= s.len(),
        first_place(s, c) < s.len() ==> s[first_place(s, c)] == c,
        forall|j: int| 0 <= j < first_place(s, c) ==> s[j] != c,
    decreases s.len(),
{
    if s.len() > 0 && s[0] != c {
        lemma_first_place_bounds(s.drop_first(), c);
        assert forall|j: int| 0 <= j < first_place(s, c) implies s[j] != c by {
            if j > 0 {
                assert(s.drop_first()[j - 1] == s[j]);
            }
        }
    }
}

/// A text stands in another at this place.
pub open spec fn stands_at(s: Seq<char>, part: Seq<char>, i: int) -> bool {
    i + part.len() <= s.len() && s.subrange(i, i + part.len()) == part
}

/// The first place from `i` on at which a text stands in another.
pub open spec fn place_from(s: Seq<char>, part: Seq<char>, i: int) -> Option<int>
    decreases s.len() + 1 - i,
{
    if i + part.len() > s.len() {
        None
    } else if stands_at(s, part, i) {
        Some(i)
    } else {
        place_from(s, part, i + 1)
    }
}

/// The characters that separate words: those with the Unicode property `White_Space`.
pub open spec fn is_space(c: char) -> bool {
    ||| '\u{9}' <= c <= '\u{D}'
    ||| c == '\u{20}'
    ||| c == '\u{85}'
    ||| c == '\u{A0}'
    ||| c == '\u{1680}'
    ||| '\u{2000}' <= c <= '\u{200A}'
    ||| c == '\u{2028}'
    ||| c == '\u{2029}'
    ||| c == '\u{202F}'
    ||| c == '\u{205F}'
    ||| c == '\u{3000}'
}

/// A text without the white space at its two ends.
pub open spec fn trimmed(s: Seq<char>) -> Seq<char>
    decreases s.len(),
{
    if s.len() == 0 {
        s
    } else if is_space(s[0]) {
        trimmed(s.drop_first())
    } else if is_space(s.last()) {
        trimmed(s.drop_last())
    } else {
        s
    }
}

/// The lines of a text. A line ends in a line feed, or in a carriage return and a line feed, and
/// is listed without them; the last one may end with the text.
pub open spec fn lines_of(s: Seq<char>) -> Seq<Seq<char>>
    decreases s.len(),
{
    if s.len() == 0 {
        seq![]
    } else {
        let end = first_place(s, '\n');
        proof {
            lemma_first_place_bounds(s, '\n');
        }
        if end == s.len() {
            seq![s]
        } else if end > 0 && s[end - 1] == '\r' {
            seq![s.take(end - 1)] + lines_of(s.skip(end + 1))
        } else {
            seq![s.take(end)] + lines_of(s.skip(end + 1))
        }
    }
}

/// How many characters stand before the first white space.
pub open spec fn word_length(s: Seq<char>) -> nat
    decreases s.len(),
{
    if s.len() == 0 || is_space(s[0]) {
        0
    } else {
        1 + word_length(s.drop_first())
    }
}

/// A word ends where white space begins or the text ends.
pub proof fn lemma_word_length(s: Seq<char>)
    ensures
        word_length(s) <= s.len(),
        forall|j: int| 0 <= j < word_length(s) ==> !is_space(s[j]),
        word_length(s) < s.len() ==> is_space(s[word_length(s) as int]),
    decreases s.len(),
{
    if s.len() > 0 && !is_space(s[0]) {
        lemma_word_length(s.drop_first());
        assert forall|j: int| 0 <= j < word_length(s) implies !is_space(s[j]) by {
            if j > 0 {
                assert(s.drop_first()[j - 1] == s[j]);
            }
        }
    }
}

/// The words of a text: the longest runs without white space.
pub open spec fn words_of(s: Seq<char>) -> Seq<Seq<char>>
    decreases s.len(),
{
    if s.len() == 0 {
        seq![]
    } else if is_space(s[0]) {
        words_of(s.drop_first())
    } else {
        proof {
            lemma_word_length(s);
        }
        seq![s.take(word_length(s) as int)] + words_of(s.skip(word_length(s) as int))
    }
}

/// Whether a character separates words.
pub fn is_space_char(c: char) -> (space: bool)
    ensures
        space == is_space(c),
{
    ('\u{9}' <= c && c <= '\u{D}') || c == '\u{20}' || c == '\u{85}' || c == '\u{A0}' || c
        == '\u{1680}' || ('\u{2000}' <= c && c <= '\u{200A}') || c == '\u{2028}' || c == '\u{2029}'
        || c == '\u{202F}' || c == '\u{205F}' || c == '\u{3000}'
}

/// A range of characters.
pub fn range_of(chars: &Vec<char>, from: usize, to: usize) -> (range: Vec<char>)
    requires
        from <= to <= chars@.len(),
    ensures
        range@ == chars@.subrange(from as int, to as int),
{
    let mut range: Vec<char> = Vec::new();
    let mut i: usize = from;
    while i < to
        invariant
            from <= i <= to <= chars@.len(),
            range@ == chars@.subrange(from as int, i as int),
        decreases to - i,
    {
        range.push(chars[i]);
        i += 1;
    }
    range
}

/// Whether a text stands in another at this place.
pub fn is_at(chars: &Vec<char>, part: &Vec<char>, place: usize) -> (at: bool)
    requires
        place <= chars@.len(),
    ensures
        at == stands_at(chars@, part@, place as int),
{
    if chars.len() - place < part.len() {
        return false;
    }
    let mut i: usize = 0;
    while i < part.len()
        invariant
            i <= part@.len(),
            place + part@.len() <= chars@.len() <= usize::MAX,
            forall|j: int| 0 <= j < i ==> chars@[place + j] == part@[j],
        decreases part@.len() - i,
    {
        if chars[place + i] != part[i] {
            assert(chars@.subrange(place as int, place + part@.len())[i as int] != part@[i as int]);
            return false;
        }
        i += 1;
    }
    assert(chars@.subrange(place as int, place + part@.len()) == part@);
    true
}

/// The first place at which a text stands in another.
pub fn find_text(chars: &Vec<char>, part: &Vec<char>) -> (place: Option<usize>)
    ensures
        place is None <==> place_from(chars@, part@, 0) is None,
        place matches Some(k) ==> place_from(chars@, part@, 0) == Some(k as int) && stands_at(
            chars@,
            part@,
            k as int,
        ),
{
    if part.len() > chars.len() {
        return None;
    }
    let last: usize = chars.len() - part.len();
    let mut i: usize = 0;
    while i < last
        invariant
            i <= last == chars@.len() - part@.len(),
            place_from(chars@, part@, 0) == place_from(chars@, part@, i as int),
        decreases last - i,
    {
        if is_at(chars, part, i) {
            return Some(i);
        }
        i += 1;
    }
    if is_at(chars, part, last) {
        return Some(last);
    }
    proof {
        reveal_with_fuel(place_from, 2);
    }
    None
}

/// A text without the white space at its two ends.
pub fn trim_text(chars: &Vec<char>) -> (res: Vec<char>)
    ensures
        res@ == trimmed(chars@),
{
    let mut from: usize = 0;
    let mut to: usize = chars.len();
    assert(chars@.subrange(0, to as int) == chars@);
    while from < to && is_space_char(chars[from])
        invariant
            from <= to == chars@.len(),
            trimmed(chars@) == trimmed(chars@.subrange(from as int, to as int)),
        ensures
            from <= to == chars@.len(),
            trimmed(chars@) == trimmed(chars@.subrange(from as int, to as int)),
            from < to ==> !is_space(chars@[from as int]),
        decreases to - from,
    {
        assert(chars@.subrange(from as int, to as int).drop_first() == chars@.subrange(
            from + 1,
            to as int,
        ));
        from += 1;
    }
    while from < to && is_space_char(chars[to - 1])
        invariant
            from <= to <= chars@.len(),
            trimmed(chars@) == trimmed(chars@.subrange(from as int, to as int)),
            from < to ==> !is_space(chars@[from as int]),
        ensures
            from <= to <= chars@.len(),
            trimmed(chars@) == trimmed(chars@.subrange(from as int, to as int)),
            from < to ==> !is_space(chars@[from as int]) && !is_space(chars@[to - 1]),
        decreases to - from,
    {
        assert(chars@.subrange(from as int, to as int).drop_last() == chars@.subrange(
            from as int,
            to - 1,
        ));
        to -= 1;
    }
    range_of(chars, from, to)
}

/// Two texts, one behind the other.
pub fn joined(first: &str, second: &str) -> (text: String)
    ensures
        text@ == first@ + second@,
{
    let mut text = first.to_owned();
    text.append(second);
    text
}

/// Puts one character for another wherever it stands.
pub fn replace_char(text: &str, from: char, to: char) -> (res: String)
    ensures
        res@ == replaced(text@, from, to),
{
    let mut res = String::new();
    for c in it: text.chars()
        invariant
            it.seq() == text@,
            res@ == replaced(text@.take(it.index() as int), from, to),
    {
        res.push(if c == from { to } else { c });
        assert(replaced(text@.take(it.index() + 1), from, to) =~= replaced(
            text@.take(it.index() as int),
            from,
            to,
        ).push(if c == from { to } else { c }));
    }
    assert(text@.take(text@.len() as int) == text@);
    res
}

/// Where a character is put for another, the text keeps its length; the one gives way wherever it
/// stands, and nothing else changes.
pub proof fn law_replaced_is_character_by_character(s: Seq<char>, from: char, to: char)
    ensures
        replaced(s, from, to).len() == s.len(),
        forall|i: int|
            0 <= i < s.len() && s[i] == from ==> #[trigger] replaced(s, from, to)[i] == to,
        forall|i: int|
            0 <= i < s.len() && s[i] != from ==> #[trigger] replaced(s, from, to)[i] == s[i],
{
}

/// The place that is found is the first at which the text stands, character by character; where
/// none is found, it stands nowhere.
pub proof fn law_found_place_is_the_first(s: Seq<char>, part: Seq<char>, from: int)
    requires
        0 <= from,
    ensures
        place_from(s, part, from) matches Some(k) ==> from <= k && k + part.len() <= s.len() && (
        forall|j: int| 0 <= j < part.len() ==> #[trigger] s[k + j] == part[j]) && forall|e: int|
            from <= e < k ==> #[trigger] s.subrange(e, e + part.len()) != part,
        place_from(s, part, from) is None ==> forall|e: int|
            from <= e && e + part.len() <= s.len() ==> #[trigger] s.subrange(e, e + part.len())
                != part,
    decreases s.len() + 1 - from,
{
    if from + part.len() <= s.len() {
        if stands_at(s, part, from) {
            assert forall|j: int| 0 <= j < part.len() implies #[trigger] s[from + j] == part[j] by {
                assert(s.subrange(from, from + part.len())[j] == s[from + j]);
            }
        } else {
            law_found_place_is_the_first(s, part, from + 1);
        }
    }
}

/// The first place at which a text stands is the one that is found.
pub proof fn lemma_place_is_found(s: Seq<char>, part: Seq<char>, from: int, k: int)
    requires
        0 <= from <= k,
        k + part.len() <= s.len(),
        s.subrange(k, k + part.len()) == part,
        forall|e: int| from <= e < k ==> #[trigger] s.subrange(e, e + part.len()) != part,
    ensures
        place_from(s, part, from) == Some(k),
    decreases k - from,
{
    if from < k {
        assert(s.subrange(from, from + part.len()) != part);
        lemma_place_is_found(s, part, from + 1, k);
    }
}

/// A text that stands nowhere is not found.
pub proof fn lemma_no_place_is_found(s: Seq<char>, part: Seq<char>, from: int)
    requires
        0 <= from,
        forall|e: int|
            from <= e && e + part.len() <= s.len() ==> #[trigger] s.subrange(e, e + part.len())
                != part,
    ensures
        place_from(s, part, from) is None,
{
    law_found_place_is_the_first(s, part, from);
    if place_from(s, part, from) is Some {
        let k = place_from(s, part, from)->0;
        assert forall|j: int| 0 <= j < part.len() implies s.subrange(k, k + part.len())[j]
            == part[j] by {
            assert(s[k + j] == part[j]);
        }
        assert(s.subrange(k, k + part.len()) == part);
    }
}

/// The characters are all white space.
pub open spec fn is_blank(s: Seq<char>) -> bool {
    forall|i: int| 0 <= i < s.len() ==> is_space(#[trigger] s[i])
}

/// The white space around a text goes, and only that.
pub proof fn law_white_space_around_goes(before: Seq<char>, core: Seq<char>, after: Seq<char>)
    requires
        is_blank(before),
        is_blank(after),
        core.len() > 0 ==> !is_space(core[0]) && !is_space(core.last()),
    ensures
        trimmed(before + core + after) == core,
    decreases before.len() + after.len(),
{
    let s = before + core + after;
    if before.len() > 0 {
        assert(s[0] == before[0]);
        assert(s.drop_first() == before.drop_first() + core + after);
        law_white_space_around_goes(before.drop_first(), core, after);
    } else if after.len() > 0 {
        assert(s.last() == after.last());
        if core.len() > 0 {
            assert(s[0] == core[0]);
            assert(s.drop_last() == before + core + after.drop_last());
            law_white_space_around_goes(before, core, after.drop_last());
        } else {
            assert(s[0] == after[0]);
            assert(s.drop_first() == before + core + after.drop_first());
            law_white_space_around_goes(before, core, after.drop_first());
        }
    } else {
        assert(s == core);
    }
}

/// Lines end at line feeds, which are not part of them, nor is a carriage return right before one;
/// a last line may do without. Nothing at all is no line.
pub proof fn law_lines_end_at_line_feeds(line: Seq<char>, rest: Seq<char>)
    requires
        forall|i: int| 0 <= i < line.len() ==> #[trigger] line[i] != '\n',
    ensures
        lines_of(line + seq!['\n'] + rest) == seq![
            if line.len() > 0 && line.last() == '\r' {
                line.drop_last()
            } else {
                line
            },
        ] + lines_of(rest),
        line.len() > 0 ==> lines_of(line) == seq![line],
        lines_of(Seq::empty()).len() == 0,
{
    let s = line + seq!['\n'] + rest;
    let end = line.len() as int;
    assert(s[end] == '\n');
    lemma_first_place(s, '\n', end);
    lemma_first_place(line, '\n', end);
    assert(s.skip(end + 1) == rest);
    assert(s.take(end) == line);
    if end > 0 {
        assert(s[end - 1] == line.last());
        assert(s.take(end - 1) == line.drop_last());
    }
}

/// A word goes from white space, or the beginning, to white space, or the end; where there is only
/// white space, there is no word.
pub proof fn law_words_stand_between_white_space(
    gap: Seq<char>,
    word: Seq<char>,
    rest: Seq<char>,
)
    requires
        is_blank(gap),
        word.len() > 0,
        forall|i: int| 0 <= i < word.len() ==> !is_space(#[trigger] word[i]),
        rest.len() > 0 ==> is_space(rest[0]),
    ensures
        words_of(gap + word + rest) == seq![word] + words_of(rest),
        words_of(gap).len() == 0,
    decreases gap.len(),
{
    let s = gap + word + rest;
    if gap.len() > 0 {
        assert(s[0] == gap[0]);
        assert(s.drop_first() == gap.drop_first() + word + rest);
        law_words_stand_between_white_space(gap.drop_first(), word, rest);
    } else {
        assert(s == word + rest);
        lemma_word_length(s);
        let n = word_length(s) as int;
        assert(s[0] == word[0]);
        if n < word.len() {
            assert(s[n] == word[n]);
        }
        if n > word.len() {
            assert(s[word.len() as int] == rest[0]);
        }
        assert(s.take(n) == word);
        assert(s.skip(n) == rest);
    }
}

/// A text that ends where a word ends has the words of its two parts.
pub proof fn lemma_words_of_two(before: Seq<char>, rest: Seq<char>)
    requires
        before.len() == 0 || is_space(before.last()) || rest.len() == 0 || is_space(rest[0]),
    ensures
        words_of(before + rest) == words_of(before) + words_of(rest),
    decreases before.len(),
{
    let s = before + rest;
    if before.len() == 0 {
        assert(s == rest);
        assert(words_of(before) + words_of(rest) == words_of(rest));
    } else if rest.len() == 0 {
        assert(s == before);
        assert(words_of(before) + words_of(rest) == words_of(before));
    } else if is_space(before[0]) {
        assert(s.drop_first() == before.drop_first() + rest);
        if before.len() > 1 {
            assert(before.drop_first().last() == before.last());
        }
        lemma_words_of_two(before.drop_first(), rest);
    } else {
        lemma_word_length(before);
        let n = word_length(before) as int;
        let word = before.take(n);
        let others = before.skip(n);
        assert(before == Seq::<char>::empty() + word + others);
        assert(s == Seq::<char>::empty() + word + (others + rest));
        if n < before.len() {
            assert(others.last() == before.last());
        }
        lemma_words_of_two(others, rest);
        law_words_stand_between_white_space(Seq::empty(), word, others);
        law_words_stand_between_white_space(Seq::empty(), word, others + rest);
        assert(seq![word] + (words_of(others) + words_of(rest)) == seq![word] + words_of(others)
            + words_of(rest));
    }
}

/// Only white space goes, from the two ends: `around` is what goes from each.
pub proof fn law_only_white_space_goes(s: Seq<char>) -> (around: (Seq<char>, Seq<char>))
    ensures
        is_blank(around.0),
        is_blank(around.1),
        s == around.0 + trimmed(s) + around.1,
        trimmed(s).len() > 0 ==> !is_space(trimmed(s)[0]) && !is_space(trimmed(s).last()),
    decreases s.len(),
{
    if s.len() == 0 {
        assert(s == Seq::<char>::empty() + trimmed(s) + Seq::<char>::empty());
        (Seq::empty(), Seq::empty())
    } else if is_space(s[0]) {
        let (a, b) = law_only_white_space_goes(s.drop_first());
        let first = seq![s[0]] + a;
        assert(s == first + trimmed(s) + b) by {
            assert(s == seq![s[0]] + s.drop_first());
        }
        (first, b)
    } else if is_space(s.last()) {
        let (a, b) = law_only_white_space_goes(s.drop_last());
        let last = b.push(s.last());
        assert(s == a + trimmed(s) + last) by {
            assert(s == s.drop_last().push(s.last()));
        }
        (a, last)
    } else {
        assert(s == Seq::<char>::empty() + trimmed(s) + Seq::<char>::empty());
        (Seq::empty(), Seq::empty())
    }
}

} // verus!
