//! The version that a fingerprint tells of.

use vstd::prelude::*;

use crate::text::{
    chars_of, find_text, first_place, is_blank, is_space, is_space_char,
    law_lines_end_at_line_feeds, law_white_space_around_goes, law_words_stand_between_white_space,
    lemma_first_place, lemma_first_place_bounds, lemma_no_place_is_found, lemma_place_is_found,
    lemma_word_length, lemma_words_of_two, lines_of, place_from, range_of, text_of, trim_text,
    trimmed, word_length, words_of,
};

verus! {

/// How many full stops a text holds.
pub open spec fn stops_in(s: Seq<char>) -> nat
    decreases s.len(),
{
    if s.len() == 0 {
        0
    } else {
        stops_in(s.drop_last()) + if s.last() == '.' {
            1nat
        } else {
            0nat
        }
    }
}

/// A word that looks like a version: two full stops, and digits for the rest.
pub open spec fn is_numbered(word: Seq<char>) -> bool {
    &&& stops_in(word) == 2
    &&& forall|i: int| 0 <= i < word.len() ==> word[i] == '.' || '0' <= #[trigger] word[i] <= '9'
}

/// The first word of those listed that looks like a version.
pub open spec fn first_numbered(words: Seq<Seq<char>>) -> Option<Seq<char>>
    decreases words.len(),
{
    if words.len() == 0 {
        None
    } else if is_numbered(words[0]) {
        Some(words[0])
    } else {
        first_numbered(words.drop_first())
    }
}

/// What a line says after the first `version:`, up to the next one if there is one, without the
/// white space around it; `None` where it does not say anything.
pub open spec fn labelled_version(line: Seq<char>) -> Option<Seq<char>> {
    match place_from(line, "version:"@, 0) {
        None => None,
        Some(i) => {
            let rest = line.skip(i + "version:"@.len());
            let said = match place_from(rest, "version:"@, 0) {
                None => trimmed(rest),
                Some(j) => trimmed(rest.take(j)),
            };
            if said.len() == 0 {
                None
            } else {
                Some(said)
            }
        },
    }
}

/// The version that a line tells of: the labelled one, else the first word that looks like one.
pub open spec fn version_in_line(line: Seq<char>) -> Option<Seq<char>> {
    match labelled_version(line) {
        Some(version) => Some(version),
        None => first_numbered(words_of(line)),
    }
}

/// The version that the first line with one tells of.
pub open spec fn version_in_lines(lines: Seq<Seq<char>>) -> Option<Seq<char>>
    decreases lines.len(),
{
    if lines.len() == 0 {
        None
    } else {
        match version_in_line(lines[0]) {
            Some(version) => Some(version),
            None => version_in_lines(lines.drop_first()),
        }
    }
}

/// The version that a fingerprint tells of.
pub open spec fn version_in(content: Seq<char>) -> Option<Seq<char>> {
    version_in_lines(lines_of(content))
}

/// Whether a word looks like a version.
fn looks_numbered(word: &Vec<char>) -> (res: bool)
    ensures
        res == is_numbered(word@),
{
    let mut stops: usize = 0;
    let mut i: usize = 0;
    assert(word@.take(0).len() == 0);
    while i < word.len()
        invariant
            i <= word@.len(),
            stops <= i,
            stops == stops_in(word@.take(i as int)),
            forall|j: int| 0 <= j < i ==> word@[j] == '.' || '0' <= #[trigger] word@[j] <= '9',
        decreases word@.len() - i,
    {
        let c = word[i];
        if !(c == '.' || ('0' <= c && c <= '9')) {
            assert(!(word@[i as int] == '.' || '0' <= word@[i as int] <= '9'));
            return false;
        }
        assert(word@.take(i + 1).drop_last() == word@.take(i as int));
        if c == '.' {
            stops += 1;
        }
        i += 1;
    }
    assert(word@.take(i as int) == word@);
    stops == 2
}

/// The first word of a line that looks like a version.
fn find_numbered(line: &Vec<char>) -> (version: Option<String>)
    ensures
        version.deep_view() == first_numbered(words_of(line@)),
{
    let mut i: usize = 0;
    assert(line@.skip(0) == line@);
    while i < line.len()
        invariant
            i <= line@.len(),
            first_numbered(words_of(line@)) == first_numbered(words_of(line@.skip(i as int))),
        decreases line@.len() - i,
    {
        let ghost rest = line@.skip(i as int);
        if is_space_char(line[i]) {
            assert(rest.drop_first() == line@.skip(i + 1));
            i += 1;
        } else {
            let start: usize = i;
            while i < line.len() && !is_space_char(line[i])
                invariant
                    start <= i <= line@.len(),
                    forall|j: int| start <= j < i ==> !is_space(#[trigger] line@[j]),
                ensures
                    start <= i <= line@.len(),
                    forall|j: int| start <= j < i ==> !is_space(#[trigger] line@[j]),
                    i < line@.len() ==> is_space(line@[i as int]),
                decreases line@.len() - i,
            {
                i += 1;
            }
            proof {
                lemma_word_length(rest);
                let n = word_length(rest) as int;
                if n < i - start {
                    assert(rest[n] == line@[start + n]);
                }
                if i - start < n {
                    assert(rest[i - start] == line@[i as int]);
                }
                assert(rest.take(n) == line@.subrange(start as int, i as int));
                assert(rest.skip(n) == line@.skip(i as int));
                let words = words_of(rest);
                assert(words.drop_first() == words_of(line@.skip(i as int)));
            }
            let word = range_of(line, start, i);
            if looks_numbered(&word) {
                return Some(text_of(line, start, i));
            }
        }
    }
    assert(line@.skip(i as int) == Seq::<char>::empty());
    None
}

/// What a line says after the label.
fn find_labelled(line: &Vec<char>) -> (version: Option<String>)
    ensures
        version.deep_view() == labelled_version(line@),
{
    let label = chars_of("version:");
    match find_text(line, &label) {
        None => None,
        Some(i) => {
            let length: usize = line.len();
            let from: usize = i + label.len();
            let rest = range_of(line, from, length);
            assert(rest@ == line@.skip(from as int));
            let to = match find_text(&rest, &label) {
                None => rest.len(),
                Some(j) => j,
            };
            let said = trim_text(&range_of(&rest, 0, to));
            assert(rest@.subrange(0, to as int) == rest@.take(to as int));
            assert(rest@.take(rest@.len() as int) == rest@);
            if said.len() == 0 {
                None
            } else {
                assert(said@.subrange(0, said@.len() as int) == said@);
                Some(text_of(&said, 0, said.len()))
            }
        },
    }
}

/// The version that the content of a fingerprint tells of.
pub fn extract_version_from_fingerprint(content: &str) -> (version: Option<String>)
    ensures
        version.deep_view() == version_in(content@),
{
    let chars = chars_of(content);
    let mut start: usize = 0;
    assert(chars@.skip(0) == chars@);
    while start < chars.len()
        invariant
            chars@ == content@,
            start <= chars@.len(),
            version_in(chars@) == version_in(chars@.skip(start as int)),
        decreases chars@.len() - start,
    {
        let ghost rest = chars@.skip(start as int);
        let mut end: usize = start;
        while end < chars.len() && chars[end] != '\n'
            invariant
                start <= end <= chars@.len(),
                forall|j: int| start <= j < end ==> chars@[j] != '\n',
            ensures
                start <= end <= chars@.len(),
                forall|j: int| start <= j < end ==> chars@[j] != '\n',
                end < chars@.len() ==> chars@[end as int] == '\n',
            decreases chars@.len() - end,
        {
            end += 1;
        }
        proof {
            assert forall|j: int| 0 <= j < end - start implies rest[j] != '\n' by {
                assert(rest[j] == chars@[start + j]);
            }
            lemma_first_place(rest, '\n', end - start);
        }
        let stop = if end < chars.len() && end > start && chars[end - 1] == '\r' {
            end - 1
        } else {
            end
        };
        let line = range_of(&chars, start, stop);
        let ghost lines = lines_of(rest);
        proof {
            assert(line@ == rest.take(stop - start));
            assert(rest.take(rest.len() as int) == rest);
            assert(lines[0] == line@);
            if end < chars@.len() {
                assert(rest.skip(end - start + 1) == chars@.skip(end + 1));
                assert(lines.drop_first() == lines_of(chars@.skip(end + 1)));
            } else {
                assert(lines.drop_first() == Seq::<Seq<char>>::empty());
                assert(version_in_lines(lines.drop_first()) is None);
            }
        }
        if let Some(version) = find_labelled(&line) {
            return Some(version);
        }
        if let Some(version) = find_numbered(&line) {
            return Some(version);
        }
        if end == chars.len() {
            return None;
        }
        start = end + 1;
    }
    assert(chars@.skip(start as int) == Seq::<char>::empty());
    None
}

/// A version that a fingerprint tells of is never empty.
pub proof fn law_version_is_not_empty(content: Seq<char>)
    ensures
        version_in(content) matches Some(version) ==> version.len() > 0,
{
    lemma_version_in_lines_is_not_empty(lines_of(content));
}

proof fn lemma_version_in_lines_is_not_empty(lines: Seq<Seq<char>>)
    ensures
        version_in_lines(lines) matches Some(version) ==> version.len() > 0,
    decreases lines.len(),
{
    if lines.len() > 0 {
        lemma_numbered_is_not_empty(words_of(lines[0]));
        lemma_version_in_lines_is_not_empty(lines.drop_first());
    }
}

proof fn lemma_numbered_is_not_empty(words: Seq<Seq<char>>)
    ensures
        first_numbered(words) matches Some(word) ==> word.len() > 0,
    decreases words.len(),
{
    if words.len() > 0 {
        lemma_numbered_is_not_empty(words.drop_first());
    }
}

/// The characters are all decimal digits; there may be none.
pub open spec fn all_decimal(s: Seq<char>) -> bool {
    forall|i: int| 0 <= i < s.len() ==> '0' <= #[trigger] s[i] <= '9'
}

/// Three numbers with full stops between them.
pub open spec fn is_dotted(word: Seq<char>) -> bool {
    exists|a: Seq<char>, b: Seq<char>, c: Seq<char>|
        #![trigger all_decimal(a), all_decimal(b), all_decimal(c)]
        all_decimal(a) && all_decimal(b) && all_decimal(c) && word == a + seq!['.'] + b + seq!['.']
            + c
}

/// A text in front of another adds its full stops.
proof fn lemma_stops_add(a: Seq<char>, b: Seq<char>)
    ensures
        stops_in(a + b) == stops_in(a) + stops_in(b),
    decreases b.len(),
{
    if b.len() == 0 {
        assert(a + b == a);
    } else {
        assert((a + b).drop_last() == a + b.drop_last());
        lemma_stops_add(a, b.drop_last());
    }
}

/// Digits hold no full stop.
proof fn lemma_digits_have_no_stop(s: Seq<char>)
    requires
        all_decimal(s),
    ensures
        stops_in(s) == 0,
    decreases s.len(),
{
    if s.len() > 0 {
        assert('0' <= s[s.len() - 1] <= '9');
        assert forall|i: int| 0 <= i < s.len() - 1 implies '0' <= #[trigger] s.drop_last()[i]
            <= '9' by {
            assert('0' <= s[i] <= '9');
        }
        lemma_digits_have_no_stop(s.drop_last());
    }
}

/// One full stop is counted.
proof fn lemma_one_stop()
    ensures
        stops_in(seq!['.']) == 1,
{
    let s = seq!['.'];
    assert(s.drop_last().len() == 0);
    assert(stops_in(s.drop_last()) == 0);
    assert(s.last() == '.');
}

/// Three numbers of any length with full stops between them look like a version.
pub proof fn law_dotted_numbers_look_like_a_version(a: Seq<char>, b: Seq<char>, c: Seq<char>)
    requires
        all_decimal(a),
        all_decimal(b),
        all_decimal(c),
    ensures
        is_numbered(a + seq!['.'] + b + seq!['.'] + c),
{
    let ab = a + seq!['.'];
    let abb = ab + b;
    let abbc = abb + seq!['.'];
    lemma_digits_have_no_stop(a);
    lemma_digits_have_no_stop(b);
    lemma_digits_have_no_stop(c);
    lemma_one_stop();
    lemma_stops_add(a, seq!['.']);
    lemma_stops_add(ab, b);
    lemma_stops_add(abb, seq!['.']);
    lemma_stops_add(abbc, c);
    let word = abbc + c;
    assert forall|i: int| 0 <= i < word.len() implies word[i] == '.' || '0' <= #[trigger] word[i]
        <= '9' by {
        if i < a.len() {
            assert(word[i] == a[i]);
        } else if i == a.len() {
            assert(word[i] == '.');
        } else if i < abb.len() {
            assert(word[i] == b[i - ab.len()]);
        } else if i == abb.len() {
            assert(word[i] == '.');
        } else {
            assert(word[i] == c[i - abbc.len()]);
        }
    }
}

/// A text of digits and full stops, up to the first full stop and from there on.
proof fn lemma_split_at_stop(s: Seq<char>) -> (k: int)
    requires
        stops_in(s) > 0,
        forall|i: int| 0 <= i < s.len() ==> s[i] == '.' || '0' <= #[trigger] s[i] <= '9',
    ensures
        0 <= k < s.len(),
        s[k] == '.',
        all_decimal(s.take(k)),
        s == s.take(k) + seq!['.'] + s.skip(k + 1),
        stops_in(s.skip(k + 1)) == stops_in(s) - 1,
{
    let k = first_place(s, '.');
    lemma_first_place_bounds(s, '.');
    if k == s.len() {
        assert forall|i: int| 0 <= i < s.len() implies '0' <= #[trigger] s[i] <= '9' by {
            assert(s[i] != '.');
        }
        lemma_digits_have_no_stop(s);
    }
    let a = s.take(k);
    let rest = s.skip(k + 1);
    assert forall|i: int| 0 <= i < a.len() implies '0' <= #[trigger] a[i] <= '9' by {
        assert(s[i] != '.');
        assert(a[i] == s[i]);
    }
    assert(s == a + seq!['.'] + rest);
    lemma_digits_have_no_stop(a);
    lemma_one_stop();
    lemma_stops_add(a, seq!['.']);
    lemma_stops_add(a + seq!['.'], rest);
    k
}

/// What looks like a version is three numbers with full stops between them.
pub proof fn law_version_is_dotted_numbers(word: Seq<char>)
    requires
        is_numbered(word),
    ensures
        is_dotted(word),
{
    let k = lemma_split_at_stop(word);
    let rest = word.skip(k + 1);
    assert forall|i: int| 0 <= i < rest.len() implies rest[i] == '.' || '0' <= #[trigger] rest[i]
        <= '9' by {
        assert(rest[i] == word[k + 1 + i]);
    }
    let j = lemma_split_at_stop(rest);
    let a = word.take(k);
    let b = rest.take(j);
    let c = rest.skip(j + 1);
    assert forall|i: int| 0 <= i < c.len() implies '0' <= #[trigger] c[i] <= '9' by {
        if c[i] == '.' {
            lemma_one_stop();
            lemma_stops_add(c.take(i), seq!['.']);
            lemma_stops_add(c.take(i) + seq!['.'], c.skip(i + 1));
            assert(c == c.take(i) + seq!['.'] + c.skip(i + 1));
        }
        assert(c[i] == rest[j + 1 + i]);
    }
    assert(word == a + seq!['.'] + b + seq!['.'] + c);
    assert(all_decimal(a) && all_decimal(b) && all_decimal(c));
}

/// A word looks like a version exactly if it is three numbers with full stops between them.
proof fn lemma_numbered_is_dotted(word: Seq<char>)
    ensures
        is_numbered(word) <==> is_dotted(word),
{
    if is_numbered(word) {
        law_version_is_dotted_numbers(word);
    }
    if is_dotted(word) {
        let (a, b, c) = choose|a: Seq<char>, b: Seq<char>, c: Seq<char>|
            #![trigger all_decimal(a), all_decimal(b), all_decimal(c)]
            all_decimal(a) && all_decimal(b) && all_decimal(c) && word == a + seq!['.'] + b
                + seq!['.'] + c;
        law_dotted_numbers_look_like_a_version(a, b, c);
    }
}

/// Of some words the first with the form of a version is told; if none has it, none is.
pub proof fn law_first_dotted_word_is_told(before: Seq<Seq<char>>, rest: Seq<Seq<char>>)
    requires
        forall|i: int| 0 <= i < before.len() ==> !is_dotted(#[trigger] before[i]),
    ensures
        first_numbered(before) is None,
        rest.len() > 0 && is_dotted(rest[0]) ==> first_numbered(before + rest) == Some(rest[0]),
    decreases before.len(),
{
    let all = before + rest;
    if before.len() > 0 {
        let shorter = before.drop_first();
        assert forall|i: int| 0 <= i < shorter.len() implies !is_dotted(#[trigger] shorter[i]) by {
            assert(shorter[i] == before[i + 1]);
        }
        law_first_dotted_word_is_told(shorter, rest);
        assert(!is_dotted(before[0]));
        lemma_numbered_is_dotted(before[0]);
        assert(all[0] == before[0]);
        assert(all.drop_first() == shorter + rest);
    } else {
        assert(all == rest);
        if rest.len() > 0 {
            lemma_numbered_is_dotted(rest[0]);
        }
    }
}

/// The label of a version stands nowhere in the line before this place.
pub open spec fn unlabelled_before(line: Seq<char>, end: int) -> bool {
    forall|e: int|
        0 <= e < end && e + 8 <= line.len() ==> #[trigger] line.subrange(e, e + 8) != seq![
            'v',
            'e',
            'r',
            's',
            'i',
            'o',
            'n',
            ':',
        ]
}

/// The label, character by character.
proof fn lemma_label()
    ensures
        "version:"@ == seq!['v', 'e', 'r', 's', 'i', 'o', 'n', ':'],
        "version:"@.len() == 8,
{
    reveal_strlit("version:");
    assert("version:"@ == seq!['v', 'e', 'r', 's', 'i', 'o', 'n', ':']);
}

/// A line without the label tells of the first of its words with the form of a version.
pub proof fn law_unlabelled_line_tells_of_its_words(line: Seq<char>)
    requires
        unlabelled_before(line, line.len() as int),
    ensures
        version_in_line(line) == first_numbered(words_of(line)),
{
    lemma_label();
    lemma_no_place_is_found(line, "version:"@, 0);
}

/// A number of the form 1.2.3, of any length, that is a word of a line without the label is the
/// version that the line tells of, if no word before it has that form.
pub proof fn law_dotted_word_is_told(
    before: Seq<char>,
    a: Seq<char>,
    b: Seq<char>,
    c: Seq<char>,
    after: Seq<char>,
)
    requires
        all_decimal(a),
        all_decimal(b),
        all_decimal(c),
        before.len() > 0 ==> is_space(before.last()),
        after.len() > 0 ==> is_space(after[0]),
        forall|i: int|
            0 <= i < words_of(before).len() ==> !is_dotted(#[trigger] words_of(before)[i]),
        ({
            let line = before + (a + seq!['.'] + b + seq!['.'] + c) + after;
            unlabelled_before(line, line.len() as int)
        }),
    ensures
        version_in_line(before + (a + seq!['.'] + b + seq!['.'] + c) + after) == Some(
            a + seq!['.'] + b + seq!['.'] + c,
        ),
{
    let word = a + seq!['.'] + b + seq!['.'] + c;
    let line = before + word + after;
    let rest = word + after;
    law_unlabelled_line_tells_of_its_words(line);
    assert(line == before + rest);
    law_dotted_numbers_look_like_a_version(a, b, c);
    assert forall|i: int| 0 <= i < word.len() implies !is_space(#[trigger] word[i]) by {
        assert(word[i] == '.' || '0' <= word[i] <= '9');
    }
    lemma_words_of_two(before, rest);
    law_words_stand_between_white_space(Seq::empty(), word, after);
    assert(Seq::<char>::empty() + word + after == rest);
    assert(is_dotted(word));
    law_first_dotted_word_is_told(words_of(before), words_of(rest));
}

/// What stands behind the first label of a line, up to the next label or the end, is the version
/// that the line tells of, without the white space around it.
pub proof fn law_labelled_version_is_told(
    before: Seq<char>,
    gap: Seq<char>,
    said: Seq<char>,
    space: Seq<char>,
    after: Seq<char>,
)
    requires
        is_blank(gap),
        is_blank(space),
        said.len() > 0,
        !is_space(said[0]),
        !is_space(said.last()),
        unlabelled_before(
            before + "version:"@ + (gap + said + space) + after,
            before.len() as int,
        ),
        unlabelled_before((gap + said + space) + after, (gap + said + space).len() as int),
        after.len() > 0 ==> after.len() >= 8 && after.take(8) == "version:"@,
    ensures
        version_in_line(before + "version:"@ + (gap + said + space) + after) == Some(said),
{
    lemma_labelled(before, gap + said + space, after);
    law_white_space_around_goes(gap, said, space);
}

/// A label with nothing behind it tells of no version: the words of the line are looked at then.
pub proof fn law_blank_label_tells_of_nothing(
    before: Seq<char>,
    gap: Seq<char>,
    after: Seq<char>,
)
    requires
        is_blank(gap),
        unlabelled_before(before + "version:"@ + gap + after, before.len() as int),
        unlabelled_before(gap + after, gap.len() as int),
        after.len() > 0 ==> after.len() >= 8 && after.take(8) == "version:"@,
    ensures
        version_in_line(before + "version:"@ + gap + after) == first_numbered(
            words_of(before + "version:"@ + gap + after),
        ),
{
    lemma_labelled(before, gap, after);
    law_white_space_around_goes(gap, Seq::empty(), Seq::empty());
    assert(gap + Seq::<char>::empty() + Seq::<char>::empty() == gap);
}

proof fn lemma_labelled(before: Seq<char>, value: Seq<char>, after: Seq<char>)
    requires
        unlabelled_before(before + "version:"@ + value + after, before.len() as int),
        unlabelled_before(value + after, value.len() as int),
        after.len() > 0 ==> after.len() >= 8 && after.take(8) == "version:"@,
    ensures
        labelled_version(before + "version:"@ + value + after) == if trimmed(value).len() == 0 {
            None
        } else {
            Some(trimmed(value))
        },
{
    lemma_label();
    let label = "version:"@;
    let line = before + label + value + after;
    let i = before.len() as int;
    assert(line.subrange(i, i + 8) == label);
    lemma_place_is_found(line, label, 0, i);
    let rest = line.skip(i + 8);
    assert(rest == value + after);
    let j = value.len() as int;
    if after.len() > 0 {
        assert(rest.subrange(j, j + 8) == after.take(8));
        lemma_place_is_found(rest, label, 0, j);
        assert(rest.take(j) == value);
    } else {
        assert(rest == value);
        lemma_no_place_is_found(rest, label, 0);
    }
}

/// The first line that tells of a version decides; the lines behind it count only where it tells
/// of none, and a carriage return at its end is no part of it.
pub proof fn law_first_telling_line_decides(line: Seq<char>, rest: Seq<char>)
    requires
        forall|i: int| 0 <= i < line.len() ==> #[trigger] line[i] != '\n',
    ensures
        ({
            let told = if line.len() > 0 && line.last() == '\r' {
                version_in_line(line.drop_last())
            } else {
                version_in_line(line)
            };
            version_in(line + seq!['\n'] + rest) == if told is Some {
                told
            } else {
                version_in(rest)
            }
        }),
        line.len() > 0 ==> version_in(line) == version_in_line(line),
        version_in(Seq::empty()) is None,
{
    law_lines_end_at_line_feeds(line, rest);
    let lines = lines_of(line + seq!['\n'] + rest);
    assert(lines.drop_first() == lines_of(rest));
    if line.len() > 0 {
        assert(seq![line].drop_first() == Seq::<Seq<char>>::empty());
        reveal_with_fuel(version_in_lines, 2);
        assert(lines_of(line)[0] == line);
    }
}

} // verus!
