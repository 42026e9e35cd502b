//! The documents that tests are written in.

use vstd::prelude::*;

use crate::text::{
    chars_of, first_place, is_blank, is_space, is_space_char, law_only_white_space_goes,
    law_white_space_around_goes, lemma_first_place, lemma_first_place_bounds, text_of, trim_text,
    trimmed,
};

verus! {

/// How many white characters a text begins with.
pub open spec fn leading_spaces(s: Seq<char>) -> nat
    decreases s.len(),
{
    if s.len() == 0 || !is_space(s[0]) {
        0
    } else {
        1 + leading_spaces(s.drop_first())
    }
}

/// A line of a test without the mark that keeps it out of the document: a `#` with a space behind
/// it goes, with what stands before it; so does a `#` that is alone on its line.
pub open spec fn unmarked(line: Seq<char>) -> Seq<char> {
    let start = line.skip(leading_spaces(line) as int);
    if start.len() >= 2 && start[0] == '#' && start[1] == ' ' {
        start.skip(2)
    } else if trimmed(line) == "#"@ {
        start.skip(1)
    } else {
        line
    }
}

/// Some texts, one behind the other.
pub open spec fn concatenated(texts: Seq<Seq<char>>) -> Seq<char>
    decreases texts.len(),
{
    if texts.len() == 0 {
        seq![]
    } else {
        concatenated(texts.drop_last()) + texts.last()
    }
}

/// The pieces of a text between its line feeds, each with a line feed behind it.
pub open spec fn lines_with_ends(s: Seq<char>) -> Seq<Seq<char>>
    decreases s.len(),
{
    let end = first_place(s, '\n');
    proof {
        lemma_first_place_bounds(s, '\n');
    }
    if end == s.len() {
        seq![s.push('\n')]
    } else {
        seq![s.take(end).push('\n')] + lines_with_ends(s.skip(end + 1))
    }
}

/// The text ends so.
pub open spec fn ends_with(s: Seq<char>, end: Seq<char>) -> bool {
    s.len() >= end.len() && s.skip(s.len() - end.len()) == end
}

/// How many white characters stand at the beginning.
proof fn lemma_leading_spaces(s: Seq<char>, n: int)
    requires
        0 <= n <= s.len(),
        forall|i: int| 0 <= i < n ==> is_space(#[trigger] s[i]),
        n < s.len() ==> !is_space(s[n]),
    ensures
        leading_spaces(s) == n,
    decreases s.len(),
{
    if n > 0 {
        assert(is_space(s[0]));
        assert forall|i: int| 0 <= i < n - 1 implies is_space(#[trigger] s.drop_first()[i]) by {
            assert(is_space(s[i + 1]));
        }
        lemma_leading_spaces(s.drop_first(), n - 1);
    }
}

/// A line of a test without the mark that keeps it out of the document.
fn clean_omitted_line(line: &str) -> (res: String)
    ensures
        res@ == unmarked(line@),
{
    let chars = chars_of(line);
    let mut n: usize = 0;
    while n < chars.len() && is_space_char(chars[n])
        invariant
            n <= chars@.len(),
            forall|i: int| 0 <= i < n ==> is_space(#[trigger] chars@[i]),
        ensures
            n <= chars@.len(),
            forall|i: int| 0 <= i < n ==> is_space(#[trigger] chars@[i]),
            n < chars@.len() ==> !is_space(chars@[n as int]),
        decreases chars@.len() - n,
    {
        n += 1;
    }
    let ghost start = line@.skip(n as int);
    proof {
        lemma_leading_spaces(line@, n as int);
        reveal_strlit("#");
    }
    let length: usize = chars.len();
    if length - n >= 2 && chars[n] == '#' && chars[n + 1] == ' ' {
        assert(start[0] == '#' && start[1] == ' ');
        assert(start.skip(2) == chars@.subrange(n + 2, length as int));
        return text_of(&chars, n + 2, length);
    }
    assert(!(start.len() >= 2 && start[0] == '#' && start[1] == ' '));
    let said = trim_text(&chars);
    if said.len() == 1 && said[0] == '#' {
        assert(said@ == "#"@);
        proof {
            lemma_blank_is_trimmed_away(line@, n as int);
        }
        assert(start.skip(1) == chars@.subrange(n + 1, length as int));
        return text_of(&chars, n + 1, length);
    }
    assert(said@ != "#"@);
    line.to_owned()
}

/// Of a text that is all white nothing is left.
proof fn lemma_blank_is_trimmed_away(s: Seq<char>, n: int)
    requires
        0 <= n <= s.len(),
        forall|i: int| 0 <= i < n ==> is_space(#[trigger] s[i]),
    ensures
        n == s.len() ==> trimmed(s).len() == 0,
    decreases s.len(),
{
    if n == s.len() && n > 0 {
        assert(is_space(s[0]));
        assert forall|i: int| 0 <= i < n - 1 implies is_space(#[trigger] s.drop_first()[i]) by {
            assert(is_space(s[i + 1]));
        }
        lemma_blank_is_trimmed_away(s.drop_first(), n - 1);
    }
}

/// The program that the lines of a test are.
pub fn create_test_input(lines: &Vec<String>) -> (program: String)
    ensures
        program@ == concatenated(
            lines.deep_view().map_values(|line: Seq<char>| unmarked(line)),
        ),
{
    let ghost all = lines.deep_view().map_values(|line: Seq<char>| unmarked(line));
    let mut program = String::new();
    let mut i: usize = 0;
    assert(all.take(0).len() == 0);
    while i < lines.len()
        invariant
            i <= lines@.len(),
            all == lines.deep_view().map_values(|line: Seq<char>| unmarked(line)),
            program@ == concatenated(all.take(i as int)),
        decreases lines@.len() - i,
    {
        assert(all.take(i + 1).drop_last() == all.take(i as int));
        let line = clean_omitted_line(lines[i].as_str());
        program.append(line.as_str());
        i += 1;
    }
    assert(all.take(i as int) == all);
    program
}

/// The pieces of a text between its line feeds, each with a line feed behind it.
pub fn get_lines(lines: String) -> (list: Vec<String>)
    ensures
        list.deep_view() == lines_with_ends(lines@),
        concatenated(list.deep_view()) == lines@.push('\n'),
{
    let chars = chars_of(lines.as_str());
    let mut list: Vec<String> = Vec::new();
    let mut start: usize = 0;
    assert(chars@.skip(0) == chars@);
    assert(list.deep_view() + lines_with_ends(chars@) == lines_with_ends(chars@));
    loop
        invariant
            chars@ == lines@,
            start <= chars@.len(),
            list.deep_view() + lines_with_ends(chars@.skip(start as int)) == lines_with_ends(
                lines@,
            ),
        decreases chars@.len() - start,
    {
        let ghost rest = chars@.skip(start as int);
        let ghost before = list.deep_view();
        let mut end: usize = start;
        while end < chars.len() && chars[end] != '\n'
            invariant
                start <= end <= chars@.len(),
                forall|j: int| start <= j < end ==> chars@[j] != '\n',
            ensures
                start <= end <= chars@.len(),
                forall|j: int| start <= j < end ==> chars@[j] != '\n',
                end < chars@.len() ==> chars@[end as int] == '\n',
            decreases chars@.len() - end,
        {
            end += 1;
        }
        proof {
            assert forall|j: int| 0 <= j < end - start implies rest[j] != '\n' by {
                assert(rest[j] == chars@[start + j]);
            }
            lemma_first_place(rest, '\n', end - start);
        }
        let mut line = text_of(&chars, start, end);
        assert(line@ == rest.take(end - start));
        line.push('\n');
        let ghost view = line@;
        list.push(line);
        assert(list.deep_view() == before.push(view));
        if end == chars.len() {
            assert(rest.take(rest.len() as int) == rest);
            assert(before.push(view) == before + seq![view]);
            proof {
                law_lines_are_the_text(lines@);
            }
            return list;
        }
        proof {
            assert(rest.skip(end - start + 1) == chars@.skip(end + 1));
            let others = lines_with_ends(chars@.skip(end + 1));
            assert(before + (seq![view] + others) == before.push(view) + others);
        }
        start = end + 1;
    }
}

/// Whether a text ends in a way.
fn has_end(text: &str, end: &str) -> (res: bool)
    ensures
        res == ends_with(text@, end@),
{
    let chars = chars_of(text);
    let tail = chars_of(end);
    if tail.len() > chars.len() {
        return false;
    }
    let from: usize = chars.len() - tail.len();
    assert(text@.skip(from as int) == chars@.subrange(from as int, chars@.len() as int));
    text_of(&chars, from, chars.len()) == end.to_owned()
}

/// Those of the files in a directory that are documents, in their order.
pub fn markdown_files_of_directory(files: &Vec<String>) -> (documents: Vec<String>)
    ensures
        documents.deep_view() == files.deep_view().filter(
            |file: Seq<char>| ends_with(file, ".md"@),
        ),
{
    let ghost all = files.deep_view();
    let ghost is_document = |file: Seq<char>| ends_with(file, ".md"@);
    let mut documents: Vec<String> = Vec::new();
    let mut i: usize = 0;
    assert(documents.deep_view() == all.take(0).filter(is_document)) by {
        reveal(Seq::filter);
    }
    while i < files.len()
        invariant
            i <= files@.len(),
            all == files.deep_view(),
            is_document == (|file: Seq<char>| ends_with(file, ".md"@)),
            documents.deep_view() == all.take(i as int).filter(is_document),
        decreases files@.len() - i,
    {
        let ghost before = documents.deep_view();
        let ghost longer = all.take(i + 1);
        proof {
            assert(longer.drop_last() == all.take(i as int));
            assert(longer.last() == files@[i as int]@);
            reveal(Seq::filter);
        }
        if has_end(files[i].as_str(), ".md") {
            documents.push(files[i].clone());
            assert(documents.deep_view() == before.push(all[i as int]));
        }
        i += 1;
    }
    assert(all.take(i as int) == all);
    documents
}

/// The lines of a text, one behind the other, are the text with a line feed behind it.
pub proof fn law_lines_are_the_text(s: Seq<char>)
    ensures
        concatenated(lines_with_ends(s)) == s.push('\n'),
    decreases s.len(),
{
    lemma_first_place_bounds(s, '\n');
    let end = first_place(s, '\n');
    let lines = lines_with_ends(s);
    if end == s.len() {
        reveal_with_fuel(concatenated, 2);
        assert(lines.drop_last() == Seq::<Seq<char>>::empty());
    } else {
        let others = lines_with_ends(s.skip(end + 1));
        law_lines_are_the_text(s.skip(end + 1));
        lemma_concatenated_from_front(s.take(end).push('\n'), others);
        assert(s.take(end).push('\n') + s.skip(end + 1).push('\n') == s.push('\n'));
    }
}

proof fn lemma_concatenated_from_front(first: Seq<char>, others: Seq<Seq<char>>)
    ensures
        concatenated(seq![first] + others) == first + concatenated(others),
    decreases others.len(),
{
    let all = seq![first] + others;
    if others.len() == 0 {
        reveal_with_fuel(concatenated, 2);
        assert(all.drop_last() == Seq::<Seq<char>>::empty());
        assert(all.last() == first);
    } else {
        lemma_concatenated_from_front(first, others.drop_last());
        assert(all.drop_last() == seq![first] + others.drop_last());
        assert(all.last() == others.last());
    }
}

/// The beginning of a line up to what is not white.
proof fn lemma_line_starts(gap: Seq<char>, body: Seq<char>)
    requires
        is_blank(gap),
        body.len() > 0 ==> !is_space(body[0]),
    ensures
        leading_spaces(gap + body) == gap.len(),
        (gap + body).skip(gap.len() as int) == body,
{
    let line = gap + body;
    let n = gap.len() as int;
    if n < line.len() {
        assert(line[n] == body[0]);
    }
    assert forall|i: int| 0 <= i < n implies is_space(#[trigger] line[i]) by {
        assert(line[i] == gap[i]);
    }
    lemma_leading_spaces(line, n);
}

/// A `#` with a space behind it that begins a line goes, with both, and with the white space before
/// it; what stands behind stays, whatever it is.
pub proof fn law_mark_goes(gap: Seq<char>, rest: Seq<char>)
    requires
        is_blank(gap),
    ensures
        unmarked(gap + (seq!['#', ' '] + rest)) == rest,
{
    let body = seq!['#', ' '] + rest;
    lemma_line_starts(gap, body);
    assert(body.skip(2) == rest);
}

/// A `#` that is alone on its line goes, with the white space before it; that behind it stays.
pub proof fn law_lone_mark_goes(gap: Seq<char>, rest: Seq<char>)
    requires
        is_blank(gap),
        is_blank(rest),
        rest.len() > 0 ==> rest[0] != ' ',
    ensures
        unmarked(gap + (seq!['#'] + rest)) == rest,
{
    let body = seq!['#'] + rest;
    lemma_line_starts(gap, body);
    reveal_strlit("#");
    assert("#"@ == seq!['#']);
    law_white_space_around_goes(gap, "#"@, rest);
    assert(gap + body == gap + "#"@ + rest);
    if rest.len() > 0 {
        assert(body[1] == rest[0]);
    }
    assert(body.skip(1) == rest);
}

/// Every other line stays as it is.
pub proof fn law_other_lines_stay(gap: Seq<char>, body: Seq<char>)
    requires
        is_blank(gap),
        body.len() > 0 ==> !is_space(body[0]),
        !(body.len() >= 2 && body[0] == '#' && body[1] == ' '),
        !(body.len() >= 1 && body[0] == '#' && is_blank(body.skip(1))),
    ensures
        unmarked(gap + body) == gap + body,
{
    let line = gap + body;
    lemma_line_starts(gap, body);
    reveal_strlit("#");
    assert("#"@ == seq!['#']);
    if trimmed(line) == "#"@ {
        let (a, b) = law_only_white_space_goes(line);
        let n = a.len() as int;
        assert(line[n] == '#');
        if n < gap.len() {
            assert(line[n] == gap[n]);
        } else if n > gap.len() {
            assert(line[gap.len() as int] == body[0]);
            assert(line[gap.len() as int] == a[gap.len() as int]);
        } else {
            assert(body == line.skip(n));
            assert(body.skip(1) == b);
            assert(body[0] == '#');
        }
    }
}

/// Texts are put one behind the other, each once and in their order.
pub proof fn law_texts_are_put_together(
    first: Seq<Seq<char>>,
    second: Seq<Seq<char>>,
    text: Seq<char>,
)
    ensures
        concatenated(first + second) == concatenated(first) + concatenated(second),
        concatenated(seq![text]) == text,
        concatenated(Seq::empty()).len() == 0,
    decreases second.len(),
{
    assert(seq![text].drop_last() == Seq::<Seq<char>>::empty());
    reveal_with_fuel(concatenated, 2);
    assert(concatenated(seq![text]) == text);
    let all = first + second;
    if second.len() == 0 {
        assert(all == first);
        assert(concatenated(first) + concatenated(second) == concatenated(first));
    } else {
        law_texts_are_put_together(first, second.drop_last(), text);
        assert(all.drop_last() == first + second.drop_last());
        assert(concatenated(first) + concatenated(second.drop_last()) + second.last()
            == concatenated(first) + (concatenated(second.drop_last()) + second.last()));
    }
}

/// The program of some lines is that of the first and that of the others, one behind the other;
/// that of one line is the line without its mark.
pub proof fn law_program_is_made_line_by_line(
    first: Seq<Seq<char>>,
    second: Seq<Seq<char>>,
    line: Seq<char>,
)
    ensures
        concatenated((first + second).map_values(|line: Seq<char>| unmarked(line)))
            == concatenated(first.map_values(|line: Seq<char>| unmarked(line))) + concatenated(
            second.map_values(|line: Seq<char>| unmarked(line)),
        ),
        concatenated(seq![line].map_values(|line: Seq<char>| unmarked(line))) == unmarked(line),
{
    let f = |line: Seq<char>| unmarked(line);
    assert((first + second).map_values(f) == first.map_values(f) + second.map_values(f));
    assert(seq![line].map_values(f) == seq![unmarked(line)]);
    law_texts_are_put_together(first.map_values(f), second.map_values(f), unmarked(line));
}

/// Each line ends with a line feed and holds no other.
pub proof fn law_each_line_has_one_line_feed(s: Seq<char>, k: int)
    requires
        0 <= k < lines_with_ends(s).len(),
    ensures
        lines_with_ends(s)[k].len() > 0,
        lines_with_ends(s)[k].last() == '\n',
        forall|i: int|
            0 <= i < lines_with_ends(s)[k].len() - 1 ==> #[trigger] lines_with_ends(s)[k][i]
                != '\n',
    decreases s.len(),
{
    lemma_first_place_bounds(s, '\n');
    let end = first_place(s, '\n');
    if k > 0 && end < s.len() {
        let others = lines_with_ends(s.skip(end + 1));
        law_each_line_has_one_line_feed(s.skip(end + 1), k - 1);
        assert(lines_with_ends(s)[k] == others[k - 1]);
    }
}

/// The documents are the files whose names end in `.md`, all of them and in their order: `at` says
/// which file each is.
pub proof fn law_documents_end_in_md(files: Seq<Seq<char>>) -> (at: Seq<int>)
    ensures
        ({
            let documents = files.filter(|file: Seq<char>| ends_with(file, ".md"@));
            &&& at.len() == documents.len()
            &&& forall|k: int|
                0 <= k < at.len() ==> 0 <= #[trigger] at[k] < files.len() && documents[k]
                    == files[at[k]]
            &&& forall|k: int, m: int| 0 <= k < m < at.len() ==> #[trigger] at[k] < #[trigger] at[m]
            &&& forall|i: int|
                0 <= i < files.len() ==> (at.contains(i) <==> (#[trigger] files[i]).len() >= 3
                    && files[i][files[i].len() - 3] == '.' && files[i][files[i].len() - 2] == 'm'
                    && files[i].last() == 'd')
        }),
    decreases files.len(),
{
    let is_document = |file: Seq<char>| ends_with(file, ".md"@);
    reveal(Seq::filter);
    if files.len() == 0 {
        Seq::empty()
    } else {
        let last = files.len() - 1;
        let file = files[last];
        let shorter = files.drop_last();
        let before = law_documents_end_in_md(shorter);
        let documents = shorter.filter(is_document);
        reveal_strlit(".md");
        let tail = file.skip(file.len() - 3);
        if file.len() >= 3 {
            assert(tail[0] == file[file.len() - 3] && tail[1] == file[file.len() - 2] && tail[2]
                == file.last());
            if tail[0] == '.' && tail[1] == 'm' && tail[2] == 'd' {
                assert(tail == ".md"@);
            }
        }
        let is_one = ends_with(file, ".md"@);
        assert(is_one <==> file.len() >= 3 && file[file.len() - 3] == '.' && file[file.len() - 2]
            == 'm' && file.last() == 'd');
        let at = if is_one {
            before.push(last)
        } else {
            before
        };
        let all = files.filter(is_document);
        assert(all == if is_one {
            documents.push(file)
        } else {
            documents
        });
        assert forall|k: int| 0 <= k < at.len() implies 0 <= #[trigger] at[k] < files.len()
            && all[k] == files[at[k]] by {
            if k < before.len() {
                assert(at[k] == before[k]);
            }
        }
        assert forall|i: int| 0 <= i < files.len() implies (at.contains(i) <==> (
        #[trigger] files[i]).len() >= 3 && files[i][files[i].len() - 3] == '.'
            && files[i][files[i].len() - 2] == 'm' && files[i].last() == 'd') by {
            if i < last {
                assert(shorter[i] == files[i]);
                if before.contains(i) {
                    assert(at[before.index_of(i)] == i);
                }
                if at.contains(i) {
                    assert(before[at.index_of(i)] == i);
                }
            } else {
                if is_one {
                    assert(at[before.len() as int] == i);
                }
                if at.contains(i) && !is_one {
                    assert(before[at.index_of(i)] == i);
                }
            }
        }
        at
    }
}

} // verus!
