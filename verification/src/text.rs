//! Small operations on strings and lists of strings, stated over their
//! characters.

use vstd::prelude::*;
use vstd::string::*;

verus! {

/// The first `n` characters of `chars`, or all of them where there are
/// fewer.
pub open spec fn spec_prefix(chars: Seq<char>, n: nat) -> Seq<char> {
    if chars.len() <= n {
        chars
    } else {
        chars.take(n as int)
    }
}

/// The first `n` characters of `s`, or all of `s` where it has fewer.
pub fn prefix(s: &str, n: usize) -> (head: String)
    ensures
        head@ == spec_prefix(s@, n as nat),
{
    let len = s.unicode_len();
    if len <= n {
        s.to_owned()
    } else {
        s.substring_char(0, n).to_owned()
    }
}

/// The characters of `value`, or those of `fallback` where there is no
/// value.
pub open spec fn spec_text_or(value: Option<Seq<char>>, fallback: Seq<char>) -> Seq<char> {
    match value {
        Some(text) => text,
        None => fallback,
    }
}

/// A copy of `value`, or of `fallback` where there is no value.
pub fn text_or(value: &Option<String>, fallback: &str) -> (text: String)
    ensures
        text@ == spec_text_or(value.deep_view(), fallback@),
{
    match value {
        Some(text) => text.clone(),
        None => fallback.to_owned(),
    }
}

/// A copy of an optional string.
pub fn copy_optional(value: &Option<String>) -> (copy: Option<String>)
    ensures
        copy.deep_view() == value.deep_view(),
{
    match value {
        Some(text) => Some(text.clone()),
        None => None,
    }
}

/// A copy of a list of strings.
pub fn copy_texts(texts: &Vec<String>) -> (copy: Vec<String>)
    ensures
        copy.deep_view() == texts.deep_view(),
{
    let mut copy: Vec<String> = Vec::new();
    let mut i: usize = 0;
    while i < texts.len()
        invariant
            i <= texts.len(),
            copy.len() == i,
            forall|j: int| 0 <= j < i ==> copy[j]@ == texts[j]@,
        decreases texts.len() - i,
    {
        copy.push(texts[i].clone());
        i += 1;
    }
    assert(copy.deep_view() =~= texts.deep_view());
    copy
}

/// The first line of a text: what stands before its first line feed, or all
/// of it where it has none.
pub open spec fn spec_first_line(chars: Seq<char>) -> Seq<char>
    decreases chars.len(),
{
    if chars.len() == 0 || chars[0] == '\n' {
        Seq::empty()
    } else {
        seq![chars[0]] + spec_first_line(chars.drop_first())
    }
}

/// The first line of a text is its prefix up to the first line feed.
proof fn lemma_first_line(chars: Seq<char>, end: int)
    requires
        0 <= end <= chars.len(),
        forall|k: int| 0 <= k < end ==> chars[k] != '\n',
        end < chars.len() ==> chars[end] == '\n',
    ensures
        spec_first_line(chars) == chars.take(end),
    decreases chars.len(),
{
    if end == 0 {
        assert(chars.take(0) =~= Seq::<char>::empty());
    } else {
        let rest = chars.drop_first();
        assert forall|k: int| 0 <= k < end - 1 implies rest[k] != '\n' by {
            assert(rest[k] == chars[k + 1]);
        }
        lemma_first_line(rest, end - 1);
        assert(chars.take(end) =~= seq![chars[0]] + rest.take(end - 1));
    }
}

/// The first line of `s`.
pub fn first_line(s: &str) -> (line: String)
    ensures
        line@ == spec_first_line(s@),
{
    let len = s.unicode_len();
    let mut end: usize = 0;
    while end < len && s.get_char(end) != '\n'
        invariant
            end <= len,
            len == s@.len(),
            forall|k: int| 0 <= k < end ==> s@[k] != '\n',
        decreases len - end,
    {
        end += 1;
    }
    proof {
        lemma_first_line(s@, end as int);
        assert(s@.subrange(0, end as int) =~= s@.take(end as int));
    }
    s.substring_char(0, end).to_owned()
}

/// Whether a text is empty or ends in a line feed.
pub open spec fn spec_ends_line(chars: Seq<char>) -> bool {
    chars.len() == 0 || chars.last() == '\n'
}

/// The text with a line feed behind it, unless it is empty or ends in one.
pub open spec fn spec_closed_line(chars: Seq<char>) -> Seq<char> {
    if spec_ends_line(chars) {
        chars
    } else {
        chars.push('\n')
    }
}

/// Appends `s` to `text`, and a line feed where `s` does not end in one.
pub fn append_closed(text: &mut String, s: &str)
    ensures
        final(text)@ == old(text)@ + spec_closed_line(s@),
{
    let len = s.unicode_len();
    text.append(s);
    if len > 0 && s.get_char(len - 1) != '\n' {
        text.append("\n");
        proof {
            reveal_strlit("\n");
            assert("\n"@ =~= seq!['\n']);
            assert(old(text)@ + s@ + seq!['\n'] =~= old(text)@ + s@.push('\n'));
        }
    }
}

/// The text of a file with the lines `lines`: each line closed by a line
/// feed.
pub open spec fn spec_joined(lines: Seq<Seq<char>>) -> Seq<char>
    decreases lines.len(),
{
    if lines.len() == 0 {
        Seq::empty()
    } else {
        spec_joined(lines.drop_last()) + lines.last() + seq!['\n']
    }
}

/// The text of a file with the lines `lines`.
pub fn join_lines(lines: &Vec<String>) -> (text: String)
    ensures
        text@ == spec_joined(lines.deep_view()),
{
    let ghost all = lines.deep_view();
    let mut text = String::new();
    let mut i: usize = 0;
    proof {
        assert(all.take(0) =~= Seq::<Seq<char>>::empty());
    }
    while i < lines.len()
        invariant
            i <= lines.len(),
            all == lines.deep_view(),
            text@ == spec_joined(all.take(i as int)),
        decreases lines.len() - i,
    {
        text.append(lines[i].as_str());
        text.append("\n");
        proof {
            reveal_strlit("\n");
            assert("\n"@ =~= seq!['\n']);
            let next = all.take(i + 1);
            assert(next.drop_last() =~= all.take(i as int));
            assert(next.last() == lines[i as int]@);
        }
        i += 1;
    }
    proof {
        assert(all.take(i as int) =~= all);
    }
    text
}

/// The text of two lists of lines, one after the other, is the text of the
/// first followed by the text of the second.
pub proof fn lemma_joined_add(first: Seq<Seq<char>>, second: Seq<Seq<char>>)
    ensures
        spec_joined(first + second) == spec_joined(first) + spec_joined(second),
    decreases second.len(),
{
    if second.len() == 0 {
        assert(first + second =~= first);
        assert(spec_joined(first) + Seq::<char>::empty() =~= spec_joined(first));
    } else {
        lemma_joined_add(first, second.drop_last());
        assert((first + second).drop_last() =~= first + second.drop_last());
        assert((first + second).last() == second.last());
        assert(spec_joined(first + second) =~= spec_joined(first) + spec_joined(second));
    }
}

/// The text of a list of lines is empty or ends in a line feed.
pub proof fn lemma_joined_ends_line(lines: Seq<Seq<char>>)
    ensures
        spec_ends_line(spec_joined(lines)),
        spec_closed_line(spec_joined(lines)) == spec_joined(lines),
{
}

/// The pieces of a text between its line feeds: one more piece than the
/// text has line feeds, so that a text that ends in a line feed has an
/// empty last piece.
pub open spec fn spec_split(chars: Seq<char>) -> Seq<Seq<char>>
    decreases chars.len(),
{
    let line = spec_first_line(chars);
    if line.len() < chars.len() {
        // a line feed follows the first line
        seq![line] + spec_split(chars.skip(line.len() as int + 1))
    } else {
        seq![chars]
    }
}

/// The first line of a text is no longer than the text, holds no line feed,
/// and is followed by a line feed where the text holds one.
pub proof fn lemma_first_line_ends(chars: Seq<char>)
    ensures
        spec_first_line(chars).len() <= chars.len(),
        !spec_first_line(chars).contains('\n'),
        spec_first_line(chars) == chars.take(spec_first_line(chars).len() as int),
        chars.contains('\n') ==> spec_first_line(chars).len() < chars.len()
            && chars[spec_first_line(chars).len() as int] == '\n',
        !chars.contains('\n') ==> spec_first_line(chars) == chars,
    decreases chars.len(),
{
    let line = spec_first_line(chars);
    if chars.len() == 0 {
        assert(chars.take(0) =~= line);
        assert(line =~= chars);
    } else if chars[0] == '\n' {
        assert(chars.take(0) =~= line);
    } else {
        let rest = chars.drop_first();
        lemma_first_line_ends(rest);
        let inner = spec_first_line(rest);
        assert(line =~= seq![chars[0]] + inner);
        assert(chars.take(line.len() as int) =~= seq![chars[0]] + rest.take(inner.len() as int));
        if line.contains('\n') {
            let i = choose|i: int| 0 <= i < line.len() && line[i] == '\n';
            assert(inner[i - 1] == '\n');
        }
        if chars.contains('\n') {
            let i = choose|i: int| 0 <= i < chars.len() && chars[i] == '\n';
            assert(rest[i - 1] == '\n');
            assert(rest[inner.len() as int] == chars[inner.len() as int + 1]);
        } else {
            if rest.contains('\n') {
                let i = choose|i: int| 0 <= i < rest.len() && rest[i] == '\n';
                assert(chars[i + 1] == '\n');
            }
            assert(line =~= chars);
        }
    }
}

/// `str::split` at every line feed, each piece as a string of its own: the
/// pieces of the text between its line feeds, in their order.
#[verifier::external_body]
fn split_at_line_feeds(text: &str) -> (pieces: Vec<String>)
    ensures
        pieces.deep_view() == spec_split(text@),
{
    text.split('\n').map(String::from).collect()
}

/// The lines of a text: its pieces between the line feeds, without the
/// empty piece behind a last line feed. A text that does not end in a line
/// feed has its rest as its last line, and an empty text has no line.
pub open spec fn spec_lines_of(chars: Seq<char>) -> Seq<Seq<char>> {
    let pieces = spec_split(chars);
    if pieces.last().len() == 0 {
        pieces.drop_last()
    } else {
        pieces
    }
}

/// The lines of a text.
pub fn lines_of(text: &str) -> (lines: Vec<String>)
    ensures
        lines.deep_view() == spec_lines_of(text@),
{
    let mut pieces = split_at_line_feeds(text);
    let ghost all = pieces.deep_view();
    proof {
        lemma_split_is_not_empty(text@);
    }
    let last = pieces.len() - 1;
    if pieces[last].as_str().is_empty() {
        assert(all.last().len() == 0);
        let _ = pieces.pop();
        assert(pieces.deep_view() =~= all.drop_last());
    }
    pieces
}

/// A text has at least one piece.
pub proof fn lemma_split_is_not_empty(chars: Seq<char>)
    ensures
        spec_split(chars).len() > 0,
{
}

/// To split the text of a file gives back its lines: where no line holds a
/// line feed, the lines of the joined text are the lines that were joined.
pub proof fn lemma_lines_of_joined(lines: Seq<Seq<char>>)
    requires
        forall|i: int| 0 <= i < lines.len() ==> !(#[trigger] lines[i]).contains('\n'),
    ensures
        spec_split(spec_joined(lines)) == lines.push(Seq::empty()),
        spec_lines_of(spec_joined(lines)) == lines,
    decreases lines.len(),
{
    let text = spec_joined(lines);
    if lines.len() == 0 {
        assert(!text.contains('\n'));
        assert(spec_split(text) =~= lines.push(Seq::empty()));
    } else {
        let first = lines[0];
        let rest = lines.drop_first();
        assert(lines =~= seq![first] + rest);
        lemma_joined_add(seq![first], rest);
        reveal_with_fuel(spec_joined, 2);
        assert(seq![first].drop_last() =~= Seq::<Seq<char>>::empty());
        assert(spec_joined(seq![first]) =~= first + seq!['\n']);
        let tail = spec_joined(rest);
        assert(text =~= first + seq!['\n'] + tail);
        assert(text[first.len() as int] == '\n');
        lemma_first_line_ends(text);
        let line = spec_first_line(text);
        // the first line feed of the text is the one behind the first line
        if line.len() < first.len() {
            assert(text[line.len() as int] == first[line.len() as int]);
            assert(first.contains('\n'));
        }
        if line.len() > first.len() {
            assert(line[first.len() as int] == text[first.len() as int]);
            assert(line.contains('\n'));
        }
        assert(line =~= first);
        assert(text.skip(line.len() as int + 1) =~= tail);
        assert forall|i: int| 0 <= i < rest.len() implies !(#[trigger] rest[i]).contains(
            '\n',
        ) by {
            assert(rest[i] == lines[i + 1]);
        }
        lemma_lines_of_joined(rest);
        assert(spec_split(text) =~= lines.push(Seq::empty()));
    }
    assert(lines.push(Seq::<char>::empty()).drop_last() =~= lines);
}

} // verus!
