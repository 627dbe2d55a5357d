//! The textual diff of one path between two of its versions, in the unified
//! convention: a header that names the path, a hunk header that places the
//! change, the removed lines marked `-` and the added lines marked `+`.

use vstd::prelude::*;
use vstd::string::*;
use crate::error::JanusError;

verus! {

/// The lines of a file, each without its line feed.
pub type Lines = Seq<Seq<char>>;

/// How many lines two versions have in common at their beginning.
pub open spec fn spec_common_prefix(old: Lines, new: Lines) -> nat
    decreases old.len(),
{
    if old.len() == 0 || new.len() == 0 || old[0] != new[0] {
        0
    } else {
        1 + spec_common_prefix(old.drop_first(), new.drop_first())
    }
}

/// How many lines two versions have in common at their end.
pub open spec fn spec_common_suffix(old: Lines, new: Lines) -> nat
    decreases old.len(),
{
    if old.len() == 0 || new.len() == 0 || old.last() != new.last() {
        0
    } else {
        1 + spec_common_suffix(old.drop_last(), new.drop_last())
    }
}

/// The change between two versions of a file: what they have in common at
/// the beginning and, past that, at the end, and the lines in between,
/// which are removed from the old version and added in the new one.
pub struct Delta {
    /// How many lines the versions share at the beginning.
    pub prefix: nat,
    /// How many lines the versions share at the end, past the beginning.
    pub suffix: nat,
    /// The lines of the old version that the new one does not have.
    pub removed: Lines,
    /// The lines of the new version that the old one does not have.
    pub added: Lines,
}

/// The change between two versions of a file.
pub open spec fn spec_delta(old: Lines, new: Lines) -> Delta {
    let prefix = spec_common_prefix(old, new);
    let suffix = spec_common_suffix(old.skip(prefix as int), new.skip(prefix as int));
    Delta {
        prefix,
        suffix,
        removed: old.subrange(prefix as int, old.len() - suffix),
        added: new.subrange(prefix as int, new.len() - suffix),
    }
}

/// The common beginning of two versions is common, and no longer than
/// either.
pub proof fn lemma_common_prefix(old: Lines, new: Lines)
    ensures
        spec_common_prefix(old, new) <= old.len(),
        spec_common_prefix(old, new) <= new.len(),
        old.take(spec_common_prefix(old, new) as int) == new.take(
            spec_common_prefix(old, new) as int,
        ),
        spec_common_prefix(old, new) < old.len() && spec_common_prefix(old, new) < new.len()
            ==> old[spec_common_prefix(old, new) as int] != new[spec_common_prefix(
            old,
            new,
        ) as int],
    decreases old.len(),
{
    if old.len() == 0 || new.len() == 0 || old[0] != new[0] {
        assert(old.take(0) =~= new.take(0));
    } else {
        lemma_common_prefix(old.drop_first(), new.drop_first());
        let p = spec_common_prefix(old.drop_first(), new.drop_first()) as int;
        assert(old.take(p + 1) =~= seq![old[0]] + old.drop_first().take(p));
        assert(new.take(p + 1) =~= seq![new[0]] + new.drop_first().take(p));
    }
}

/// The common end of two versions is common, and no longer than either.
pub proof fn lemma_common_suffix(old: Lines, new: Lines)
    ensures
        spec_common_suffix(old, new) <= old.len(),
        spec_common_suffix(old, new) <= new.len(),
        old.skip(old.len() - spec_common_suffix(old, new)) == new.skip(
            new.len() - spec_common_suffix(old, new),
        ),
        spec_common_suffix(old, new) < old.len() && spec_common_suffix(old, new) < new.len()
            ==> old[old.len() - 1 - spec_common_suffix(old, new)] != new[new.len() - 1
            - spec_common_suffix(old, new)],
    decreases old.len(),
{
    if old.len() == 0 || new.len() == 0 || old.last() != new.last() {
        assert(old.skip(old.len() as int) =~= new.skip(new.len() as int));
    } else {
        lemma_common_suffix(old.drop_last(), new.drop_last());
        let s = spec_common_suffix(old.drop_last(), new.drop_last()) as int;
        assert(old.skip(old.len() - (s + 1)) =~= old.drop_last().skip(old.len() - 1 - s).push(
            old.last(),
        ));
        assert(new.skip(new.len() - (s + 1)) =~= new.drop_last().skip(new.len() - 1 - s).push(
            new.last(),
        ));
    }
}

/// The change turns the old version into the new one: the old version is
/// its common beginning, the removed lines and its common end, and the new
/// version is the same beginning, the added lines and the same end. The
/// two versions are the same exactly when nothing is removed and nothing
/// added.
pub proof fn lemma_delta_applies(old: Lines, new: Lines)
    ensures
        spec_delta(old, new).prefix + spec_delta(old, new).suffix <= old.len(),
        spec_delta(old, new).prefix + spec_delta(old, new).suffix <= new.len(),
        old == old.take(spec_delta(old, new).prefix as int) + spec_delta(old, new).removed
            + old.skip(old.len() - spec_delta(old, new).suffix),
        new == old.take(spec_delta(old, new).prefix as int) + spec_delta(old, new).added
            + old.skip(old.len() - spec_delta(old, new).suffix),
        old == new <==> spec_delta(old, new).removed.len() == 0 && spec_delta(
            old,
            new,
        ).added.len() == 0,
{
    let d = spec_delta(old, new);
    let p = d.prefix as int;
    lemma_common_prefix(old, new);
    let old_rest = old.skip(p);
    let new_rest = new.skip(p);
    lemma_common_suffix(old_rest, new_rest);
    let s = d.suffix as int;
    assert(old_rest.skip(old_rest.len() - s) =~= old.skip(old.len() - s));
    assert(new_rest.skip(new_rest.len() - s) =~= new.skip(new.len() - s));
    assert(old =~= old.take(p) + d.removed + old.skip(old.len() - s));
    assert(new =~= new.take(p) + d.added + new.skip(new.len() - s));
    if old == new {
        if p < old.len() {
            // the versions agree at the first line past the common beginning
            assert(false);
        }
    }
    if d.removed.len() == 0 && d.added.len() == 0 {
        assert(d.removed =~= d.added);
    }
}

/// The character of a decimal digit.
pub open spec fn spec_digit(d: nat) -> char {
    if d == 0 {
        '0'
    } else if d == 1 {
        '1'
    } else if d == 2 {
        '2'
    } else if d == 3 {
        '3'
    } else if d == 4 {
        '4'
    } else if d == 5 {
        '5'
    } else if d == 6 {
        '6'
    } else if d == 7 {
        '7'
    } else if d == 8 {
        '8'
    } else {
        '9'
    }
}

/// A number in decimal, without leading zeros.
pub open spec fn spec_decimal(n: nat) -> Seq<char>
    decreases n,
{
    if n < 10 {
        seq![spec_digit(n)]
    } else {
        spec_decimal(n / 10).push(spec_digit(n % 10))
    }
}

/// The text of a decimal digit.
fn digit_text(d: usize) -> (text: &'static str)
    requires
        d < 10,
    ensures
        text@ == seq![spec_digit(d as nat)],
{
    proof {
        reveal_strlit("0");
        reveal_strlit("1");
        reveal_strlit("2");
        reveal_strlit("3");
        reveal_strlit("4");
        reveal_strlit("5");
        reveal_strlit("6");
        reveal_strlit("7");
        reveal_strlit("8");
        reveal_strlit("9");
    }
    let text = if d == 0 {
        "0"
    } else if d == 1 {
        "1"
    } else if d == 2 {
        "2"
    } else if d == 3 {
        "3"
    } else if d == 4 {
        "4"
    } else if d == 5 {
        "5"
    } else if d == 6 {
        "6"
    } else if d == 7 {
        "7"
    } else if d == 8 {
        "8"
    } else {
        "9"
    };
    assert(text@ =~= seq![spec_digit(d as nat)]);
    text
}

/// A number in decimal.
pub fn decimal(n: usize) -> (text: String)
    ensures
        text@ == spec_decimal(n as nat),
    decreases n,
{
    if n < 10 {
        String::from_str(digit_text(n))
    } else {
        let mut text = decimal(n / 10);
        text.append(digit_text(n % 10));
        assert(text@ =~= spec_decimal((n / 10) as nat).push(spec_digit((n % 10) as nat)));
        text
    }
}

/// The lines `lines`, each behind the mark `mark` and closed by a line
/// feed.
pub open spec fn spec_marked(mark: char, lines: Lines) -> Seq<char>
    decreases lines.len(),
{
    if lines.len() == 0 {
        Seq::empty()
    } else {
        spec_marked(mark, lines.drop_last()) + seq![mark] + lines.last() + seq!['\n']
    }
}

/// The line number that a hunk header gives for a side with `count` lines
/// behind `prefix` common lines: that of the first of the lines, or of the
/// line before where there are none.
pub open spec fn spec_hunk_start(prefix: nat, count: nat) -> nat {
    if count == 0 {
        prefix
    } else {
        prefix + 1
    }
}

/// The hunk header of a change that removes `removed` lines and adds
/// `added` lines behind `prefix` common lines.
pub open spec fn spec_hunk_text(prefix: nat, removed: nat, added: nat) -> Seq<char> {
    "@@ -"@ + spec_decimal(spec_hunk_start(prefix, removed)) + ","@ + spec_decimal(removed)
        + " +"@ + spec_decimal(spec_hunk_start(prefix, added)) + ","@ + spec_decimal(added)
        + " @@\n"@
}

/// The hunk header of a change.
pub open spec fn spec_hunk_header(delta: Delta) -> Seq<char> {
    spec_hunk_text(delta.prefix, delta.removed.len(), delta.added.len())
}

/// The header that names the path on both sides.
pub open spec fn spec_names(path: Seq<char>) -> Seq<char> {
    "--- a/"@ + path + "\n+++ b/"@ + path + "\n"@
}

/// The unified diff of a path between an old and a new version: empty
/// where the versions are the same, and otherwise the header that names
/// the path, the hunk header, the removed lines and the added lines.
pub open spec fn spec_unified(path: Seq<char>, old: Lines, new: Lines) -> Seq<char> {
    if old == new {
        Seq::empty()
    } else {
        let delta = spec_delta(old, new);
        spec_names(path) + spec_hunk_header(delta) + spec_marked('-', delta.removed)
            + spec_marked('+', delta.added)
    }
}

/// Appends the lines `lines[from..to]` to `text`, each behind `mark`.
fn append_marked(text: &mut String, mark: &str, lines: &Vec<String>, from: usize, to: usize)
    requires
        from <= to <= lines.len(),
        mark@.len() == 1,
    ensures
        final(text)@ == old(text)@ + spec_marked(
            mark@[0],
            lines.deep_view().subrange(from as int, to as int),
        ),
{
    let ghost start = text@;
    let ghost all = lines.deep_view();
    let mut i: usize = from;
    proof {
        assert(all.subrange(from as int, from as int) =~= Seq::<Seq<char>>::empty());
        assert(start + spec_marked(mark@[0], all.subrange(from as int, from as int)) =~= start);
    }
    while i < to
        invariant
            from <= i <= to <= lines.len(),
            mark@.len() == 1,
            all == lines.deep_view(),
            text@ == start + spec_marked(mark@[0], all.subrange(from as int, i as int)),
        decreases to - i,
    {
        let ghost before = text@;
        text.append(mark);
        text.append(lines[i].as_str());
        text.append("\n");
        proof {
            reveal_strlit("\n");
            assert("\n"@ =~= seq!['\n']);
            assert(mark@ =~= seq![mark@[0]]);
            let done = all.subrange(from as int, i as int);
            let next = all.subrange(from as int, i + 1);
            assert(next.drop_last() =~= done);
            assert(next.last() == lines[i as int]@);
            assert(text@ =~= start + spec_marked(mark@[0], next));
        }
        i += 1;
    }
}

/// Whether two lists of lines are the same.
fn same_lines(a: &Vec<String>, b: &Vec<String>) -> (same: bool)
    ensures
        same == (a.deep_view() == b.deep_view()),
{
    if a.len() != b.len() {
        assert(a.deep_view().len() != b.deep_view().len());
        return false;
    }
    let mut i: usize = 0;
    while i < a.len()
        invariant
            i <= a.len(),
            a.len() == b.len(),
            forall|k: int| 0 <= k < i ==> a[k]@ == b[k]@,
        decreases a.len() - i,
    {
        if a[i] != b[i] {
            assert(a.deep_view()[i as int] != b.deep_view()[i as int]);
            return false;
        }
        i += 1;
    }
    assert(a.deep_view() =~= b.deep_view());
    true
}

/// How many lines two versions have in common at their beginning.
fn common_prefix(old: &Vec<String>, new: &Vec<String>) -> (count: usize)
    ensures
        count == spec_common_prefix(old.deep_view(), new.deep_view()),
{
    let ghost a = old.deep_view();
    let ghost b = new.deep_view();
    let mut p: usize = 0;
    proof {
        assert(a.skip(0) =~= a);
        assert(b.skip(0) =~= b);
    }
    while p < old.len() && p < new.len() && old[p] == new[p]
        invariant
            p <= old.len(),
            p <= new.len(),
            a == old.deep_view(),
            b == new.deep_view(),
            spec_common_prefix(a, b) == p + spec_common_prefix(a.skip(p as int), b.skip(p as int)),
        decreases old.len() - p,
    {
        proof {
            assert(a.skip(p as int)[0] == a[p as int]);
            assert(b.skip(p as int)[0] == b[p as int]);
            assert(a.skip(p as int).drop_first() =~= a.skip(p + 1));
            assert(b.skip(p as int).drop_first() =~= b.skip(p + 1));
        }
        p += 1;
    }
    proof {
        if p < old.len() && p < new.len() {
            assert(a.skip(p as int)[0] == a[p as int]);
            assert(b.skip(p as int)[0] == b[p as int]);
        }
    }
    p
}

/// How many lines two versions have in common at their end, past their
/// first `skip` lines.
fn common_suffix(old: &Vec<String>, new: &Vec<String>, skip: usize) -> (count: usize)
    requires
        skip <= old.len(),
        skip <= new.len(),
    ensures
        count == spec_common_suffix(
            old.deep_view().skip(skip as int),
            new.deep_view().skip(skip as int),
        ),
        skip + count <= old.len(),
        skip + count <= new.len(),
{
    let ghost a = old.deep_view().skip(skip as int);
    let ghost b = new.deep_view().skip(skip as int);
    let mut s: usize = 0;
    proof {
        assert(a.take(a.len() as int) =~= a);
        assert(b.take(b.len() as int) =~= b);
    }
    while skip + s < old.len() && skip + s < new.len() && old[old.len() - 1 - s] == new[new.len()
        - 1 - s]
        invariant
            skip + s <= old.len(),
            skip + s <= new.len(),
            a == old.deep_view().skip(skip as int),
            b == new.deep_view().skip(skip as int),
            spec_common_suffix(a, b) == s + spec_common_suffix(
                a.take(a.len() - s),
                b.take(b.len() - s),
            ),
        decreases old.len() - s,
    {
        proof {
            let x = a.take(a.len() - s);
            let y = b.take(b.len() - s);
            assert(x.last() == old.deep_view()[old.len() - 1 - s]);
            assert(y.last() == new.deep_view()[new.len() - 1 - s]);
            assert(x.drop_last() =~= a.take(a.len() - (s + 1)));
            assert(y.drop_last() =~= b.take(b.len() - (s + 1)));
        }
        s += 1;
    }
    proof {
        let x = a.take(a.len() - s);
        let y = b.take(b.len() - s);
        if skip + s < old.len() && skip + s < new.len() {
            assert(x.last() == old.deep_view()[old.len() - 1 - s]);
            assert(y.last() == new.deep_view()[new.len() - 1 - s]);
        }
        assert(a.take(a.len() as int) =~= a);
        assert(b.take(b.len() as int) =~= b);
    }
    s
}

/// The header that names the path on both sides.
fn names(path: &str) -> (text: String)
    ensures
        text@ == spec_names(path@),
{
    let mut text = String::from_str("--- a/");
    text.append(path);
    text.append("\n+++ b/");
    text.append(path);
    text.append("\n");
    text
}

/// The hunk header of a change.
fn hunk_header(prefix: usize, removed: usize, added: usize) -> (text: String)
    requires
        prefix < usize::MAX,
    ensures
        text@ == spec_hunk_text(prefix as nat, removed as nat, added as nat),
{
    let old_start = if removed == 0 {
        prefix
    } else {
        prefix + 1
    };
    let new_start = if added == 0 {
        prefix
    } else {
        prefix + 1
    };
    let mut text = String::from_str("@@ -");
    text.append(decimal(old_start).as_str());
    text.append(",");
    text.append(decimal(removed).as_str());
    text.append(" +");
    text.append(decimal(new_start).as_str());
    text.append(",");
    text.append(decimal(added).as_str());
    text.append(" @@\n");
    text
}

/// The unified diff of `path` between the lines of an old and of a new
/// version.
pub fn unified_diff(path: &str, old: &Vec<String>, new: &Vec<String>) -> (text: String)
    ensures
        text@ == spec_unified(path@, old.deep_view(), new.deep_view()),
{
    if same_lines(old, new) {
        return String::new();
    }
    let prefix = common_prefix(old, new);
    proof {
        lemma_common_prefix(old.deep_view(), new.deep_view());
    }
    let suffix = common_suffix(old, new, prefix);
    let ghost delta = spec_delta(old.deep_view(), new.deep_view());
    proof {
        // versions that differ do not have all their lines in common
        if prefix == old.len() && prefix == new.len() {
            assert(old.deep_view().take(prefix as int) =~= old.deep_view());
            assert(new.deep_view().take(prefix as int) =~= new.deep_view());
        }
    }
    let mut text = names(path);
    let header = hunk_header(prefix, old.len() - suffix - prefix, new.len() - suffix - prefix);
    text.append(header.as_str());
    let ghost head = text@;
    proof {
        reveal_strlit("-");
        reveal_strlit("+");
    }
    append_marked(&mut text, "-", old, prefix, old.len() - suffix);
    let ghost middle = text@;
    append_marked(&mut text, "+", new, prefix, new.len() - suffix);
    proof {
        assert(head == spec_names(path@) + spec_hunk_header(delta));
        assert(middle == head + spec_marked('-', delta.removed));
        assert(text@ == middle + spec_marked('+', delta.added));
    }
    text
}

/// The lines of one path in the three states of a repository; none where a
/// state does not hold the path.
#[derive(Debug, Clone, PartialEq, Eq)]
pub struct Versions {
    /// The lines in the tree of the HEAD commit.
    pub head: Option<Vec<String>>,
    /// The lines in the index.
    pub index: Option<Vec<String>>,
    /// The lines in the working tree.
    pub worktree: Option<Vec<String>>,
}

/// The lines of a version; none for a version that does not hold the path.
pub open spec fn spec_lines(version: Option<Vec<String>>) -> Lines {
    match version {
        Some(lines) => lines.deep_view(),
        None => Seq::empty(),
    }
}

/// The diff that is asked for: of the index against the HEAD commit where
/// `staged` holds, and of the working tree against the index otherwise.
/// There is none where neither of the two states holds the path.
pub open spec fn spec_get_diff(path: Seq<char>, staged: bool, versions: Versions) -> Option<
    Seq<char>,
> {
    let older = if staged {
        versions.head
    } else {
        versions.index
    };
    let newer = if staged {
        versions.index
    } else {
        versions.worktree
    };
    if older is None && newer is None {
        None
    } else {
        Some(spec_unified(path, spec_lines(older), spec_lines(newer)))
    }
}

/// The unified diff of `file_path`: between the HEAD commit and the index
/// where `staged` holds, and between the index and the working tree
/// otherwise. The diff is empty where the two versions are the same, and a
/// state that does not hold the path counts as an empty file.
///
/// Fails with `ObjectNotFound` where neither of the two states holds the
/// path.
pub fn get_diff(file_path: String, staged: bool, versions: &Versions) -> (res: Result<
    String,
    JanusError,
>)
    ensures
        match spec_get_diff(file_path@, staged, *versions) {
            Some(text) => res matches Ok(diff) && diff@ == text,
            None => res matches Err(JanusError::ObjectNotFound(what)) && what@ == file_path@,
        },
{
    let older = if staged {
        &versions.head
    } else {
        &versions.index
    };
    let newer = if staged {
        &versions.index
    } else {
        &versions.worktree
    };
    let none: Vec<String> = Vec::new();
    assert(none.deep_view() =~= Seq::<Seq<char>>::empty());
    match older {
        Some(old) => match newer {
            Some(new) => Ok(unified_diff(file_path.as_str(), old, new)),
            None => Ok(unified_diff(file_path.as_str(), old, &none)),
        },
        None => match newer {
            Some(new) => Ok(unified_diff(file_path.as_str(), &none, new)),
            None => Err(JanusError::ObjectNotFound(file_path)),
        },
    }
}

/// Every removed line and every added line stands in the diff behind its
/// mark, and a file that was edited and then staged shows the same diff
/// against the HEAD commit as it showed against the index before.
pub proof fn lemma_staging_keeps_the_diff(
    path: Seq<char>,
    head: Option<Vec<String>>,
    edited: Option<Vec<String>>,
)
    ensures
        spec_get_diff(path, false, Versions { head, index: head, worktree: edited })
            == spec_get_diff(path, true, Versions { head, index: edited, worktree: edited }),
{
}

/// Whether `text` holds `part` as one piece.
pub open spec fn spec_holds(text: Seq<char>, part: Seq<char>) -> bool {
    exists|at: int|
        0 <= at && at + part.len() <= text.len() && #[trigger] text.subrange(
            at,
            at + part.len(),
        ) == part
}

/// What a text holds, a longer text around it holds too.
pub proof fn lemma_holds_within(before: Seq<char>, text: Seq<char>, after: Seq<char>, part: Seq<
    char,
>)
    requires
        spec_holds(text, part),
    ensures
        spec_holds(before + text + after, part),
{
    let at = choose|at: int|
        0 <= at && at + part.len() <= text.len() && #[trigger] text.subrange(
            at,
            at + part.len(),
        ) == part;
    let whole = before + text + after;
    let moved = before.len() + at;
    assert(whole.subrange(moved, moved + part.len()) =~= text.subrange(at, at + part.len()));
}

/// Marked lines hold each of their lines behind the mark and closed by a
/// line feed.
pub proof fn lemma_marked_holds_line(mark: char, lines: Lines, i: int)
    requires
        0 <= i < lines.len(),
    ensures
        spec_holds(spec_marked(mark, lines), seq![mark] + lines[i] + seq!['\n']),
    decreases lines.len(),
{
    let part = seq![mark] + lines[i] + seq!['\n'];
    let init = spec_marked(mark, lines.drop_last());
    let whole = spec_marked(mark, lines);
    if i == lines.len() - 1 {
        let at = init.len() as int;
        assert(whole.subrange(at, at + part.len()) =~= part);
    } else {
        lemma_marked_holds_line(mark, lines.drop_last(), i);
        let last = seq![mark] + lines.last() + seq!['\n'];
        assert(whole =~= Seq::<char>::empty() + init + last);
        lemma_holds_within(Seq::empty(), init, last, part);
    }
}

/// The diff of two versions that differ is not empty, and holds every
/// added line behind the mark `+` and every removed line behind the mark
/// `-`, each closed by a line feed.
pub proof fn lemma_diff_shows_lines(path: Seq<char>, old: Lines, new: Lines)
    requires
        old != new,
    ensures
        spec_unified(path, old, new).len() > 0,
        forall|i: int|
            0 <= i < spec_delta(old, new).added.len() ==> spec_holds(
                spec_unified(path, old, new),
                seq!['+'] + #[trigger] spec_delta(old, new).added[i] + seq!['\n'],
            ),
        forall|i: int|
            0 <= i < spec_delta(old, new).removed.len() ==> spec_holds(
                spec_unified(path, old, new),
                seq!['-'] + #[trigger] spec_delta(old, new).removed[i] + seq!['\n'],
            ),
{
    let delta = spec_delta(old, new);
    let text = spec_unified(path, old, new);
    let head = spec_names(path) + spec_hunk_header(delta);
    let removed = spec_marked('-', delta.removed);
    let added = spec_marked('+', delta.added);
    assert(text == head + removed + added);
    reveal_strlit("--- a/");
    assert(spec_names(path).len() > 0);
    assert forall|i: int| 0 <= i < delta.added.len() implies spec_holds(
        text,
        seq!['+'] + #[trigger] delta.added[i] + seq!['\n'],
    ) by {
        lemma_marked_holds_line('+', delta.added, i);
        assert(text =~= (head + removed) + added + Seq::<char>::empty());
        lemma_holds_within(
            head + removed,
            added,
            Seq::empty(),
            seq!['+'] + delta.added[i] + seq!['\n'],
        );
    }
    assert forall|i: int| 0 <= i < delta.removed.len() implies spec_holds(
        text,
        seq!['-'] + #[trigger] delta.removed[i] + seq!['\n'],
    ) by {
        lemma_marked_holds_line('-', delta.removed, i);
        lemma_holds_within(head, removed, added, seq!['-'] + delta.removed[i] + seq!['\n']);
    }
}

} // verus!
