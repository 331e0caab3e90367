//! Tags: inline `#tag` tokens anywhere in a note's text, and the `tags` key
//! of a leading frontmatter block.

use crate::text::{
    chars_of, has_prefix, index_of, index_of_is_first, is_space, is_whitespace, split,
    split_first, starts_with, string_of, strings_of, trim, trimmed, unquote, unquoted, views,
    views_push,
};
use vstd::prelude::*;
use vstd::slice::{slice_subrange, slice_to_vec};

verus! {

/// Whether `c` may stand in a tag: an ASCII letter or digit, `_`, `-` or `/`.
pub open spec fn is_tag_char(c: char) -> bool {
    ||| 'a' <= c <= 'z'
    ||| 'A' <= c <= 'Z'
    ||| '0' <= c <= '9'
    ||| c == '_'
    ||| c == '-'
    ||| c == '/'
}

/// The number of tag characters in a row from index `i` of `s` on.
pub open spec fn tag_len(s: Seq<char>, i: int) -> nat
    decreases s.len() - i,
{
    if 0 <= i < s.len() && is_tag_char(s[i]) {
        1 + tag_len(s, i + 1)
    } else {
        0
    }
}

/// Whether an inline tag begins at index `i` of `s`: a `#` at the start of
/// the text or behind white space, with a tag character after it.
pub open spec fn tag_opens_at(s: Seq<char>, i: int) -> bool {
    &&& 0 <= i < s.len()
    &&& s[i] == '#'
    &&& (i == 0 || is_space(s[i - 1]))
    &&& tag_len(s, i + 1) > 0
}

/// The inline tag whose `#` stands at index `i` of `s`: the run of tag
/// characters behind the `#`.
pub open spec fn tag_at(s: Seq<char>, i: int) -> Seq<char> {
    s.subrange(i + 1, i + 1 + tag_len(s, i + 1))
}

/// The inline tags of `s` whose `#` stands at index `i` or later, in order.
pub open spec fn inline_tags_from(s: Seq<char>, i: int) -> Seq<Seq<char>>
    decreases s.len() - i,
{
    if i < 0 || i >= s.len() {
        Seq::empty()
    } else if tag_opens_at(s, i) {
        seq![tag_at(s, i)] + inline_tags_from(s, i + 1)
    } else {
        inline_tags_from(s, i + 1)
    }
}

/// The inline tags of a note's text, in order, repeats included.
pub open spec fn inline_tags(s: Seq<char>) -> Seq<Seq<char>> {
    inline_tags_from(s, 0)
}

/// No inline tag begins inside a run of tag characters.
pub proof fn no_tag_opens_in_run(s: Seq<char>, i: int)
    requires
        0 <= i,
    ensures
        inline_tags_from(s, i) == inline_tags_from(s, i + tag_len(s, i)),
    decreases s.len() - i,
{
    if i < s.len() && is_tag_char(s[i]) {
        no_tag_opens_in_run(s, i + 1);
    }
}

/// A run of `n` tag characters from index `i` on, with the text's end or
/// another character behind it, is the whole run that begins at `i`.
pub proof fn tag_len_of_run(s: Seq<char>, i: int, n: nat)
    requires
        0 <= i,
        i + n <= s.len(),
        forall|j: int| i <= j < i + n ==> is_tag_char(#[trigger] s[j]),
        i + n == s.len() || !is_tag_char(s[i + n]),
    ensures
        tag_len(s, i) == n,
    decreases n,
{
    if n > 0 {
        tag_len_of_run(s, i + 1, (n - 1) as nat);
    }
}

/// A tag that opens at index `i` is among the tags read from any index up
/// to `i` on.
proof fn opening_is_found_from(s: Seq<char>, k: int, i: int)
    requires
        0 <= k <= i,
        tag_opens_at(s, i),
    ensures
        inline_tags_from(s, k).contains(tag_at(s, i)),
    decreases i - k,
{
    if k == i {
        assert(inline_tags_from(s, k)[0] == tag_at(s, i));
    } else {
        opening_is_found_from(s, k + 1, i);
        let rest = inline_tags_from(s, k + 1);
        let j = choose|j: int| 0 <= j < rest.len() && rest[j] == tag_at(s, i);
        if tag_opens_at(s, k) {
            assert(inline_tags_from(s, k)[j + 1] == rest[j]);
        }
    }
}

/// A tag read from index `k` on opens at some index from `k` on.
proof fn found_has_opening_from(s: Seq<char>, k: int, tag: Seq<char>)
    requires
        0 <= k,
        inline_tags_from(s, k).contains(tag),
    ensures
        exists|i: int| k <= i && #[trigger] tag_opens_at(s, i) && tag_at(s, i) == tag,
    decreases s.len() - k,
{
    let found = inline_tags_from(s, k);
    let j = choose|j: int| 0 <= j < found.len() && found[j] == tag;
    if k < s.len() {
        let rest = inline_tags_from(s, k + 1);
        if tag_opens_at(s, k) && j == 0 {
            assert(tag_at(s, k) == tag);
        } else {
            if tag_opens_at(s, k) {
                assert(rest[j - 1] == tag);
            }
            found_has_opening_from(s, k + 1, tag);
        }
    }
}

/// Every `#` at the start of the text or behind white space, with a tag
/// character after it, gives the run of tag characters behind it as a tag
/// of the note.
pub proof fn opening_tag_is_extracted(s: Seq<char>, i: int)
    requires
        tag_opens_at(s, i),
    ensures
        inline_tags(s).contains(tag_at(s, i)),
        note_tags(s).contains(tag_at(s, i)),
{
    opening_is_found_from(s, 0, i);
    let j = choose|j: int| 0 <= j < inline_tags(s).len() && inline_tags(s)[j] == tag_at(s, i);
    assert(note_tags(s)[j] == inline_tags(s)[j]);
}

/// Every inline tag is the run of tag characters behind a `#` that stands
/// at the start of the text or behind white space: a `#` inside a word gives
/// no tag.
pub proof fn inline_tag_has_opening(s: Seq<char>, tag: Seq<char>)
    requires
        inline_tags(s).contains(tag),
    ensures
        exists|i: int|
            #[trigger] tag_opens_at(s, i) && tag_at(s, i) == tag && s[i] == '#' && (i == 0
                || is_space(s[i - 1])),
{
    found_has_opening_from(s, 0, tag);
}

/// A text that holds `#` and a tag, at its start or behind white space and
/// with no tag character behind the tag, declares that tag.
pub proof fn hash_tag_is_extracted(before: Seq<char>, tag: Seq<char>, after: Seq<char>)
    requires
        before.len() == 0 || is_space(before.last()),
        tag.len() > 0,
        forall|j: int| 0 <= j < tag.len() ==> is_tag_char(#[trigger] tag[j]),
        after.len() == 0 || !is_tag_char(after[0]),
    ensures
        note_tags(before + seq!['#'] + tag + after).contains(tag),
{
    let s = before + seq!['#'] + tag + after;
    let i = before.len() as int;
    assert(s[i] == '#');
    assert forall|j: int| i + 1 <= j < i + 1 + tag.len() implies is_tag_char(#[trigger] s[j]) by {
        assert(s[j] == tag[j - i - 1]);
    }
    if after.len() > 0 {
        assert(s[i + 1 + tag.len()] == after[0]);
    }
    tag_len_of_run(s, i + 1, tag.len());
    if i > 0 {
        assert(s[i - 1] == before.last());
    }
    assert(tag_at(s, i) =~= tag);
    opening_tag_is_extracted(s, i);
}

/// Tests a character for being a tag character.
pub fn is_tag_character(c: char) -> (r: bool)
    ensures
        r == is_tag_char(c),
{
    ('a' <= c && c <= 'z') || ('A' <= c && c <= 'Z') || ('0' <= c && c <= '9') || c == '_' || c
        == '-' || c == '/'
}

/// The end of the run of tag characters that begins at `from`.
fn tag_end(s: &[char], from: usize) -> (end: usize)
    requires
        from <= s@.len(),
    ensures
        end == from + tag_len(s@, from as int),
        end <= s@.len(),
{
    let mut j: usize = from;
    while j < s.len() && is_tag_character(s[j])
        invariant
            from <= j <= s.len(),
            tag_len(s@, from as int) == (j - from) + tag_len(s@, j as int),
        decreases s.len() - j,
    {
        j += 1;
    }
    j
}

/// Reads the inline tags off a note's text.
pub fn scan_inline_tags(s: &[char]) -> (tags: Vec<Vec<char>>)
    ensures
        views(tags@) == inline_tags(s@),
{
    let mut tags: Vec<Vec<char>> = Vec::new();
    let mut i: usize = 0;
    while i < s.len()
        invariant
            i <= s.len(),
            inline_tags(s@) == views(tags@) + inline_tags_from(s@, i as int),
        decreases s.len() - i,
    {
        if s[i] == '#' && (i == 0 || is_whitespace(s[i - 1])) {
            let e = tag_end(s, i + 1);
            if e > i + 1 {
                let tag = slice_to_vec(slice_subrange(s, i + 1, e));
                proof {
                    views_push(tags@, tag);
                    no_tag_opens_in_run(s@, i + 1);
                    assert(views(tags@).push(tag@) + inline_tags_from(s@, e as int) =~= views(
                        tags@,
                    ) + (seq![tag_at(s@, i as int)] + inline_tags_from(s@, e as int)));
                }
                tags.push(tag);
            }
            i = e;
        } else {
            i += 1;
        }
    }
    assert(views(tags@) + inline_tags_from(s@, i as int) =~= views(tags@));
    tags
}

/// Whether a line that is exactly `---` begins at index `i` of `s`.
pub open spec fn rule_at(s: Seq<char>, i: int) -> bool {
    &&& 0 <= i && i + 3 <= s.len()
    &&& (i == 0 || s[i - 1] == '\n')
    &&& s[i] == '-' && s[i + 1] == '-' && s[i + 2] == '-'
    &&& (i + 3 == s.len() || s[i + 3] == '\n')
}

/// The index of the first line at or after index `i` of `s` that is exactly
/// `---`, or the length of `s` where there is none.
pub open spec fn next_rule(s: Seq<char>, i: int) -> int
    decreases s.len() - i,
{
    if i >= s.len() {
        s.len() as int
    } else if rule_at(s, i) {
        i
    } else {
        next_rule(s, i + 1)
    }
}

/// The frontmatter of a note: where its first line is exactly `---` and a
/// later line is so too, the lines between the first and the next such line,
/// without the line break that ends the last of them.
pub open spec fn frontmatter(s: Seq<char>) -> Option<Seq<char>> {
    let close = next_rule(s, 4);
    if !rule_at(s, 0) || close >= s.len() {
        None
    } else if close == 4 {
        Some(Seq::empty())
    } else {
        Some(s.subrange(4, close - 1))
    }
}

/// Tests whether a line that is exactly `---` begins at index `i`.
fn is_rule(s: &[char], i: usize) -> (r: bool)
    requires
        i <= s@.len(),
    ensures
        r == rule_at(s@, i as int),
{
    s.len() - i >= 3 && (i == 0 || s[i - 1] == '\n') && s[i] == '-' && s[i + 1] == '-' && s[i + 2]
        == '-' && (s.len() - i == 3 || s[i + 3] == '\n')
}

/// Finds the frontmatter block of a note's text.
pub fn scan_frontmatter(s: &[char]) -> (r: Option<&[char]>)
    ensures
        match r {
            Some(f) => frontmatter(s@) == Some(f@),
            None => frontmatter(s@) is None,
        },
{
    if !is_rule(s, 0) || s.len() < 4 {
        return None;
    }
    let mut i: usize = 4;
    while i < s.len()
        invariant
            4 <= i <= s.len(),
            rule_at(s@, 0),
            next_rule(s@, 4) == next_rule(s@, i as int),
        decreases s.len() - i,
    {
        if is_rule(s, i) {
            if i == 4 {
                assert(s@.subrange(4, 4) =~= Seq::<char>::empty());
                return Some(slice_subrange(s, 4, 4));
            }
            return Some(slice_subrange(s, 4, i - 1));
        }
        i += 1;
    }
    None
}

/// The frontmatter block of a note's text, if it begins with one.
pub fn extract_frontmatter(content: &str) -> (r: Option<String>)
    ensures
        match r {
            Some(f) => frontmatter(content@) == Some(f@),
            None => frontmatter(content@) is None,
        },
{
    let chars = chars_of(content);
    match scan_frontmatter(chars.as_slice()) {
        Some(f) => Some(string_of(f)),
        None => None,
    }
}

/// What one list item or one piece of an inline array gives: the piece
/// trimmed and unquoted, unless that is empty.
pub open spec fn entry(piece: Seq<char>) -> Seq<Seq<char>> {
    let t = unquoted(trimmed(piece));
    if t.len() > 0 {
        seq![t]
    } else {
        Seq::empty()
    }
}

/// The entries of the given pieces, in order.
pub open spec fn entries(pieces: Seq<Seq<char>>) -> Seq<Seq<char>>
    decreases pieces.len(),
{
    if pieces.len() == 0 {
        Seq::empty()
    } else {
        entries(pieces.drop_last()) + entry(pieces.last())
    }
}

/// The tags of an inline array, given what stands between its brackets.
pub open spec fn array_tags(inner: Seq<char>) -> Seq<Seq<char>> {
    entries(split(inner, ','))
}

/// Whether `v` is an inline array: `[` first and `]` last.
pub open spec fn is_bracketed(v: Seq<char>) -> bool {
    v.len() >= 2 && v[0] == '[' && v.last() == ']'
}

/// The tags that one line of frontmatter adds; `found` says whether an
/// earlier line has given a tag. A line that begins with `tags:` gives the
/// items of its inline array, or else its whole value where it has one. A
/// line that begins with `- ` gives its entry, once a tag has been found.
pub open spec fn line_tags(line: Seq<char>, found: bool) -> Seq<Seq<char>> {
    let t = trimmed(line);
    if starts_with(t, "tags:"@) {
        let v = trimmed(t.skip(5));
        if is_bracketed(v) {
            array_tags(v.subrange(1, v.len() - 1))
        } else if v.len() > 0 {
            seq![unquoted(v)]
        } else {
            Seq::empty()
        }
    } else if found && starts_with(t, "- "@) {
        entry(t.skip(2))
    } else {
        Seq::empty()
    }
}

/// The tags that the given lines of frontmatter declare, in order.
pub open spec fn tags_of_lines(lines: Seq<Seq<char>>) -> Seq<Seq<char>>
    decreases lines.len(),
{
    if lines.len() == 0 {
        Seq::empty()
    } else {
        let before = tags_of_lines(lines.drop_last());
        before + line_tags(lines.last(), before.len() > 0)
    }
}

/// The tags that a frontmatter block declares, in order.
pub open spec fn frontmatter_tags(block: Seq<char>) -> Seq<Seq<char>> {
    tags_of_lines(split(block, '\n'))
}

/// The tags of a note's text: its inline tags, then those of its frontmatter.
pub open spec fn note_tags(s: Seq<char>) -> Seq<Seq<char>> {
    inline_tags(s) + match frontmatter(s) {
        Some(block) => frontmatter_tags(block),
        None => Seq::empty(),
    }
}

/// Appends the entry of one piece.
fn push_entry(piece: &[char], out: &mut Vec<Vec<char>>)
    ensures
        views(final(out)@) == views(old(out)@) + entry(piece@),
{
    let t = unquote(trim(piece));
    if t.len() > 0 {
        let tag = slice_to_vec(t);
        proof {
            views_push(out@, tag);
            assert(views(out@).push(tag@) =~= views(out@) + seq![tag@]);
        }
        out.push(tag);
    } else {
        assert(views(out@) + Seq::<Seq<char>>::empty() =~= views(out@));
    }
}

/// Cutting at the first separator gives the first piece and the pieces of
/// the rest.
proof fn split_unfolds(done: Seq<Seq<char>>, rest: Seq<char>, sep: char)
    ensures
        index_of(rest, sep) >= rest.len() ==> done + split(rest, sep) == done.push(rest),
        index_of(rest, sep) < rest.len() ==> done + split(rest, sep) == done.push(
            rest.take(index_of(rest, sep) as int),
        ) + split(rest.skip(index_of(rest, sep) as int + 1), sep),
{
    let k = index_of(rest, sep) as int;
    if k >= rest.len() {
        assert(done + seq![rest] =~= done.push(rest));
    } else {
        assert(done + (seq![rest.take(k)] + split(rest.skip(k + 1), sep)) =~= done.push(
            rest.take(k),
        ) + split(rest.skip(k + 1), sep));
    }
}

/// Appends the tags of an inline array.
fn push_array_tags(inner: &[char], out: &mut Vec<Vec<char>>)
    ensures
        views(final(out)@) == views(old(out)@) + array_tags(inner@),
{
    let ghost before = views(out@);
    let ghost mut done: Seq<Seq<char>> = Seq::empty();
    let mut rest: &[char] = inner;
    assert(done + split(rest@, ',') =~= split(inner@, ','));
    assert(before + entries(done) =~= before);
    loop
        invariant_except_break
            split(inner@, ',') == done + split(rest@, ','),
            views(out@) == before + entries(done),
        ensures
            views(out@) == before + array_tags(inner@),
        decreases rest@.len(),
    {
        let (piece, tail) = split_first(rest, ',');
        proof {
            index_of_is_first(rest@, ',');
            split_unfolds(done, rest@, ',');
            assert(done.push(piece@).drop_last() =~= done);
            assert(before + (entries(done) + entry(piece@)) =~= (before + entries(done)) + entry(
                piece@,
            ));
            if tail is None {
                assert(rest@.take(rest@.len() as int) =~= rest@);
            }
            done = done.push(piece@);
        }
        push_entry(piece, out);
        match tail {
            Some(t) => {
                rest = t;
            },
            None => {
                break ;
            },
        }
    }
}

/// Appends the tags that one line of frontmatter adds.
fn push_line_tags(line: &[char], out: &mut Vec<Vec<char>>)
    ensures
        views(final(out)@) == views(old(out)@) + line_tags(line@, old(out)@.len() > 0),
{
    let t = trim(line);
    if has_prefix(t, "tags:") {
        proof {
            reveal_strlit("tags:");
        }
        assert(t@.skip(5) =~= t@.subrange(5, t@.len() as int));
        let v = trim(slice_subrange(t, 5, t.len()));
        let n = v.len();
        if n >= 2 && v[0] == '[' && v[n - 1] == ']' {
            push_array_tags(slice_subrange(v, 1, n - 1), out);
        } else if n > 0 {
            let tag = slice_to_vec(unquote(v));
            proof {
                views_push(out@, tag);
                assert(views(out@).push(tag@) =~= views(out@) + seq![tag@]);
            }
            out.push(tag);
        } else {
            assert(views(out@) + Seq::<Seq<char>>::empty() =~= views(out@));
        }
    } else if out.len() > 0 && has_prefix(t, "- ") {
        proof {
            reveal_strlit("- ");
        }
        assert(t@.skip(2) =~= t@.subrange(2, t@.len() as int));
        push_entry(slice_subrange(t, 2, t.len()), out);
    } else {
        assert(views(out@) + Seq::<Seq<char>>::empty() =~= views(out@));
    }
}

/// Reads the tags that a frontmatter block declares.
pub fn scan_frontmatter_tags(block: &[char]) -> (tags: Vec<Vec<char>>)
    ensures
        views(tags@) == frontmatter_tags(block@),
{
    let mut tags: Vec<Vec<char>> = Vec::new();
    let ghost mut done: Seq<Seq<char>> = Seq::empty();
    let mut rest: &[char] = block;
    assert(done + split(rest@, '\n') =~= split(block@, '\n'));
    assert(views(tags@) =~= tags_of_lines(done));
    loop
        invariant_except_break
            split(block@, '\n') == done + split(rest@, '\n'),
            views(tags@) == tags_of_lines(done),
        ensures
            views(tags@) == frontmatter_tags(block@),
        decreases rest@.len(),
    {
        let (line, tail) = split_first(rest, '\n');
        proof {
            index_of_is_first(rest@, '\n');
            split_unfolds(done, rest@, '\n');
            assert(done.push(line@).drop_last() =~= done);
            if tail is None {
                assert(rest@.take(rest@.len() as int) =~= rest@);
            }
            done = done.push(line@);
        }
        push_line_tags(line, &mut tags);
        match tail {
            Some(t) => {
                rest = t;
            },
            None => {
                break ;
            },
        }
    }
    tags
}

/// The tags that a frontmatter block declares, or `None` where it declares
/// none. The block is read line by line; it is never rejected.
pub fn parse_frontmatter_tags(frontmatter: &str) -> (r: Option<Vec<String>>)
    ensures
        match r {
            Some(tags) => tags@.len() > 0 && views(tags@) == frontmatter_tags(frontmatter@),
            None => frontmatter_tags(frontmatter@).len() == 0,
        },
{
    let chars = chars_of(frontmatter);
    let tags = scan_frontmatter_tags(chars.as_slice());
    if tags.len() == 0 {
        None
    } else {
        Some(strings_of(&tags))
    }
}

/// Reads the tags off a note's text: inline tags, then frontmatter tags.
pub fn scan_tags(s: &[char]) -> (tags: Vec<Vec<char>>)
    ensures
        views(tags@) == note_tags(s@),
{
    let mut tags = scan_inline_tags(s);
    match scan_frontmatter(s) {
        Some(block) => {
            let mut declared = scan_frontmatter_tags(block);
            assert(views(tags@ + declared@) =~= views(tags@) + views(declared@));
            tags.append(&mut declared);
        },
        None => {
            assert(views(tags@) + Seq::<Seq<char>>::empty() =~= views(tags@));
        },
    }
    tags
}

/// The tags that a note declares: its inline tags in order of appearance,
/// then the tags of its frontmatter, repeats included.
pub fn extract_tags_from_file(content: &str) -> (tags: Vec<String>)
    ensures
        views(tags@) == note_tags(content@),
{
    let chars = chars_of(content);
    let found = scan_tags(chars.as_slice());
    strings_of(&found)
}

} // verus!
