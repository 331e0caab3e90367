//! Wiki links: `[[target]]` and `[[target|alias]]`, read off a note's text in
//! order, and the resolution of a link against the note paths of the vault.

use crate::text::{chars_of, ends_with, has_suffix, holds_at, string_of, strings_of, views, views_push};
use vstd::prelude::*;
use vstd::slice::{slice_subrange, slice_to_vec};

verus! {

/// Whether `c` may stand in a link's target: anything but `]` and `|`.
pub open spec fn is_target_char(c: char) -> bool {
    c != ']' && c != '|'
}

/// The number of target characters in a row from index `i` of `s` on.
pub open spec fn target_len(s: Seq<char>, i: int) -> nat
    decreases s.len() - i,
{
    if 0 <= i < s.len() && is_target_char(s[i]) {
        1 + target_len(s, i + 1)
    } else {
        0
    }
}

/// The number of characters other than `]` in a row from index `i` of `s` on.
pub open spec fn alias_len(s: Seq<char>, i: int) -> nat
    decreases s.len() - i,
{
    if 0 <= i < s.len() && s[i] != ']' {
        1 + alias_len(s, i + 1)
    } else {
        0
    }
}

/// Whether `[[` stands at index `i` of `s`.
pub open spec fn opens_at(s: Seq<char>, i: int) -> bool {
    0 <= i && i + 1 < s.len() && s[i] == '[' && s[i + 1] == '['
}

/// Whether `]]` stands at index `i` of `s`.
pub open spec fn closes_at(s: Seq<char>, i: int) -> bool {
    0 <= i && i + 1 < s.len() && s[i] == ']' && s[i + 1] == ']'
}

/// The length of the wiki link that begins at index `i` of `s`, brackets
/// included, or 0 where none begins there. A link is `[[`, a target of one
/// or more target characters, optionally `|` and an alias of characters other
/// than `]`, and `]]`.
pub open spec fn link_len(s: Seq<char>, i: int) -> nat {
    let n = target_len(s, i + 2);
    let t = i + 2 + n;
    if !opens_at(s, i) || n == 0 {
        0
    } else if closes_at(s, t) {
        n + 4
    } else if t < s.len() && s[t] == '|' && closes_at(s, t + 1 + alias_len(s, t + 1)) {
        n + alias_len(s, t + 1) + 5
    } else {
        0
    }
}

/// The target of the wiki link that begins at index `i` of `s`.
pub open spec fn target_at(s: Seq<char>, i: int) -> Seq<char> {
    s.subrange(i + 2, i + 2 + target_len(s, i + 2))
}

/// The targets of the wiki links of `s` from index `i` on, in order. Links
/// do not overlap: the search goes on behind a link's closing brackets.
pub open spec fn links_from(s: Seq<char>, i: int) -> Seq<Seq<char>>
    decreases s.len() - i,
{
    if i < 0 || i >= s.len() {
        Seq::empty()
    } else if link_len(s, i) > 0 {
        seq![target_at(s, i)] + links_from(s, i + link_len(s, i))
    } else {
        links_from(s, i + 1)
    }
}

/// The targets of the wiki links of a note's text, in order, repeats included.
pub open spec fn wiki_links(s: Seq<char>) -> Seq<Seq<char>> {
    links_from(s, 0)
}

/// The run of target characters from index `i` on stays within the text
/// and holds target characters only.
pub proof fn target_run_is_targets(s: Seq<char>, i: int)
    requires
        0 <= i <= s.len(),
    ensures
        i + target_len(s, i) <= s.len(),
        forall|j: int| i <= j < i + target_len(s, i) ==> is_target_char(#[trigger] s[j]),
    decreases s.len() - i,
{
    if i < s.len() && is_target_char(s[i]) {
        target_run_is_targets(s, i + 1);
    }
}

/// A run of `n` target characters from index `i` on, with `]` or `|` behind
/// it, is the whole run that begins at `i`.
pub proof fn target_len_of_run(s: Seq<char>, i: int, n: nat)
    requires
        0 <= i,
        i + n < s.len(),
        forall|j: int| i <= j < i + n ==> is_target_char(#[trigger] s[j]),
        !is_target_char(s[i + n]),
    ensures
        target_len(s, i) == n,
    decreases n,
{
    if n > 0 {
        target_len_of_run(s, i + 1, (n - 1) as nat);
    }
}

/// A run of `n` characters other than `]` from index `i` on, with `]`
/// behind it, is the whole run that begins at `i`.
pub proof fn alias_len_of_run(s: Seq<char>, i: int, n: nat)
    requires
        0 <= i,
        i + n < s.len(),
        forall|j: int| i <= j < i + n ==> #[trigger] s[j] != ']',
        s[i + n] == ']',
    ensures
        alias_len(s, i) == n,
    decreases n,
{
    if n > 0 {
        alias_len_of_run(s, i + 1, (n - 1) as nat);
    }
}

/// Whether `link` can be the target of a wiki link: it is not empty and
/// holds neither `]` nor `|`.
pub open spec fn is_target(link: Seq<char>) -> bool {
    link.len() > 0 && forall|j: int| 0 <= j < link.len() ==> is_target_char(#[trigger] link[j])
}

/// Every extracted link is a target, so no alias and no part of one is ever
/// extracted.
pub proof fn links_are_targets(s: Seq<char>, k: int)
    requires
        0 <= k,
    ensures
        forall|n: int| 0 <= n < links_from(s, k).len() ==> is_target(#[trigger] links_from(s, k)[n]),
    decreases s.len() - k,
{
    if k < s.len() {
        if link_len(s, k) > 0 {
            let rest = links_from(s, k + link_len(s, k));
            links_are_targets(s, k + link_len(s, k));
            target_run_is_targets(s, k + 2);
            let first = target_at(s, k);
            assert forall|j: int| 0 <= j < first.len() implies is_target_char(
                #[trigger] first[j],
            ) by {
                assert(first[j] == s[k + 2 + j]);
            }
            assert(is_target(first));
            assert forall|n: int| 0 <= n < links_from(s, k).len() implies is_target(
                #[trigger] links_from(s, k)[n],
            ) by {
                if n > 0 {
                    assert(links_from(s, k)[n] == rest[n - 1]);
                } else {
                    assert(links_from(s, k)[0] == first);
                }
            }
        } else {
            links_are_targets(s, k + 1);
            assert(links_from(s, k) == links_from(s, k + 1));
        }
    }
}

/// The run of target characters that begins in the second of two joined
/// texts is the same as in the second text alone.
proof fn target_len_shift(x: Seq<char>, y: Seq<char>, j: int)
    requires
        0 <= j,
    ensures
        target_len(x + y, x.len() + j) == target_len(y, j),
    decreases y.len() - j,
{
    if j < y.len() {
        assert((x + y)[x.len() + j] == y[j]);
        if is_target_char(y[j]) {
            target_len_shift(x, y, j + 1);
        }
    }
}

/// The same of runs of characters other than `]`.
proof fn alias_len_shift(x: Seq<char>, y: Seq<char>, j: int)
    requires
        0 <= j,
    ensures
        alias_len(x + y, x.len() + j) == alias_len(y, j),
    decreases y.len() - j,
{
    if j < y.len() {
        assert((x + y)[x.len() + j] == y[j]);
        if y[j] != ']' {
            alias_len_shift(x, y, j + 1);
        }
    }
}

/// A link that begins in the second of two joined texts is the same as in
/// the second text alone.
proof fn link_shift(x: Seq<char>, y: Seq<char>, j: int)
    requires
        0 <= j < y.len(),
    ensures
        link_len(x + y, x.len() + j) == link_len(y, j),
        link_len(y, j) > 0 ==> target_at(x + y, x.len() + j) == target_at(y, j),
{
    let s = x + y;
    let i = x.len() + j;
    assert forall|k: int| 0 <= k < y.len() implies s[x.len() + k] == #[trigger] y[k] by {}
    target_len_shift(x, y, j + 2);
    let n = target_len(y, j + 2);
    let t = j + 2 + n;
    alias_len_shift(x, y, t + 1);
    if opens_at(y, j) {
        target_run_is_targets(y, j + 2);
        assert(opens_at(s, i));
        if t + 1 < y.len() {
            assert(s[x.len() + t] == y[t] && s[x.len() + t + 1] == y[t + 1]);
        }
        if t < y.len() {
            assert(s[x.len() + t] == y[t]);
        }
        let a = t + 1 + alias_len(y, t + 1);
        if 0 <= a && a + 1 < y.len() {
            assert(s[x.len() + a] == y[a] && s[x.len() + a + 1] == y[a + 1]);
        }
        assert(closes_at(s, x.len() + t) == closes_at(y, t));
        assert(closes_at(s, x.len() + a) == closes_at(y, a));
        assert(target_at(s, i) =~= target_at(y, j));
    } else {
        if j + 1 < y.len() {
            assert(s[x.len() + j] == y[j] && s[x.len() + j + 1] == y[j + 1]);
        }
        assert(!opens_at(s, i));
    }
}

/// Extraction looks only ahead: the links of a text from some index on are
/// those of the text that begins there.
pub proof fn links_from_shift(x: Seq<char>, y: Seq<char>, j: int)
    requires
        0 <= j,
    ensures
        links_from(x + y, x.len() + j) == links_from(y, j),
    decreases y.len() - j,
{
    if j < y.len() {
        link_shift(x, y, j);
        if link_len(y, j) > 0 {
            links_from_shift(x, y, j + link_len(y, j));
        } else {
            links_from_shift(x, y, j + 1);
        }
    }
}

/// No link begins in a stretch of text without `[`.
proof fn no_link_without_bracket(s: Seq<char>, k: int, n: int)
    requires
        0 <= k <= n <= s.len(),
        forall|j: int| k <= j < n ==> #[trigger] s[j] != '[',
    ensures
        links_from(s, k) == links_from(s, n),
    decreases n - k,
{
    if k < n {
        no_link_without_bracket(s, k + 1, n);
    }
}

/// The text of a wiki link with the given target and, where there is one,
/// the given alias.
pub open spec fn wiki_link(target: Seq<char>, alias: Option<Seq<char>>) -> Seq<char> {
    seq!['[', '['] + target + match alias {
        Some(a) => seq!['|'] + a,
        None => Seq::empty(),
    } + seq![']', ']']
}

/// A wiki link gives exactly its target, with an alias or without: a text
/// that holds the link behind a stretch without `[` gives the target, and
/// then the links of what follows the link.
pub proof fn link_gives_its_target(
    before: Seq<char>,
    target: Seq<char>,
    alias: Option<Seq<char>>,
    after: Seq<char>,
)
    requires
        forall|j: int| 0 <= j < before.len() ==> #[trigger] before[j] != '[',
        target.len() > 0,
        forall|j: int| 0 <= j < target.len() ==> is_target_char(#[trigger] target[j]),
        alias matches Some(a) ==> forall|j: int| 0 <= j < a.len() ==> #[trigger] a[j] != ']',
    ensures
        wiki_links(before + wiki_link(target, alias) + after) == seq![target] + wiki_links(after),
{
    let link = wiki_link(target, alias);
    let s = before + link + after;
    let i = before.len() as int;
    let n = target.len() as int;
    assert forall|j: int| 0 <= j < i implies #[trigger] s[j] != '[' by {
        assert(s[j] == before[j]);
    }
    no_link_without_bracket(s, 0, i);
    assert forall|j: int| 0 <= j < link.len() implies s[i + j] == #[trigger] link[j] by {}
    assert(link[0] == '[' && link[1] == '[');
    assert forall|j: int| i + 2 <= j < i + 2 + n implies is_target_char(#[trigger] s[j]) by {
        assert(s[j] == link[j - i]);
        assert(link[j - i] == target[j - i - 2]);
    }
    let t = i + 2 + n;
    match alias {
        Some(a) => {
            let m = a.len() as int;
            assert(link.len() == n + m + 5);
            assert(link[2 + n] == '|');
            assert(s[t] == link[2 + n]);
            target_len_of_run(s, i + 2, target.len());
            assert forall|j: int| t + 1 <= j < t + 1 + m implies #[trigger] s[j] != ']' by {
                assert(s[j] == link[j - i]);
                assert(link[j - i] == a[j - i - 3 - n]);
            }
            let e = t + 1 + m;
            assert(link[3 + n + m] == ']' && link[4 + n + m] == ']');
            assert(s[e] == link[3 + n + m] && s[e + 1] == link[4 + n + m]);
            alias_len_of_run(s, t + 1, a.len());
            assert(link_len(s, i) == link.len());
        },
        None => {
            assert(link.len() == n + 4);
            assert(link[2 + n] == ']' && link[3 + n] == ']');
            assert(s[t] == link[2 + n] && s[t + 1] == link[3 + n]);
            target_len_of_run(s, i + 2, target.len());
            assert(link_len(s, i) == link.len());
        },
    }
    assert(target_at(s, i) =~= target);
    links_from_shift(before + link, after, 0);
}

/// The end of the run of target characters that begins at `from`.
fn target_end(s: &[char], from: usize) -> (end: usize)
    requires
        from <= s@.len(),
    ensures
        end == from + target_len(s@, from as int),
        end <= s@.len(),
{
    let mut j: usize = from;
    while j < s.len() && s[j] != ']' && s[j] != '|'
        invariant
            from <= j <= s.len(),
            target_len(s@, from as int) == (j - from) + target_len(s@, j as int),
        decreases s.len() - j,
    {
        j += 1;
    }
    j
}

/// The end of the run of characters other than `]` that begins at `from`.
fn alias_end(s: &[char], from: usize) -> (end: usize)
    requires
        from <= s@.len(),
    ensures
        end == from + alias_len(s@, from as int),
        end <= s@.len(),
{
    let mut j: usize = from;
    while j < s.len() && s[j] != ']'
        invariant
            from <= j <= s.len(),
            alias_len(s@, from as int) == (j - from) + alias_len(s@, j as int),
        decreases s.len() - j,
    {
        j += 1;
    }
    j
}

/// Tests for `]]` at index `i`.
fn closes(s: &[char], i: usize) -> (r: bool)
    requires
        i <= s@.len(),
    ensures
        r == closes_at(s@, i as int),
{
    s.len() - i >= 2 && s[i] == ']' && s[i + 1] == ']'
}

/// The wiki link that begins at index `i`, if one does: the end of its
/// target and the end of the whole link.
fn link_at(s: &[char], i: usize) -> (r: Option<(usize, usize)>)
    requires
        i < s@.len(),
    ensures
        r is None <==> link_len(s@, i as int) == 0,
        r matches Some((t, e)) ==> {
            &&& i + 2 < t <= e <= s@.len()
            &&& e == i + link_len(s@, i as int)
            &&& s@.subrange(i + 2, t as int) == target_at(s@, i as int)
        },
{
    if !(s.len() - i >= 2 && s[i] == '[' && s[i + 1] == '[') {
        return None;
    }
    let t = target_end(s, i + 2);
    if t == i + 2 {
        return None;
    }
    if closes(s, t) {
        return Some((t, t + 2));
    }
    if t < s.len() && s[t] == '|' {
        let a = alias_end(s, t + 1);
        if closes(s, a) {
            return Some((t, a + 2));
        }
    }
    None
}

/// Reads the targets of the wiki links off a note's text.
pub fn scan_links(s: &[char]) -> (links: Vec<Vec<char>>)
    ensures
        views(links@) == wiki_links(s@),
{
    let mut links: Vec<Vec<char>> = Vec::new();
    let mut i: usize = 0;
    while i < s.len()
        invariant
            i <= s.len(),
            wiki_links(s@) == views(links@) + links_from(s@, i as int),
        decreases s.len() - i,
    {
        match link_at(s, i) {
            Some((t, e)) => {
                let target = slice_to_vec(slice_subrange(s, i + 2, t));
                proof {
                    views_push(links@, target);
                    assert(views(links@).push(target@) + links_from(s@, e as int) =~= views(links@)
                        + (seq![target_at(s@, i as int)] + links_from(s@, e as int)));
                }
                links.push(target);
                i = e;
            },
            None => {
                i += 1;
            },
        }
    }
    assert(views(links@) + links_from(s@, i as int) =~= views(links@));
    links
}

/// The targets of the wiki links of a note's text, in order of appearance.
/// An alias is dropped; nothing is trimmed, normalised or deduplicated.
pub fn extract_links_from_file(content: &str) -> (links: Vec<String>)
    ensures
        views(links@) == wiki_links(content@),
{
    let chars = chars_of(content);
    let found = scan_links(chars.as_slice());
    strings_of(&found)
}

/// A path without its extension `.md`, if it has it.
pub open spec fn stem(path: Seq<char>) -> Seq<char> {
    if ends_with(path, ".md"@) {
        path.take(path.len() - 3)
    } else {
        path
    }
}

/// Whether the path `p` ends with `/` followed by `t`.
pub open spec fn is_tail_of(t: Seq<char>, p: Seq<char>) -> bool {
    p.len() > t.len() && p[p.len() - t.len() - 1] == '/' && p.skip(p.len() - t.len()) == t
}

/// Whether a link names a note: once the extension `.md` is set aside on
/// both, the note's path is the link, or ends with `/` and the link.
pub open spec fn names(link: Seq<char>, note: Seq<char>) -> bool {
    stem(note) == stem(link) || is_tail_of(stem(link), stem(note))
}

/// The first of `notes` that `link` names, if any.
pub open spec fn resolved(link: Seq<char>, notes: Seq<Seq<char>>) -> Option<Seq<char>>
    decreases notes.len(),
{
    if notes.len() == 0 {
        None
    } else if names(link, notes[0]) {
        Some(notes[0])
    } else {
        resolved(link, notes.drop_first())
    }
}

/// The extension `.md` that is put behind a path is the one that `stem`
/// takes off.
pub proof fn stem_of_extended(path: Seq<char>)
    ensures
        stem(path + ".md"@) == path,
{
    reveal_strlit(".md");
    let full = path + ".md"@;
    assert(full.skip(full.len() - 3) =~= ".md"@);
    assert(full.take(full.len() - 3) =~= path);
}

/// Resolution ignores the extension: `.md` behind the link, behind the
/// note's path or behind both makes no difference to whether the link names
/// the note.
pub proof fn resolution_ignores_extension(link: Seq<char>, note: Seq<char>)
    requires
        !ends_with(link, ".md"@),
        !ends_with(note, ".md"@),
    ensures
        names(link + ".md"@, note) == names(link, note),
        names(link, note + ".md"@) == names(link, note),
        names(link + ".md"@, note + ".md"@) == names(link, note),
{
    stem_of_extended(link);
    stem_of_extended(note);
}

/// A path that ends with `/` and a name without extension has no extension.
proof fn tail_has_no_extension(folder: Seq<char>, name: Seq<char>)
    requires
        !ends_with(name, ".md"@),
    ensures
        !ends_with(folder + seq!['/'] + name, ".md"@),
{
    reveal_strlit(".md");
    let path = folder + seq!['/'] + name;
    if path.len() >= 3 {
        let end = path.skip(path.len() - 3);
        if name.len() >= 3 {
            assert(name.skip(name.len() - 3) =~= end);
        } else {
            let at = 2 - name.len();
            assert(end[at] == '/');
            assert(".md"@[at] != '/');
        }
    }
}

/// A note is named by its bare name and by its path, with the extension or
/// without it: the note at `folder/name.md` is what `name`, `folder/name`
/// and both with `.md` resolve to.
pub proof fn bare_name_and_path_resolve(folder: Seq<char>, name: Seq<char>)
    requires
        !ends_with(name, ".md"@),
    ensures
        names(name, folder + seq!['/'] + name + ".md"@),
        names(name + ".md"@, folder + seq!['/'] + name + ".md"@),
        names(folder + seq!['/'] + name, folder + seq!['/'] + name + ".md"@),
        names(folder + seq!['/'] + name + ".md"@, folder + seq!['/'] + name + ".md"@),
{
    let path = folder + seq!['/'] + name;
    stem_of_extended(path);
    stem_of_extended(name);
    tail_has_no_extension(folder, name);
    assert(path[path.len() - name.len() - 1] == '/');
    assert(path.skip(path.len() - name.len()) =~= name);
    assert(is_tail_of(name, path));
}

/// Strips the extension `.md`.
pub fn normalize(path: &[char]) -> (r: &[char])
    ensures
        r@ == stem(path@),
{
    if has_suffix(path, ".md") {
        proof {
            reveal_strlit(".md");
        }
        assert(path@.take(path@.len() - 3) =~= path@.subrange(0, path@.len() - 3));
        slice_subrange(path, 0, path.len() - 3)
    } else {
        path
    }
}

/// A note path or link target as it is compared: without the extension
/// `.md`, if it has it.
pub fn normalize_path(note_path: &str) -> (r: String)
    ensures
        r@ == stem(note_path@),
{
    let chars = chars_of(note_path);
    string_of(normalize(chars.as_slice()))
}

/// Tests whether `p` ends with `/` followed by `t`.
pub fn is_tail(t: &[char], p: &[char]) -> (r: bool)
    ensures
        r == is_tail_of(t@, p@),
{
    if p.len() <= t.len() {
        return false;
    }
    let at: usize = p.len() - t.len();
    assert(p@.skip(p@.len() - t@.len()) =~= p@.subrange(at as int, at + t@.len()));
    p[at - 1] == '/' && holds_at(p, at, t)
}

/// Tests whether two texts are the same.
pub fn same_text(a: &[char], b: &[char]) -> (r: bool)
    ensures
        r == (a@ == b@),
{
    assert(a@.subrange(0, a@.len() as int) =~= a@);
    a.len() == b.len() && holds_at(a, 0, b)
}

/// Tests whether a link, given without its extension, names a note.
pub fn stem_names(link_stem: &[char], note: &[char]) -> (r: bool)
    ensures
        r == (stem(note@) == link_stem@ || is_tail_of(link_stem@, stem(note@))),
{
    let n = normalize(note);
    same_text(n, link_stem) || is_tail(link_stem, n)
}

/// The index of the first note that the link names.
pub fn find_note(link: &[char], notes: &Vec<Vec<char>>) -> (r: Option<usize>)
    ensures
        match r {
            Some(k) => k < notes@.len() && resolved(link@, views(notes@)) == Some(notes@[k as int]@),
            None => resolved(link@, views(notes@)) is None,
        },
{
    let l = normalize(link);
    let mut k: usize = 0;
    assert(views(notes@).skip(0) =~= views(notes@));
    while k < notes.len()
        invariant
            k <= notes.len(),
            l@ == stem(link@),
            resolved(link@, views(notes@)) == resolved(link@, views(notes@).skip(k as int)),
        decreases notes.len() - k,
    {
        if stem_names(l, notes[k].as_slice()) {
            return Some(k);
        }
        assert(views(notes@).skip(k as int).drop_first() =~= views(notes@).skip(k + 1));
        k += 1;
    }
    None
}

/// Resolves a link against the note paths of the vault: the first path, in
/// the order given, that the link names, or `None` where it names none.
pub fn find_note_path(link: &str, all_notes: &Vec<String>) -> (r: Option<String>)
    ensures
        match r {
            Some(p) => resolved(link@, views(all_notes@)) == Some(p@),
            None => resolved(link@, views(all_notes@)) is None,
        },
{
    let l = chars_of(link);
    let stem_of_link = normalize(l.as_slice());
    let mut k: usize = 0;
    assert(views(all_notes@).skip(0) =~= views(all_notes@));
    while k < all_notes.len()
        invariant
            k <= all_notes.len(),
            stem_of_link@ == stem(link@),
            resolved(link@, views(all_notes@)) == resolved(
                link@,
                views(all_notes@).skip(k as int),
            ),
        decreases all_notes.len() - k,
    {
        let note = chars_of(all_notes[k].as_str());
        if stem_names(stem_of_link, note.as_slice()) {
            return Some(all_notes[k].clone());
        }
        assert(views(all_notes@).skip(k as int).drop_first() =~= views(all_notes@).skip(k + 1));
        k += 1;
    }
    None
}

} // verus!
