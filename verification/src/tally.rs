//! Tags across the vault: how often each tag occurs, and which notes carry
//! a given tag.

use crate::links::same_text;
use crate::order::{sorted_listing_is_unique, sorted_set, strictly_sorted};
use crate::tags::{note_tags, scan_tags};
use crate::text::{chars_of, string_of, views, views_push};
use crate::vault::{contains_text, note_paths, scan_vault_tags, vault_tags, NoteFile};
use vstd::prelude::*;

verus! {

/// A tag and the number of its occurrences in the vault.
#[derive(Clone, Debug, PartialEq, Eq)]
pub struct TagCount {
    pub tag: String,
    pub count: usize,
}

/// The view of a `TagCount`: what contracts say of it.
pub struct Tally {
    pub tag: Seq<char>,
    pub count: nat,
}

impl View for TagCount {
    type V = Tally;

    open spec fn view(&self) -> Tally {
        Tally { tag: self.tag@, count: self.count as nat }
    }
}

/// How often `tag` occurs in `tags`.
pub open spec fn occurrences(tags: Seq<Seq<char>>, tag: Seq<char>) -> nat
    decreases tags.len(),
{
    if tags.len() == 0 {
        0
    } else {
        occurrences(tags.drop_last(), tag) + if tags.last() == tag {
            1nat
        } else {
            0nat
        }
    }
}

/// The tags of the rows of a table, in order.
pub open spec fn table_tags(table: Seq<Tally>) -> Seq<Seq<char>> {
    table.map_values(|row: Tally| row.tag)
}

/// Whether `table` is the frequency table of `tags`: one row for each tag
/// that occurs, in lexicographic order of the tags, each with the number of
/// its occurrences.
pub open spec fn is_tag_table(table: Seq<Tally>, tags: Seq<Seq<char>>) -> bool {
    &&& strictly_sorted(table_tags(table))
    &&& forall|t: Seq<char>|
        #![trigger table_tags(table).contains(t)]
        #![trigger tags.contains(t)]
        table_tags(table).contains(t) <==> tags.contains(t)
    &&& forall|i: int|
        0 <= i < table.len() ==> (#[trigger] table[i]).count == occurrences(tags, table[i].tag)
}

/// A tag occurs at least once in a sequence that holds it, and never more
/// often than the sequence is long.
pub proof fn occurrences_bounds(tags: Seq<Seq<char>>, tag: Seq<char>)
    ensures
        occurrences(tags, tag) <= tags.len(),
        tags.contains(tag) <==> occurrences(tags, tag) > 0,
    decreases tags.len(),
{
    if tags.len() > 0 {
        let front = tags.drop_last();
        occurrences_bounds(front, tag);
        if tags.contains(tag) {
            let i = choose|i: int| 0 <= i < tags.len() && tags[i] == tag;
            if i < tags.len() - 1 {
                assert(front[i] == tag);
            }
        }
        if front.contains(tag) {
            let i = choose|i: int| 0 <= i < front.len() && front[i] == tag;
            assert(tags[i] == tag);
        }
        if tags.last() == tag {
            assert(tags[tags.len() - 1] == tag);
        }
    }
}

/// The frequency table of a sequence of tags is determined by it: two
/// tables of the same tags are the same table.
pub proof fn tag_table_is_unique(a: Seq<Tally>, b: Seq<Tally>, tags: Seq<Seq<char>>)
    requires
        is_tag_table(a, tags),
        is_tag_table(b, tags),
    ensures
        a == b,
{
    let x = table_tags(a);
    let y = table_tags(b);
    assert forall|t: Seq<char>|
        #![trigger x.contains(t)]
        #![trigger y.contains(t)]
        x.contains(t) <==> y.contains(t) by {
        assert(x.contains(t) <==> tags.contains(t));
        assert(y.contains(t) <==> tags.contains(t));
    }
    sorted_listing_is_unique(x, y);
    assert(a.len() == x.len() && b.len() == y.len());
    assert forall|i: int| 0 <= i < a.len() implies a[i] == b[i] by {
        assert(x[i] == a[i].tag);
        assert(y[i] == b[i].tag);
    }
    assert(a =~= b);
}

/// Counts the occurrences of a tag.
pub fn count_occurrences(tags: &Vec<Vec<char>>, tag: &[char]) -> (n: usize)
    ensures
        n == occurrences(views(tags@), tag@),
{
    let mut n: usize = 0;
    let mut i: usize = 0;
    while i < tags.len()
        invariant
            i <= tags.len(),
            n <= i,
            n == occurrences(views(tags@).take(i as int), tag@),
        decreases tags.len() - i,
    {
        assert(views(tags@).take(i + 1).drop_last() =~= views(tags@).take(i as int));
        if same_text(tags[i].as_slice(), tag) {
            n += 1;
        }
        i += 1;
    }
    assert(views(tags@).take(tags@.len() as int) =~= views(tags@));
    n
}

/// The frequency table of the given tags.
pub fn tag_table(tags: &Vec<Vec<char>>) -> (table: Vec<TagCount>)
    ensures
        is_tag_table(views(table@), views(tags@)),
{
    let keys = sorted_set(tags);
    let mut table: Vec<TagCount> = Vec::new();
    let mut i: usize = 0;
    assert(table_tags(views(table@)) =~= views(keys@).take(0));
    while i < keys.len()
        invariant
            i <= keys.len(),
            table@.len() == i,
            table_tags(views(table@)) == views(keys@).take(i as int),
            forall|k: int|
                0 <= k < i ==> (#[trigger] views(table@)[k]).count == occurrences(
                    views(tags@),
                    views(table@)[k].tag,
                ),
        decreases keys.len() - i,
    {
        let row = TagCount {
            tag: string_of(keys[i].as_slice()),
            count: count_occurrences(tags, keys[i].as_slice()),
        };
        proof {
            views_push(table@, row);
            assert(table_tags(views(table@).push(row@)) =~= views(keys@).take(i + 1));
        }
        table.push(row);
        i += 1;
    }
    assert(views(keys@).take(keys@.len() as int) =~= views(keys@));
    table
}

/// The tag frequency table of the vault: for each tag that a note declares,
/// the number of its occurrences in all notes, each occurrence counted, in
/// lexicographic order of the tags.
pub fn collect_all_tags(files: &Vec<NoteFile>) -> (table: Vec<TagCount>)
    ensures
        is_tag_table(views(table@), vault_tags(files@)),
{
    let tags = scan_vault_tags(files);
    tag_table(&tags)
}

/// The test that picks the notes that declare `tag`.
pub open spec fn has_tag(tag: Seq<char>) -> spec_fn(NoteFile) -> bool {
    |file: NoteFile| note_tags(file.content@).contains(tag)
}

/// The paths of the notes that declare `tag`, in the order of the notes.
pub open spec fn notes_with_tag(files: Seq<NoteFile>, tag: Seq<char>) -> Seq<Seq<char>> {
    note_paths(files.filter(has_tag(tag)))
}

/// The notes that declare the given tag, compared exactly, in the order of
/// the scan.
pub fn find_notes_with_tag(files: &Vec<NoteFile>, target_tag: &str) -> (list: Vec<String>)
    ensures
        views(list@) == notes_with_tag(files@, target_tag@),
{
    let wanted = chars_of(target_tag);
    let mut list: Vec<String> = Vec::new();
    let mut i: usize = 0;
    proof {
        reveal(Seq::filter);
        assert(views(list@) =~= notes_with_tag(files@.take(0), target_tag@));
    }
    while i < files.len()
        invariant
            i <= files.len(),
            wanted@ == target_tag@,
            views(list@) == notes_with_tag(files@.take(i as int), target_tag@),
        decreases files.len() - i,
    {
        let content = chars_of(files[i].content.as_str());
        let tags = scan_tags(content.as_slice());
        proof {
            reveal(Seq::filter);
            let before = files@.take(i as int).filter(has_tag(target_tag@));
            assert(files@.take(i + 1).drop_last() =~= files@.take(i as int));
            assert(note_paths(before.push(files@[i as int])) =~= note_paths(before).push(
                files@[i as int].path@,
            ));
        }
        if contains_text(&tags, wanted.as_slice()) {
            let path = files[i].path.clone();
            proof {
                views_push(list@, path);
            }
            list.push(path);
        }
        i += 1;
    }
    assert(files@.take(files@.len() as int) =~= files@);
    list
}

} // verus!
