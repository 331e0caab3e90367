//! The scanned vault: its notes as they were read, the set of note paths,
//! and what each note holds by itself.

use crate::links::{same_text, scan_links, wiki_links};
use crate::tags::{note_tags, scan_tags};
use crate::text::{
    chars_of, count_words, ends_with, has_suffix, views, views_push, word_count,
};
use vstd::prelude::*;

verus! {

/// A note as it was read from the vault.
#[derive(Clone, Debug, PartialEq, Eq)]
pub struct NoteFile {
    /// The note's path relative to the vault's root; it identifies the note.
    pub path: String,
    /// The note's text.
    pub content: String,
    /// When the note was last modified, where the platform told.
    pub modified: Option<String>,
}

/// What the file listing says of one note.
#[derive(Clone, Debug, PartialEq, Eq)]
pub struct FileInfo {
    pub path: String,
    pub word_count: usize,
    pub link_count: usize,
    pub tag_count: usize,
    pub modified: String,
}

/// The view of a `FileInfo`: what contracts say of it.
pub struct FileFacts {
    pub path: Seq<char>,
    pub word_count: nat,
    pub link_count: nat,
    pub tag_count: nat,
    pub modified: Seq<char>,
}

impl View for FileInfo {
    type V = FileFacts;

    open spec fn view(&self) -> FileFacts {
        FileFacts {
            path: self.path@,
            word_count: self.word_count as nat,
            link_count: self.link_count as nat,
            tag_count: self.tag_count as nat,
            modified: self.modified@,
        }
    }
}

/// Whether a file of this name is a note: its extension is exactly `md`,
/// that is, the name ends with `.md` and something stands before that.
pub open spec fn is_note_name(name: Seq<char>) -> bool {
    name.len() > 3 && ends_with(name, ".md"@)
}

/// Tests whether a file of this name is a note of the vault.
pub fn is_markdown_name(file_name: &str) -> (r: bool)
    ensures
        r == is_note_name(file_name@),
{
    let name = chars_of(file_name);
    name.len() > 3 && has_suffix(name.as_slice(), ".md")
}

/// The paths of the given notes, in order.
pub open spec fn note_paths(files: Seq<NoteFile>) -> Seq<Seq<char>> {
    files.map_values(|f: NoteFile| f.path@)
}

/// The texts of `list` in order of first appearance, each once.
pub open spec fn distinct(list: Seq<Seq<char>>) -> Seq<Seq<char>>
    decreases list.len(),
{
    if list.len() == 0 {
        Seq::empty()
    } else {
        let before = distinct(list.drop_last());
        if before.contains(list.last()) {
            before
        } else {
            before.push(list.last())
        }
    }
}

/// The set of note paths of the vault, in the order of the scan.
pub open spec fn note_set(files: Seq<NoteFile>) -> Seq<Seq<char>> {
    distinct(note_paths(files))
}

/// `distinct` holds exactly the members of the list it is made of, and none
/// of them twice.
pub proof fn distinct_has_each_once(list: Seq<Seq<char>>)
    ensures
        forall|t: Seq<char>|
            #![trigger distinct(list).contains(t)]
            #![trigger list.contains(t)]
            distinct(list).contains(t) <==> list.contains(t),
        distinct(list).no_duplicates(),
        distinct(list).len() <= list.len(),
    decreases list.len(),
{
    if list.len() > 0 {
        let front = list.drop_last();
        let before = distinct(front);
        distinct_has_each_once(front);
        assert forall|t: Seq<char>|
            #![trigger distinct(list).contains(t)]
            #![trigger list.contains(t)]
            distinct(list).contains(t) <==> list.contains(t) by {
            if list.contains(t) {
                let i = choose|i: int| 0 <= i < list.len() && list[i] == t;
                if i < list.len() - 1 {
                    assert(front[i] == t);
                    assert(front.contains(t));
                    let k = choose|k: int| 0 <= k < before.len() && before[k] == t;
                    assert(distinct(list)[k] == t);
                } else if !before.contains(t) {
                    assert(distinct(list)[before.len() as int] == t);
                }
            }
            if distinct(list).contains(t) {
                let k = choose|k: int| 0 <= k < distinct(list).len() && distinct(list)[k] == t;
                if k < before.len() {
                    assert(before[k] == t);
                    assert(before.contains(t));
                    let i = choose|i: int| 0 <= i < front.len() && front[i] == t;
                    assert(list[i] == t);
                } else {
                    assert(list[list.len() - 1] == t);
                }
            }
        }
    }
}

/// Tests whether a listing holds a text.
pub fn contains_text(list: &Vec<Vec<char>>, t: &[char]) -> (r: bool)
    ensures
        r == views(list@).contains(t@),
{
    let mut i: usize = 0;
    while i < list.len()
        invariant
            i <= list.len(),
            forall|j: int| 0 <= j < i ==> #[trigger] views(list@)[j] != t@,
        decreases list.len() - i,
    {
        if same_text(list[i].as_slice(), t) {
            assert(views(list@)[i as int] == t@);
            return true;
        }
        i += 1;
    }
    false
}

/// Builds the set of note paths: each path once, in the order of the scan.
pub fn note_index(files: &Vec<NoteFile>) -> (notes: Vec<Vec<char>>)
    ensures
        views(notes@) == note_set(files@),
{
    let mut notes: Vec<Vec<char>> = Vec::new();
    let mut i: usize = 0;
    assert(note_paths(files@.take(0)) =~= Seq::<Seq<char>>::empty());
    while i < files.len()
        invariant
            i <= files.len(),
            views(notes@) == note_set(files@.take(i as int)),
        decreases files.len() - i,
    {
        let path = chars_of(files[i].path.as_str());
        proof {
            let now = note_paths(files@.take(i + 1));
            assert(now.drop_last() =~= note_paths(files@.take(i as int)));
            assert(now.last() == path@);
            views_push(notes@, path);
        }
        if !contains_text(&notes, path.as_slice()) {
            notes.push(path);
        }
        i += 1;
    }
    assert(files@.take(files@.len() as int) =~= files@);
    notes
}

/// All tags of the vault's notes: note after note, each note's tags in its
/// own order, repeats included.
pub open spec fn vault_tags(files: Seq<NoteFile>) -> Seq<Seq<char>>
    decreases files.len(),
{
    if files.len() == 0 {
        Seq::empty()
    } else {
        vault_tags(files.drop_last()) + note_tags(files.last().content@)
    }
}

/// Reads the tags off every note of the vault.
pub fn scan_vault_tags(files: &Vec<NoteFile>) -> (tags: Vec<Vec<char>>)
    ensures
        views(tags@) == vault_tags(files@),
{
    let mut tags: Vec<Vec<char>> = Vec::new();
    let mut i: usize = 0;
    assert(views(tags@) =~= vault_tags(files@.take(0)));
    while i < files.len()
        invariant
            i <= files.len(),
            views(tags@) == vault_tags(files@.take(i as int)),
        decreases files.len() - i,
    {
        let content = chars_of(files[i].content.as_str());
        let mut found = scan_tags(content.as_slice());
        proof {
            assert(files@.take(i + 1).drop_last() =~= files@.take(i as int));
            assert(views(tags@ + found@) =~= views(tags@) + views(found@));
        }
        tags.append(&mut found);
        i += 1;
    }
    assert(files@.take(files@.len() as int) =~= files@);
    tags
}

/// The text that stands for a modification time that the platform did not tell.
pub open spec fn unknown_time() -> Seq<char> {
    "unknown"@
}

/// What the file listing says of a note: its path, the number of its words,
/// links and tags, and its modification time or `unknown`.
pub open spec fn file_facts(file: NoteFile) -> FileFacts {
    FileFacts {
        path: file.path@,
        word_count: word_count(file.content@),
        link_count: wiki_links(file.content@).len(),
        tag_count: note_tags(file.content@).len(),
        modified: match file.modified {
            Some(m) => m@,
            None => unknown_time(),
        },
    }
}

/// Describes one note for the file listing.
pub fn file_info(file: &NoteFile) -> (info: FileInfo)
    ensures
        info@ == file_facts(*file),
{
    let content = chars_of(file.content.as_str());
    let links = scan_links(content.as_slice());
    let tags = scan_tags(content.as_slice());
    let modified = match &file.modified {
        Some(m) => m.clone(),
        None => "unknown".to_owned(),
    };
    FileInfo {
        path: file.path.clone(),
        word_count: count_words(content.as_slice()),
        link_count: links.len(),
        tag_count: tags.len(),
        modified,
    }
}

/// The file listing: one entry for each scanned note, in the order of the scan.
pub fn collect_all_files(files: &Vec<NoteFile>) -> (listing: Vec<FileInfo>)
    ensures
        views(listing@) == files@.map_values(|f: NoteFile| file_facts(f)),
{
    let mut listing: Vec<FileInfo> = Vec::new();
    let mut i: usize = 0;
    while i < files.len()
        invariant
            i <= files.len(),
            views(listing@) == files@.take(i as int).map_values(|f: NoteFile| file_facts(f)),
        decreases files.len() - i,
    {
        let info = file_info(&files[i]);
        proof {
            views_push(listing@, info);
            assert(views(listing@).push(info@) =~= files@.take(i + 1).map_values(
                |f: NoteFile| file_facts(f),
            ));
        }
        listing.push(info);
        i += 1;
    }
    assert(files@.take(files@.len() as int) =~= files@);
    listing
}

} // verus!
