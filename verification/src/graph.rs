//! The link graph of the vault: the table of all links with their
//! resolution, the notes that nothing connects, and the notes that link to
//! a given one.

use crate::links::{
    find_note, is_tail, is_tail_of, names, normalize, resolved, same_text, scan_links, stem,
    wiki_links,
};
use crate::order::{insert_sorted, sorted_listing_is_unique, strictly_sorted};
use crate::text::{chars_of, string_of, strings_of, views, views_push};
use crate::vault::{distinct_has_each_once, note_index, note_paths, note_set, NoteFile};
use vstd::prelude::*;

verus! {

/// One link of the vault.
#[derive(Clone, Debug, PartialEq, Eq)]
pub struct LinkInfo {
    /// The path of the note that holds the link.
    pub source: String,
    /// The path of the note that the link names, or the link's own text
    /// where it names none.
    pub target: String,
    /// Whether the link names a note of the vault.
    pub exists: bool,
}

/// The view of a `LinkInfo`: what contracts say of it.
pub struct Link {
    pub source: Seq<char>,
    pub target: Seq<char>,
    pub exists: bool,
}

impl View for LinkInfo {
    type V = Link;

    open spec fn view(&self) -> Link {
        Link { source: self.source@, target: self.target@, exists: self.exists }
    }
}

/// The table row of a link with text `raw` in the note `source`: resolved to
/// the first note that it names, or kept as it is and marked as broken.
pub open spec fn link_to(source: Seq<char>, raw: Seq<char>, notes: Seq<Seq<char>>) -> Link {
    match resolved(raw, notes) {
        Some(path) => Link { source, target: path, exists: true },
        None => Link { source, target: raw, exists: false },
    }
}

/// The rows of the links of one note, in the order in which they appear.
pub open spec fn note_links(source: Seq<char>, content: Seq<char>, notes: Seq<Seq<char>>) -> Seq<
    Link,
> {
    wiki_links(content).map_values(|raw: Seq<char>| link_to(source, raw, notes))
}

/// The rows of the links of the given notes, note after note, resolved
/// against `notes`.
pub open spec fn vault_links(files: Seq<NoteFile>, notes: Seq<Seq<char>>) -> Seq<Link>
    decreases files.len(),
{
    if files.len() == 0 {
        Seq::empty()
    } else {
        vault_links(files.drop_last(), notes) + note_links(
            files.last().path@,
            files.last().content@,
            notes,
        )
    }
}

/// The link table of the vault: every link of every note, resolved against
/// the whole set of note paths.
pub open spec fn link_table(files: Seq<NoteFile>) -> Seq<Link> {
    vault_links(files, note_set(files))
}

/// What `resolved` gives is one of the notes and is named by the link, and
/// where it gives nothing the link names none of the notes.
pub proof fn resolved_is_named(link: Seq<char>, notes: Seq<Seq<char>>)
    ensures
        match resolved(link, notes) {
            Some(path) => notes.contains(path) && names(link, path),
            None => forall|i: int| 0 <= i < notes.len() ==> !names(link, #[trigger] notes[i]),
        },
    decreases notes.len(),
{
    if notes.len() > 0 {
        if names(link, notes[0]) {
            assert(notes.contains(notes[0]));
        } else {
            let rest = notes.drop_first();
            resolved_is_named(link, rest);
            match resolved(link, rest) {
                Some(path) => {
                    let i = choose|i: int| 0 <= i < rest.len() && rest[i] == path;
                    assert(notes[i + 1] == path);
                },
                None => {
                    assert forall|i: int| 0 <= i < notes.len() implies !names(
                        link,
                        #[trigger] notes[i],
                    ) by {
                        if i > 0 {
                            assert(rest[i - 1] == notes[i]);
                        }
                    }
                },
            }
        }
    }
}

/// The row of the `j`-th link of the `f`-th note.
pub open spec fn row_of(files: Seq<NoteFile>, notes: Seq<Seq<char>>, f: int, j: int) -> Link {
    link_to(files[f].path@, wiki_links(files[f].content@)[j], notes)
}

/// Every row of the table is the row of a link of a scanned note.
pub proof fn row_has_origin(files: Seq<NoteFile>, notes: Seq<Seq<char>>, k: int)
    requires
        0 <= k < vault_links(files, notes).len(),
    ensures
        exists|f: int, j: int|
            0 <= f < files.len() && 0 <= j < wiki_links(files[f].content@).len() && vault_links(
                files,
                notes,
            )[k] == #[trigger] row_of(files, notes, f, j),
    decreases files.len(),
{
    let front = files.drop_last();
    let before = vault_links(front, notes);
    if k < before.len() {
        row_has_origin(front, notes, k);
        let (f, j) = choose|f: int, j: int|
            0 <= f < front.len() && 0 <= j < wiki_links(front[f].content@).len() && before[k]
                == #[trigger] row_of(front, notes, f, j);
        assert(row_of(files, notes, f, j) == row_of(front, notes, f, j));
    } else {
        let f = files.len() - 1;
        let j = k - before.len();
        assert(vault_links(files, notes)[k] == row_of(files, notes, f, j));
    }
}

/// A link that names no note keeps its own text as its target and is marked
/// as broken.
pub proof fn unresolved_link_keeps_its_text(
    source: Seq<char>,
    raw: Seq<char>,
    notes: Seq<Seq<char>>,
)
    requires
        resolved(raw, notes) is None,
    ensures
        link_to(source, raw, notes) == (Link { source, target: raw, exists: false }),
{
}

/// The vault's invariant, row by row: the source of every link is a note of
/// the vault; the target of a resolved link is a note of the vault; the
/// target of a broken link is its own text, which names no note.
pub proof fn link_table_is_sound(files: Seq<NoteFile>, k: int)
    requires
        0 <= k < link_table(files).len(),
    ensures
        note_set(files).contains(link_table(files)[k].source),
        link_table(files)[k].exists ==> note_set(files).contains(link_table(files)[k].target),
        !link_table(files)[k].exists ==> resolved(link_table(files)[k].target, note_set(files))
            is None,
{
    let notes = note_set(files);
    row_has_origin(files, notes, k);
    let (f, j) = choose|f: int, j: int|
        0 <= f < files.len() && 0 <= j < wiki_links(files[f].content@).len() && link_table(
            files,
        )[k] == #[trigger] row_of(files, notes, f, j);
    let raw = wiki_links(files[f].content@)[j];
    resolved_is_named(raw, notes);
    distinct_has_each_once(note_paths(files));
    assert(note_paths(files)[f] == files[f].path@);
    assert(note_paths(files).contains(files[f].path@));
}

/// Resolves one link of the note `source` against the note paths. A link
/// that names no note is kept under its own text and marked as broken.
pub fn resolve_link(source: &String, raw: &[char], notes: &Vec<Vec<char>>) -> (link: LinkInfo)
    ensures
        link@ == link_to(source@, raw@, views(notes@)),
        link.source@ == source@,
        link.exists <==> exists|i: int| 0 <= i < notes@.len() && names(raw@, #[trigger] notes@[i]@),
        link.exists ==> views(notes@).contains(link.target@) && names(raw@, link.target@),
        !link.exists ==> link.target@ == raw@,
{
    proof {
        resolved_is_named(raw@, views(notes@));
    }
    match find_note(raw, notes) {
        Some(k) => {
            assert(views(notes@)[k as int] == notes@[k as int]@);
            LinkInfo {
                source: source.clone(),
                target: string_of(notes[k].as_slice()),
                exists: true,
            }
        },
        None => {
            assert forall|i: int| 0 <= i < notes@.len() implies !names(
                raw@,
                #[trigger] notes@[i]@,
            ) by {
                assert(views(notes@)[i] == notes@[i]@);
            }
            LinkInfo { source: source.clone(), target: string_of(raw), exists: false }
        },
    }
}

/// Appends the rows of the links of one note.
pub fn append_note_links(file: &NoteFile, notes: &Vec<Vec<char>>, links: &mut Vec<LinkInfo>)
    ensures
        views(final(links)@) == views(old(links)@) + note_links(
            file.path@,
            file.content@,
            views(notes@),
        ),
{
    let content = chars_of(file.content.as_str());
    let found = scan_links(content.as_slice());
    let ghost before = views(links@);
    let ghost rows = note_links(file.path@, file.content@, views(notes@));
    let mut j: usize = 0;
    assert(before + rows.take(0) =~= before);
    while j < found.len()
        invariant
            j <= found.len(),
            views(found@) == wiki_links(file.content@),
            rows == note_links(file.path@, file.content@, views(notes@)),
            views(links@) == before + rows.take(j as int),
        decreases found.len() - j,
    {
        let link = resolve_link(&file.path, found[j].as_slice(), notes);
        proof {
            views_push(links@, link);
            assert(views(found@)[j as int] == found@[j as int]@);
            assert(rows[j as int] == link@);
            assert((before + rows.take(j as int)).push(link@) =~= before + rows.take(j + 1));
        }
        links.push(link);
        j += 1;
    }
    assert(rows.take(found@.len() as int) =~= rows);
}

/// The link table of the vault and the set of its note paths. The set is
/// built first, so that every link is resolved against the whole vault; the
/// table then lists every link of every note, note after note in the order
/// of the scan and link after link in the order of the text, repeats and
/// broken links included.
pub fn collect_all_links(files: &Vec<NoteFile>) -> (r: (Vec<LinkInfo>, Vec<String>))
    ensures
        views(r.0@) == link_table(files@),
        views(r.1@) == note_set(files@),
{
    let notes = note_index(files);
    let mut links: Vec<LinkInfo> = Vec::new();
    let mut i: usize = 0;
    assert(views(links@) =~= vault_links(files@.take(0), views(notes@)));
    while i < files.len()
        invariant
            i <= files.len(),
            views(links@) == vault_links(files@.take(i as int), views(notes@)),
        decreases files.len() - i,
    {
        assert(files@.take(i + 1).drop_last() =~= files@.take(i as int));
        append_note_links(&files[i], &notes, &mut links);
        i += 1;
    }
    assert(files@.take(files@.len() as int) =~= files@);
    (links, strings_of(&notes))
}

/// Whether some link of the table stands in the note: the note has an
/// outgoing link, resolved or not.
pub open spec fn has_outgoing(links: Seq<Link>, note: Seq<char>) -> bool {
    exists|i: int| 0 <= i < links.len() && (#[trigger] links[i]).source == note
}

/// Whether some link of the table is resolved to the note. A broken link
/// whose text is the note's path does not count.
pub open spec fn has_incoming(links: Seq<Link>, note: Seq<char>) -> bool {
    exists|i: int| 0 <= i < links.len() && (#[trigger] links[i]).exists && links[i].target == note
}

/// Whether nothing connects the note: no link stands in it and none is
/// resolved to it.
pub open spec fn is_orphan(links: Seq<Link>, note: Seq<char>) -> bool {
    !has_outgoing(links, note) && !has_incoming(links, note)
}

/// The test that picks the orphans by the given link table.
pub open spec fn unconnected(links: Seq<Link>) -> spec_fn(Seq<char>) -> bool {
    |note: Seq<char>| is_orphan(links, note)
}

/// The orphans among `notes`, in the order of `notes`.
pub open spec fn orphans(links: Seq<Link>, notes: Seq<Seq<char>>) -> Seq<Seq<char>> {
    notes.filter(unconnected(links))
}

/// The orphans among the first notes and the next one are those among the
/// first, and then the next one if it is an orphan.
pub proof fn orphans_step(links: Seq<Link>, notes: Seq<Seq<char>>, i: int)
    requires
        0 <= i < notes.len(),
    ensures
        orphans(links, notes.take(i + 1)) == if is_orphan(links, notes[i]) {
            orphans(links, notes.take(i)).push(notes[i])
        } else {
            orphans(links, notes.take(i))
        },
{
    reveal(Seq::filter);
    assert(notes.take(i + 1).drop_last() =~= notes.take(i));
}

/// A note of the vault is listed among the orphans if and only if nothing
/// connects it, and nothing else is listed.
pub proof fn orphans_are_the_unconnected(links: Seq<Link>, notes: Seq<Seq<char>>, note: Seq<char>)
    ensures
        orphans(links, notes).contains(note) <==> notes.contains(note) && is_orphan(links, note),
        orphans(links, notes).len() <= notes.len(),
{
    let keep = unconnected(links);
    let kept = orphans(links, notes);
    notes.lemma_filter_len(keep);
    if kept.contains(note) {
        notes.lemma_filter_contains_rev(keep, note);
        let k = choose|k: int| 0 <= k < kept.len() && kept[k] == note;
        notes.lemma_filter_pred(keep, k);
    }
    if notes.contains(note) && is_orphan(links, note) {
        let i = choose|i: int| 0 <= i < notes.len() && notes[i] == note;
        notes.lemma_filter_contains(keep, i);
    }
}

/// Tests whether a link stands in the note or is resolved to it.
pub fn is_connected(links: &Vec<LinkInfo>, note: &String) -> (r: bool)
    ensures
        r == !is_orphan(views(links@), note@),
{
    let mut j: usize = 0;
    while j < links.len()
        invariant
            j <= links.len(),
            forall|k: int|
                0 <= k < j ==> (#[trigger] views(links@)[k]).source != note@ && !(views(
                    links@,
                )[k].exists && views(links@)[k].target == note@),
        decreases links.len() - j,
    {
        assert(views(links@)[j as int] == links@[j as int]@);
        if links[j].source == *note || (links[j].exists && links[j].target == *note) {
            return true;
        }
        j += 1;
    }
    false
}

/// The orphans among the given notes, by the given link table, in the order
/// of the notes.
pub fn orphans_among(links: &Vec<LinkInfo>, notes: &Vec<String>) -> (list: Vec<String>)
    ensures
        views(list@) == orphans(views(links@), views(notes@)),
{
    let mut list: Vec<String> = Vec::new();
    let mut i: usize = 0;
    proof {
        reveal(Seq::filter);
        assert(views(list@) =~= orphans(views(links@), views(notes@).take(0)));
    }
    while i < notes.len()
        invariant
            i <= notes.len(),
            views(list@) == orphans(views(links@), views(notes@).take(i as int)),
        decreases notes.len() - i,
    {
        proof {
            orphans_step(views(links@), views(notes@), i as int);
            assert(views(notes@)[i as int] == notes@[i as int]@);
        }
        if !is_connected(links, &notes[i]) {
            let note = notes[i].clone();
            proof {
                views_push(list@, note);
            }
            list.push(note);
        }
        i += 1;
    }
    assert(views(notes@).take(notes@.len() as int) =~= views(notes@));
    list
}

/// The orphaned notes of the vault: those in which no link stands, resolved
/// or not, and to which no link is resolved; in the order of the scan.
pub fn find_orphans(files: &Vec<NoteFile>) -> (list: Vec<String>)
    ensures
        views(list@) == orphans(link_table(files@), note_set(files@)),
{
    let (links, notes) = collect_all_links(files);
    orphans_among(&links, &notes)
}

/// Whether a link target points at the note that `query` asks for: once the
/// extension `.md` is set aside on both, they are the same, or one of them
/// ends with `/` and the other.
pub open spec fn points_at(target: Seq<char>, query: Seq<char>) -> bool {
    let t = stem(target);
    let q = stem(query);
    t == q || is_tail_of(q, t) || is_tail_of(t, q)
}

/// Whether some link of the table stands in `source` and points at `query`.
pub open spec fn links_to(links: Seq<Link>, query: Seq<char>, source: Seq<char>) -> bool {
    exists|i: int|
        0 <= i < links.len() && (#[trigger] links[i]).source == source && points_at(
            links[i].target,
            query,
        )
}

/// Whether `list` is the backlink listing for `query`: the sources of the
/// links that point at `query`, each once, in lexicographic order.
pub open spec fn is_backlink_list(list: Seq<Seq<char>>, links: Seq<Link>, query: Seq<char>) -> bool {
    &&& strictly_sorted(list)
    &&& forall|s: Seq<char>|
        #![trigger list.contains(s)]
        #![trigger links_to(links, query, s)]
        list.contains(s) <==> links_to(links, query, s)
}

/// The backlink listing is determined by the link table and the query: two
/// listings for the same are the same listing.
pub proof fn backlink_list_is_unique(
    a: Seq<Seq<char>>,
    b: Seq<Seq<char>>,
    links: Seq<Link>,
    query: Seq<char>,
)
    requires
        is_backlink_list(a, links, query),
        is_backlink_list(b, links, query),
    ensures
        a == b,
{
    assert forall|s: Seq<char>|
        #![trigger a.contains(s)]
        #![trigger b.contains(s)]
        a.contains(s) <==> b.contains(s) by {
        assert(a.contains(s) <==> links_to(links, query, s));
        assert(b.contains(s) <==> links_to(links, query, s));
    }
    sorted_listing_is_unique(a, b);
}

/// A note links to `query` by the first rows and the next one if it does so
/// by the first rows or the next row is such a link of it.
proof fn links_to_step(links: Seq<Link>, j: int, query: Seq<char>)
    requires
        0 <= j < links.len(),
    ensures
        forall|s: Seq<char>| #[trigger]
            links_to(links.take(j + 1), query, s) <==> links_to(links.take(j), query, s) || (
            links[j].source == s && points_at(links[j].target, query)),
{
    let now = links.take(j + 1);
    let was = links.take(j);
    assert forall|s: Seq<char>| #[trigger]
        links_to(now, query, s) <==> links_to(was, query, s) || (links[j].source == s && points_at(
            links[j].target,
            query,
        )) by {
        if links_to(now, query, s) {
            let i = choose|i: int|
                0 <= i < now.len() && (#[trigger] now[i]).source == s && points_at(
                    now[i].target,
                    query,
                );
            if i < j {
                assert(was[i] == now[i]);
            }
        }
        if links_to(was, query, s) {
            let i = choose|i: int|
                0 <= i < was.len() && (#[trigger] was[i]).source == s && points_at(
                    was[i].target,
                    query,
                );
            assert(now[i] == was[i]);
        }
        if links[j].source == s && points_at(links[j].target, query) {
            assert(now[j] == links[j]);
        }
    }
}

/// Tests whether a link target points at the note asked for, given without
/// its extension.
pub fn target_points_at(target: &String, query_stem: &[char]) -> (r: bool)
    ensures
        r == {
            let t = stem(target@);
            t == query_stem@ || is_tail_of(query_stem@, t) || is_tail_of(t, query_stem@)
        },
{
    let chars = chars_of(target.as_str());
    let t = normalize(chars.as_slice());
    same_text(t, query_stem) || is_tail(query_stem, t) || is_tail(t, query_stem)
}

/// The backlink listing for `target` by the given link table.
pub fn backlinks_among(links: &Vec<LinkInfo>, target: &str) -> (list: Vec<String>)
    ensures
        is_backlink_list(views(list@), views(links@), target@),
{
    let query = chars_of(target);
    let q = normalize(query.as_slice());
    let mut found: Vec<Vec<char>> = Vec::new();
    let mut j: usize = 0;
    assert(views(found@) =~= Seq::<Seq<char>>::empty());
    while j < links.len()
        invariant
            j <= links.len(),
            q@ == stem(target@),
            is_backlink_list(views(found@), views(links@).take(j as int), target@),
        decreases links.len() - j,
    {
        proof {
            links_to_step(views(links@), j as int, target@);
            assert(views(links@)[j as int] == links@[j as int]@);
        }
        if target_points_at(&links[j].target, q) {
            insert_sorted(&mut found, chars_of(links[j].source.as_str()));
        }
        j += 1;
    }
    assert(views(links@).take(links@.len() as int) =~= views(links@));
    strings_of(&found)
}

/// The notes that link to `target`: the sources of all links of the vault
/// whose target points at `target`, each once, in lexicographic order. The
/// target may be given with or without its extension, as a bare name or as
/// a partial path.
pub fn find_backlinks(files: &Vec<NoteFile>, target: &str) -> (list: Vec<String>)
    ensures
        is_backlink_list(views(list@), link_table(files@), target@),
{
    let (links, _notes) = collect_all_links(files);
    backlinks_among(&links, target)
}

} // verus!
