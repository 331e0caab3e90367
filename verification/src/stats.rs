//! Summary statistics of the vault.

use crate::graph::{
    collect_all_links, link_table, orphans, orphans_among, orphans_are_the_unconnected, Link,
    LinkInfo,
};
use crate::order::sorted_has_no_duplicates;
use crate::tally::{collect_all_tags, is_tag_table, table_tags, Tally};
use crate::text::views;
use crate::vault::{note_set, vault_tags, NoteFile};
use vstd::prelude::*;

verus! {

/// The summary of a vault.
#[derive(Clone, Copy, Debug, PartialEq, Eq)]
pub struct StatsOutput {
    /// The number of notes: of different note paths.
    pub total_notes: usize,
    /// The number of different tags.
    pub total_tags: usize,
    /// The number of links, repeats and broken links included.
    pub total_links: usize,
    /// The number of links that name no note.
    pub broken_links: usize,
    /// The number of orphaned notes.
    pub orphaned_notes: usize,
}

/// The test that picks the broken links.
pub open spec fn is_broken() -> spec_fn(Link) -> bool {
    |link: Link| !link.exists
}

/// The broken links of a table, in order.
pub open spec fn broken(links: Seq<Link>) -> Seq<Link> {
    links.filter(is_broken())
}

/// Counts the broken links of a table.
pub fn count_broken(links: &Vec<LinkInfo>) -> (n: usize)
    ensures
        n == broken(views(links@)).len(),
        n <= links@.len(),
{
    let mut n: usize = 0;
    let mut i: usize = 0;
    proof {
        reveal(Seq::filter);
        assert(broken(views(links@).take(0)).len() == 0);
    }
    while i < links.len()
        invariant
            i <= links.len(),
            n <= i,
            n == broken(views(links@).take(i as int)).len(),
        decreases links.len() - i,
    {
        proof {
            reveal(Seq::filter);
            assert(views(links@).take(i + 1).drop_last() =~= views(links@).take(i as int));
            assert(views(links@)[i as int] == links@[i as int]@);
        }
        if !links[i].exists {
            n += 1;
        }
        i += 1;
    }
    assert(views(links@).take(links@.len() as int) =~= views(links@));
    n
}

/// A frequency table has as many rows as there are different tags.
pub proof fn table_counts_distinct_tags(table: Seq<Tally>, tags: Seq<Seq<char>>)
    requires
        is_tag_table(table, tags),
    ensures
        table.len() == tags.to_set().len(),
{
    let keys = table_tags(table);
    sorted_has_no_duplicates(keys);
    keys.unique_seq_to_set();
    assert forall|t: Seq<char>| keys.to_set().contains(t) <==> tags.to_set().contains(t) by {
        assert(keys.contains(t) <==> tags.contains(t));
    }
    assert(keys.to_set() =~= tags.to_set());
}

/// The summary of the vault: the number of its notes, of its different
/// tags, of its links and of the broken ones among them, and of its orphans.
/// No more links are broken than there are links, and no more notes are
/// orphans than there are notes.
pub fn calculate_stats(files: &Vec<NoteFile>) -> (stats: StatsOutput)
    ensures
        stats.total_notes == note_set(files@).len(),
        stats.total_tags == vault_tags(files@).to_set().len(),
        stats.total_links == link_table(files@).len(),
        stats.broken_links == broken(link_table(files@)).len(),
        stats.orphaned_notes == orphans(link_table(files@), note_set(files@)).len(),
        stats.broken_links <= stats.total_links,
        stats.orphaned_notes <= stats.total_notes,
{
    let table = collect_all_tags(files);
    let (links, notes) = collect_all_links(files);
    let lonely = orphans_among(&links, &notes);
    proof {
        table_counts_distinct_tags(views(table@), vault_tags(files@));
        orphans_are_the_unconnected(views(links@), views(notes@), Seq::empty());
    }
    StatsOutput {
        total_notes: notes.len(),
        total_tags: table.len(),
        total_links: links.len(),
        broken_links: count_broken(&links),
        orphaned_notes: lonely.len(),
    }
}

} // verus!
