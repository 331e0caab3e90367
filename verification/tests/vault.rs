use obsidian_cli::graph::{
    append_note_links, backlinks_among, collect_all_links, find_backlinks, find_orphans,
    is_connected, orphans_among, resolve_link, LinkInfo,
};
use obsidian_cli::stats::{calculate_stats, count_broken, StatsOutput};
use obsidian_cli::tally::{
    collect_all_tags, count_occurrences, find_notes_with_tag, tag_table, TagCount,
};
use obsidian_cli::text::chars_of;
use obsidian_cli::vault::{
    collect_all_files, contains_text, file_info, is_markdown_name, note_index, scan_vault_tags,
    FileInfo, NoteFile,
};
use std::path::Path;

fn note(path: &str, content: &str) -> NoteFile {
    NoteFile { path: path.to_string(), content: content.to_string(), modified: None }
}

fn link(source: &str, target: &str, exists: bool) -> LinkInfo {
    LinkInfo { source: source.to_string(), target: target.to_string(), exists }
}

fn count(tag: &str, count: usize) -> TagCount {
    TagCount { tag: tag.to_string(), count }
}

fn strings(items: &[&str]) -> Vec<String> {
    items.iter().map(|s| s.to_string()).collect()
}

fn texts(items: &[&str]) -> Vec<Vec<char>> {
    items.iter().map(|s| chars_of(s)).collect()
}

/// Three notes: A links to B, B has a frontmatter tag, C stands alone.
fn small_vault() -> Vec<NoteFile> {
    vec![
        note("A.md", "#work\n[[B]]"),
        note("B.md", "---\ntags: [home]\n---\ncontent"),
        note("C.md", ""),
    ]
}

/// A vault with folders, repeated and broken links, and repeated tags.
fn large_vault() -> Vec<NoteFile> {
    vec![
        note("index.md", "#hub #hub\n[[Note]] [[projects/plan|the plan]] [[Note]] [[Missing]]"),
        note("folder/Note.md", "---\ntags: [hub, deep]\n---\n[[index]] and [[Missing]] #deep"),
        note("projects/plan.md", "[[folder/Note.md]] [[Nowhere|nothing]]"),
        note("projects/dangling.md", "[[Nowhere]]"),
        note("alone.md", "just text #solo"),
        note("zeta/alone.md", ""),
    ]
}

#[test]
fn small_vault_end_to_end() {
    let vault = small_vault();
    assert_eq!(collect_all_tags(&vault), vec![count("home", 1), count("work", 1)]);
    assert_eq!(find_orphans(&vault), strings(&["C.md"]));
    let stats = calculate_stats(&vault);
    assert_eq!(stats.total_links, 1);
    assert_eq!(stats.broken_links, 0);
    assert_eq!(
        stats,
        StatsOutput {
            total_notes: 3,
            total_tags: 2,
            total_links: 1,
            broken_links: 0,
            orphaned_notes: 1,
        }
    );
}

#[test]
fn link_table_lists_every_link_in_order() {
    let (links, notes) = collect_all_links(&large_vault());
    assert_eq!(notes, strings(&[
        "index.md",
        "folder/Note.md",
        "projects/plan.md",
        "projects/dangling.md",
        "alone.md",
        "zeta/alone.md",
    ]));
    assert_eq!(links, vec![
        link("index.md", "folder/Note.md", true),
        link("index.md", "projects/plan.md", true),
        link("index.md", "folder/Note.md", true),
        link("index.md", "Missing", false),
        link("folder/Note.md", "index.md", true),
        link("folder/Note.md", "Missing", false),
        link("projects/plan.md", "folder/Note.md", true),
        link("projects/plan.md", "Nowhere", false),
        link("projects/dangling.md", "Nowhere", false),
    ]);
}

#[test]
fn unresolved_link_keeps_its_raw_text() {
    let vault = vec![note("A.md", "[[ Spaced.md ]] [[Gone.md|alias]]")];
    let (links, _) = collect_all_links(&vault);
    assert_eq!(links, vec![link("A.md", " Spaced.md ", false), link("A.md", "Gone.md", false)]);
    let notes = texts(&["folder/Note.md"]);
    let source = "A.md".to_string();
    assert_eq!(resolve_link(&source, &chars_of("Note"), &notes), link(
        "A.md",
        "folder/Note.md",
        true,
    ));
    assert_eq!(resolve_link(&source, &chars_of("Nota.md"), &notes), link("A.md", "Nota.md", false));
}

#[test]
fn links_resolve_against_notes_scanned_later() {
    let vault = vec![note("first.md", "[[last]]"), note("last.md", "[[first]]")];
    let (links, _) = collect_all_links(&vault);
    assert_eq!(links, vec![link("first.md", "last.md", true), link("last.md", "first.md", true)]);
}

#[test]
fn append_note_links_adds_behind_what_is_there() {
    let notes = texts(&["B.md"]);
    let mut links = vec![link("x", "y", false)];
    append_note_links(&note("A.md", "[[B]] [[C]]"), &notes, &mut links);
    assert_eq!(links, vec![
        link("x", "y", false),
        link("A.md", "B.md", true),
        link("A.md", "C", false),
    ]);
}

#[test]
fn note_set_holds_each_path_once() {
    let vault = vec![note("a.md", "[[b]]"), note("b.md", ""), note("a.md", "[[c]]")];
    assert_eq!(note_index(&vault), texts(&["a.md", "b.md"]));
    let (links, notes) = collect_all_links(&vault);
    assert_eq!(notes, strings(&["a.md", "b.md"]));
    assert_eq!(links, vec![link("a.md", "b.md", true), link("a.md", "c", false)]);
    assert_eq!(calculate_stats(&vault).total_notes, 2);
    assert!(contains_text(&texts(&["a", "b"]), &chars_of("b")));
    assert!(!contains_text(&texts(&["a", "b"]), &chars_of("c")));
    assert!(!contains_text(&Vec::new(), &chars_of("")));
}

#[test]
fn orphans_have_no_link_in_or_out() {
    assert_eq!(find_orphans(&large_vault()), strings(&["alone.md", "zeta/alone.md"]));
    assert_eq!(find_orphans(&Vec::new()), strings(&[]));
    assert_eq!(find_orphans(&vec![note("only.md", "text")]), strings(&["only.md"]));
}

#[test]
fn note_with_a_link_of_its_own_is_no_orphan() {
    let vault = vec![note("A.md", "[[Missing]]"), note("B.md", "")];
    assert_eq!(find_orphans(&vault), strings(&["B.md"]));
    let vault = vec![note("A.md", "[[A]]")];
    assert_eq!(find_orphans(&vault), strings(&[]));
}

#[test]
fn broken_link_is_no_incoming_link() {
    let (links, notes) = (vec![link("A.md", "B.md", false)], strings(&["A.md", "B.md", "C.md"]));
    assert_eq!(orphans_among(&links, &notes), strings(&["B.md", "C.md"]));
    assert!(is_connected(&links, &"A.md".to_string()));
    assert!(!is_connected(&links, &"B.md".to_string()));
    let links = vec![link("A.md", "B.md", true)];
    assert!(is_connected(&links, &"B.md".to_string()));
    assert_eq!(orphans_among(&links, &notes), strings(&["C.md"]));
}

#[test]
fn backlinks_are_distinct_and_sorted() {
    let vault = vec![
        note("zeta.md", "[[Note]] [[Note]] [[Note.md]]"),
        note("Note.md", "[[Note]]"),
        note("beta.md", "nothing"),
        note("alpha.md", "[[Note|again]]"),
        note("Alpha.md", "[[Note]]"),
    ];
    assert_eq!(find_backlinks(&vault, "Note.md"), strings(&[
        "Alpha.md", "Note.md", "alpha.md", "zeta.md",
    ]));
    assert_eq!(find_backlinks(&vault, "Note"), find_backlinks(&vault, "Note.md"));
    assert_eq!(find_backlinks(&vault, "beta.md"), strings(&[]));
}

#[test]
fn backlinks_match_by_name_or_partial_path() {
    let vault = large_vault();
    let to_note = strings(&["index.md", "projects/plan.md"]);
    assert_eq!(find_backlinks(&vault, "folder/Note.md"), to_note);
    assert_eq!(find_backlinks(&vault, "Note"), to_note);
    assert_eq!(find_backlinks(&vault, "vault/folder/Note"), to_note);
    assert_eq!(find_backlinks(&vault, "plan"), strings(&["index.md"]));
    assert_eq!(find_backlinks(&vault, "older/Note"), strings(&[]));
}

#[test]
fn backlinks_count_broken_links_by_their_text() {
    let vault = large_vault();
    assert_eq!(find_backlinks(&vault, "Missing"), strings(&["folder/Note.md", "index.md"]));
    assert_eq!(find_backlinks(&vault, "some/Nowhere.md"), strings(&[
        "projects/dangling.md",
        "projects/plan.md",
    ]));
    let links = vec![link("b", "x/Note", false), link("a", "Note.md", true), link("b", "Note", true)];
    assert_eq!(backlinks_among(&links, "x/Note.md"), strings(&["a", "b"]));
    assert_eq!(backlinks_among(&links, "y/Note.md"), strings(&["a", "b"]));
    assert_eq!(backlinks_among(&links, "Not"), strings(&[]));
}

#[test]
fn tag_table_counts_every_occurrence() {
    assert_eq!(collect_all_tags(&large_vault()), vec![
        count("deep", 2),
        count("hub", 3),
        count("solo", 1),
    ]);
    assert_eq!(collect_all_tags(&Vec::new()), Vec::new());
    let tags = texts(&["b", "a", "b", "B", "b", ""]);
    assert_eq!(tag_table(&tags), vec![count("", 1), count("B", 1), count("a", 1), count("b", 3)]);
    assert_eq!(count_occurrences(&tags, &chars_of("b")), 3);
    assert_eq!(count_occurrences(&tags, &chars_of("c")), 0);
    assert_eq!(scan_vault_tags(&small_vault()), texts(&["work", "home"]));
}

#[test]
fn tag_search_is_exact() {
    let vault = large_vault();
    assert_eq!(find_notes_with_tag(&vault, "hub"), strings(&["index.md", "folder/Note.md"]));
    assert_eq!(find_notes_with_tag(&vault, "deep"), strings(&["folder/Note.md"]));
    assert_eq!(find_notes_with_tag(&vault, "Hub"), strings(&[]));
    assert_eq!(find_notes_with_tag(&vault, "hu"), strings(&[]));
    assert_eq!(find_notes_with_tag(&vault, "#hub"), strings(&[]));
    assert_eq!(find_notes_with_tag(&vault, ""), strings(&[]));
    let nested = vec![note("n.md", "#project/active")];
    assert_eq!(find_notes_with_tag(&nested, "project/active"), strings(&["n.md"]));
    assert_eq!(find_notes_with_tag(&nested, "project"), strings(&[]));
}

#[test]
fn file_listing_describes_every_note() {
    let mut vault = small_vault();
    vault[1].modified = Some("SystemTime { tv_sec: 1, tv_nsec: 0 }".to_string());
    assert_eq!(collect_all_files(&vault), vec![
        FileInfo {
            path: "A.md".to_string(),
            word_count: 2,
            link_count: 1,
            tag_count: 1,
            modified: "unknown".to_string(),
        },
        FileInfo {
            path: "B.md".to_string(),
            word_count: 5,
            link_count: 0,
            tag_count: 1,
            modified: "SystemTime { tv_sec: 1, tv_nsec: 0 }".to_string(),
        },
        FileInfo {
            path: "C.md".to_string(),
            word_count: 0,
            link_count: 0,
            tag_count: 0,
            modified: "unknown".to_string(),
        },
    ]);
    let info = file_info(&note("n.md", "#a #a [[x]] [[x|y]] [[z]] word"));
    assert_eq!((info.word_count, info.link_count, info.tag_count), (6, 3, 2));
}

#[test]
fn stats_count_notes_tags_links_and_orphans() {
    let stats = calculate_stats(&large_vault());
    assert_eq!(
        stats,
        StatsOutput {
            total_notes: 6,
            total_tags: 3,
            total_links: 9,
            broken_links: 4,
            orphaned_notes: 2,
        }
    );
    assert!(stats.broken_links <= stats.total_links);
    assert!(stats.orphaned_notes <= stats.total_notes);
    assert_eq!(
        calculate_stats(&Vec::new()),
        StatsOutput {
            total_notes: 0,
            total_tags: 0,
            total_links: 0,
            broken_links: 0,
            orphaned_notes: 0,
        }
    );
    assert_eq!(count_broken(&vec![link("a", "b", false), link("a", "c", true)]), 1);
}

#[test]
fn total_tags_counts_tags_not_occurrences() {
    let vault = vec![note("a.md", "#x #x #x"), note("b.md", "#x #y")];
    let stats = calculate_stats(&vault);
    assert_eq!(stats.total_tags, 2);
    assert_eq!(collect_all_tags(&vault), vec![count("x", 4), count("y", 1)]);
}

#[test]
fn rerun_gives_the_same_reports() {
    let vault = large_vault();
    assert_eq!(collect_all_tags(&vault), collect_all_tags(&vault));
    assert_eq!(collect_all_files(&vault), collect_all_files(&vault));
    assert_eq!(collect_all_links(&vault), collect_all_links(&vault));
    assert_eq!(find_orphans(&vault), find_orphans(&vault));
    assert_eq!(find_notes_with_tag(&vault, "hub"), find_notes_with_tag(&vault, "hub"));
    assert_eq!(find_backlinks(&vault, "Note"), find_backlinks(&vault, "Note"));
    assert_eq!(calculate_stats(&vault), calculate_stats(&vault));
}

#[test]
fn notes_are_the_files_with_extension_md() {
    let names = [
        "a.md", "Note.md", "a.b.md", "..md", "a..md", "my note.md", "é.md", ".md", "md", "a.MD",
        "a.Md", "a.mdx", "a.md ", "a.md.txt", "a.txt", "a.", "a", "", ".", "..", ".hidden",
        ".hidden.md", "amd", "a_md",
    ];
    for name in names {
        let expected = Path::new(name).extension().map_or(false, |ext| ext == "md");
        assert_eq!(is_markdown_name(name), expected, "{:?}", name);
    }
    assert!(is_markdown_name("Note.md"));
    assert!(!is_markdown_name(".md"));
    assert!(!is_markdown_name("Note.markdown"));
}
