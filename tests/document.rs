use mdbook_iced::compiler::{Iceberg, LIBRARY};
use mdbook_iced::document::{chapter_blocks, process_chapter, Node};
use mdbook_iced::label::{eligible, has_prefix, height};

const THREE: &str = "# Examples\n\n```rust,iced\nfn one() {}\n```\n\nText.\n\n```rust,iced(height=300px)\nfn two() {}\n```\n\n```rust,iced\nfn three() {}\n```\n";

fn handle(name: &str) -> Iceberg {
    Iceberg::from_hash(name.to_string())
}

#[test]
fn labels_opt_in_with_an_iced_modifier() {
    assert!(eligible("rust,iced"));
    assert!(eligible("rust,no_run,iced(height=300px)"));
    assert!(!eligible("rust"));
    assert!(!eligible("python,iced"));
    assert!(!eligible(""));
    assert!(has_prefix("rust,iced", "rust"));
    assert!(!has_prefix("ru", "rust"));
}

#[test]
fn heights_come_from_the_first_iced_modifier() {
    assert_eq!(height("rust,iced(height=300px)"), Some("300px".to_string()));
    assert_eq!(height("rust,iced(width=2 height=40em)"), Some("40em".to_string()));
    assert_eq!(height("rust,iced"), None);
    assert_eq!(height("rust,iced(foo)"), None);
    assert_eq!(height("rust,iced(height=1px,iced(height=2px)"), None);
    assert_eq!(height("rust,iced(height=)"), Some(String::new()));
}

#[test]
fn blocks_are_found_with_their_source_and_height() {
    let chapter = chapter_blocks(THREE);
    let blocks: Vec<(String, Option<String>)> = chapter
        .blocks
        .iter()
        .map(|b| (b.code.clone(), b.height.clone()))
        .collect();

    assert_eq!(
        blocks,
        vec![
            ("\nfn one() {}\n".to_string(), None),
            ("\nfn two() {}\n".to_string(), Some("300px".to_string())),
            ("\nfn three() {}\n".to_string(), None),
        ]
    );
    assert!(chapter.nodes.iter().any(|n| matches!(n, Node::CodeEnd)));
}

#[test]
fn three_blocks_get_one_bootstrap_and_three_embeds() {
    let chapter = chapter_blocks(THREE);
    let results = vec![Some(handle("a1")), Some(handle("b2")), Some(handle("c3"))];
    let processed = match process_chapter(chapter.nodes, &results, 5) {
        Ok(p) => p,
        Err(e) => panic!("{e:?}"),
    };

    assert_eq!(processed.content.matches(LIBRARY).count(), 1);
    assert_eq!(processed.content.matches("class=\"iceberg\"").count(), 3);
    assert!(processed.content.contains(&handle("a1").embed(5, None)));
    assert!(processed.content.contains(&handle("b2").embed(6, Some("300px"))));
    assert!(processed.content.contains(&handle("c3").embed(7, None)));
    assert!(processed.content.find(LIBRARY) < processed.content.find("class=\"iceberg\""));
    assert_eq!(processed.next_id, 8);
    assert_eq!(processed.icebergs, vec![handle("a1"), handle("b2"), handle("c3")]);
}

#[test]
fn a_failed_block_keeps_its_code_and_does_not_stop_the_next() {
    let text = "```rust,iced\nbroken(\n```\n\n```rust,iced\nfn main() {}\n```\n";
    let chapter = chapter_blocks(text);
    assert_eq!(chapter.blocks.len(), 2);

    let results = vec![None, Some(handle("ok"))];
    let processed = process_chapter(chapter.nodes, &results, 0).unwrap();

    assert!(processed.content.contains("broken("));
    assert!(processed.content.contains("fn main() {}"));
    assert_eq!(processed.content.matches("class=\"iceberg\"").count(), 1);
    assert!(processed.content.contains(&handle("ok").embed(0, None)));
    assert_eq!(processed.content.matches(LIBRARY).count(), 1);
    assert_eq!(processed.icebergs, vec![handle("ok")]);
    assert_eq!(processed.next_id, 1);
}

#[test]
fn no_result_means_no_bootstrap() {
    let chapter = chapter_blocks("```rust,iced\nfn main() {}\n```\n");
    let processed = process_chapter(chapter.nodes, &vec![None], 0).unwrap();

    assert!(!processed.content.contains(LIBRARY));
    assert!(processed.icebergs.is_empty());
    assert_eq!(processed.next_id, 0);
}

#[test]
fn a_chapter_without_eligible_blocks_passes_through() {
    let text = "# Title\n\nSome *text*.\n\n```rust\nfn main() {}\n```\n\n    indented\n";
    let chapter = chapter_blocks(text);
    assert!(chapter.blocks.is_empty());

    let processed = process_chapter(chapter.nodes, &vec![], 3).unwrap();
    assert!(processed.icebergs.is_empty());
    assert_eq!(processed.next_id, 3);
    assert!(processed.content.contains("fn main() {}"));
    assert!(!processed.content.contains("iceberg"));

    let again = process_chapter(chapter_blocks(&processed.content).nodes, &vec![], 3).unwrap();
    assert_eq!(again.content, processed.content);
}

#[test]
fn an_empty_block_is_still_offered_for_compilation() {
    let chapter = chapter_blocks("```rust,iced\n```\n");
    assert_eq!(chapter.blocks.len(), 1);
    assert_eq!(chapter.blocks[0].code, "");
}
