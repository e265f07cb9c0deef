use mdbook_iced::compiler::{Compiler, Iceberg, Job, LIBRARY};
use mdbook_iced::is_supported;
use mdbook_iced::reference::{ConfigError, Reference};
use mdbook_iced::text::{split, split_lines};
use mdbook_iced::text::{decimal_string, hex_string, join};

use sha2::Digest;
use std::collections::BTreeSet;
use std::path::PathBuf;

fn compiler(reference: Reference) -> Compiler {
    Compiler::set_up(&PathBuf::from("/book"), &reference)
}

fn expected_hash(source: &str, environment: u64) -> String {
    sha2::Sha256::digest(format!("{source}{environment}").as_bytes())
        .iter()
        .map(|byte| format!("{byte:02x}"))
        .collect()
}

fn hashes(icebergs: &[Iceberg]) -> BTreeSet<String> {
    icebergs.iter().map(|i| i.hash().as_str().to_string()).collect()
}

#[test]
fn supports_only_html() {
    assert!(is_supported("html"));
    assert!(!is_supported("markdown"));
    assert!(!is_supported("htm"));
    assert!(!is_supported(""));
}

#[test]
fn decimal_and_hex_rendering() {
    assert_eq!(decimal_string(0), "0");
    assert_eq!(decimal_string(1234), "1234");
    assert_eq!(decimal_string(u64::MAX), u64::MAX.to_string());
    assert_eq!(hex_string(&vec![0x0a, 0xff, 0x10, 0x00]), "0aff1000");
    assert_eq!(hex_string(&vec![]), "");
}

#[test]
fn join_puts_single_newlines_between_lines() {
    assert_eq!(join(&vec!["a".to_string(), "b".to_string()]), "a\nb");
    assert_eq!(join(&vec![]), "");
    assert_eq!(split_lines("a\r\nb\n\nc\r"), vec!["a", "b", "", "c\r"]);
    assert_eq!(split_lines("\n"), vec![""]);
    assert!(split_lines("").is_empty());
    assert_eq!(split("a,b,", ','), vec!["a", "b", ""]);
}

#[test]
fn normalize_strips_hidden_markers() {
    assert_eq!(
        Compiler::normalize("# use iced::Task;\nfn main() {}\n"),
        "use iced::Task;\nfn main() {}"
    );
    assert_eq!(Compiler::normalize("a\r\nb\n"), "a\nb");
    assert_eq!(Compiler::normalize("#not hidden\n## twice"), "#not hidden\n## twice");
    assert_eq!(Compiler::normalize("# # twice"), "# twice");
    assert_eq!(Compiler::normalize(""), "");
}

#[test]
fn hidden_lines_hash_like_plain_ones() {
    let c = compiler(Reference::Tag("0.13".to_string()));
    let marked = "# use iced::widget;\nfn main() {}\n# // end";
    let plain = "use iced::widget;\nfn main() {}\n// end";

    assert_eq!(Compiler::normalize(marked), Compiler::normalize(plain));
    assert_eq!(c.iceberg(marked), c.iceberg(plain));
}

#[test]
fn iceberg_is_the_digest_of_source_and_environment() {
    let c = compiler(Reference::Revision("abc".to_string()));
    let iceberg = c.iceberg("# use a;\nfn main() {}\n");

    assert_eq!(
        iceberg.hash().as_str(),
        expected_hash("use a;\nfn main() {}", c.environment())
    );
    assert_eq!(iceberg.hash().as_str().len(), 64);
}

#[test]
fn compiling_twice_builds_once() {
    let c = compiler(Reference::Branch("master".to_string()));
    let code = "fn main() {}";

    let first = match c.compile(code, &vec!["other".to_string()]) {
        Job::Build(iceberg, source) => {
            assert_eq!(source, "fn main() {}");
            iceberg
        }
        Job::Reuse(_) => panic!("an empty store cannot hold the artifact"),
    };

    let store = vec!["other".to_string(), first.hash().as_str().to_string()];

    match c.compile(code, &store) {
        Job::Reuse(iceberg) => assert_eq!(iceberg, first),
        Job::Build(..) => panic!("the stored artifact must be reused"),
    }
}

#[test]
fn another_reference_gives_another_iceberg() {
    let by_rev = compiler(Reference::Revision("abc".to_string()));
    let by_branch = compiler(Reference::Branch("abc".to_string()));
    let by_other_rev = compiler(Reference::Revision("abd".to_string()));

    assert_ne!(by_rev.manifest(), by_branch.manifest());
    assert_ne!(by_rev.iceberg("fn main() {}"), by_branch.iceberg("fn main() {}"));
    assert_ne!(by_rev.iceberg("fn main() {}"), by_other_rev.iceberg("fn main() {}"));
    assert_eq!(
        by_rev.iceberg("fn main() {}"),
        compiler(Reference::Revision("abc".to_string())).iceberg("fn main() {}")
    );
}

#[test]
fn manifest_pins_the_reference() {
    let c = compiler(Reference::Tag("v1".to_string()));
    assert!(c.manifest().contains("\ntag = \"v1\"\n"));
    assert_eq!(Reference::Revision("r".to_string()).pin(), "rev = \"r\"");
    assert_eq!(Reference::Branch("b".to_string()).pin(), "branch = \"b\"");
    assert!(c.build_dir().ends_with("target/icebergs"));
    assert!(c.source_dir().ends_with("target/icebergs/src"));
    assert!(c.artifacts_dir().ends_with("target/icebergs/target/mdbook"));
}

#[test]
fn parse_prefers_rev_then_branch_then_tag() {
    let mut table = toml::value::Table::new();
    assert_eq!(Reference::parse(&table), Err(ConfigError::MissingReference));
    assert!(!ConfigError::MissingReference.message().is_empty());

    table.insert("tag".to_string(), toml::Value::String("t".to_string()));
    assert_eq!(Reference::parse(&table), Ok(Reference::Tag("t".to_string())));

    table.insert("branch".to_string(), toml::Value::String("b".to_string()));
    assert_eq!(Reference::parse(&table), Ok(Reference::Branch("b".to_string())));

    table.insert("rev".to_string(), toml::Value::Integer(3));
    assert_eq!(Reference::parse(&table), Ok(Reference::Branch("b".to_string())));

    table.insert("rev".to_string(), toml::Value::String("r".to_string()));
    assert_eq!(Reference::parse(&table), Ok(Reference::Revision("r".to_string())));
}

#[test]
fn embed_fills_hash_id_and_height() {
    let iceberg = Iceberg::from_hash("abc".to_string());
    assert_eq!(
        iceberg.embed(7, None),
        "<div class=\"iceberg\" data-hash=\"abc\" id=\"iceberg-7\" style=\"height: 200px\"></div>"
    );
    assert_eq!(
        iceberg.embed(12, Some("300px")),
        "<div class=\"iceberg\" data-hash=\"abc\" id=\"iceberg-12\" style=\"height: 300px\"></div>"
    );
    assert!(LIBRARY.starts_with("<script"));
}

#[test]
fn retain_removes_what_is_not_live() {
    let c = compiler(Reference::Tag("t".to_string()));
    let live = vec![Iceberg::from_hash("a".to_string()), Iceberg::from_hash("c".to_string())];
    let entries = vec!["a".to_string(), "b".to_string(), "c".to_string(), "d".to_string()];

    assert_eq!(c.retain(&live, &entries), vec!["b", "d"]);
    assert!(c.retain(&live, &vec![]).is_empty());
    assert_eq!(c.retain(&vec![], &entries), entries);
}

#[test]
fn release_leaves_exactly_the_live_set_and_is_idempotent() {
    let c = compiler(Reference::Tag("t".to_string()));
    let live = vec![Iceberg::from_hash("a".to_string()), Iceberg::from_hash("b".to_string())];
    let entries = vec!["b".to_string(), "x".to_string(), "y".to_string()];

    let plan = c.release(&live, &entries);
    assert_eq!(plan.remove, vec!["x", "y"]);
    assert_eq!(hashes(&plan.copy), BTreeSet::from(["a".to_string()]));

    let after: Vec<String> = entries
        .iter()
        .filter(|e| !plan.remove.contains(e))
        .cloned()
        .chain(plan.copy.iter().map(|i| i.hash().as_str().to_string()))
        .collect();
    assert_eq!(after.iter().cloned().collect::<BTreeSet<_>>(), hashes(&live));

    let again = c.release(&live, &after);
    assert!(again.remove.is_empty());
    assert!(again.copy.is_empty());
}

#[test]
fn release_copies_a_repeated_handle_once() {
    let c = compiler(Reference::Tag("t".to_string()));
    let live = vec![
        Iceberg::from_hash("a".to_string()),
        Iceberg::from_hash("a".to_string()),
        Iceberg::from_hash("b".to_string()),
    ];

    let plan = c.release(&live, &vec!["b".to_string()]);
    assert!(plan.remove.is_empty());
    assert_eq!(plan.copy, vec![Iceberg::from_hash("a".to_string())]);
}

#[test]
fn set_up_twice_gives_the_same_environment() {
    let a = compiler(Reference::Revision("abc".to_string()));
    let b = compiler(Reference::Revision("abc".to_string()));

    assert_eq!(a.build_dir(), b.build_dir());
    assert_eq!(a.source_dir(), b.source_dir());
    assert_eq!(a.artifacts_dir(), b.artifacts_dir());
    assert_eq!(a.manifest(), b.manifest());
    assert_eq!(a.environment(), b.environment());
    assert_eq!(a.source_dir(), &PathBuf::from("/book/target/icebergs/src"));
}
