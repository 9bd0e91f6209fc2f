use peek_api::json::{JsonField, JsonValue};
use peek_api::skeleton::{
    is_structural_rust_line, skeletonize, skeletonize_for_extension, skeletonize_generic,
    skeletonize_python, skeletonize_rust,
};
use peek_api::text::{split_lines, to_slash};
use peek_api::tree::{
    insert_tree_path, render_tree_lines, tree_from_paths, tree_to_value, PathTree,
};
use peek_api::workspace::{
    crate_name_from_manifest, extract_quoted_strings, lists_structural_file,
    parse_workspace_members, should_include_structural_file, should_skip_directory_entry,
};

fn lines_of(text: &str) -> Vec<String> {
    text.lines().map(String::from).collect()
}

#[test]
fn structural_rust_lines() {
    assert!(is_structural_rust_line(""));
    assert!(is_structural_rust_line("pub fn main() {"));
    assert!(is_structural_rust_line("#[derive(Debug)]"));
    assert!(is_structural_rust_line("impl Foo {"));
    assert!(!is_structural_rust_line("let x = 1;"));
    assert!(!is_structural_rust_line("function()"));
}

#[test]
fn rust_skeleton_collapses_function_bodies() {
    let src = "use std::io;\n\npub fn main() {\n    let x = 1;\n    if x > 0 {\n        println!();\n    }\n}\n\nstruct A {\n    b: u8,\n}\n";
    let lines = lines_of(src);
    let out = skeletonize_rust(&lines);
    assert_eq!(
        out,
        "     1 use std::io;\n     2 \n     3 pub fn main() {\n       // ...\n     9 \n    10 struct A {\n       // ...\n"
    );
}

#[test]
fn rust_skeleton_keeps_method_signatures() {
    let lines = lines_of("impl Foo {\n    pub fn bar(&self) -> u32 {\n        1\n    }\n}\n");
    let out = skeletonize_rust(&lines);
    assert_eq!(
        out,
        "     1 impl Foo {\n     2     pub fn bar(&self) -> u32 {\n       // ...\n"
    );
    let src = "pub mod a {\n    /// Docs.\n    pub trait T {\n        fn f(&self);\n        fn g(&self) {\n            let x = 1;\n        }\n    }\n}\nfn h() {}\n";
    let out = skeletonize_rust(&lines_of(src));
    assert_eq!(
        out,
        "     1 pub mod a {\n     2     /// Docs.\n     3     pub trait T {\n     4         fn f(&self);\n     5         fn g(&self) {\n       // ...\n    10 fn h() {}\n"
    );
}

#[test]
fn rust_skeleton_keeps_one_line_items() {
    let lines = lines_of("fn a() {}\nfn b() -> u8 { 1 }\n");
    let out = skeletonize_rust(&lines);
    assert_eq!(out, "     1 fn a() {}\n     2 fn b() -> u8 { 1 }\n");
}

#[test]
fn python_skeleton_collapses_definitions() {
    let src = "import os\n\nclass A:\n    def f(self):\n        return 1\n\ndef g():\n    pass\nx = 1\n";
    let lines = lines_of(src);
    let out = skeletonize_python(&lines);
    assert_eq!(
        out,
        "     1 import os\n     2 \n     3 class A:\n     4     def f(self):\n       # ...\n     6 \n     7 def g():\n       # ...\n     9 x = 1\n"
    );
}

#[test]
fn python_indent_counts_bytes() {
    // A no-break space is two bytes of indentation, deeper than one space.
    let src = "def f():\n\u{a0}body\n x\nz\n";
    let lines = lines_of(src);
    let out = skeletonize_python(&lines);
    assert_eq!(out, "     1 def f():\n       # ...\n     4 z\n");
}

#[test]
fn generic_skeleton_replaces_indented_runs() {
    let lines = lines_of("key:\n  a: 1\n  b: 2\n\nother:\n\tc\n");
    let out = skeletonize_generic(&lines);
    assert_eq!(
        out,
        "     1 key:\n       // ...\n     4 \n     5 other:\n       // ...\n"
    );
}

#[test]
fn skeleton_picks_language_by_extension() {
    let lines = lines_of("def f():\n    pass\n");
    let py = skeletonize("dir/script.PY", &lines).unwrap();
    assert_eq!(py, skeletonize_python(&lines));
    let other = skeletonize("notes.txt", &lines).unwrap();
    assert_eq!(other, skeletonize_generic(&lines));
    let none = skeletonize("Makefile", &lines).unwrap();
    assert_eq!(none, skeletonize_generic(&lines));
    let rs = skeletonize("src/lib.rs", &lines).unwrap();
    assert_eq!(rs, skeletonize_rust(&lines));
    assert_eq!(skeletonize_for_extension("rs", &lines), skeletonize_rust(&lines));
}

#[test]
fn split_lines_follows_str_lines() {
    let texts = ["", "a", "a\n", "a\r\nb", "a\n\nb\r\n", "x\r", "\n\n"];
    for text in texts {
        let ours: Vec<String> = split_lines(text)
            .into_iter()
            .map(|chars| chars.into_iter().collect())
            .collect();
        let std_lines: Vec<String> = text.lines().map(String::from).collect();
        assert_eq!(ours, std_lines, "text {text:?}");
    }
}

#[test]
fn slashes_replace_backslashes() {
    assert_eq!(to_slash("a\\b\\c.md"), "a/b/c.md");
    assert_eq!(to_slash("plain"), "plain");
}

#[test]
fn quoted_strings_are_extracted() {
    assert_eq!(
        extract_quoted_strings(r#"members = ["a", "", "b/c", "unterminated"#),
        vec!["a".to_string(), "b/c".to_string(), "unterminated".to_string()]
    );
    assert!(extract_quoted_strings("no quotes").is_empty());
}

#[test]
fn workspace_members_single_and_multi_line() {
    let multi = "[workspace]\nresolver = \"2\"\nmembers = [\n  \"memory-api/tools/cli/peek-cli\",\n  \"viewer-api/viewer-api\",\n]\n";
    assert_eq!(
        parse_workspace_members(multi),
        vec![
            "memory-api/tools/cli/peek-cli".to_string(),
            "viewer-api/viewer-api".to_string()
        ]
    );
    let single = "[workspace]\nmembers = [\"a\", \"b\"]\nexclude = [\"c\"]\n";
    assert_eq!(parse_workspace_members(single), vec!["a".to_string(), "b".to_string()]);
    assert!(parse_workspace_members("[package]\nname = \"x\"\n").is_empty());
}

#[test]
fn crate_names_come_from_the_first_name_line() {
    let manifest = "[package]\nname = \"peek-cli\"\nversion = \"0.1.0\"\n";
    assert_eq!(crate_name_from_manifest(manifest), Some("peek-cli".to_string()));
    assert_eq!(crate_name_from_manifest("[package]\nname = \"\"\n"), None);
    assert_eq!(crate_name_from_manifest("[workspace]\n"), None);
    assert_eq!(
        crate_name_from_manifest("  name =   \"spaced\"  \nname = \"second\"\n"),
        Some("spaced".to_string())
    );
}

#[test]
fn directory_entries_are_filtered() {
    assert!(should_skip_directory_entry("target", "target", true));
    assert!(should_skip_directory_entry(".git", ".git", true));
    assert!(should_skip_directory_entry(".cache", ".cache", true));
    assert!(!should_skip_directory_entry(".agents", ".agents", true));
    assert!(should_skip_directory_entry("docs/map.toon", "map.toon", false));
    assert!(!should_skip_directory_entry("repo_map.toon", "repo_map.toon", false));
    assert!(!should_skip_directory_entry("src", "src", true));

    assert!(should_include_structural_file("a/Cargo.toml"));
    assert!(should_include_structural_file("scripts/run.sh"));
    assert!(should_include_structural_file(".github/workflows/ci.yml"));
    assert!(should_include_structural_file("docs\\setup.prompt.md"));
    assert!(!should_include_structural_file("src/lib.rs"));
    assert!(!should_include_structural_file("src/Cargo.toml.bak"));
    assert!(!should_include_structural_file("Cargo.toml/.."));
    assert!(lists_structural_file("weird", Some("README.md")));
    assert!(lists_structural_file("hooks/x.yaml", Some("x.yaml")));
    assert!(!lists_structural_file("a.sh", None));
    assert!(!lists_structural_file("src/main.rs", Some("main.rs")));
}

#[test]
fn tree_lines_follow_sorted_depth_first_order() {
    let mut tree = PathTree::new();
    insert_tree_path(&mut tree, "b/x", None, true);
    insert_tree_path(&mut tree, "a", Some("note".to_string()), false);
    insert_tree_path(&mut tree, "b", None, false);
    insert_tree_path(&mut tree, "a/z", None, true);
    let lines = render_tree_lines(&tree, 1);
    assert_eq!(
        lines,
        vec![
            "  a/  note".to_string(),
            "    z".to_string(),
            "  b/".to_string(),
            "    x".to_string()
        ]
    );
}

#[test]
fn reinserting_a_path_overwrites_its_note() {
    let mut tree = PathTree::new();
    insert_tree_path(&mut tree, "a", Some("first".to_string()), false);
    insert_tree_path(&mut tree, "a/b", None, false);
    insert_tree_path(&mut tree, "a", Some("second".to_string()), true);
    let lines = render_tree_lines(&tree, 0);
    assert_eq!(lines, vec!["a  second".to_string(), "  b/".to_string()]);
}

fn field<'a>(value: &'a JsonValue, key: &str) -> &'a JsonValue {
    match value {
        JsonValue::Object(fields) => {
            &fields
                .iter()
                .find(|f: &&JsonField| f.key == key)
                .expect("field present")
                .value
        }
        _ => panic!("not an object"),
    }
}

fn text(value: &JsonValue) -> &str {
    match value {
        JsonValue::Str(s) => s.as_str(),
        _ => panic!("not a string"),
    }
}

#[test]
fn tree_values_nest_children_with_paths() {
    let tree = tree_from_paths(&vec![".agents/prompts/implement.prompt.md".to_string()]);
    let value = tree_to_value("agent-files", &tree, "agent-files");
    assert_eq!(text(field(&value, "name")), "agent-files");
    assert_eq!(text(field(&value, "kind")), "dir");
    let children = match field(&value, "children") {
        JsonValue::Array(items) => items,
        _ => panic!("children"),
    };
    assert_eq!(children.len(), 1);
    assert_eq!(text(field(&children[0], "path")), "agent-files/.agents");
    let prompts = match field(&children[0], "children") {
        JsonValue::Array(items) => &items[0],
        _ => panic!("children"),
    };
    let file = match field(prompts, "children") {
        JsonValue::Array(items) => &items[0],
        _ => panic!("children"),
    };
    assert_eq!(text(field(file, "kind")), "file");
    assert_eq!(
        text(field(file, "path")),
        "agent-files/.agents/prompts/implement.prompt.md"
    );
    match file {
        JsonValue::Object(fields) => assert!(fields.iter().all(|f| f.key != "children")),
        _ => panic!("object"),
    }
}
