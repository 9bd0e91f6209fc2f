use peek_api::json::{json_string, JsonField, JsonValue};
use peek_api::listing::sort_listing;
use peek_api::repo_map::{
    agent_file_dirs, agent_guidance_candidates, collect_agent_files, collect_existing_paths,
    collect_hook_files, collect_top_level_dirs, crate_tree, display_path, hook_file_dirs,
    repo_map_document, repo_map_text, to_slash_path,
};
use peek_api::tree::{tree_from_paths, PathTree};
use peek_api::workspace::{
    collect_directory_tree, crate_name_from_manifest, parse_workspace_members, skeletonize_directory,
};

fn get<'a>(value: &'a JsonValue, key: &str) -> &'a JsonValue {
    match value {
        JsonValue::Object(fields) => {
            &fields
                .iter()
                .find(|f: &&JsonField| f.key == key)
                .expect("field present")
                .value
        }
        _ => panic!("not an object"),
    }
}

fn has(value: &JsonValue, key: &str) -> bool {
    match value {
        JsonValue::Object(fields) => fields.iter().any(|f| f.key == key),
        _ => false,
    }
}

fn text(value: &JsonValue) -> &str {
    match value {
        JsonValue::Str(s) => s.as_str(),
        _ => panic!("not a string"),
    }
}

fn keys(value: &JsonValue) -> Vec<&str> {
    match value {
        JsonValue::Object(fields) => fields.iter().map(|f| f.key.as_str()).collect(),
        _ => panic!("not an object"),
    }
}

fn flatten<'a>(value: &'a JsonValue, out: &mut Vec<&'a JsonValue>) {
    out.push(value);
    if has(value, "children") {
        if let JsonValue::Array(items) = get(value, "children") {
            for child in items {
                flatten(child, out);
            }
        }
    }
}

fn strings(items: &[&str]) -> Vec<String> {
    items.iter().map(|s| s.to_string()).collect()
}

#[test]
fn repo_map_document_describes_the_workspace() {
    let manifest = "[workspace]\nresolver = \"2\"\nmembers = [\n  \"memory-api/tools/cli/peek-cli\",\n  \"viewer-api/viewer-api\",\n]\n";
    let members = parse_workspace_members(manifest);
    assert_eq!(members, strings(&["memory-api/tools/cli/peek-cli", "viewer-api/viewer-api"]));
    let names = vec![
        crate_name_from_manifest("[package]\nname = \"peek-cli\"\nversion = \"0.1.0\"\n"),
        crate_name_from_manifest("[package]\nname = \"viewer-api\"\nversion = \"0.1.0\"\n"),
    ];
    let crates = crate_tree(&members, &names);

    let top = collect_top_level_dirs(&vec![
        ("viewer-api".to_string(), true),
        (".agents".to_string(), true),
        ("AGENTS.md".to_string(), false),
        ("target".to_string(), true),
        ("memory-api".to_string(), true),
    ]);
    assert_eq!(top, strings(&["memory-api", "viewer-api"]));

    let guidance = collect_existing_paths(&vec![
        ("AGENTS.md".to_string(), true),
        (".agents/instructions/token-efficiency.instructions.md".to_string(), true),
    ]);
    let agent_files = collect_agent_files(&vec![
        (".agents/prompts/implement.prompt.md".to_string(), true),
        (".agents/instructions/token-efficiency.instructions.md".to_string(), true),
    ]);
    assert_eq!(
        agent_files,
        strings(&[
            ".agents/instructions/token-efficiency.instructions.md",
            ".agents/prompts/implement.prompt.md"
        ])
    );
    let hooks = collect_hook_files(&vec![(".githooks/pre-commit".to_string(), true)]);

    let doc = repo_map_document(
        "C:\\work\\repo",
        &top,
        &crates,
        &tree_from_paths(&guidance),
        &tree_from_paths(&agent_files),
        &tree_from_paths(&hooks),
    );
    assert_eq!(
        keys(&doc),
        vec![
            "format",
            "description",
            "usage",
            "refresh_command",
            "workspace",
            "top_level_dirs",
            "crates",
            "agent_guidance",
            "agent_files",
            "hooks",
            "key_tools",
            "bounded_inspection_pattern"
        ]
    );
    assert_eq!(text(get(&doc, "format")), "repo_map_toon_v1");
    assert_eq!(
        text(get(&doc, "refresh_command")),
        "cargo run -p peek-cli -- . --repo-map --output repo_map.toon"
    );
    assert_eq!(text(get(get(&doc, "workspace"), "root")), "C:/work/repo");
    assert_eq!(text(get(get(&doc, "crates"), "name")), "crates");
    match get(&doc, "top_level_dirs") {
        JsonValue::Array(items) => assert_eq!(items.len(), 2),
        _ => panic!("top_level_dirs is an array"),
    }

    let mut nodes = Vec::new();
    flatten(get(&doc, "crates"), &mut nodes);
    let noted: Vec<_> = nodes
        .iter()
        .filter(|n| has(n, "note") && text(get(n, "note")) == "crate=peek-cli")
        .collect();
    assert_eq!(noted.len(), 1);
    assert_eq!(text(get(noted[0], "path")), "crates/memory-api/tools/cli/peek-cli");
    let crate_notes = nodes
        .iter()
        .filter(|n| has(n, "note") && text(get(n, "note")).contains("crate="))
        .count();
    assert_eq!(crate_notes, 2);

    let mut hook_nodes = Vec::new();
    flatten(get(&doc, "hooks"), &mut hook_nodes);
    let files: Vec<_> = hook_nodes
        .iter()
        .filter(|n| text(get(n, "kind")) == "file")
        .map(|n| text(get(n, "path")))
        .collect();
    assert_eq!(files, vec!["hooks/.githooks/pre-commit"]);

    match get(&doc, "bounded_inspection_pattern") {
        JsonValue::Array(items) => {
            assert_eq!(items.len(), 4);
            assert_eq!(
                text(&items[3]),
                "peek . --repo-map --output repo_map.toon  # refresh structural map"
            );
        }
        _ => panic!("pattern is an array"),
    }
    match get(&doc, "key_tools") {
        JsonValue::Array(items) => {
            assert_eq!(items.len(), 4);
            assert_eq!(text(get(&items[2], "path")), "target/debug/peek");
        }
        _ => panic!("key_tools is an array"),
    }
}

#[test]
fn crate_tree_notes_members_with_known_names() {
    let members = strings(&["a/b", "a", "c"]);
    let names = vec![Some("bee".to_string()), None, Some("sea".to_string())];
    let tree = crate_tree(&members, &names);
    let lines = peek_api::tree::render_tree_lines(&tree, 0);
    assert_eq!(lines, strings(&["a/", "  b/  crate=bee", "c/  crate=sea"]));
}

#[test]
fn listed_files_keep_only_files_sorted() {
    let listing = vec![
        (".agents/prompts\\implement.prompt.md".to_string(), true),
        (".agents/prompts/drafts".to_string(), false),
        (".agents/skills/a.SKILL.md".to_string(), true),
    ];
    assert_eq!(
        collect_agent_files(&listing),
        strings(&[".agents/prompts/implement.prompt.md", ".agents/skills/a.SKILL.md"])
    );
    assert_eq!(
        collect_hook_files(&vec![
            (".github/hooks/hooks.json".to_string(), true),
            (".github/hooks/old".to_string(), false),
        ]),
        strings(&[".github/hooks/hooks.json"])
    );
    assert!(collect_hook_files(&Vec::new()).is_empty());
    assert_eq!(
        collect_hook_files(&vec![
            (".github/hooks/a.sh".to_string(), true),
            (".githooks/pre-push".to_string(), true),
            (".githooks/pre-commit".to_string(), true),
        ]),
        strings(&[".githooks/pre-commit", ".githooks/pre-push", ".github/hooks/a.sh"])
    );
    assert_eq!(
        collect_top_level_dirs(&vec![
            ("b".to_string(), true),
            ("B".to_string(), true),
            ("a".to_string(), true),
            ("_x".to_string(), true),
        ]),
        strings(&["B", "_x", "a", "b"])
    );
}

#[test]
fn fixed_directory_lists() {
    assert_eq!(
        agent_guidance_candidates(),
        strings(&["AGENTS.md", ".agents/instructions/token-efficiency.instructions.md"])
    );
    assert_eq!(
        agent_file_dirs(),
        strings(&[".agents/instructions", ".agents/prompts", ".agents/skills"])
    );
    assert_eq!(hook_file_dirs(), strings(&[".githooks", ".github/hooks"]));
}

#[test]
fn paths_are_shown_with_forward_slashes() {
    assert_eq!(display_path("C:\\repo\\root"), "C:/repo/root");
    assert_eq!(to_slash_path("a\\b/c"), "a/b/c");
    assert_eq!(to_slash_path(""), "");
}

#[test]
fn directory_walk_collects_structural_entries() {
    // The walk of `workspace/` in name order, as a file system would present it.
    let mut tree = PathTree::new();
    let walk: Vec<(&str, &str, bool, bool)> = vec![
        (".agents", ".agents", true, true),
        (".agents/instructions", "instructions", true, true),
        (
            ".agents/instructions/token-efficiency.instructions.md",
            "token-efficiency.instructions.md",
            false,
            false,
        ),
        (".git", ".git", true, false),
        ("README.md", "README.md", false, false),
        ("memory-api", "memory-api", true, true),
        ("memory-api/tools", "tools", true, true),
        ("memory-api/tools/cli", "cli", true, true),
        ("memory-api/tools/cli/peek-cli", "peek-cli", true, true),
        ("memory-api/tools/cli/peek-cli/Cargo.toml", "Cargo.toml", false, false),
        ("memory-api/tools/cli/peek-cli/main.rs", "main.rs", false, false),
        ("target", "target", true, false),
    ];
    for (relative, name, is_dir, descends) in walk {
        assert_eq!(collect_directory_tree(&mut tree, relative, name, is_dir), descends);
    }
    let rendered = skeletonize_directory("C:/src/workspace", &tree);
    assert_eq!(
        rendered,
        "workspace/\n  .agents/\n    instructions/\n      token-efficiency.instructions.md\n  README.md\n  memory-api/\n    tools/\n      cli/\n        peek-cli/\n          Cargo.toml\n"
    );
    let matching = rendered.lines().filter(|line| line.contains("peek-cli")).count();
    assert_eq!(matching, 1);
}

#[test]
fn json_text_escapes_strings_and_keeps_field_order() {
    let doc = JsonValue::Object(vec![
        JsonField { key: "z".to_string(), value: JsonValue::Str("a\"b\\c\nd\u{1}".to_string()) },
        JsonField {
            key: "a".to_string(),
            value: JsonValue::Array(vec![
                JsonValue::Str("x".to_string()),
                JsonValue::Array(Vec::new()),
                JsonValue::Object(Vec::new()),
            ]),
        },
    ]);
    let text = json_string(&doc);
    assert_eq!(text, "{\"z\":\"a\\\"b\\\\c\\u000ad\\u0001\",\"a\":[\"x\",[],{}]}");
    let parsed: serde_json::Value = serde_json::from_str(&text).expect("valid JSON");
    assert_eq!(parsed["z"], "a\"b\\c\nd\u{1}");
    assert_eq!(parsed["a"][0], "x");
}

#[test]
fn repo_map_text_is_toon_of_the_document() {
    let members = strings(&["memory-api/tools/cli/peek-cli"]);
    let names = vec![Some("peek-cli".to_string())];
    let crates = crate_tree(&members, &names);
    let empty = PathTree::new();
    let hooks = tree_from_paths(&strings(&[".githooks/pre-commit"]));
    let text = repo_map_text("/work/repo", &strings(&["memory-api"]), &crates, &empty, &empty, &hooks)
        .expect("encodes");
    let parsed: serde_json::Value = toon_format::decode_default(&text).expect("decodes as TOON");
    assert_eq!(parsed["format"], "repo_map_toon_v1");
    assert_eq!(parsed["workspace"]["root"], "/work/repo");
    assert_eq!(
        parsed["refresh_command"],
        "cargo run -p peek-cli -- . --repo-map --output repo_map.toon"
    );
    assert_eq!(parsed["crates"]["name"], "crates");
    assert_eq!(parsed["top_level_dirs"][0], "memory-api");
    let node = &parsed["crates"]["children"][0]["children"][0]["children"][0]["children"][0];
    assert_eq!(node["path"], "crates/memory-api/tools/cli/peek-cli");
    assert_eq!(node["note"], "crate=peek-cli");
    assert_eq!(parsed["hooks"]["children"][0]["children"][0]["kind"], "file");
    let expected = toon_format::encode_default(
        &serde_json::from_str::<serde_json::Value>(&json_string(&repo_map_document(
            "/work/repo",
            &strings(&["memory-api"]),
            &crates,
            &empty,
            &empty,
            &hooks,
        )))
        .unwrap(),
    )
    .unwrap();
    assert_eq!(text, expected);
}

#[test]
fn listings_sort_by_name_stably() {
    let listing = vec![
        ("b".to_string(), true),
        ("a".to_string(), false),
        ("b".to_string(), false),
        ("A".to_string(), true),
        ("ab".to_string(), true),
    ];
    assert_eq!(
        sort_listing(&listing),
        vec![
            ("A".to_string(), true),
            ("a".to_string(), false),
            ("ab".to_string(), true),
            ("b".to_string(), true),
            ("b".to_string(), false),
        ]
    );
    assert!(sort_listing(&Vec::new()).is_empty());
}
