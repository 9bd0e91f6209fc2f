//! The repository map: a compact JSON description of a workspace's crates,
//! agent files and hooks, and of the bounded-inspection workflow.
use vstd::prelude::*;

use crate::api::{PeekError, REPO_MAP_FILE};
use crate::toon::{encode_toon, toon_encodes, toon_of_json};
use crate::listing::{lemma_sort_by_name, names_ascend, pair_views, sort_by_name, sort_listing};
use crate::json::{
    field_models, item_models, json_str, json_str_array, json_string, json_text,
    lemma_item_models_push, push_field, JsonField, JsonModel, JsonValue,
};
use crate::text::{push_str, slashed, starts_with, string_from, to_slash};
use crate::tree::{
    has_path, insert_tree_path, opt_view, path_segments, str_lt, tree_model, tree_to_value, tree_wf,
    under_paths, PathTree,
};

verus! {

/// A path shown with forward slashes only.
pub fn display_path(path: &str) -> (r: String)
    ensures
        r@ == slashed(path@),
{
    to_slash(path)
}

/// A relative path shown with forward slashes only.
pub fn to_slash_path(path: &str) -> (r: String)
    ensures
        r@ == slashed(path@),
{
    to_slash(path)
}

/// The note attached to a workspace member whose crate is called `name`.
pub open spec fn member_note(name: Option<Seq<char>>) -> Option<Seq<char>> {
    match name {
        Some(n) => Some("crate="@ + n),
        None => None,
    }
}

/// The note of the last member listed at path `p`, if any.
pub open spec fn last_member_note(
    members: Seq<Seq<char>>,
    names: Seq<Option<Seq<char>>>,
    p: Seq<Seq<char>>,
) -> Option<Seq<char>>
    decreases members.len(),
{
    if members.len() == 0 {
        None
    } else if path_segments(members.last()) == p {
        member_note(names[members.len() - 1])
    } else {
        last_member_note(members.drop_last(), names, p)
    }
}

/// The views of optional strings.
pub open spec fn opt_views(v: Seq<Option<String>>) -> Seq<Option<Seq<char>>> {
    v.map_values(|o: Option<String>| opt_view(o))
}

/// The tree of workspace members: a directory per member path (and per
/// ancestor); a member's node is noted `crate=<name>` when its crate name is
/// known (the last listing of a path wins).
pub fn crate_tree(members: &Vec<String>, crate_names: &Vec<Option<String>>) -> (tree: PathTree)
    requires
        members.len() == crate_names.len(),
    ensures
        tree_wf(tree@),
        forall|p: Seq<Seq<char>>|
            #![trigger has_path(tree@, p)]
            has_path(tree@, p) <==> under_paths(members.deep_view(), p),
        forall|i: int|
            0 <= i < tree@.len() ==> (#[trigger] tree@[i]).1 == last_member_note(
                members.deep_view(),
                opt_views(crate_names@),
                tree@[i].0,
            ) && !tree@[i].2,
{
    let ghost mv = members.deep_view();
    let ghost nv = opt_views(crate_names@);
    let mut tree = PathTree::new();
    let mut k: usize = 0;
    while k < members.len()
        invariant
            k <= members.len(),
            members.len() == crate_names.len(),
            mv == members.deep_view(),
            nv == opt_views(crate_names@),
            tree_wf(tree@),
            forall|p: Seq<Seq<char>>|
                #![trigger has_path(tree@, p)]
                has_path(tree@, p) <==> under_paths(mv.take(k as int), p),
            forall|i: int|
                0 <= i < tree@.len() ==> (#[trigger] tree@[i]).1 == last_member_note(
                    mv.take(k as int),
                    nv,
                    tree@[i].0,
                ) && !tree@[i].2,
        decreases members.len() - k,
    {
        let note = match &crate_names[k] {
            Some(name) => {
                let mut text = string_from("crate=");
                push_str(&mut text, name.as_str());
                Some(text)
            },
            None => None,
        };
        assert(opt_view(note) == member_note(nv[k as int]));
        let ghost before = tree@;
        let ghost segs = path_segments(mv[k as int]);
        insert_tree_path(&mut tree, members[k].as_str(), note, false);
        proof {
            crate::tree::lemma_unique_paths(tree@);
            let next = mv.take(k + 1);
            assert(next.drop_last() == mv.take(k as int));
            assert(next.last() == mv[k as int]);
            assert forall|p: Seq<Seq<char>>|
                #![trigger has_path(tree@, p)]
                has_path(tree@, p) <==> under_paths(next, p) by {
                if under_paths(next, p) {
                    let j = choose|j: int|
                        0 <= j < next.len() && 1 <= p.len() <= path_segments(
                            #[trigger] next[j],
                        ).len() && p == path_segments(next[j]).take(p.len() as int);
                    if j < k {
                        assert(mv.take(k as int)[j] == next[j]);
                        assert(under_paths(mv.take(k as int), p));
                    }
                }
                if has_path(before, p) {
                    let j = choose|j: int|
                        0 <= j < k && 1 <= p.len() <= path_segments(
                            #[trigger] mv.take(k as int)[j],
                        ).len() && p == path_segments(mv.take(k as int)[j]).take(p.len() as int);
                    assert(next[j] == mv.take(k as int)[j]);
                }
            }
            assert forall|i: int| 0 <= i < tree@.len() implies (#[trigger] tree@[i]).1
                == last_member_note(next, nv, tree@[i].0) && !tree@[i].2 by {
                let q = tree@[i].0;
                assert(has_path(tree@, q));
                if q != segs {
                    if has_path(before, q) {
                        let j = choose|j: int| 0 <= j < before.len() && (#[trigger] before[j]).0 == q;
                        assert(tree@[i] == before[j]);
                    } else {
                        lemma_member_note_named(mv.take(k as int), nv, q);
                        if last_member_note(mv.take(k as int), nv, q) is Some {
                            let j = choose|j: int|
                                0 <= j < k && path_segments(#[trigger] mv.take(k as int)[j]) == q;
                            crate::text::lemma_split_on_nonempty(mv.take(k as int)[j], '/');
                            assert(q.take(q.len() as int) == q);
                            assert(under_paths(mv.take(k as int), q));
                        }
                    }
                }
            }
        }
        k = k + 1;
    }
    assert(mv.take(members.len() as int) == mv);
    tree
}

/// The candidates that exist, with forward slashes, in order.
pub open spec fn existing_candidates(candidates: Seq<(Seq<char>, bool)>) -> Seq<Seq<char>>
    decreases candidates.len(),
{
    if candidates.len() == 0 {
        Seq::empty()
    } else {
        let rest = existing_candidates(candidates.drop_last());
        if candidates.last().1 {
            rest.push(slashed(candidates.last().0))
        } else {
            rest
        }
    }
}

/// The candidate paths (each with whether it exists) that exist, written
/// with forward slashes.
pub fn collect_existing_paths(candidates: &Vec<(String, bool)>) -> (paths: Vec<String>)
    ensures
        paths.deep_view() == existing_candidates(pair_views(candidates@)),
{
    let ghost cv = pair_views(candidates@);
    let mut paths: Vec<String> = Vec::new();
    let mut i: usize = 0;
    while i < candidates.len()
        invariant
            i <= candidates.len(),
            cv == pair_views(candidates@),
            paths.deep_view() == existing_candidates(cv.take(i as int)),
        decreases candidates.len() - i,
    {
        assert(cv.take(i + 1).drop_last() == cv.take(i as int));
        let (path, exists) = (&candidates[i].0, candidates[i].1);
        if exists {
            let p = to_slash(path.as_str());
            let ghost before = paths.deep_view();
            let ghost pv = p@;
            paths.push(p);
            assert(paths.deep_view() =~= before.push(pv));
        }
        i = i + 1;
    }
    assert(cv.take(candidates.len() as int) == cv);
    paths
}

/// The names of the visible top-level directories, other than `target`.
pub open spec fn top_level_names(entries: Seq<(Seq<char>, bool)>) -> Seq<Seq<char>>
    decreases entries.len(),
{
    if entries.len() == 0 {
        Seq::empty()
    } else {
        let rest = top_level_names(entries.drop_last());
        let (name, is_dir) = entries.last();
        if is_dir && !starts_with(name, "."@) && name != "target"@ {
            rest.push(name)
        } else {
            rest
        }
    }
}

/// The visible directories among `entries`, in the order given.
fn visible_dirs(entries: &Vec<(String, bool)>) -> (dirs: Vec<String>)
    ensures
        dirs.deep_view() == top_level_names(pair_views(entries@)),
{
    let ghost ev = pair_views(entries@);
    let mut dirs: Vec<String> = Vec::new();
    let mut i: usize = 0;
    while i < entries.len()
        invariant
            i <= entries.len(),
            ev == pair_views(entries@),
            dirs.deep_view() == top_level_names(ev.take(i as int)),
        decreases entries.len() - i,
    {
        assert(ev.take(i + 1).drop_last() == ev.take(i as int));
        let name = &entries[i].0;
        let n = crate::text::chars_of(name.as_str());
        let keep = entries[i].1 && !crate::text::chars_start_with_str(&n, ".")
            && !crate::text::chars_eq_str(&n, "target");
        if keep {
            let copy = name.clone();
            let ghost before = dirs.deep_view();
            let ghost cv = copy@;
            dirs.push(copy);
            assert(dirs.deep_view() =~= before.push(cv));
        }
        i = i + 1;
    }
    assert(ev.take(entries.len() as int) == ev);
    dirs
}

/// The top-level names of a listing in ascending order come out ascending,
/// each the name of an entry.
proof fn lemma_top_level_names_ascend(s: Seq<(Seq<char>, bool)>)
    requires
        names_ascend(s),
    ensures
        forall|k: int|
            0 <= k < top_level_names(s).len() ==> exists|j: int|
                0 <= j < s.len() && #[trigger] top_level_names(s)[k] == s[j].0,
        forall|i: int, j: int|
            0 <= i < j < top_level_names(s).len() ==> !str_lt(
                #[trigger] top_level_names(s)[j],
                #[trigger] top_level_names(s)[i],
            ),
    decreases s.len(),
{
    if s.len() > 0 {
        let rest = s.drop_last();
        assert(names_ascend(rest)) by {
            assert forall|i: int, j: int| 0 <= i < j < rest.len() implies !str_lt(
                #[trigger] rest[j].0,
                #[trigger] rest[i].0,
            ) by {
                assert(rest[i] == s[i] && rest[j] == s[j]);
            }
        }
        lemma_top_level_names_ascend(rest);
        let r = top_level_names(rest);
        let t = top_level_names(s);
        assert forall|k: int| 0 <= k < t.len() implies exists|j: int|
            0 <= j < s.len() && #[trigger] t[k] == s[j].0 by {
            if k < r.len() {
                assert(t[k] == r[k]);
                let j = choose|j: int| 0 <= j < rest.len() && r[k] == rest[j].0;
                assert(rest[j] == s[j]);
            } else {
                assert(t[k] == s[s.len() - 1].0);
            }
        }
        assert forall|i: int, j: int| 0 <= i < j < t.len() implies !str_lt(
            #[trigger] t[j],
            #[trigger] t[i],
        ) by {
            if j < r.len() {
                assert(t[i] == r[i] && t[j] == r[j]);
            } else {
                assert(t[i] == r[i]);
                assert(t[j] == s[s.len() - 1].0);
                let m = choose|m: int| 0 <= m < rest.len() && r[i] == rest[m].0;
                assert(rest[m] == s[m]);
            }
        }
    }
}

/// The top-level directories of a workspace, given its root's entries
/// (name, is a directory) in any order: the visible directories other than
/// `target`, in ascending name order.
pub fn collect_top_level_dirs(entries: &Vec<(String, bool)>) -> (dirs: Vec<String>)
    ensures
        dirs.deep_view() == top_level_names(sort_by_name(pair_views(entries@))),
        forall|i: int, j: int|
            0 <= i < j < dirs.len() ==> !str_lt(#[trigger] dirs@[j]@, #[trigger] dirs@[i]@),
{
    let sorted = sort_listing(entries);
    let dirs = visible_dirs(&sorted);
    proof {
        lemma_sort_by_name(pair_views(entries@));
        lemma_top_level_names_ascend(sort_by_name(pair_views(entries@)));
        assert forall|i: int, j: int| 0 <= i < j < dirs.len() implies !str_lt(
            #[trigger] dirs@[j]@,
            #[trigger] dirs@[i]@,
        ) by {
            assert(dirs.deep_view()[i] == dirs@[i]@);
            assert(dirs.deep_view()[j] == dirs@[j]@);
        }
    }
    dirs
}

/// The relative paths of the files of a listing (relative path, is a file),
/// with forward slashes, in listing order.
pub open spec fn listed_file_paths(listing: Seq<(Seq<char>, bool)>) -> Seq<Seq<char>> {
    existing_candidates(listing)
}

/// The agent files of a repository: the files among the entries (relative
/// path, is a file) listed from the directories of `agent_file_dirs`, in any
/// order, sorted by path (so directory by directory in the order of
/// `agent_file_dirs`, each by file name), with forward slashes.
pub fn collect_agent_files(listing: &Vec<(String, bool)>) -> (files: Vec<String>)
    ensures
        files.deep_view() == listed_file_paths(sort_by_name(pair_views(listing@))),
{
    collect_existing_paths(&sort_listing(listing))
}

/// The hook files of a repository: the files among the entries (relative
/// path, is a file) listed from the directories of `hook_file_dirs`, in any
/// order, sorted by path (so directory by directory in the order of
/// `hook_file_dirs`, each by file name), with forward slashes.
pub fn collect_hook_files(listing: &Vec<(String, bool)>) -> (files: Vec<String>)
    ensures
        files.deep_view() == listed_file_paths(sort_by_name(pair_views(listing@))),
{
    collect_existing_paths(&sort_listing(listing))
}

/// A vector of copies of the texts `items`.
fn strings_of(items: &Vec<&str>) -> (v: Vec<String>)
    ensures
        v.deep_view() == items@.map_values(|s: &str| s@),
{
    let mut v: Vec<String> = Vec::new();
    let mut i: usize = 0;
    while i < items.len()
        invariant
            i <= items.len(),
            v.deep_view() == items@.take(i as int).map_values(|s: &str| s@),
        decreases items.len() - i,
    {
        let s = string_from(items[i]);
        let ghost before = v.deep_view();
        let ghost sv = s@;
        v.push(s);
        assert(v.deep_view() =~= before.push(sv));
        i = i + 1;
        assert(items@.take(i as int).map_values(|s: &str| s@) =~= items@.take(
            (i - 1) as int,
        ).map_values(|s: &str| s@).push(items@[i - 1]@));
    }
    assert(items@.take(items.len() as int) == items@);
    v
}

/// The agent guidance files a repository map looks for, relative to the root.
pub fn agent_guidance_candidates() -> (v: Vec<String>)
    ensures
        v.deep_view() == seq!["AGENTS.md"@, ".agents/instructions/token-efficiency.instructions.md"@],
{
    let items = vec!["AGENTS.md", ".agents/instructions/token-efficiency.instructions.md"];
    let v = strings_of(&items);
    assert(items@.map_values(|s: &str| s@) =~= seq![
        "AGENTS.md"@,
        ".agents/instructions/token-efficiency.instructions.md"@,
    ]);
    v
}

/// The directories whose files a repository map lists as agent files.
pub fn agent_file_dirs() -> (v: Vec<String>)
    ensures
        v.deep_view() == seq![".agents/instructions"@, ".agents/prompts"@, ".agents/skills"@],
{
    let items = vec![".agents/instructions", ".agents/prompts", ".agents/skills"];
    let v = strings_of(&items);
    assert(items@.map_values(|s: &str| s@) =~= seq![
        ".agents/instructions"@,
        ".agents/prompts"@,
        ".agents/skills"@,
    ]);
    v
}

/// The directories whose files a repository map lists as hooks.
pub fn hook_file_dirs() -> (v: Vec<String>)
    ensures
        v.deep_view() == seq![".githooks"@, ".github/hooks"@],
{
    let items = vec![".githooks", ".github/hooks"];
    let v = strings_of(&items);
    assert(items@.map_values(|s: &str| s@) =~= seq![".githooks"@, ".github/hooks"@]);
    v
}

/// An entry of the repository map's tool list.
pub open spec fn tool_model(path: Seq<char>, description: Seq<char>) -> JsonModel {
    JsonModel::Object(
        seq![("path"@, JsonModel::Str(path)), ("description"@, JsonModel::Str(description))],
    )
}

/// The tools a repository map lists.
pub open spec fn key_tools_model() -> JsonModel {
    JsonModel::Array(
        seq![
            tool_model("target/debug/ticket.exe"@, "ticket (state machine, board, deps)"@),
            tool_model("target/debug/spec.exe"@, "spec-cli"@),
            tool_model("target/debug/peek"@, "bounded inspection + repo-map generation"@),
            tool_model("rtk <cmd>"@, "token-optimized CLI proxy (auto-compress output)"@),
        ],
    )
}

/// The bounded-inspection workflow a repository map recommends.
pub open spec fn workflow_model() -> JsonModel {
    JsonModel::Array(
        seq![
            JsonModel::Str("peek <file> --count  # 1. learn size"@),
            JsonModel::Str("peek <file> --grep <pattern>  # 2. locate target line"@),
            JsonModel::Str("peek <file> --start N --end M  # 3. bounded read"@),
            JsonModel::Str(
                "peek . --repo-map --output "@ + REPO_MAP_FILE@ + "  # refresh structural map"@,
            ),
        ],
    )
}

/// The repository map of the workspace at `root`.
pub open spec fn repo_map_model(
    root: Seq<char>,
    top_dirs: Seq<Seq<char>>,
    crates: Seq<crate::tree::EntryView>,
    guidance: Seq<crate::tree::EntryView>,
    agent_files: Seq<crate::tree::EntryView>,
    hooks: Seq<crate::tree::EntryView>,
) -> JsonModel {
    JsonModel::Object(
        seq![
            ("format"@, JsonModel::Str("repo_map_toon_v1"@)),
            (
                "description"@,
                JsonModel::Str("Compact workspace structural map for low-token orientation"@),
            ),
            (
                "usage"@,
                JsonModel::Str("Read this before opening source files for structural orientation"@),
            ),
            (
                "refresh_command"@,
                JsonModel::Str("cargo run -p peek-cli -- . --repo-map --output "@ + REPO_MAP_FILE@),
            ),
            ("workspace"@, JsonModel::Object(seq![("root"@, JsonModel::Str(slashed(root)))])),
            (
                "top_level_dirs"@,
                JsonModel::Array(top_dirs.map_values(|d: Seq<char>| JsonModel::Str(d))),
            ),
            ("crates"@, tree_model("crates"@, crates, "crates"@)),
            ("agent_guidance"@, tree_model("agent-guidance"@, guidance, "agent-guidance"@)),
            ("agent_files"@, tree_model("agent-files"@, agent_files, "agent-files"@)),
            ("hooks"@, tree_model("hooks"@, hooks, "hooks"@)),
            ("key_tools"@, key_tools_model()),
            ("bounded_inspection_pattern"@, workflow_model()),
        ],
    )
}

fn push_item(items: &mut Vec<JsonValue>, x: JsonValue)
    ensures
        item_models(final(items)@) == item_models(old(items)@).push(x.model()),
{
    let ghost before = items@;
    let ghost xm = x.model();
    items.push(x);
    proof {
        lemma_item_models_push(before, items@.last());
    }
}

fn tool_value(path: &str, description: &str) -> (v: JsonValue)
    ensures
        v.model() == tool_model(path@, description@),
{
    let mut fields: Vec<JsonField> = Vec::new();
    assert(field_models(fields@) =~= Seq::<(Seq<char>, JsonModel)>::empty());
    push_field(&mut fields, "path", json_str(path));
    push_field(&mut fields, "description", json_str(description));
    let v = JsonValue::Object(fields);
    assert(field_models(fields@) =~= seq![
        ("path"@, JsonModel::Str(path@)),
        ("description"@, JsonModel::Str(description@)),
    ]);
    v
}

fn key_tools_value() -> (v: JsonValue)
    ensures
        v.model() == key_tools_model(),
{
    let mut items: Vec<JsonValue> = Vec::new();
    assert(item_models(items@) =~= Seq::<JsonModel>::empty());
    push_item(&mut items, tool_value("target/debug/ticket.exe", "ticket (state machine, board, deps)"));
    push_item(&mut items, tool_value("target/debug/spec.exe", "spec-cli"));
    push_item(&mut items, tool_value("target/debug/peek", "bounded inspection + repo-map generation"));
    push_item(&mut items, tool_value("rtk <cmd>", "token-optimized CLI proxy (auto-compress output)"));
    assert(item_models(items@) =~= seq![
        tool_model("target/debug/ticket.exe"@, "ticket (state machine, board, deps)"@),
        tool_model("target/debug/spec.exe"@, "spec-cli"@),
        tool_model("target/debug/peek"@, "bounded inspection + repo-map generation"@),
        tool_model("rtk <cmd>"@, "token-optimized CLI proxy (auto-compress output)"@),
    ]);
    JsonValue::Array(items)
}

fn workflow_value() -> (v: JsonValue)
    ensures
        v.model() == workflow_model(),
{
    let mut refresh = string_from("peek . --repo-map --output ");
    push_str(&mut refresh, REPO_MAP_FILE);
    push_str(&mut refresh, "  # refresh structural map");
    let mut items: Vec<JsonValue> = Vec::new();
    assert(item_models(items@) =~= Seq::<JsonModel>::empty());
    push_item(&mut items, json_str("peek <file> --count  # 1. learn size"));
    push_item(&mut items, json_str("peek <file> --grep <pattern>  # 2. locate target line"));
    push_item(&mut items, json_str("peek <file> --start N --end M  # 3. bounded read"));
    push_item(&mut items, json_str(refresh.as_str()));
    assert(item_models(items@) =~= seq![
        JsonModel::Str("peek <file> --count  # 1. learn size"@),
        JsonModel::Str("peek <file> --grep <pattern>  # 2. locate target line"@),
        JsonModel::Str("peek <file> --start N --end M  # 3. bounded read"@),
        JsonModel::Str(
            "peek . --repo-map --output "@ + REPO_MAP_FILE@ + "  # refresh structural map"@,
        ),
    ]);
    JsonValue::Array(items)
}

/// The repository map of the workspace at `root`, from its top-level
/// directories and the trees of its crates, agent guidance, agent files and
/// hooks.
pub fn repo_map_document(
    root: &str,
    top_dirs: &Vec<String>,
    crates: &PathTree,
    guidance: &PathTree,
    agent_files: &PathTree,
    hooks: &PathTree,
) -> (doc: JsonValue)
    ensures
        doc.model() == repo_map_model(
            root@,
            top_dirs.deep_view(),
            crates@,
            guidance@,
            agent_files@,
            hooks@,
        ),
{
    let mut fields: Vec<JsonField> = Vec::new();
    let ghost f0 = field_models(fields@);
    assert(f0 =~= Seq::<(Seq<char>, JsonModel)>::empty());
    push_field(&mut fields, "format", json_str("repo_map_toon_v1"));
    push_field(
        &mut fields,
        "description",
        json_str("Compact workspace structural map for low-token orientation"),
    );
    push_field(
        &mut fields,
        "usage",
        json_str("Read this before opening source files for structural orientation"),
    );
    let mut refresh = string_from("cargo run -p peek-cli -- . --repo-map --output ");
    push_str(&mut refresh, REPO_MAP_FILE);
    push_field(&mut fields, "refresh_command", json_str(refresh.as_str()));
    let mut workspace: Vec<JsonField> = Vec::new();
    assert(field_models(workspace@) =~= Seq::<(Seq<char>, JsonModel)>::empty());
    let shown = display_path(root);
    push_field(&mut workspace, "root", json_str(shown.as_str()));
    push_field(&mut fields, "workspace", JsonValue::Object(workspace));
    push_field(&mut fields, "top_level_dirs", json_str_array(top_dirs));
    push_field(&mut fields, "crates", tree_to_value("crates", crates, "crates"));
    push_field(
        &mut fields,
        "agent_guidance",
        tree_to_value("agent-guidance", guidance, "agent-guidance"),
    );
    push_field(&mut fields, "agent_files", tree_to_value("agent-files", agent_files, "agent-files"));
    push_field(&mut fields, "hooks", tree_to_value("hooks", hooks, "hooks"));
    push_field(&mut fields, "key_tools", key_tools_value());
    push_field(&mut fields, "bounded_inspection_pattern", workflow_value());
    let ghost expected = repo_map_model(
        root@,
        top_dirs.deep_view(),
        crates@,
        guidance@,
        agent_files@,
        hooks@,
    );
    assert(field_models(fields@) =~= expected->Object_0);
    JsonValue::Object(fields)
}

/// The TOON text of the repository map of the workspace at `root`: the map's
/// compact JSON text, encoded as TOON. It succeeds exactly when the encoder
/// takes that text; otherwise the result is a repo-map encoding error carrying
/// the encoder's message.
pub fn repo_map_text(
    root: &str,
    top_dirs: &Vec<String>,
    crates: &PathTree,
    guidance: &PathTree,
    agent_files: &PathTree,
    hooks: &PathTree,
) -> (r: Result<String, PeekError>)
    ensures
        r is Ok <==> toon_encodes(
            json_text(
                repo_map_model(
                    root@,
                    top_dirs.deep_view(),
                    crates@,
                    guidance@,
                    agent_files@,
                    hooks@,
                ),
            ),
        ),
        r matches Ok(t) ==> t@ == toon_of_json(
            json_text(
                repo_map_model(
                    root@,
                    top_dirs.deep_view(),
                    crates@,
                    guidance@,
                    agent_files@,
                    hooks@,
                ),
            ),
        ),
        r matches Err(e) ==> e is RepoMapEncode,
{
    let doc = repo_map_document(root, top_dirs, crates, guidance, agent_files, hooks);
    let json = json_string(&doc);
    match encode_toon(json.as_str()) {
        Ok(text) => Ok(text),
        Err(message) => Err(PeekError::RepoMapEncode(message)),
    }
}

/// A member note comes from a member listed at that path.
proof fn lemma_member_note_named(
    members: Seq<Seq<char>>,
    names: Seq<Option<Seq<char>>>,
    p: Seq<Seq<char>>,
)
    ensures
        last_member_note(members, names, p) is Some ==> exists|j: int|
            0 <= j < members.len() && path_segments(#[trigger] members[j]) == p,
    decreases members.len(),
{
    if members.len() > 0 && path_segments(members.last()) != p {
        lemma_member_note_named(members.drop_last(), names, p);
        if last_member_note(members, names, p) is Some {
            let j = choose|j: int|
                0 <= j < members.drop_last().len() && path_segments(
                    #[trigger] members.drop_last()[j],
                ) == p;
            assert(members[j] == members.drop_last()[j]);
        }
    }
}

} // verus!
