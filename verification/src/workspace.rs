//! Reading a Cargo workspace: member lists, crate names, and which directory
//! entries a structural map keeps.
use vstd::prelude::*;

use crate::api::REPO_MAP_FILE;
use crate::tree::{
    directory_skeleton, insert_tree_path, inserted, path_segments, render_directory_skeleton, tree_wf,
    PathTree,
};
use crate::text::{
    char_views, chars_contain, chars_eq_str, chars_of, chars_start_with_str, chars_end_with_str,
    ends_with, find_chars, find_first, has_char, slashed, slice_chars, split_lines, starts_with,
    string_from, string_of, strip_char, strip_char_chars, text_lines, to_slash, trim, trim_chars,
};

verus! {

/// The index of the first `c` in `s`, or `s.len()` when there is none.
pub open spec fn char_index(s: Seq<char>, c: char) -> int
    decreases s.len(),
{
    if s.len() == 0 {
        0
    } else if s[0] == c {
        0
    } else {
        1 + char_index(s.drop_first(), c)
    }
}

proof fn lemma_char_index_bounds(s: Seq<char>, c: char)
    ensures
        0 <= char_index(s, c) <= s.len(),
    decreases s.len(),
{
    if s.len() > 0 && s[0] != c {
        lemma_char_index_bounds(s.drop_first(), c);
    }
}

proof fn lemma_char_index_is(s: Seq<char>, c: char, k: int)
    requires
        0 <= k <= s.len(),
        forall|j: int| 0 <= j < k ==> s[j] != c,
        k < s.len() ==> s[k] == c,
    ensures
        char_index(s, c) == k,
    decreases s.len(),
{
    if s.len() > 0 && s[0] != c {
        assert forall|j: int| 0 <= j < k - 1 implies s.drop_first()[j] != c by {
            assert(s.drop_first()[j] == s[j + 1]);
        }
        lemma_char_index_is(s.drop_first(), c, k - 1);
    }
}

/// The non-empty strings between double quotes in `s`, in order; an opening
/// quote without a closing one takes the rest of `s`.
pub open spec fn quoted_values(s: Seq<char>) -> Seq<Seq<char>>
    decreases s.len(),
{
    if s.len() == 0 {
        Seq::empty()
    } else if s[0] != '"' {
        quoted_values(s.drop_first())
    } else {
        let rest = s.drop_first();
        let k = char_index(rest, '"');
        let value = rest.take(k);
        let after = if 0 <= k < rest.len() {
            rest.skip(k + 1)
        } else {
            Seq::empty()
        };
        (if value.len() > 0 {
            seq![value]
        } else {
            Seq::empty()
        }) + quoted_values(after)
    }
}

/// The non-empty quoted strings of `text`.
pub fn extract_quoted_strings(text: &str) -> (out: Vec<String>)
    ensures
        out.deep_view() == quoted_values(text@),
{
    let v = chars_of(text);
    let n = v.len();
    let mut out: Vec<String> = Vec::new();
    let mut i: usize = 0;
    assert(v@.skip(0) == v@);
    while i < n
        invariant
            n == v.len(),
            v@ == text@,
            i <= n,
            out.deep_view() + quoted_values(v@.skip(i as int)) == quoted_values(v@),
        decreases n - i,
    {
        let ghost tail = v@.skip(i as int);
        if v[i] != '"' {
            assert(tail.drop_first() == v@.skip(i + 1));
            i = i + 1;
        } else {
            let mut j: usize = i + 1;
            while j < n && v[j] != '"'
                invariant
                    n == v.len(),
                    i < n,
                    i + 1 <= j <= n,
                    forall|m: int| i + 1 <= m < j ==> v@[m] != '"',
                decreases n - j,
            {
                j = j + 1;
            }
            let ghost rest = tail.drop_first();
            assert(rest == v@.skip(i + 1));
            proof {
                lemma_char_index_is(rest, '"', j - i - 1);
            }
            let value = slice_chars(&v, i + 1, j);
            assert(value@ == rest.take(j - i - 1));
            let ghost before = out.deep_view();
            if value.len() > 0 {
                let s = string_of(&value);
                out.push(s);
                assert(out.deep_view() =~= before.push(value@));
            }
            if j < n {
                assert(rest.skip(j - i) == v@.skip(j + 1));
                i = j + 1;
            } else {
                assert(v@.skip(n as int) == Seq::<char>::empty());
                i = n;
            }
            assert(out.deep_view() + quoted_values(v@.skip(i as int)) =~= quoted_values(v@));
        }
    }
    assert(v@.skip(n as int) == Seq::<char>::empty());
    assert(out.deep_view() + Seq::<Seq<char>>::empty() == out.deep_view());
    out
}

/// One line of the member scan: whether the scan is inside the `members`
/// array, and the members found so far.
#[verifier::opaque]
pub open spec fn members_step(state: (bool, Seq<Seq<char>>), line: Seq<char>) -> (
    bool,
    Seq<Seq<char>>,
) {
    let (inside, members) = state;
    let t = trim(line);
    if !inside {
        match find_first(t, "members"@) {
            Some(idx) => {
                let rem = t.skip(idx);
                if starts_with(rem, "members"@) && has_char(rem, '[') {
                    (!has_char(rem, ']'), members + quoted_values(rem))
                } else {
                    (false, members)
                }
            },
            None => (false, members),
        }
    } else {
        (!has_char(t, ']'), members + quoted_values(t))
    }
}

/// The member scan over `lines`.
pub open spec fn members_scan(lines: Seq<Seq<char>>) -> (bool, Seq<Seq<char>>)
    decreases lines.len(),
{
    if lines.len() == 0 {
        (false, Seq::empty())
    } else {
        members_step(members_scan(lines.drop_last()), lines.last())
    }
}

/// The workspace members listed in a `Cargo.toml`: the quoted strings of the
/// `members = [ ... ]` array, which may span several lines.
pub open spec fn workspace_members(cargo_toml: Seq<char>) -> Seq<Seq<char>> {
    members_scan(text_lines(cargo_toml)).1
}

/// Appends the strings of `more` to `out`.
fn extend_strings(out: &mut Vec<String>, more: Vec<String>)
    ensures
        final(out).deep_view() == old(out).deep_view() + more.deep_view(),
{
    let ghost start = out.deep_view();
    let mut k: usize = 0;
    while k < more.len()
        invariant
            k <= more.len(),
            out.deep_view() == start + more.deep_view().take(k as int),
        decreases more.len() - k,
    {
        let s = more[k].clone();
        let ghost before = out.deep_view();
        let ghost sv = s@;
        out.push(s);
        assert(out.deep_view() =~= before.push(sv));
        k = k + 1;
        assert(more.deep_view().take(k as int) =~= more.deep_view().take((k - 1) as int).push(
            more[k - 1]@,
        ));
        assert(out.deep_view() =~= start + more.deep_view().take(k as int));
    }
    assert(more.deep_view().take(more.len() as int) == more.deep_view());
}

/// Scans one line of a `Cargo.toml` for workspace members.
#[verifier::rlimit(20)]
fn scan_members_line(line: &Vec<char>, inside: bool, members: &mut Vec<String>) -> (r: bool)
    ensures
        (r, final(members).deep_view()) == members_step((inside, old(members).deep_view()), line@),
{
    reveal(members_step);
    let trimmed = trim_chars(line);
    if !inside {
        let key = chars_of("members");
        match find_chars(&trimmed, &key) {
            Some(idx) => {
                let rem = slice_chars(&trimmed, idx, trimmed.len());
                assert(rem@ == trimmed@.skip(idx as int));
                if chars_start_with_str(&rem, "members") && chars_contain(&rem, '[') {
                    let rem_text = string_of(&rem);
                    extend_strings(members, extract_quoted_strings(rem_text.as_str()));
                    !chars_contain(&rem, ']')
                } else {
                    false
                }
            },
            None => false,
        }
    } else {
        let trimmed_text = string_of(&trimmed);
        extend_strings(members, extract_quoted_strings(trimmed_text.as_str()));
        !chars_contain(&trimmed, ']')
    }
}

/// The workspace members listed in the text of a `Cargo.toml`.
pub fn parse_workspace_members(cargo_toml: &str) -> (members: Vec<String>)
    ensures
        members.deep_view() == workspace_members(cargo_toml@),
{
    let lines = split_lines(cargo_toml);
    let ghost lv = char_views(lines@);
    let mut members: Vec<String> = Vec::new();
    let mut inside = false;
    let mut i: usize = 0;
    assert(lv.take(0) == Seq::<Seq<char>>::empty());
    assert(members.deep_view() =~= Seq::<Seq<char>>::empty());
    while i < lines.len()
        invariant
            i <= lines.len(),
            lv == char_views(lines@),
            lv == text_lines(cargo_toml@),
            members_scan(lv.take(i as int)) == (inside, members.deep_view()),
        decreases lines.len() - i,
    {
        assert(lv.take(i + 1).drop_last() == lv.take(i as int));
        assert(lv.take(i + 1).last() == lines[i as int]@);
        inside = scan_members_line(&lines[i], inside, &mut members);
        i = i + 1;
    }
    assert(lv.take(lines.len() as int) == lv);
    members
}

/// The crate name in a `Cargo.toml`: from the first line that, trimmed,
/// starts with `name = ` and whose value, trimmed and unquoted, is not empty.
pub open spec fn manifest_name(lines: Seq<Seq<char>>) -> Option<Seq<char>>
    decreases lines.len(),
{
    if lines.len() == 0 {
        None
    } else {
        let t = trim(lines[0]);
        let value = strip_char(trim(t.skip("name = "@.len() as int)), '"');
        if starts_with(t, "name = "@) && value.len() > 0 {
            Some(value)
        } else {
            manifest_name(lines.drop_first())
        }
    }
}

/// The crate name declared in the text of a `Cargo.toml`, if any.
pub fn crate_name_from_manifest(text: &str) -> (r: Option<String>)
    ensures
        match r {
            Some(name) => manifest_name(text_lines(text@)) == Some(name@),
            None => manifest_name(text_lines(text@)) is None,
        },
{
    let lines = split_lines(text);
    let ghost lv = char_views(lines@);
    let key = chars_of("name = ");
    let mut i: usize = 0;
    assert(lv.skip(0) == lv);
    while i < lines.len()
        invariant
            i <= lines.len(),
            lv == char_views(lines@),
            lv == text_lines(text@),
            key@ == "name = "@,
            manifest_name(lv.skip(i as int)) == manifest_name(lv),
        decreases lines.len() - i,
    {
        assert(lv.skip(i as int)[0] == lines[i as int]@);
        assert(lv.skip(i as int).drop_first() == lv.skip(i + 1));
        let t = trim_chars(&lines[i]);
        if key.len() <= t.len() {
            let head = slice_chars(&t, 0, key.len());
            let rest = slice_chars(&t, key.len(), t.len());
            assert(rest@ == t@.skip(key@.len() as int));
            let inner = trim_chars(&rest);
            let value = strip_char_chars(&inner, '"');
            if crate::text::chars_eq(&head, &key) && value.len() > 0 {
                return Some(string_of(&value));
            }
        }
        i = i + 1;
    }
    assert(lv.skip(lines.len() as int) == Seq::<Seq<char>>::empty());
    None
}

/// Whether `name` is one of the directory names a structural map never enters.
pub open spec fn is_noisy_name(name: Seq<char>) -> bool {
    ||| name == "target"@
    ||| name == "node_modules"@
    ||| name == "dist"@
    ||| name == "build"@
    ||| name == ".git"@
    ||| name == ".jj"@
    ||| name == ".idea"@
    ||| name == ".vscode"@
    ||| name == "__pycache__"@
}

/// Whether `name` is one of the hidden directories a structural map keeps.
pub open spec fn is_kept_hidden_name(name: Seq<char>) -> bool {
    ||| name == ".agents"@
    ||| name == ".githooks"@
    ||| name == ".github"@
    ||| name == ".rule"@
}

/// A directory entry is left out of a structural map: a noisy name, a hidden
/// name other than the kept ones, or a `.toon` file other than the repo map.
pub open spec fn skips_entry(relative: Seq<char>, name: Seq<char>, is_dir: bool) -> bool {
    ||| is_noisy_name(name)
    ||| (starts_with(name, "."@) && !is_kept_hidden_name(name))
    ||| (!is_dir && ends_with(slashed(relative), ".toon"@) && slashed(relative)
        != REPO_MAP_FILE@)
}

/// Whether the directory entry `name`, at `relative` below the root, is left
/// out of a structural map.
pub fn should_skip_directory_entry(relative: &str, name: &str, is_dir: bool) -> (r: bool)
    ensures
        r == skips_entry(relative@, name@, is_dir),
{
    let n = chars_of(name);
    let noisy = chars_eq_str(&n, "target") || chars_eq_str(&n, "node_modules") || chars_eq_str(
        &n,
        "dist",
    ) || chars_eq_str(&n, "build") || chars_eq_str(&n, ".git") || chars_eq_str(&n, ".jj")
        || chars_eq_str(&n, ".idea") || chars_eq_str(&n, ".vscode") || chars_eq_str(
        &n,
        "__pycache__",
    );
    if noisy {
        return true;
    }
    let kept = chars_eq_str(&n, ".agents") || chars_eq_str(&n, ".githooks") || chars_eq_str(
        &n,
        ".github",
    ) || chars_eq_str(&n, ".rule");
    if chars_start_with_str(&n, ".") && !kept {
        return true;
    }
    if !is_dir {
        let path = to_slash(relative);
        let p = chars_of(path.as_str());
        return chars_end_with_str(&p, ".toon") && !chars_eq_str(&p, REPO_MAP_FILE);
    }
    false
}

/// Whether `name` is one of the file names a structural map always lists.
pub open spec fn is_structural_file_name(name: Seq<char>) -> bool {
    ||| name == "Cargo.toml"@
    ||| name == "README.md"@
    ||| name == "HIGH_LEVEL_GUIDE.md"@
    ||| name == "AGENTS.md"@
    ||| name == "Makefile.toml"@
    ||| name == "rust-toolchain.toml"@
    ||| name == "rustfmt.toml"@
    ||| name == "viewer-ctl.toml"@
    ||| name == "repo_map.toon"@
}

/// Whether a path ends with one of the suffixes a structural map lists.
pub open spec fn has_structural_suffix(path: Seq<char>) -> bool {
    ||| ends_with(path, ".instructions.md"@)
    ||| ends_with(path, ".prompt.md"@)
    ||| ends_with(path, ".SKILL.md"@)
    ||| ends_with(path, ".agent.md"@)
    ||| ends_with(path, ".sh"@)
    ||| ends_with(path, ".yaml"@)
    ||| ends_with(path, ".yml"@)
    ||| ends_with(path, "hooks.json"@)
}

/// A file is listed in a structural map: it has a file name, and the name or
/// the path marks it as structural.
pub open spec fn includes_file(relative: Seq<char>, file_name: Option<Seq<char>>) -> bool {
    match file_name {
        None => false,
        Some(name) => is_structural_file_name(name) || has_structural_suffix(slashed(relative)),
    }
}

/// The final component of `path`, as `std::path::Path::file_name` finds it
/// on the target platform (`None` when the path ends in `..` or has no
/// components).
pub uninterp spec fn path_file_name(path: Seq<char>) -> Option<Seq<char>>;

/// Calls `std::path::Path::file_name` on `path`. Claimed: the result is
/// `path_file_name(path)`; a file name taken from a `&str` is valid UTF-8, so
/// converting it loses nothing.
#[verifier::external_body]
fn file_name_of(path: &str) -> (r: Option<String>)
    ensures
        r is None <==> path_file_name(path@) is None,
        r matches Some(n) ==> path_file_name(path@) == Some(n@),
{
    std::path::Path::new(path).file_name().map(|name| name.to_string_lossy().into_owned())
}

/// Whether the file at `relative`, whose file name is `file_name`, is listed
/// in a structural map.
pub fn lists_structural_file(relative: &str, file_name: Option<&str>) -> (r: bool)
    ensures
        r == includes_file(
            relative@,
            match file_name {
                Some(n) => Some(n@),
                None => None,
            },
        ),
{
    let name = match file_name {
        Some(n) => chars_of(n),
        None => {
            return false;
        },
    };
    let path = to_slash(relative);
    let p = chars_of(path.as_str());
    chars_eq_str(&name, "Cargo.toml") || chars_eq_str(&name, "README.md") || chars_eq_str(
        &name,
        "HIGH_LEVEL_GUIDE.md",
    ) || chars_eq_str(&name, "AGENTS.md") || chars_eq_str(&name, "Makefile.toml")
        || chars_eq_str(&name, "rust-toolchain.toml") || chars_eq_str(&name, "rustfmt.toml")
        || chars_eq_str(&name, "viewer-ctl.toml") || chars_eq_str(&name, "repo_map.toon")
        || chars_end_with_str(&p, ".instructions.md") || chars_end_with_str(&p, ".prompt.md")
        || chars_end_with_str(&p, ".SKILL.md") || chars_end_with_str(&p, ".agent.md")
        || chars_end_with_str(&p, ".sh") || chars_end_with_str(&p, ".yaml")
        || chars_end_with_str(&p, ".yml") || chars_end_with_str(&p, "hooks.json")
}

/// Whether the file at `relative` is listed in a structural map.
pub fn should_include_structural_file(relative: &str) -> (r: bool)
    ensures
        r == includes_file(relative@, path_file_name(relative@)),
{
    match file_name_of(relative) {
        Some(n) => lists_structural_file(relative, Some(n.as_str())),
        None => false,
    }
}

/// Takes one entry of the directory walk that collects a skeleton's tree: a
/// skipped entry leaves `tree` unchanged; a directory is inserted and the walk
/// descends into it (the result is whether to descend); a file is inserted when
/// it is structural. Paths are inserted with forward slashes.
pub fn collect_directory_tree(
    tree: &mut PathTree,
    relative: &str,
    name: &str,
    is_dir: bool,
) -> (descend: bool)
    requires
        tree_wf(old(tree)@),
    ensures
        tree_wf(final(tree)@),
        descend == (is_dir && !skips_entry(relative@, name@, is_dir)),
        ({
            let listed = !skips_entry(relative@, name@, is_dir) && (is_dir || includes_file(
                relative@,
                path_file_name(relative@),
            ));
            &&& listed ==> inserted(
                old(tree)@,
                final(tree)@,
                path_segments(slashed(relative@)),
                None,
                !is_dir,
            )
            &&& !listed ==> final(tree)@ == old(tree)@
        }),
{
    if should_skip_directory_entry(relative, name, is_dir) {
        return false;
    }
    if is_dir {
        let path = to_slash(relative);
        insert_tree_path(tree, path.as_str(), None, false);
        true
    } else {
        if should_include_structural_file(relative) {
            let path = to_slash(relative);
            insert_tree_path(tree, path.as_str(), None, true);
        }
        false
    }
}

/// The name a directory skeleton starts with: the directory's own name, or
/// the whole path when it has none.
pub open spec fn root_label(root: Seq<char>) -> Seq<char> {
    match path_file_name(root) {
        Some(name) => name,
        None => root,
    }
}

/// The skeleton of the directory at `root` whose structural entries form
/// `tree`: the directory's name with a slash, then the tree's lines.
pub fn skeletonize_directory(root: &str, tree: &PathTree) -> (text: String)
    requires
        tree_wf(tree@),
    ensures
        text@ == directory_skeleton(root_label(root@), tree@),
{
    let name = match file_name_of(root) {
        Some(n) => n,
        None => string_from(root),
    };
    render_directory_skeleton(name.as_str(), tree)
}

/// The structural file names are listed wherever they are met: a file named
/// `Cargo.toml`, `README.md`, `HIGH_LEVEL_GUIDE.md`, `AGENTS.md`,
/// `Makefile.toml`, `rust-toolchain.toml`, `rustfmt.toml`, `viewer-ctl.toml`
/// or `repo_map.toon` is a structural file at any path, and at the root of a
/// walk it is neither skipped nor left out, so `collect_directory_tree`
/// inserts it.
pub proof fn lemma_structural_names_are_listed(relative: Seq<char>, name: Seq<char>)
    requires
        ({
            ||| name == "Cargo.toml"@
            ||| name == "README.md"@
            ||| name == "HIGH_LEVEL_GUIDE.md"@
            ||| name == "AGENTS.md"@
            ||| name == "Makefile.toml"@
            ||| name == "rust-toolchain.toml"@
            ||| name == "rustfmt.toml"@
            ||| name == "viewer-ctl.toml"@
            ||| name == "repo_map.toon"@
        }),
    ensures
        includes_file(relative, Some(name)),
        !skips_entry(name, name, false),
        includes_file(name, Some(name)),
{
    reveal_strlit("Cargo.toml");
    reveal_strlit("README.md");
    reveal_strlit("HIGH_LEVEL_GUIDE.md");
    reveal_strlit("AGENTS.md");
    reveal_strlit("Makefile.toml");
    reveal_strlit("rust-toolchain.toml");
    reveal_strlit("rustfmt.toml");
    reveal_strlit("viewer-ctl.toml");
    reveal_strlit("repo_map.toon");
    reveal_strlit(".");
    reveal_strlit(".toon");
    reveal_strlit("target");
    reveal_strlit("node_modules");
    reveal_strlit("dist");
    reveal_strlit("build");
    reveal_strlit(".git");
    reveal_strlit(".jj");
    reveal_strlit(".idea");
    reveal_strlit(".vscode");
    reveal_strlit("__pycache__");
    assert(!starts_with(name, "."@)) by {
        assert(name.take(1)[0] != "."@[0]);
    }
    assert(!is_noisy_name(name)) by {
        assert(name.len() != "target"@.len() || name[0] != "target"@[0]);
        assert(name.len() != "node_modules"@.len() || name[0] != "node_modules"@[0]);
        assert(name.len() != "dist"@.len() || name[0] != "dist"@[0]);
        assert(name.len() != "build"@.len() || name[0] != "build"@[0]);
        assert(name.len() != ".git"@.len() || name[0] != ".git"@[0]);
        assert(name.len() != ".jj"@.len() || name[0] != ".jj"@[0]);
        assert(name.len() != ".idea"@.len() || name[0] != ".idea"@[0]);
        assert(name.len() != ".vscode"@.len() || name[0] != ".vscode"@[0]);
        assert(name.len() != "__pycache__"@.len() || name[0] != "__pycache__"@[0]);
    }
    if name == "repo_map.toon"@ {
        reveal_strlit("repo_map.toon");
        assert(slashed(name) =~= name);
    } else {
        let sl = slashed(name);
        assert(sl[sl.len() - 1] == name[name.len() - 1]);
        assert(name[name.len() - 1] != 'n');
        assert(!ends_with(sl, ".toon"@)) by {
            if ends_with(sl, ".toon"@) {
                assert(sl.skip(sl.len() - 5)[4] == ".toon"@[4]);
            }
        }
    }
}

} // verus!
