//! Which files are left alone: what editors and downloads leave behind, and the directories of
//! version control.

use vstd::prelude::*;
use vstd::string::*;
use vstd::utf8::*;

use crate::paths;
use crate::text;

verus! {

/// Whether `name` is the name of a directory that is left alone.
pub open spec fn is_ignored_dir(name: Seq<char>) -> bool {
    name == ".earth"@ || name == ".git"@ || name == ".hg"@ || name == ".svn"@
}

/// Whether `name` is one of the names that are left alone whatever bears them.
pub open spec fn is_ignored_exact(name: Seq<char>) -> bool {
    name == "4913"@ || name == ".DS_Store"@ || name == "Thumbs.db"@ || name == "desktop.ini"@
}

/// Whether `name` looks like a swap file of Vim: hidden, with an extension of `sw` and one more
/// byte.
pub open spec fn is_swap_name(name: Seq<char>) -> bool {
    text::has_prefix(name, "."@) && match paths::extension_of(name) {
        Some(ext) => encode_utf8(text::lowered(ext)).len() == 3 && text::has_prefix(
            text::lowered(ext),
            "sw"@,
        ),
        None => false,
    }
}

/// Whether `name` has the extension of an unfinished file.
pub open spec fn is_partial_name(name: Seq<char>) -> bool {
    let lower = text::lowered(name);
    text::has_suffix(lower, ".tmp"@) || text::has_suffix(lower, ".temp"@) || text::has_suffix(
        lower,
        ".part"@,
    ) || text::has_suffix(lower, ".crdownload"@)
}

/// Whether a file or a directory with the name `name` is left alone.
pub open spec fn ignored_name(name: Seq<char>, is_dir: bool) -> bool {
    ||| is_dir && is_ignored_dir(name)
    ||| is_ignored_exact(name)
    ||| text::has_suffix(name, "~"@)
    ||| is_swap_name(name)
    ||| text::has_prefix(name, "#"@) && text::has_suffix(name, "#"@)
    ||| text::has_prefix(name, ".#"@)
    ||| is_partial_name(name)
}

/// Whether some name on the path `rel` is one that is left alone.
pub open spec fn ignored_rel(rel: Seq<char>) -> bool {
    exists|i: int|
        0 <= i < text::split_at_char(rel, '/').len() && {
            let name = #[trigger] text::split_at_char(rel, '/')[i];
            ignored_name(name, false) || is_ignored_dir(name)
        }
}

/// Whether the extension `ext`, in small letters, is that of a text file.
pub open spec fn is_text_extension(ext: Seq<char>) -> bool {
    ||| ext == "txt"@
    ||| ext == "c"@
    ||| ext == "h"@
    ||| ext == "cpp"@
    ||| ext == "hpp"@
    ||| ext == "rs"@
    ||| ext == "py"@
    ||| ext == "md"@
    ||| ext == "json"@
    ||| ext == "toml"@
    ||| ext == "yaml"@
    ||| ext == "yml"@
    ||| ext == "js"@
    ||| ext == "ts"@
    ||| ext == "html"@
    ||| ext == "css"@
    ||| ext == "sh"@
    ||| ext == "java"@
    ||| ext == "go"@
}

/// Whether the file at `path` is kept as a text document.
pub open spec fn text_path(path: Seq<char>) -> bool {
    match paths::extension_of(path) {
        Some(ext) => is_text_extension(text::lowered(ext)),
        None => false,
    }
}

/// Tests whether `name` is the name of a directory that is left alone.
pub fn is_ignored_dir_name(name: &str) -> (r: bool)
    ensures
        r == is_ignored_dir(name@),
{
    text::same(name, ".earth") || text::same(name, ".git") || text::same(name, ".hg")
        || text::same(name, ".svn")
}

/// Tests whether a file or a directory with the name `name` is left alone.
pub fn is_ignored_component_name(name: &str, is_dir: bool) -> (r: bool)
    ensures
        r == ignored_name(name@, is_dir),
{
    if is_dir && is_ignored_dir_name(name) {
        return true;
    }
    if text::same(name, "4913") || text::same(name, ".DS_Store") || text::same(name, "Thumbs.db")
        || text::same(name, "desktop.ini") {
        return true;
    }
    // Backups of Vim: `file.txt~`, and `test.txu~` where a backup is there already.
    if text::ends_with(name, "~") {
        return true;
    }
    // Swap files of Vim: `.file.swp`, `.file.swo`, and so on.
    if text::starts_with(name, ".") {
        if let Some(ext) = paths::extension(name) {
            let lower = text::lowercase(&ext);
            if lower.as_str().as_bytes().len() == 3 && text::starts_with(&lower, "sw") {
                return true;
            }
        }
    }
    // Autosave and lock files of Emacs: `#file#`, `.#file`.
    if text::starts_with(name, "#") && text::ends_with(name, "#") {
        return true;
    }
    if text::starts_with(name, ".#") {
        return true;
    }
    // Unfinished files.
    let lower = text::lowercase(name);
    text::ends_with(&lower, ".tmp") || text::ends_with(&lower, ".temp") || text::ends_with(
        &lower,
        ".part",
    ) || text::ends_with(&lower, ".crdownload")
}

/// Tests whether what `path` leads to is left alone on account of its own name.
pub fn is_ignored_path(path: &str, is_dir: bool) -> (r: bool)
    ensures
        r == (match paths::file_name_of(path@) {
            Some(name) => ignored_name(name, is_dir),
            None => false,
        }),
{
    match paths::file_name(path) {
        Some(name) => is_ignored_component_name(&name, is_dir),
        None => false,
    }
}

/// Tests whether some name on the path `rel` is one that is left alone.
pub fn is_ignored_rel(rel: &str) -> (r: bool)
    ensures
        r == ignored_rel(rel@),
{
    let parts = text::split(rel, '/');
    let ghost names = text::split_at_char(rel@, '/');
    let mut i: usize = 0;
    while i < parts.len()
        invariant
            i <= parts@.len(),
            text::views(parts@) == names,
            names == text::split_at_char(rel@, '/'),
            forall|k: int|
                0 <= k < i ==> !ignored_name(#[trigger] names[k], false) && !is_ignored_dir(
                    names[k],
                ),
        decreases parts@.len() - i,
    {
        assert(names[i as int] == parts@[i as int]@);
        if is_ignored_component_name(&parts[i], false) || is_ignored_dir_name(&parts[i]) {
            return true;
        }
        i = i + 1;
    }
    false
}

/// Tests whether the file at `path` is kept as a text document.
pub fn is_text_path(path: &str) -> (r: bool)
    ensures
        r == text_path(path@),
{
    match paths::extension(path) {
        Some(ext) => {
            let e = text::lowercase(&ext);
            text::same(&e, "txt") || text::same(&e, "c") || text::same(&e, "h") || text::same(
                &e,
                "cpp",
            ) || text::same(&e, "hpp") || text::same(&e, "rs") || text::same(&e, "py")
                || text::same(&e, "md") || text::same(&e, "json") || text::same(&e, "toml")
                || text::same(&e, "yaml") || text::same(&e, "yml") || text::same(&e, "js")
                || text::same(&e, "ts") || text::same(&e, "html") || text::same(&e, "css")
                || text::same(&e, "sh") || text::same(&e, "java") || text::same(&e, "go")
        },
        None => false,
    }
}

} // verus!
