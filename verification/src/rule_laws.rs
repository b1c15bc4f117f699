//! What the small rules come to: names and paths, which files are left alone, which hold text, the
//! order of texts, and how bytes and numbers are written.

use vstd::bytes::*;
use vstd::prelude::*;
use vstd::utf8::*;

use crate::clock;
use crate::codec;
use crate::decimal;
use crate::hash;
use crate::hash::ByteOrder;
use crate::ignore;
use crate::order;
use crate::paths;
use crate::text;
use crate::visible;

verus! {

/// A path is the name of a directory and the name of what it holds, parted by a slash: what is
/// put together so is taken apart again.
pub proof fn law_path_is_directory_and_name(dir: Seq<char>, name: Seq<char>)
    requires
        dir.len() > 0,
        dir.last() != '/',
        !(dir.len() >= 2 && dir[dir.len() - 2] == '/' && dir.last() == '.'),
        name.len() > 0,
        !name.contains('/'),
        name != "."@,
        name != ".."@,
    ensures
        paths::joined_path(dir, name) == dir.push('/') + name,
        paths::file_name_of(dir.push('/') + name) == Some(name),
        paths::parent_of(dir.push('/') + name) == Some(dir),
{
    let path = dir.push('/') + name;
    let n = path.len() as int;
    let b = dir.len() as int + 1;
    assert(name.contains(name[0]));
    assert(name.contains(name[name.len() - 1]));
    assert(path[n - 1] == name[name.len() - 1]);
    paths::lemma_name_start(path, n);
    let s = paths::name_start(path, n);
    assert(path[dir.len() as int] == '/');
    if s > b {
        assert(path[s - 1] == name[s - 1 - b]);
        assert(name.contains(name[s - 1 - b]));
    }
    assert(s == b);
    assert(path.subrange(b, n) =~= name);
    reveal_strlit(".");
    reveal_strlit("..");
    if name.len() == 1 && name[0] == '.' {
        assert(name =~= "."@);
    }
    assert(paths::last_name_before(path, n) == Some((b, n)));
    let d = dir.len() as int;
    assert(path[d - 1] == dir.last());
    paths::lemma_name_start(path, d);
    assert(paths::trimmed_length(path, b) == paths::trimmed_length(path, d));
    let e = paths::name_start(path, d);
    if paths::idle_dot(path, e, d) {
        assert(path[e - 1] == '/');
        assert(dir[d - 2] == '/');
    }
    assert(paths::trimmed_length(path, d) == d);
    assert(path.take(d) =~= dir);
}

/// A name on its own is the name of a file, in no directory.
pub proof fn law_lone_name(name: Seq<char>)
    requires
        name.len() > 0,
        !name.contains('/'),
        name != "."@,
        name != ".."@,
    ensures
        paths::file_name_of(name) == Some(name),
        paths::parent_of(name) == Some(Seq::<char>::empty()),
{
    let n = name.len() as int;
    assert forall|i: int| 0 <= i < n implies name[i] != '/' by {
        assert(name.contains(name[i]));
    }
    paths::lemma_one_name(name, n);
    assert(name.subrange(0, n) =~= name);
    assert(name.take(0) =~= Seq::<char>::empty());
}

/// A path that begins at the root is not changed by the directory that it is seen from; another
/// one goes on from it.
pub proof fn law_paths_are_joined(base: Seq<char>, rel: Seq<char>)
    ensures
        rel.len() > 0 && rel[0] == '/' ==> paths::joined_path(base, rel) == rel,
        !(rel.len() > 0 && rel[0] == '/') && base.len() > 0 && base.last() != '/'
            ==> paths::joined_path(base, rel) == base.push('/') + rel,
        !(rel.len() > 0 && rel[0] == '/') && (base.len() == 0 || base.last() == '/')
            ==> paths::joined_path(base, rel) == base + rel,
{
}

/// What stands behind the last dot of a name is its extension, unless the dot begins the name.
pub proof fn law_extension_stands_behind_the_last_dot(stem: Seq<char>, ext: Seq<char>)
    requires
        stem.len() > 0,
        stem.last() != '/',
        ext.len() > 0,
        !ext.contains('/'),
        !ext.contains('.'),
    ensures
        paths::extension_of(stem.push('.') + ext) == Some(ext),
{
    let path = stem.push('.') + ext;
    let n = path.len() as int;
    let d = stem.len() as int;
    assert(ext.contains(ext[ext.len() - 1]));
    assert(path[n - 1] == ext[ext.len() - 1]);
    paths::lemma_name_start(path, n);
    let b = paths::name_start(path, n);
    if b > d + 1 {
        assert(path[b - 1] == ext[b - 1 - d - 1]);
        assert(ext.contains(ext[b - 1 - d - 1]));
    }
    assert(path[d] == '.');
    assert(path[d - 1] == stem.last());
    assert(b < d);
    let name = path.subrange(b, n);
    reveal_strlit(".");
    reveal_strlit("..");
    assert(name.len() >= 3);
    assert(paths::file_name_of(path) == Some(name));
    assert(name[d - b] == '.');
    assert forall|i: int| d - b < i < name.len() implies name[i] != '.' by {
        assert(name[i] == ext[i + b - d - 1]);
        assert(ext.contains(ext[i + b - d - 1]));
    }
    lemma_last_dot_is(name, name.len() as int, d - b);
    assert(name.skip(d - b + 1) =~= ext);
}

/// Where the last dot of a name stands.
pub proof fn lemma_last_dot_is(name: Seq<char>, n: int, d: int)
    requires
        0 <= d < n <= name.len(),
        name[d] == '.',
        forall|i: int| d < i < n ==> name[i] != '.',
    ensures
        paths::last_dot(name, n) == Some(d),
    decreases n,
{
    if n - 1 > d {
        lemma_last_dot_is(name, n - 1, d);
    }
}

/// A name in which no dot stands behind its first character has no extension.
pub proof fn law_name_without_extension(name: Seq<char>)
    requires
        name.len() > 0,
        !name.contains('/'),
        forall|i: int| 0 < i < name.len() ==> name[i] != '.',
    ensures
        paths::extension_of(name) is None,
{
    let n = name.len() as int;
    assert forall|i: int| 0 <= i < n implies name[i] != '/' by {
        assert(name.contains(name[i]));
    }
    paths::lemma_one_name(name, n);
    assert(name.subrange(0, n) =~= name);
    lemma_no_dot_but_first(name, n);
}

proof fn lemma_no_dot_but_first(name: Seq<char>, n: int)
    requires
        0 <= n <= name.len(),
        forall|i: int| 0 < i < name.len() ==> name[i] != '.',
    ensures
        paths::last_dot(name, n) matches Some(d) ==> d == 0,
    decreases n,
{
    if n > 0 {
        lemma_no_dot_but_first(name, n - 1);
    }
}

/// A file is kept as a text document if and only if its extension, in small or capital letters,
/// is one of those of text files.
pub proof fn law_text_files_have_text_extensions(stem: Seq<char>, ext: Seq<char>)
    requires
        stem.len() > 0,
        stem.last() != '/',
        ext.len() > 0,
        !ext.contains('/'),
        !ext.contains('.'),
    ensures
        ignore::text_path(stem.push('.') + ext) <==> seq![
            "txt"@,
            "c"@,
            "h"@,
            "cpp"@,
            "hpp"@,
            "rs"@,
            "py"@,
            "md"@,
            "json"@,
            "toml"@,
            "yaml"@,
            "yml"@,
            "js"@,
            "ts"@,
            "html"@,
            "css"@,
            "sh"@,
            "java"@,
            "go"@,
        ].contains(
            ext.map_values(
                |c: char| if 'A' <= c <= 'Z' { (c as u8 + 32) as u8 as char } else { c },
            ),
        ),
{
    law_extension_stands_behind_the_last_dot(stem, ext);
    let low = ext.map_values(
        |c: char| if 'A' <= c <= 'Z' { (c as u8 + 32) as u8 as char } else { c },
    );
    assert(low =~= text::lowered(ext));
    let all = seq![
        "txt"@,
        "c"@,
        "h"@,
        "cpp"@,
        "hpp"@,
        "rs"@,
        "py"@,
        "md"@,
        "json"@,
        "toml"@,
        "yaml"@,
        "yml"@,
        "js"@,
        "ts"@,
        "html"@,
        "css"@,
        "sh"@,
        "java"@,
        "go"@,
    ];
    assert(all[0] == "txt"@ && all[1] == "c"@ && all[2] == "h"@ && all[3] == "cpp"@);
    assert(all[4] == "hpp"@ && all[5] == "rs"@ && all[6] == "py"@ && all[7] == "md"@);
    assert(all[8] == "json"@ && all[9] == "toml"@ && all[10] == "yaml"@ && all[11] == "yml"@);
    assert(all[12] == "js"@ && all[13] == "ts"@ && all[14] == "html"@ && all[15] == "css"@);
    assert(all[16] == "sh"@ && all[17] == "java"@ && all[18] == "go"@);
}

/// A name without an extension is not that of a text file.
pub proof fn law_names_without_extension_hold_no_text(name: Seq<char>)
    requires
        name.len() > 0,
        !name.contains('/'),
        forall|i: int| 0 < i < name.len() ==> name[i] != '.',
    ensures
        !ignore::text_path(name),
{
    law_name_without_extension(name);
}

/// A path is left alone if and only if a part of it is: what lies in a directory that is left
/// alone is, and a file that is left alone is in any directory.
pub proof fn law_path_is_left_alone_by_its_parts(a: Seq<char>, b: Seq<char>)
    ensures
        ignore::ignored_rel(a.push('/') + b) <==> ignore::ignored_rel(a) || ignore::ignored_rel(b),
{
    let x = text::split_at_char(a, '/');
    let y = text::split_at_char(b, '/');
    let all = text::split_at_char(a.push('/') + b, '/');
    text::lemma_split_concat(a, b, '/');
    if ignore::ignored_rel(a) {
        let i = choose|i: int|
            0 <= i < x.len() && {
                let name = #[trigger] x[i];
                ignore::ignored_name(name, false) || ignore::is_ignored_dir(name)
            };
        assert(all[i] == x[i]);
    }
    if ignore::ignored_rel(b) {
        let i = choose|i: int|
            0 <= i < y.len() && {
                let name = #[trigger] y[i];
                ignore::ignored_name(name, false) || ignore::is_ignored_dir(name)
            };
        assert(all[x.len() + i] == y[i]);
    }
    if ignore::ignored_rel(a.push('/') + b) {
        let i = choose|i: int|
            0 <= i < all.len() && {
                let name = #[trigger] all[i];
                ignore::ignored_name(name, false) || ignore::is_ignored_dir(name)
            };
        if i < x.len() {
            assert(all[i] == x[i]);
        } else {
            assert(all[i] == y[i - x.len()]);
        }
    }
}

/// A path of one name is left alone if and only if a file of that name is, or it is that of a
/// directory in which versions or accounts are kept.
pub proof fn law_lone_name_is_left_alone(name: Seq<char>)
    requires
        !name.contains('/'),
    ensures
        ignore::ignored_rel(name) <==> ignore::ignored_name(name, false) || name == ".earth"@
            || name == ".git"@ || name == ".hg"@ || name == ".svn"@,
        ignore::ignored_name(name, true) <==> ignore::ignored_rel(name),
{
    text::lemma_split_one(name, '/');
    let x = text::split_at_char(name, '/');
    assert(x[0] == name);
}

/// Whether `s` ends in `t`, in small or capital letters.
pub open spec fn ends_in_any_case(s: Seq<char>, t: Seq<char>) -> bool {
    s.len() >= t.len() && forall|i: int|
        0 <= i < t.len() ==> {
            let c = #[trigger] s[s.len() - t.len() + i];
            c == t[i] || ('A' <= c <= 'Z' && c as int + 32 == t[i] as int)
        }
}

/// A name in small letters ends in `t` where the name does in any case.
proof fn lemma_lowered_suffix(s: Seq<char>, t: Seq<char>)
    requires
        forall|i: int| 0 <= i < t.len() ==> !('A' <= #[trigger] t[i] <= 'Z'),
    ensures
        text::has_suffix(text::lowered(s), t) <==> ends_in_any_case(s, t),
{
    let low = text::lowered(s);
    if s.len() >= t.len() {
        let m = s.len() - t.len();
        if text::has_suffix(low, t) {
            assert forall|i: int| 0 <= i < t.len() implies {
                let c = #[trigger] s[s.len() - t.len() + i];
                c == t[i] || ('A' <= c <= 'Z' && c as int + 32 == t[i] as int)
            } by {
                assert(low.skip(m)[i] == t[i]);
                assert(low[m + i] == text::lower_char(s[m + i]));
            }
        }
        if ends_in_any_case(s, t) {
            assert forall|i: int| 0 <= i < t.len() implies low.skip(m)[i] == t[i] by {
                let c = s[s.len() - t.len() + i];
                assert(low[m + i] == text::lower_char(c));
            }
            assert(low.skip(m) =~= t);
        }
    }
}

/// Backups, autosaves, locks and unfinished files are left alone, whatever else their names hold,
/// and so are the files that systems leave behind.
pub proof fn law_leftovers_are_left_alone(name: Seq<char>, is_dir: bool)
    ensures
        name.len() > 0 && name.last() == '~' ==> ignore::ignored_name(name, is_dir),
        name.len() > 0 && name[0] == '#' && name.last() == '#' ==> ignore::ignored_name(
            name,
            is_dir,
        ),
        name.len() > 1 && name[0] == '.' && name[1] == '#' ==> ignore::ignored_name(name, is_dir),
        ends_in_any_case(name, ".tmp"@) || ends_in_any_case(name, ".temp"@) || ends_in_any_case(
            name,
            ".part"@,
        ) || ends_in_any_case(name, ".crdownload"@) ==> ignore::ignored_name(name, is_dir),
        name == "4913"@ || name == ".DS_Store"@ || name == "Thumbs.db"@ || name == "desktop.ini"@
            ==> ignore::ignored_name(name, is_dir),
{
    lemma_leftovers(name);
}

/// The shapes of names that are left alone.
pub proof fn lemma_leftovers(name: Seq<char>)
    ensures
        text::has_suffix(name, "~"@) <==> name.len() > 0 && name.last() == '~',
        text::has_prefix(name, "#"@) && text::has_suffix(name, "#"@) <==> name.len() > 0 && name[0]
            == '#' && name.last() == '#',
        text::has_prefix(name, ".#"@) <==> name.len() > 1 && name[0] == '.' && name[1] == '#',
        text::has_prefix(name, "."@) <==> name.len() > 0 && name[0] == '.',
        ignore::is_partial_name(name) <==> ends_in_any_case(name, ".tmp"@) || ends_in_any_case(
            name,
            ".temp"@,
        ) || ends_in_any_case(name, ".part"@) || ends_in_any_case(name, ".crdownload"@),
{
    reveal_strlit("~");
    reveal_strlit("#");
    reveal_strlit(".#");
    reveal_strlit(".");
    reveal_strlit(".tmp");
    reveal_strlit(".temp");
    reveal_strlit(".part");
    reveal_strlit(".crdownload");
    lemma_lowered_suffix(name, ".tmp"@);
    lemma_lowered_suffix(name, ".temp"@);
    lemma_lowered_suffix(name, ".part"@);
    lemma_lowered_suffix(name, ".crdownload"@);
    let n = name.len() as int;
    if n > 0 {
        assert(name.skip(n - 1)[0] == name.last());
        assert(name.take(1)[0] == name[0]);
        if name.last() == '~' {
            assert(name.skip(n - 1) =~= "~"@);
        }
        if name.last() == '#' {
            assert(name.skip(n - 1) =~= "#"@);
        }
        if name[0] == '#' {
            assert(name.take(1) =~= "#"@);
        }
        if name[0] == '.' {
            assert(name.take(1) =~= "."@);
        }
    }
    if n > 1 {
        assert(name.take(2)[0] == name[0] && name.take(2)[1] == name[1]);
        if name[0] == '.' && name[1] == '#' {
            assert(name.take(2) =~= ".#"@);
        }
    }
}

/// Every other file is shared: one whose name does not begin with a dot and has none of these
/// shapes is not left alone.
pub proof fn law_ordinary_files_are_shared(name: Seq<char>, is_dir: bool)
    requires
        name.len() > 0,
        name[0] != '.',
        name.last() != '~',
        !(name[0] == '#' && name.last() == '#'),
        !ends_in_any_case(name, ".tmp"@),
        !ends_in_any_case(name, ".temp"@),
        !ends_in_any_case(name, ".part"@),
        !ends_in_any_case(name, ".crdownload"@),
        name != "4913"@,
        name != "Thumbs.db"@,
        name != "desktop.ini"@,
    ensures
        !ignore::ignored_name(name, is_dir),
        !name.contains('/') ==> !ignore::ignored_rel(name),
{
    lemma_leftovers(name);
    reveal_strlit(".DS_Store");
    reveal_strlit(".earth");
    reveal_strlit(".git");
    reveal_strlit(".hg");
    reveal_strlit(".svn");
    assert(".DS_Store"@[0] == '.' && ".earth"@[0] == '.' && ".git"@[0] == '.');
    assert(".hg"@[0] == '.' && ".svn"@[0] == '.');
    if !name.contains('/') {
        law_lone_name_is_left_alone(name);
    }
}

/// A hidden file that is no swap file and has none of these shapes is shared too: where no dot
/// stands behind the first one, or what stands behind the last dot does not begin with `sw`.
pub proof fn law_hidden_files_are_shared(name: Seq<char>, d: int)
    requires
        name.len() > 1,
        !name.contains('/'),
        name[0] == '.',
        name[1] != '#',
        name != ".."@,
        name.last() != '~',
        !ends_in_any_case(name, ".tmp"@),
        !ends_in_any_case(name, ".temp"@),
        !ends_in_any_case(name, ".part"@),
        !ends_in_any_case(name, ".crdownload"@),
        name != ".DS_Store"@,
        0 <= d < name.len(),
        name[d] == '.',
        forall|i: int| d < i < name.len() ==> name[i] != '.',
        d == 0 || d + 2 >= name.len() || !(name[d + 1] == 's' || name[d + 1] == 'S') || !(name[d
            + 2] == 'w' || name[d + 2] == 'W'),
    ensures
        !ignore::ignored_name(name, false),
{
    let n = name.len() as int;
    lemma_leftovers(name);
    reveal_strlit(".");
    reveal_strlit("sw");
    reveal_strlit("4913");
    reveal_strlit("Thumbs.db");
    reveal_strlit("desktop.ini");
    assert("4913"@[0] == '4' && "Thumbs.db"@[0] == 'T' && "desktop.ini"@[0] == 'd');
    assert forall|i: int| 0 <= i < n implies name[i] != '/' by {
        assert(name.contains(name[i]));
    }
    paths::lemma_one_name(name, n);
    assert(name.subrange(0, n) =~= name);
    lemma_last_dot_is(name, n, d);
    if d > 0 {
        let ext = name.skip(d + 1);
        let low = text::lowered(ext);
        assert(paths::extension_of(name) == Some(ext));
        if text::has_prefix(low, "sw"@) {
            assert(low.take(2)[0] == 's' && low.take(2)[1] == 'w');
            assert(low[0] == text::lower_char(ext[0]));
            assert(low[1] == text::lower_char(ext[1]));
            assert(ext[0] == name[d + 1] && ext[1] == name[d + 2]);
        }
    }
}

/// A hidden file whose name ends in a dot, `sw` and one more character, in small or capital
/// letters, is left alone.
pub proof fn law_swap_files_are_left_alone(name: Seq<char>, is_dir: bool)
    requires
        !name.contains('/'),
        name.len() >= 5,
        name[0] == '.',
        name[name.len() - 4] == '.',
        name[name.len() - 3] == 's' || name[name.len() - 3] == 'S',
        name[name.len() - 2] == 'w' || name[name.len() - 2] == 'W',
        (name[name.len() - 1] as int) < 128,
        name[name.len() - 1] != '.',
    ensures
        ignore::ignored_name(name, is_dir),
{
    let n = name.len() as int;
    lemma_leftovers(name);
    reveal_strlit("sw");
    reveal_strlit(".");
    reveal_strlit("..");
    assert forall|i: int| 0 <= i < n implies name[i] != '/' by {
        assert(name.contains(name[i]));
    }
    paths::lemma_one_name(name, n);
    assert(name.subrange(0, n) =~= name);
    lemma_last_dot_is(name, n, n - 4);
    let ext = name.skip(n - 3);
    let low = text::lowered(ext);
    assert(paths::extension_of(name) == Some(ext));
    assert(low[0] == text::lower_char(ext[0]));
    assert(low[1] == text::lower_char(ext[1]));
    assert(low[2] == text::lower_char(ext[2]));
    assert(is_ascii_chars(low));
    is_ascii_chars_encode_utf8(low);
    assert(low.take(2) =~= "sw"@);
}

/// The files that show that an editor has a file open stand beside it: the swap files of Vim, and
/// the lock file of Emacs.
pub proof fn law_markers_stand_beside_the_file(dir: Seq<char>, name: Seq<char>, x: Seq<char>)
    requires
        dir.len() > 0,
        dir.last() != '/',
        !(dir.len() >= 2 && dir[dir.len() - 2] == '/' && dir.last() == '.'),
        name.len() > 0,
        !name.contains('/'),
        name != "."@,
        name != ".."@,
    ensures
        visible::marker_paths(dir.push('/') + name).contains(x) <==> x == dir + "/.#"@ + name
            || exists|c: char|
            'a' <= c <= 'p' && x == #[trigger] (dir + "/."@ + name + ".sw"@).push(c),
{
    let path = dir.push('/') + name;
    let marks = visible::marker_paths(path);
    law_path_is_directory_and_name(dir, name);
    reveal_strlit("/.#");
    reveal_strlit(".#");
    reveal_strlit("/.");
    reveal_strlit(".");
    reveal_strlit(".sw");
    lemma_swap_letters();
    let sw = visible::swap_suffixes();
    assert forall|i: int| 0 <= i < 16 implies #[trigger] marks[i] == (dir + "/."@ + name
        + ".sw"@).push(sw[i][2]) by {
        let s = visible::swap_name(name, sw[i]);
        assert(sw[i].len() == 3);
        assert(s[0] == '.');
        assert(marks[i] == paths::joined_path(dir, s));
        assert(marks[i] =~= (dir + "/."@ + name + ".sw"@).push(sw[i][2]));
    }
    let lock = visible::emacs_lock_name(name);
    assert(lock[0] == '.');
    assert(marks[16] =~= dir + "/.#"@ + name);
    if marks.contains(x) {
        let i = choose|i: int| 0 <= i < marks.len() && marks[i] == x;
        if i < 16 {
            let c = sw[i][2];
            assert('a' <= c <= 'p');
            assert(x == (dir + "/."@ + name + ".sw"@).push(c));
        }
    }
    if exists|c: char| 'a' <= c <= 'p' && x == #[trigger] (dir + "/."@ + name + ".sw"@).push(c) {
        let c = choose|c: char|
            'a' <= c <= 'p' && x == #[trigger] (dir + "/."@ + name + ".sw"@).push(c);
        let i = 'p' as int - c as int;
        assert(sw[i][2] == c);
        assert(marks[i] == x);
    }
}

/// The extensions of swap files, by their last letter.
proof fn lemma_swap_letters()
    ensures
        visible::swap_suffixes().len() == 16,
        forall|i: int|
            0 <= i < 16 ==> (#[trigger] visible::swap_suffixes()[i]).len() == 3
                && visible::swap_suffixes()[i][0] == 's' && visible::swap_suffixes()[i][1] == 'w'
                && visible::swap_suffixes()[i][2] as int == 'p' as int - i,
{
    reveal_strlit("swp");
    reveal_strlit("swo");
    reveal_strlit("swn");
    reveal_strlit("swm");
    reveal_strlit("swl");
    reveal_strlit("swk");
    reveal_strlit("swj");
    reveal_strlit("swi");
    reveal_strlit("swh");
    reveal_strlit("swg");
    reveal_strlit("swf");
    reveal_strlit("swe");
    reveal_strlit("swd");
    reveal_strlit("swc");
    reveal_strlit("swb");
    reveal_strlit("swa");
}

/// A file is taken to be edited if and only if one of the files that show it is there.
pub proof fn law_edited_files_are_told(
    dir: Seq<char>,
    name: Seq<char>,
    present: Seq<Seq<char>>,
)
    requires
        dir.len() > 0,
        dir.last() != '/',
        !(dir.len() >= 2 && dir[dir.len() - 2] == '/' && dir.last() == '.'),
        name.len() > 0,
        !name.contains('/'),
        name != "."@,
        name != ".."@,
    ensures
        visible::is_edited(dir.push('/') + name, present) <==> present.contains(
            dir + "/.#"@ + name,
        ) || exists|c: char|
            'a' <= c <= 'p' && present.contains(#[trigger] (dir + "/."@ + name + ".sw"@).push(c)),
{
    let path = dir.push('/') + name;
    let marks = visible::marker_paths(path);
    let lock = dir + "/.#"@ + name;
    law_markers_stand_beside_the_file(dir, name, lock);
    if visible::is_edited(path, present) {
        let i = choose|i: int| 0 <= i < marks.len() && present.contains(#[trigger] marks[i]);
        assert(marks.contains(marks[i]));
        law_markers_stand_beside_the_file(dir, name, marks[i]);
    }
    if present.contains(lock) {
        let i = choose|i: int| 0 <= i < marks.len() && marks[i] == lock;
        assert(present.contains(marks[i]));
    }
    if exists|c: char|
        'a' <= c <= 'p' && present.contains(#[trigger] (dir + "/."@ + name + ".sw"@).push(c)) {
        let c = choose|c: char|
            'a' <= c <= 'p' && present.contains(#[trigger] (dir + "/."@ + name + ".sw"@).push(c));
        let x = (dir + "/."@ + name + ".sw"@).push(c);
        law_markers_stand_beside_the_file(dir, name, x);
        let i = choose|i: int| 0 <= i < marks.len() && marks[i] == x;
        assert(present.contains(marks[i]));
    }
}

/// A file of a shared folder is written beside itself first, under a name that is left alone.
pub proof fn law_visible_file_is_written_beside_itself(dir: Seq<char>, name: Seq<char>)
    requires
        dir.len() > 0,
        dir.last() != '/',
        !(dir.len() >= 2 && dir[dir.len() - 2] == '/' && dir.last() == '.'),
        name.len() > 0,
        !name.contains('/'),
        name != "."@,
        name != ".."@,
    ensures
        visible::visible_tmp(dir.push('/') + name) == dir + "/."@ + name + ".earth.tmp"@,
        ignore::ignored_rel(visible::visible_tmp(dir.push('/') + name)),
{
    law_path_is_directory_and_name(dir, name);
    reveal_strlit(".");
    reveal_strlit("/.");
    reveal_strlit(".earth.tmp");
    reveal_strlit(".tmp");
    let own = "."@ + name + ".earth.tmp"@;
    assert(own[0] == '.');
    let tmp = visible::visible_tmp(dir.push('/') + name);
    assert(tmp =~= dir + "/."@ + name + ".earth.tmp"@);
    assert(tmp =~= dir.push('/') + own);
    law_path_is_left_alone_by_its_parts(dir, own);
    law_leftovers_are_left_alone(own, false);
    assert forall|i: int| 0 <= i < own.len() implies own[i] != '/' by {
        if 1 <= i < 1 + name.len() {
            assert(name.contains(name[i - 1]));
        }
    }
    law_lone_name_is_left_alone(own);
}

/// A file of the account is written beside itself first, under its name with another extension.
pub proof fn law_extension_is_exchanged(stem: Seq<char>, ext: Seq<char>, new: Seq<char>)
    requires
        stem.len() > 0,
        stem.last() != '/',
        stem.last() != '.',
        ext.len() > 0,
        !ext.contains('/'),
        !ext.contains('.'),
    ensures
        paths::with_extension(stem.push('.') + ext, new) == stem.push('.') + new,
{
    law_extension_stands_behind_the_last_dot(stem, ext);
    let path = stem.push('.') + ext;
    let cut = path.take(path.len() - ext.len());
    let n = cut.len() as int;
    let d = stem.len() as int;
    assert(cut =~= stem.push('.'));
    paths::lemma_name_start(cut, n);
    let b = paths::name_start(cut, n);
    assert(cut[d - 1] == stem.last());
    assert(b < d);
    let name = cut.subrange(b, n);
    reveal_strlit(".");
    reveal_strlit("..");
    assert(name.len() >= 2);
    if name == ".."@ {
        assert(name[0] == '.');
        assert(cut[b] == stem.last());
    }
    assert(name[d - b] == '.');
    lemma_last_dot_is(name, name.len() as int, d - b);
    assert(cut.take(d) + "."@ + new =~= stem.push('.') + new);
}

/// Texts are ordered by the first character in which they differ; one that begins another comes
/// before it.
pub proof fn law_texts_are_ordered_by_their_first_difference(a: Seq<char>, b: Seq<char>)
    ensures
        order::before(a, b) <==> exists|k: int|
            0 <= k <= a.len() && k < b.len() && #[trigger] a.take(k) == b.take(k) && (k == a.len()
                || a[k] < b[k]),
    decreases a.len(),
{
    if b.len() > 0 && a.len() == 0 {
        assert(a.take(0) =~= b.take(0));
    } else if b.len() > 0 {
        let x = a.skip(1);
        let y = b.skip(1);
        if a[0] == b[0] {
            law_texts_are_ordered_by_their_first_difference(x, y);
            if order::before(a, b) {
                let k = choose|k: int|
                    0 <= k <= x.len() && k < y.len() && #[trigger] x.take(k) == y.take(k) && (k
                        == x.len() || x[k] < y[k]);
                assert forall|i: int| 0 <= i < k + 1 implies a[i] == b[i] by {
                    if i > 0 {
                        assert(x.take(k)[i - 1] == y.take(k)[i - 1]);
                    }
                }
                assert(a.take(k + 1) =~= b.take(k + 1));
            }
            if exists|k: int|
                0 <= k <= a.len() && k < b.len() && #[trigger] a.take(k) == b.take(k) && (k
                    == a.len() || a[k] < b[k]) {
                let k = choose|k: int|
                    0 <= k <= a.len() && k < b.len() && #[trigger] a.take(k) == b.take(k) && (k
                        == a.len() || a[k] < b[k]);
                assert(k > 0);
                assert forall|i: int| 0 <= i < k - 1 implies x[i] == y[i] by {
                    assert(a.take(k)[i + 1] == b.take(k)[i + 1]);
                }
                assert(x.take(k - 1) =~= y.take(k - 1));
            }
        } else {
            if order::before(a, b) {
                assert(a.take(0) =~= b.take(0));
            }
            if exists|k: int|
                0 <= k <= a.len() && k < b.len() && #[trigger] a.take(k) == b.take(k) && (k
                    == a.len() || a[k] < b[k]) {
                let k = choose|k: int|
                    0 <= k <= a.len() && k < b.len() && #[trigger] a.take(k) == b.take(k) && (k
                        == a.len() || a[k] < b[k]);
                if k > 0 {
                    assert(a.take(k)[0] == b.take(k)[0]);
                }
            }
        }
    }
}

/// Among the characters of ASCII, whitespace are the space and what stands from the tab to the
/// carriage return; behind them, the spaces that Unicode has.
pub proof fn law_whitespace(c: char)
    ensures
        (c as int) < 128 ==> (text::is_white(c) <==> c == ' ' || 9 <= c as int <= 13),
        128 <= c as int ==> (text::is_white(c) <==> set![
            0x85,
            0xa0,
            0x1680,
            0x2000,
            0x2001,
            0x2002,
            0x2003,
            0x2004,
            0x2005,
            0x2006,
            0x2007,
            0x2008,
            0x2009,
            0x200a,
            0x2028,
            0x2029,
            0x202f,
            0x205f,
            0x3000int,
        ].contains(c as int)),
{
}

/// What is taken off the end of a text is its whitespace, and all of it.
pub proof fn law_only_whitespace_is_trimmed(s: Seq<char>)
    ensures
        ({
            let t = text::trimmed_end(s);
            &&& t.len() <= s.len()
            &&& s.take(t.len() as int) == t
            &&& forall|i: int| t.len() <= i < s.len() ==> text::is_white(#[trigger] s[i])
            &&& t.len() > 0 ==> !text::is_white(t.last())
        }),
    decreases s.len(),
{
    if s.len() > 0 && text::is_white(s.last()) {
        law_only_whitespace_is_trimmed(s.drop_last());
        let t = text::trimmed_end(s);
        assert(s.take(t.len() as int) =~= s.drop_last().take(t.len() as int));
        assert forall|i: int| t.len() <= i < s.len() implies text::is_white(#[trigger] s[i]) by {
            if i < s.len() - 1 {
                assert(s.drop_last()[i] == s[i]);
            }
        }
    } else {
        assert(s.take(s.len() as int) =~= s);
    }
}

/// Digits in hexadecimal, small or capital, stand for the bytes that are written with them; an odd
/// number of them, or anything else among them, is refused.
pub proof fn law_hexadecimal_digits_are_read(s: Seq<char>)
    requires
        is_ascii_chars(s),
    ensures
        codec::unhexed(s) is Ok <==> s.len() % 2 == 0 && forall|i: int|
            0 <= i < s.len() ==> '0' <= #[trigger] s[i] <= '9' || 'a' <= s[i] <= 'f' || 'A' <= s[i]
                <= 'F',
        codec::unhexed(s) matches Ok(b) ==> codec::hex_of(b) == s.map_values(
            |c: char| if 'A' <= c <= 'Z' { (c as u8 + 32) as u8 as char } else { c },
        ),
{
    let e = encode_utf8(s);
    is_ascii_chars_encode_utf8(s);
    is_ascii_chars_nat_bound(s);
    assert(e.len() == s.len());
    assert forall|i: int| 0 <= i < s.len() implies (codec::hex_value(#[trigger] e[i]) is Some <==> (
    '0' <= s[i] <= '9' || 'a' <= s[i] <= 'f' || 'A' <= s[i] <= 'F')) by {
        assert(e[i] == s[i] as u8);
        assert((s[i] as nat) < 128);
    }
    if codec::all_hex(e) {
        assert forall|i: int| 0 <= i < s.len() implies '0' <= #[trigger] s[i] <= '9' || 'a' <= s[i]
            <= 'f' || 'A' <= s[i] <= 'F' by {
            assert(codec::hex_value(e[i]) is Some);
        }
    }
    if let Ok(b) = codec::unhexed(s) {
        let h = codec::hex_of(b);
        let low = s.map_values(
            |c: char| if 'A' <= c <= 'Z' { (c as u8 + 32) as u8 as char } else { c },
        );
        codec::lemma_hex_of(b);
        assert(h.len() == low.len());
        assert forall|i: int| 0 <= i < b.len() implies #[trigger] h[2 * i] == low[2 * i] && h[2 * i
            + 1] == low[2 * i + 1] by {
            let x = codec::hex_value(e[2 * i])->0;
            let y = codec::hex_value(e[2 * i + 1])->0;
            assert(codec::hex_value(e[2 * i]) is Some && codec::hex_value(e[2 * i + 1]) is Some);
            assert(e[2 * i] == s[2 * i] as u8 && e[2 * i + 1] == s[2 * i + 1] as u8);
            assert(x < 16 && y < 16);
            assert(b[i] == (x * 16 + y) as u8);
            assert(b[i] / 16 == x && b[i] % 16 == y);
            assert(h[2 * i] == decimal::hex_char((b[i] / 16) as nat));
        }
        assert forall|k: int| 0 <= k < h.len() implies h[k] == low[k] by {
            let i = k / 2;
            assert(0 <= i < b.len());
            assert(h[2 * i] == low[2 * i]);
            assert(k == 2 * i || k == 2 * i + 1);
        }
        assert(h =~= low);
    }
}

/// Only what has a meaning of its own in a line is escaped: every other character stands for
/// itself, and one after another.
pub proof fn law_characters_are_escaped_one_by_one(a: Seq<char>, c: char)
    ensures
        c != '%' && c != '\t' && c != '\n' ==> codec::escaped(a.push(c)) == codec::escaped(a).push(
            c,
        ),
        codec::escaped(a.push('%')) == codec::escaped(a) + "%25"@,
        codec::escaped(a.push('\t')) == codec::escaped(a) + "%09"@,
        codec::escaped(a.push('\n')) == codec::escaped(a) + "%0A"@,
        codec::escaped(Seq::empty()) == Seq::<char>::empty(),
{
    reveal_strlit("%25");
    reveal_strlit("%09");
    reveal_strlit("%0A");
    assert(a.push(c).drop_last() =~= a);
    assert(a.push('%').drop_last() =~= a);
    assert(a.push('\t').drop_last() =~= a);
    assert(a.push('\n').drop_last() =~= a);
    assert(codec::escape_char('%') =~= "%25"@);
    assert(codec::escape_char('\t') =~= "%09"@);
    assert(codec::escape_char('\n') =~= "%0A"@);
    if c != '%' && c != '\t' && c != '\n' {
        assert(codec::escaped(a) + seq![c] =~= codec::escaped(a).push(c));
    }
}

/// A text in which no escape stands is its own meaning.
pub proof fn law_unescaped_text_stands_for_itself(s: Seq<char>)
    requires
        forall|i: int| 0 <= i < s.len() ==> s[i] != '%',
    ensures
        codec::unescaped(s) == s,
    decreases s.len(),
{
    if s.len() > 0 {
        let r = s.skip(1);
        law_unescaped_text_stands_for_itself(r);
        assert(seq![s[0]] + r =~= s);
    } else {
        assert(s =~= Seq::<char>::empty());
    }
}

/// A number is read from its decimal digits, with zeros or a plus sign before them or not, where
/// it is not too large; a text with anything else in it is no number.
pub proof fn law_numbers_are_read(n: nat, max: nat, s: Seq<char>)
    ensures
        decimal::number_up_to(decimal::digits(n), max) == if n <= max {
            Some(n)
        } else {
            None
        },
        decimal::number(seq!['+'] + decimal::digits(n)) == Some(n),
        decimal::number(seq!['0'] + decimal::digits(n)) == Some(n),
        (exists|i: int| 0 < i < s.len() && !('0' <= #[trigger] s[i] <= '9')) ==> decimal::number(
            s,
        ) is None,
        s.len() == 0 ==> decimal::number(s) is None,
        s.len() > 0 && s[0] != '+' && !('0' <= s[0] <= '9') ==> decimal::number(s) is None,
{
    let d = decimal::digits(n);
    decimal::law_number_of_digits(n);
    decimal::lemma_digits(n);
    assert((seq!['+'] + d).skip(1) =~= d);
    assert(d[0] != '+') by {
        assert(decimal::is_digit(d[0]));
    }
    let z = seq!['0'] + d;
    assert(decimal::all_digits(z)) by {
        assert forall|i: int| 0 <= i < z.len() implies decimal::is_digit(#[trigger] z[i]) by {
            if i > 0 {
                assert(z[i] == d[i - 1]);
            }
        }
    }
    lemma_leading_zero(d);
    if exists|i: int| 0 < i < s.len() && !('0' <= #[trigger] s[i] <= '9') {
        let i = choose|i: int| 0 < i < s.len() && !('0' <= #[trigger] s[i] <= '9');
        assert(!decimal::is_digit(s[i]));
        assert(s.skip(1)[i - 1] == s[i]);
        assert(!decimal::is_digit(s.skip(1)[i - 1]));
    }
}

/// A zero before digits does not change what they stand for.
proof fn lemma_leading_zero(d: Seq<char>)
    ensures
        decimal::digits_value(seq!['0'] + d) == decimal::digits_value(d),
    decreases d.len(),
{
    let z = seq!['0'] + d;
    if d.len() > 0 {
        lemma_leading_zero(d.drop_last());
        assert(z.drop_last() =~= seq!['0'] + d.drop_last());
        assert(z.last() == d.last());
    } else {
        assert(z.drop_last() =~= Seq::<char>::empty());
        assert(decimal::digits_value(z.drop_last()) == 0);
        assert(z.last() == '0');
    }
}

/// A number with zeros before it has at least the asked width, and stands for the same.
pub proof fn law_padded_numbers(n: nat, width: nat)
    ensures
        decimal::zero_padded(n, width).len() >= width,
        decimal::number(decimal::zero_padded(n, width)) == Some(n),
        decimal::digits(n).len() >= width ==> decimal::zero_padded(n, width) == decimal::digits(n),
    decreases width,
{
    let d = decimal::digits(n);
    decimal::law_number_of_digits(n);
    decimal::lemma_digits(n);
    if d.len() < width {
        let k = (width - d.len()) as nat;
        let zs = Seq::new(k, |i: int| '0');
        let z = zs + d;
        assert(z == decimal::zero_padded(n, width));
        lemma_zeros(k, d);
        assert(decimal::all_digits(z)) by {
            assert forall|i: int| 0 <= i < z.len() implies decimal::is_digit(#[trigger] z[i]) by {
                if i >= k {
                    assert(z[i] == d[i - k]);
                }
            }
        }
        assert(z[0] == '0');
        assert(d[0] != '+') by {
            assert(decimal::is_digit(d[0]));
        }
    }
}

proof fn lemma_zeros(k: nat, d: Seq<char>)
    ensures
        decimal::digits_value(Seq::new(k, |i: int| '0') + d) == decimal::digits_value(d),
    decreases k,
{
    let z = Seq::new(k, |i: int| '0') + d;
    if k > 0 {
        let y = Seq::new((k - 1) as nat, |i: int| '0') + d;
        lemma_zeros((k - 1) as nat, d);
        assert(z =~= seq!['0'] + y);
        lemma_leading_zero(y);
    } else {
        assert(z =~= d);
    }
}

/// The number of the bytes of a run is written such that other numbers are written otherwise, in
/// as many bytes as the machine has for it, and one order is the reverse of the other.
pub proof fn law_run_lengths_are_told_apart(m: nat, n: nat, order: ByteOrder)
    requires
        m <= usize::MAX,
        n <= usize::MAX,
        hash::number_bytes(m, order) == hash::number_bytes(n, order),
    ensures
        m == n,
        hash::number_bytes(n, ByteOrder::HighFirst) == hash::number_bytes(
            n,
            ByteOrder::LowFirst,
        ).reverse(),
        usize::BITS == 64 ==> hash::number_bytes(n, ByteOrder::LowFirst) == spec_u64_to_le_bytes(
            n as u64,
        ),
        usize::BITS == 32 ==> hash::number_bytes(n, ByteOrder::LowFirst) == spec_u32_to_le_bytes(
            n as u32,
        ),
{
    lemma_auto_spec_u64_to_from_le_bytes();
    lemma_auto_spec_u32_to_from_le_bytes();
    let a = hash::number_bytes(m, ByteOrder::LowFirst);
    let b = hash::number_bytes(n, ByteOrder::LowFirst);
    if order is HighFirst {
        assert(a.reverse().reverse() =~= a);
        assert(b.reverse().reverse() =~= b);
    }
    assert(a == b);
    if usize::BITS == 64 {
        assert(spec_u64_from_le_bytes(a) == m as u64);
        assert(spec_u64_from_le_bytes(b) == n as u64);
    } else {
        assert(usize::BITS == 32);
        assert(usize::MAX <= u32::MAX);
        assert(spec_u32_to_le_bytes(m as u32).len() == 4);
        assert(spec_u32_to_le_bytes(n as u32).len() == 4);
    }
}

/// The hash of a text is taken of its bytes and a byte that occurs in no text.
pub proof fn law_text_is_hashed_whole(s: Seq<char>)
    ensures
        hash::text_hash(s) == hash::digest(seq![encode_utf8(s), seq![0xffu8]]),
        hash::text_hash(s).len() == 16,
{
    hash::lemma_digest(hash::text_writes(s));
}

/// A time in milliseconds leaves out less than a millisecond.
pub proof fn law_milliseconds_are_whole(secs: nat, nanos: nat)
    ensures
        clock::whole_ms(secs, nanos) * 1_000_000 <= secs * 1_000_000_000 + nanos < (clock::whole_ms(
            secs,
            nanos,
        ) + 1) * 1_000_000,
{
}

} // verus!
