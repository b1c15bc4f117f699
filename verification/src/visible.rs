//! When and how the files of a shared folder, and those of an account, are written.

use vstd::prelude::*;
use vstd::string::*;
use vstd::utf8::*;

use crate::hash;
use crate::hash::ByteOrder;
use crate::ignore;
use crate::paths;
use crate::text;

verus! {

/// The extensions of the swap files of Vim.
pub open spec fn swap_suffixes() -> Seq<Seq<char>> {
    seq![
        "swp"@,
        "swo"@,
        "swn"@,
        "swm"@,
        "swl"@,
        "swk"@,
        "swj"@,
        "swi"@,
        "swh"@,
        "swg"@,
        "swf"@,
        "swe"@,
        "swd"@,
        "swc"@,
        "swb"@,
        "swa"@,
    ]
}

/// The name of the swap file with the extension `suffix` for a file with the name `name`.
pub open spec fn swap_name(name: Seq<char>, suffix: Seq<char>) -> Seq<char> {
    "."@ + name + "."@ + suffix
}

/// The name of the lock file of Emacs for a file with the name `name`.
pub open spec fn emacs_lock_name(name: Seq<char>) -> Seq<char> {
    ".#"@ + name
}

/// The files that show that an editor has the file at `path` open.
pub open spec fn marker_paths(path: Seq<char>) -> Seq<Seq<char>> {
    match paths::parent_of(path) {
        Some(dir) => match paths::file_name_of(path) {
            Some(name) => Seq::new(
                swap_suffixes().len(),
                |i: int| paths::joined_path(dir, swap_name(name, swap_suffixes()[i])),
            ).push(paths::joined_path(dir, emacs_lock_name(name))),
            None => Seq::empty(),
        },
        None => Seq::empty(),
    }
}

/// The extensions of the swap files of Vim.
fn suffixes() -> (r: Vec<String>)
    ensures
        text::views(r@) == swap_suffixes(),
{
    let r: Vec<String> = vec![
        text::owned("swp"),
        text::owned("swo"),
        text::owned("swn"),
        text::owned("swm"),
        text::owned("swl"),
        text::owned("swk"),
        text::owned("swj"),
        text::owned("swi"),
        text::owned("swh"),
        text::owned("swg"),
        text::owned("swf"),
        text::owned("swe"),
        text::owned("swd"),
        text::owned("swc"),
        text::owned("swb"),
        text::owned("swa"),
    ];
    assert(text::views(r@) =~= swap_suffixes());
    r
}

/// The files that show that an editor has the file at `path` open.
pub fn editor_markers(path: &str) -> (r: Vec<String>)
    ensures
        text::views(r@) == marker_paths(path@),
{
    let mut out: Vec<String> = Vec::new();
    let dir = match paths::parent(path) {
        Some(d) => d,
        None => {
            assert(text::views(out@) =~= Seq::<Seq<char>>::empty());
            return out;
        },
    };
    let name = match paths::file_name(path) {
        Some(n) => n,
        None => {
            assert(text::views(out@) =~= Seq::<Seq<char>>::empty());
            return out;
        },
    };
    let ends = suffixes();
    let ghost all = marker_paths(path@);
    let mut i: usize = 0;
    while i < ends.len()
        invariant
            i <= ends@.len(),
            text::views(ends@) == swap_suffixes(),
            paths::parent_of(path@) == Some(dir@),
            paths::file_name_of(path@) == Some(name@),
            all == marker_paths(path@),
            text::views(out@) =~= all.take(i as int),
        decreases ends@.len() - i,
    {
        let mut file = text::owned(".");
        file.append(&name);
        file.append(".");
        file.append(&ends[i]);
        let ghost done = text::views(out@);
        proof {
            assert(swap_suffixes()[i as int] == ends@[i as int]@);
            assert(file@ == swap_name(name@, swap_suffixes()[i as int]));
        }
        let marker = paths::join(&dir, &file);
        let ghost mv = marker@;
        out.push(marker);
        assert(text::views(out@) =~= done.push(mv));
        i = i + 1;
    }
    let mut file = text::owned(".#");
    file.append(&name);
    let ghost done = text::views(out@);
    let marker = paths::join(&dir, &file);
    let ghost mv = marker@;
    out.push(marker);
    assert(text::views(out@) =~= done.push(mv));
    assert(text::views(out@) =~= all);
    out
}

/// Whether one of the files `present` shows that an editor has the file at `path` open.
pub open spec fn is_edited(path: Seq<char>, present: Seq<Seq<char>>) -> bool {
    exists|i: int|
        0 <= i < marker_paths(path).len() && present.contains(#[trigger] marker_paths(path)[i])
}

/// Tests whether an editor has the file at `path` open; `present` lists files that are there,
/// those of [`editor_markers`] that are there among them.
pub fn has_active_editor_marker(path: &str, present: &Vec<String>) -> (r: bool)
    ensures
        r == is_edited(path@, text::views(present@)),
{
    let markers = editor_markers(path);
    let ghost all = marker_paths(path@);
    let mut i: usize = 0;
    while i < markers.len()
        invariant
            i <= markers@.len(),
            text::views(markers@) == all,
            all == marker_paths(path@),
            forall|j: int| 0 <= j < i ==> !text::views(present@).contains(#[trigger] all[j]),
        decreases markers@.len() - i,
    {
        assert(all[i as int] == markers@[i as int]@);
        if text::is_one_of(present, &markers[i]) {
            return true;
        }
        i = i + 1;
    }
    false
}

/// How many milliseconds a file must have been left alone before it is taken over.
pub const QUIET_MS: u128 = 1200;

/// Tests whether a file has been left alone for long enough. `age_ms` says how long ago it was
/// changed, where that is known and lies in the past.
pub fn is_file_stable(age_ms: Option<u128>, quiet_ms: u128) -> (r: bool)
    ensures
        r == match age_ms {
            Some(age) => age >= quiet_ms,
            None => true,
        },
{
    match age_ms {
        Some(age) => age >= quiet_ms,
        None => true,
    }
}

/// What is to be done with a file of a shared folder that should be written.
pub enum VisibleWrite {
    /// Nothing: it is one that is left alone.
    Ignored,
    /// Nothing now: an editor has it open.
    Deferred,
    /// Nothing: it holds what it should.
    Unchanged,
    /// Make the directory, write the data to the file `tmp` and rename that.
    Write { dir: Option<String>, tmp: String },
}

/// The file that is written first, and then renamed to `path`.
pub open spec fn visible_tmp(path: Seq<char>) -> Seq<char> {
    paths::joined_path(
        match paths::parent_of(path) {
            Some(dir) => dir,
            None => "."@,
        },
        "."@ + (match paths::file_name_of(path) {
            Some(name) => name,
            None => "file"@,
        }) + ".earth.tmp"@,
    )
}

/// The view of a content that may be missing.
pub open spec fn opt_bytes(b: Option<&Vec<u8>>) -> Option<Seq<u8>> {
    match b {
        Some(v) => Some(v@),
        None => None,
    }
}

/// The view of a text that may be missing.
pub open spec fn opt_string(s: Option<String>) -> Option<Seq<char>> {
    match s {
        Some(t) => Some(t@),
        None => None,
    }
}

/// Decides what is to be done so that the file at `path` holds `data`. `edited` says whether an
/// editor has it open, `existing` what it holds, where it is there; `order` is how this machine
/// keeps bytes.
pub fn write_visible_bytes(
    path: &str,
    edited: bool,
    existing: Option<&Vec<u8>>,
    data: &[u8],
    order: ByteOrder,
) -> (r: VisibleWrite)
    ensures
        ignore::ignored_rel(path@) ==> r is Ignored,
        !ignore::ignored_rel(path@) && edited ==> r is Deferred,
        !ignore::ignored_rel(path@) && !edited && hash::holds(opt_bytes(existing), data@, order)
            ==> r is Unchanged,
        !ignore::ignored_rel(path@) && !edited && !hash::holds(opt_bytes(existing), data@, order)
            ==> (r matches VisibleWrite::Write { dir, tmp } && opt_string(dir)
            == paths::parent_of(path@) && tmp@ == visible_tmp(path@)),
{
    if ignore::is_ignored_rel(path) {
        return VisibleWrite::Ignored;
    }
    if edited {
        return VisibleWrite::Deferred;
    }
    if hash::path_content_equals(existing, data, order) {
        return VisibleWrite::Unchanged;
    }
    let dir = paths::parent(path);
    let mut file = text::owned(".");
    match paths::file_name(path) {
        Some(name) => {
            file.append(&name);
        },
        None => {
            file.append("file");
        },
    }
    file.append(".earth.tmp");
    let tmp = match &dir {
        Some(d) => paths::join(d, &file),
        None => paths::join(".", &file),
    };
    VisibleWrite::Write { dir, tmp }
}

/// How a file of an account is written: the directory is made, the content goes to the file
/// `tmp`, and that is renamed.
pub struct StoreWrite {
    pub dir: Option<String>,
    pub tmp: String,
}

/// Decides how the file at `path` of an account is made to hold `data`; nothing is to be done
/// where it does.
pub fn write_bytes(
    path: &str,
    existing: Option<&Vec<u8>>,
    data: &[u8],
    order: ByteOrder,
) -> (r: Option<StoreWrite>)
    ensures
        match r {
            None => hash::holds(opt_bytes(existing), data@, order),
            Some(w) => !hash::holds(opt_bytes(existing), data@, order) && opt_string(w.dir)
                == paths::parent_of(path@) && w.tmp@ == paths::with_extension(path@, "tmp-earth"@),
        },
{
    if hash::path_content_equals(existing, data, order) {
        return None;
    }
    Some(
        StoreWrite { dir: paths::parent(path), tmp: paths::set_extension(path, "tmp-earth") },
    )
}

/// Decides how the file at `path` of an account is made to hold a text.
pub fn write_string(
    path: &str,
    existing: Option<&Vec<u8>>,
    data: &str,
    order: ByteOrder,
) -> (r: Option<StoreWrite>)
    ensures
        match r {
            None => hash::holds(opt_bytes(existing), encode_utf8(data@), order),
            Some(w) => !hash::holds(opt_bytes(existing), encode_utf8(data@), order) && opt_string(w.dir)
                == paths::parent_of(path@) && w.tmp@ == paths::with_extension(path@, "tmp-earth"@),
        },
{
    write_bytes(path, existing, data.as_bytes(), order)
}

/// The extension of a swap file is `sw` and a small letter.
proof fn lemma_swap_suffixes(i: int)
    requires
        0 <= i < swap_suffixes().len(),
    ensures
        ({
            let e = swap_suffixes()[i];
            e.len() == 3 && e[0] == 's' && e[1] == 'w' && 'a' <= e[2] <= 'z'
        }),
{
    reveal_strlit("swp");
    reveal_strlit("swo");
    reveal_strlit("swn");
    reveal_strlit("swm");
    reveal_strlit("swl");
    reveal_strlit("swk");
    reveal_strlit("swj");
    reveal_strlit("swi");
    reveal_strlit("swh");
    reveal_strlit("swg");
    reveal_strlit("swf");
    reveal_strlit("swe");
    reveal_strlit("swd");
    reveal_strlit("swc");
    reveal_strlit("swb");
    reveal_strlit("swa");
}

/// A name without slashes that begins with a dot and ends in a dot and `sw` with a small letter
/// is that of a swap file.
proof fn lemma_swap_name(s: Seq<char>)
    requires
        !s.contains('/'),
        s.len() >= 5,
        s[0] == '.',
        s[s.len() - 4] == '.',
        s[s.len() - 3] == 's',
        s[s.len() - 2] == 'w',
        'a' <= s[s.len() - 1] <= 'z',
    ensures
        ignore::is_swap_name(s),
{
    let n = s.len() as int;
    reveal_strlit(".");
    reveal_strlit("..");
    reveal_strlit("sw");
    assert(s.contains(s[n - 1]));
    paths::lemma_one_name(s, n);
    assert(s.subrange(0, n) =~= s);
    assert(paths::file_name_of(s) == Some(s));
    reveal_with_fuel(paths::last_dot, 5);
    assert(paths::last_dot(s, n) == Some(n - 4));
    let ext = s.skip(n - 3);
    assert(paths::extension_of(s) == Some(ext));
    let low = text::lowered(ext);
    assert(low =~= ext);
    assert(is_ascii_chars(ext));
    is_ascii_chars_encode_utf8(ext);
    assert(ext.take(2) =~= "sw"@);
    assert(s.take(1) =~= "."@);
}

/// What editors leave beside a file while they have it open is left alone itself, and so is the
/// file that is written first when a file of a shared folder is written.
pub proof fn law_markers_are_left_alone(name: Seq<char>, is_dir: bool)
    requires
        name.len() > 0,
        !name.contains('/'),
    ensures
        forall|i: int|
            0 <= i < swap_suffixes().len() ==> ignore::ignored_name(
                swap_name(name, #[trigger] swap_suffixes()[i]),
                is_dir,
            ),
        ignore::ignored_name(emacs_lock_name(name), is_dir),
        ignore::ignored_name("."@ + name + ".earth.tmp"@, is_dir),
{
    reveal_strlit(".");
    reveal_strlit(".#");
    assert forall|i: int| 0 <= i < swap_suffixes().len() implies ignore::ignored_name(
        swap_name(name, #[trigger] swap_suffixes()[i]),
        is_dir,
    ) by {
        lemma_swap_suffixes(i);
        let s = swap_name(name, swap_suffixes()[i]);
        assert forall|k: int| 0 <= k < s.len() implies s[k] != '/' by {
            if 1 <= k < 1 + name.len() {
                assert(s[k] == name[k - 1]);
                assert(name.contains(name[k - 1]));
            }
        }
        lemma_swap_name(s);
    }
    let lock = emacs_lock_name(name);
    assert(lock.take(2) =~= ".#"@);
    let tmp = "."@ + name + ".earth.tmp"@;
    reveal_strlit(".earth.tmp");
    reveal_strlit(".tmp");
    let low = text::lowered(tmp);
    assert(low.skip(low.len() - 4) =~= ".tmp"@);
}

} // verus!
