//! Taking over what has changed in a shared folder, and writing out what a share holds.

use vstd::prelude::*;
use vstd::string::*;

use crate::hash;
use crate::ignore;
use crate::manifest;
use crate::manifest::{EntryView, Manifest, ManifestEntry};
use crate::ordmap;
use crate::ordmap::OrdMap;
use crate::paths;
use crate::text;
use crate::visible;

verus! {

/// What is done with a file that was found in a shared folder.
pub enum FileUse {
    /// Nothing now: an editor has it open, or it was changed a moment ago.
    Skip,
    /// It is kept as a text document.
    Text,
    /// Its content is kept as it is.
    Blob,
}

/// Decides what is done with the file at `path`. `edited` says whether an editor has it open,
/// `age_ms` how long ago it was changed, where that is known.
pub fn file_use(path: &str, edited: bool, age_ms: Option<u128>) -> (r: FileUse)
    ensures
        ({
            let busy = edited || match age_ms {
                Some(age) => age < 1200,
                None => false,
            };
            match r {
                FileUse::Skip => busy,
                FileUse::Text => !busy && ignore::text_path(path@),
                FileUse::Blob => !busy && !ignore::text_path(path@),
            }
        }),
{
    if edited || !visible::is_file_stable(age_ms, visible::QUIET_MS) {
        FileUse::Skip
    } else if ignore::is_text_path(path) {
        FileUse::Text
    } else {
        FileUse::Blob
    }
}

/// The path of a file in its share, with slashes between the names.
pub fn normal_rel(rel: &str) -> (r: String)
    ensures
        r@ == text::with_char(rel@, '\\', '/'),
{
    text::replace_char(rel, '\\', '/')
}

/// The name of the text document of the file at `rel`.
pub open spec fn text_object_of(rel: Seq<char>) -> Seq<char> {
    hash::text_hash(rel) + ".crdt"@
}

/// The name of the text document of the file at `rel`.
pub fn text_object(rel: &str) -> (r: String)
    ensures
        r@ == text_object_of(rel@),
{
    let mut s = hash::stable_hash(rel);
    s.append(".crdt");
    s
}

/// What was found of a file in a shared folder.
pub enum FileState {
    /// It is not to be taken over now.
    Busy,
    /// It is a text file, last changed at this time, of this size.
    Text { mtime: u64, size: u64 },
    /// It is another file, with a content that has this hash.
    Blob { hash: String, mtime: u64, size: u64 },
}

/// What was found of a file in a shared folder, in terms of values.
pub enum StateView {
    Busy,
    Text { mtime: nat, size: nat },
    Blob { hash: Seq<char>, mtime: nat, size: nat },
}

/// A file that was found in a shared folder.
pub struct Found {
    pub rel: String,
    pub state: FileState,
}

/// A file that was found in a shared folder, in terms of values.
#[verifier::ext_equal]
pub struct FoundView {
    pub rel: Seq<char>,
    pub state: StateView,
}

impl View for Found {
    type V = FoundView;

    open spec fn view(&self) -> FoundView {
        FoundView {
            rel: self.rel@,
            state: match self.state {
                FileState::Busy => StateView::Busy,
                FileState::Text { mtime, size } => StateView::Text {
                    mtime: mtime as nat,
                    size: size as nat,
                },
                FileState::Blob { hash, mtime, size } => StateView::Blob {
                    hash: hash@,
                    mtime: mtime as nat,
                    size: size as nat,
                },
            },
        }
    }
}

/// What the files of a list are.
pub open spec fn found_views(v: Seq<Found>) -> Seq<FoundView> {
    Seq::new(v.len(), |i: int| v[i]@)
}

/// The manifest `m` without the paths that are left alone.
pub open spec fn pruned(m: Manifest) -> Manifest {
    Map::new(|k: Seq<char>| m.dom().contains(k) && !ignore::ignored_rel(k), |k: Seq<char>| m[k])
}

/// The entry of the text file at `rel`.
pub open spec fn text_entry(rel: Seq<char>, mtime: nat, size: nat) -> EntryView {
    EntryView { path: rel, kind: "text"@, object: text_object_of(rel), mtime, size }
}

/// The entry of another file at `rel`.
pub open spec fn blob_entry(rel: Seq<char>, hash: Seq<char>, mtime: nat, size: nat) -> EntryView {
    EntryView { path: rel, kind: "blob"@, object: hash, mtime, size }
}

/// The entry that a file gets, unless it is busy.
pub open spec fn entry_of(f: FoundView) -> Option<EntryView> {
    match f.state {
        StateView::Busy => None,
        StateView::Text { mtime, size } => Some(text_entry(f.rel, mtime, size)),
        StateView::Blob { hash, mtime, size } => Some(blob_entry(f.rel, hash, mtime, size)),
    }
}

/// Whether a text file is to be read: whether it is new, or its time or size is another than the
/// manifest says.
pub open spec fn is_changed(m: Manifest, f: FoundView) -> bool {
    match f.state {
        StateView::Text { mtime, size } => !m.dom().contains(f.rel) || m[f.rel].mtime != mtime
            || m[f.rel].size != size,
        _ => false,
    }
}

/// The manifest after the files `fs` were seen.
pub open spec fn after_files(m: Manifest, fs: Seq<FoundView>) -> Manifest
    decreases fs.len(),
{
    if fs.len() == 0 {
        pruned(m)
    } else {
        let before = after_files(m, fs.drop_last());
        match entry_of(fs.last()) {
            Some(e) => before.insert(fs.last().rel, e),
            None => before,
        }
    }
}

/// The paths of the text files among `fs` that are to be read.
pub open spec fn to_read(m: Manifest, fs: Seq<FoundView>) -> Seq<Seq<char>>
    decreases fs.len(),
{
    if fs.len() == 0 {
        Seq::empty()
    } else {
        let head = to_read(m, fs.drop_last());
        if is_changed(after_files(m, fs.drop_last()), fs.last()) {
            head.push(fs.last().rel)
        } else {
            head
        }
    }
}

/// Whether a file with the path `rel` was seen.
pub open spec fn was_seen(fs: Seq<FoundView>, rel: Seq<char>) -> bool {
    exists|i: int| 0 <= i < fs.len() && (#[trigger] fs[i]).rel == rel
}

/// The manifest after a scan that found the files `fs`: what was not found, or is left alone, is
/// no longer listed.
pub open spec fn scanned(m: Manifest, fs: Seq<FoundView>) -> Manifest {
    let after = after_files(m, fs);
    Map::new(
        |k: Seq<char>|
            after.dom().contains(k) && was_seen(fs, k) && !ignore::ignored_rel(k),
        |k: Seq<char>| after[k],
    )
}

/// The outcome of a scan: the new manifest, and the text files that are to be read into their
/// documents.
pub struct Scan {
    pub manifest: OrdMap<ManifestEntry>,
    pub changed: Vec<String>,
}

/// A copy of an entry.
fn copy_entry(e: &ManifestEntry) -> (r: ManifestEntry)
    ensures
        r@ == e@,
{
    ManifestEntry {
        path: e.path.clone(),
        kind: e.kind.clone(),
        object: e.object.clone(),
        mtime: e.mtime,
        size: e.size,
    }
}

/// The entries of the first `n` keys that are not left alone and, where `seen` is asked, were
/// seen.
spec fn kept(m: Manifest, keys: Seq<Seq<char>>, n: int, seen: Option<Set<Seq<char>>>) -> Manifest {
    Map::new(
        |k: Seq<char>|
            keys.take(n).contains(k) && !ignore::ignored_rel(k) && match seen {
                Some(s) => s.contains(k),
                None => true,
            },
        |k: Seq<char>| m[k],
    )
}

/// The entries that are not left alone and, where `seen` is given, were seen.
fn keep(m: &OrdMap<ManifestEntry>, seen: Option<&OrdMap<bool>>) -> (r: OrdMap<ManifestEntry>)
    requires
        m.wf(),
        seen matches Some(s) ==> s.wf(),
    ensures
        r.wf(),
        r@ == Map::new(
            |k: Seq<char>|
                m@.dom().contains(k) && !ignore::ignored_rel(k) && match seen {
                    Some(s) => s@.dom().contains(k),
                    None => true,
                },
            |k: Seq<char>| m@[k],
        ),
{
    let mut out: OrdMap<ManifestEntry> = OrdMap::new();
    let n = m.len();
    let ghost keys = ordmap::sorted(m@.dom());
    let ghost sv = match seen {
        Some(s) => Some(s@.dom()),
        None => None,
    };
    proof {
        ordmap::lemma_sorted_exists(m@.dom());
        assert(keys.take(0) =~= Seq::<Seq<char>>::empty());
        assert(kept(m@, keys, 0, sv) =~= Map::<Seq<char>, EntryView>::empty());
    }
    let mut i: usize = 0;
    while i < n
        invariant
            m.wf(),
            seen matches Some(s) ==> s.wf(),
            out.wf(),
            i <= n == keys.len(),
            keys == ordmap::sorted(m@.dom()),
            sv == match seen {
                Some(s) => Some(s@.dom()),
                None => None,
            },
            out@ == kept(m@, keys, i as int, sv),
        decreases n - i,
    {
        let key = m.key(i);
        let wanted = !ignore::is_ignored_rel(key) && match seen {
            Some(s) => s.contains(key),
            None => true,
        };
        let ghost k = keys[i as int];
        proof {
            text::lemma_take_next(keys, i as int);
        }
        if wanted {
            let ghost before = out@;
            out.insert(key.clone(), copy_entry(m.value(i)));
            assert(out@ =~= kept(m@, keys, i + 1, sv));
        } else {
            assert(out@ =~= kept(m@, keys, i + 1, sv));
        }
        i = i + 1;
    }
    proof {
        assert(keys.take(n as int) =~= keys);
        assert(out@ =~= Map::new(
            |k: Seq<char>|
                m@.dom().contains(k) && !ignore::ignored_rel(k) && match seen {
                    Some(s) => s@.dom().contains(k),
                    None => true,
                },
            |k: Seq<char>| m@[k],
        ));
    }
    out
}

/// Scans a share: brings its manifest up to the files that were found in its folder, and says
/// which text files are to be read into their documents.
pub fn scan_share(m: &OrdMap<ManifestEntry>, found: &Vec<Found>) -> (r: Scan)
    requires
        m.wf(),
    ensures
        r.manifest.wf(),
        r.manifest@ == scanned(m@, found_views(found@)),
        text::views(r.changed@) == to_read(m@, found_views(found@)),
{
    let ghost fs = found_views(found@);
    let mut now = keep(m, None);
    let mut seen: OrdMap<bool> = OrdMap::new();
    let mut changed: Vec<String> = Vec::new();
    let mut i: usize = 0;
    proof {
        assert(now@ =~= pruned(m@));
        assert(fs.take(0) =~= Seq::<FoundView>::empty());
    }
    while i < found.len()
        invariant
            m.wf(),
            now.wf(),
            seen.wf(),
            i <= found@.len(),
            fs == found_views(found@),
            now@ == after_files(m@, fs.take(i as int)),
            text::views(changed@) =~= to_read(m@, fs.take(i as int)),
            forall|k: Seq<char>| #[trigger]
                seen@.dom().contains(k) <==> was_seen(fs.take(i as int), k),
        decreases found@.len() - i,
    {
        let f = &found[i];
        let ghost fv = fs[i as int];
        let ghost head = fs.take(i as int);
        let ghost next = fs.take(i + 1);
        let ghost was = seen@;
        proof {
            assert(fv == f@);
            assert(next.drop_last() =~= head);
            assert(next.last() == fv);
        }
        seen.insert(f.rel.clone(), true);
        proof {
            assert forall|k: Seq<char>| #[trigger] seen@.dom().contains(k) <==> was_seen(
                next,
                k,
            ) by {
                if was_seen(head, k) {
                    let j = choose|j: int| 0 <= j < head.len() && (#[trigger] head[j]).rel == k;
                    assert(next[j].rel == k);
                }
                if was_seen(next, k) {
                    let j = choose|j: int| 0 <= j < next.len() && (#[trigger] next[j]).rel == k;
                    if j < head.len() {
                        assert(head[j].rel == k);
                        assert(was.dom().contains(k));
                    }
                }
                if k == fv.rel {
                    assert(next[i as int].rel == k);
                }
            }
        }
        match &f.state {
            FileState::Busy => {},
            FileState::Text { mtime, size } => {
                let is_new = match now.get(&f.rel) {
                    Some(e) => e.mtime != *mtime || e.size != *size,
                    None => true,
                };
                assert(is_new == is_changed(after_files(m@, head), fv));
                if is_new {
                    let ghost before = text::views(changed@);
                    changed.push(f.rel.clone());
                    assert(text::views(changed@) =~= before.push(fv.rel));
                }
                let entry = ManifestEntry {
                    path: f.rel.clone(),
                    kind: text::owned("text"),
                    object: text_object(&f.rel),
                    mtime: *mtime,
                    size: *size,
                };
                assert(Some(entry@) == entry_of(fv));
                now.insert(f.rel.clone(), entry);
            },
            FileState::Blob { hash, mtime, size } => {
                let entry = ManifestEntry {
                    path: f.rel.clone(),
                    kind: text::owned("blob"),
                    object: hash.clone(),
                    mtime: *mtime,
                    size: *size,
                };
                assert(Some(entry@) == entry_of(fv));
                now.insert(f.rel.clone(), entry);
            },
        }
        i = i + 1;
    }
    assert(fs.take(i as int) =~= fs);
    let manifest = keep(&now, Some(&seen));
    assert(manifest@ =~= scanned(m@, fs));
    Scan { manifest, changed }
}

/// Whether no two of the files have one path.
pub open spec fn distinct(fs: Seq<FoundView>) -> bool {
    forall|i: int, j: int|
        0 <= i < j < fs.len() ==> (#[trigger] fs[i]).rel != (#[trigger] fs[j]).rel
}

proof fn lemma_distinct_head(fs: Seq<FoundView>)
    requires
        distinct(fs),
        fs.len() > 0,
    ensures
        distinct(fs.drop_last()),
        forall|i: int| 0 <= i < fs.len() - 1 ==> (#[trigger] fs[i]).rel != fs.last().rel,
{
    let h = fs.drop_last();
    assert forall|i: int, j: int| 0 <= i < j < h.len() implies (#[trigger] h[i]).rel != (
    #[trigger] h[j]).rel by {
        assert(h[i] == fs[i] && h[j] == fs[j]);
    }
    assert forall|i: int| 0 <= i < fs.len() - 1 implies (#[trigger] fs[i]).rel
        != fs.last().rel by {
        assert(fs[fs.len() - 1] == fs.last());
    }
}

/// What the manifest says of a path after the files were seen.
proof fn lemma_after_files(m: Manifest, fs: Seq<FoundView>, i: int)
    requires
        distinct(fs),
        0 <= i < fs.len(),
    ensures
        match entry_of(fs[i]) {
            Some(e) => after_files(m, fs).dom().contains(fs[i].rel) && after_files(
                m,
                fs,
            )[fs[i].rel] == e,
            None => {
                &&& after_files(m, fs).dom().contains(fs[i].rel) <==> pruned(m).dom().contains(
                    fs[i].rel,
                )
                &&& after_files(m, fs).dom().contains(fs[i].rel) ==> after_files(m, fs)[fs[i].rel]
                    == m[fs[i].rel]
            },
        },
    decreases fs.len(),
{
    lemma_distinct_head(fs);
    let h = fs.drop_last();
    if i < h.len() {
        assert(h[i] == fs[i]);
        lemma_after_files(m, h, i);
    } else {
        lemma_unseen(m, h, fs[i].rel);
    }
}

/// A path that was not seen keeps what the manifest says of it.
proof fn lemma_unseen(m: Manifest, fs: Seq<FoundView>, rel: Seq<char>)
    requires
        forall|i: int| 0 <= i < fs.len() ==> (#[trigger] fs[i]).rel != rel,
    ensures
        after_files(m, fs).dom().contains(rel) <==> pruned(m).dom().contains(rel),
        after_files(m, fs).dom().contains(rel) ==> after_files(m, fs)[rel] == m[rel],
    decreases fs.len(),
{
    if fs.len() > 0 {
        let h = fs.drop_last();
        assert forall|i: int| 0 <= i < h.len() implies (#[trigger] h[i]).rel != rel by {
            assert(h[i] == fs[i]);
        }
        lemma_unseen(m, h, rel);
        assert(fs[fs.len() - 1].rel != rel);
    }
}

/// After a scan a manifest lists only files that were found, and none that is left alone: what
/// has vanished is no longer listed, and what was listed by mistake neither.
pub proof fn law_scan_lists_only_found_files(m: Manifest, fs: Seq<FoundView>, rel: Seq<char>)
    requires
        scanned(m, fs).dom().contains(rel),
    ensures
        was_seen(fs, rel),
        !ignore::ignored_rel(rel),
{
}

/// After a scan a file that was found is listed as it was found; one that was busy is listed as
/// before, if it was.
pub proof fn law_scan_lists_found_files(m: Manifest, fs: Seq<FoundView>, i: int)
    requires
        distinct(fs),
        0 <= i < fs.len(),
        !ignore::ignored_rel(fs[i].rel),
    ensures
        match entry_of(fs[i]) {
            Some(e) => scanned(m, fs).dom().contains(fs[i].rel) && scanned(m, fs)[fs[i].rel] == e,
            None => {
                &&& scanned(m, fs).dom().contains(fs[i].rel) <==> m.dom().contains(fs[i].rel)
                &&& m.dom().contains(fs[i].rel) ==> scanned(m, fs)[fs[i].rel] == m[fs[i].rel]
            },
        },
{
    lemma_after_files(m, fs, i);
    assert(was_seen(fs, fs[i].rel));
}

/// A text file is read if and only if it is new or its time or size differs from what the
/// manifest says. What is busy is not read.
pub proof fn law_changed_files_are_read(m: Manifest, fs: Seq<FoundView>, i: int)
    requires
        distinct(fs),
        0 <= i < fs.len(),
    ensures
        to_read(m, fs).contains(fs[i].rel) <==> is_changed(pruned(m), fs[i]),
    decreases fs.len(),
{
    lemma_distinct_head(fs);
    let h = fs.drop_last();
    let all = to_read(m, fs);
    let head = to_read(m, h);
    if i < h.len() {
        assert(h[i] == fs[i]);
        law_changed_files_are_read(m, h, i);
        if head.contains(fs[i].rel) {
            let j = choose|j: int| 0 <= j < head.len() && head[j] == fs[i].rel;
            assert(all[j] == fs[i].rel);
        }
        if all.contains(fs[i].rel) {
            let j = choose|j: int| 0 <= j < all.len() && all[j] == fs[i].rel;
            if j < head.len() {
                assert(head[j] == fs[i].rel);
            }
        }
    } else {
        lemma_unseen(m, h, fs[i].rel);
        lemma_not_read(m, h, fs[i].rel);
        assert(is_changed(after_files(m, h), fs[i]) <==> is_changed(pruned(m), fs[i]));
        if is_changed(pruned(m), fs[i]) {
            assert(all[all.len() - 1] == fs[i].rel);
        }
    }
}

proof fn lemma_not_read(m: Manifest, fs: Seq<FoundView>, rel: Seq<char>)
    requires
        forall|i: int| 0 <= i < fs.len() ==> (#[trigger] fs[i]).rel != rel,
    ensures
        !to_read(m, fs).contains(rel),
    decreases fs.len(),
{
    if fs.len() > 0 {
        let h = fs.drop_last();
        assert forall|i: int| 0 <= i < h.len() implies (#[trigger] h[i]).rel != rel by {
            assert(h[i] == fs[i]);
        }
        lemma_not_read(m, h, rel);
        assert(fs[fs.len() - 1].rel != rel);
        let all = to_read(m, fs);
        let head = to_read(m, h);
        if all.contains(rel) {
            let j = choose|j: int| 0 <= j < all.len() && all[j] == rel;
            if j < head.len() {
                assert(head[j] == rel);
            }
        }
    }
}

/// A scan that finds what the last scan found changes nothing and reads nothing.
pub proof fn law_rescan_changes_nothing(m: Manifest, fs: Seq<FoundView>)
    requires
        distinct(fs),
        forall|i: int| 0 <= i < fs.len() ==> !ignore::ignored_rel((#[trigger] fs[i]).rel),
    ensures
        scanned(scanned(m, fs), fs) == scanned(m, fs),
        to_read(scanned(m, fs), fs) == Seq::<Seq<char>>::empty(),
{
    let once = scanned(m, fs);
    let twice = scanned(once, fs);
    assert forall|k: Seq<char>|
        #![trigger once.dom().contains(k)]
        #![trigger twice.dom().contains(k)]
        twice.dom().contains(k) == once.dom().contains(k) && (once.dom().contains(k) ==> twice[k]
            == once[k]) by {
        if was_seen(fs, k) {
            let i = choose|i: int| 0 <= i < fs.len() && (#[trigger] fs[i]).rel == k;
            law_scan_lists_found_files(m, fs, i);
            law_scan_lists_found_files(once, fs, i);
        }
    }
    assert(twice =~= once);
    let rs = to_read(once, fs);
    lemma_read_are_found(once, fs);
    if rs.len() > 0 {
        let k = rs[0];
        assert(rs.contains(k));
        let i = choose|i: int| 0 <= i < fs.len() && (#[trigger] fs[i]).rel == k;
        law_scan_lists_found_files(m, fs, i);
        law_changed_files_are_read(once, fs, i);
        assert(false);
    }
    assert(rs =~= Seq::<Seq<char>>::empty());
}

proof fn lemma_read_are_found(m: Manifest, fs: Seq<FoundView>)
    ensures
        forall|k: Seq<char>| #[trigger] to_read(m, fs).contains(k) ==> was_seen(fs, k),
    decreases fs.len(),
{
    if fs.len() > 0 {
        let h = fs.drop_last();
        lemma_read_are_found(m, h);
        let all = to_read(m, fs);
        let head = to_read(m, h);
        assert forall|k: Seq<char>| #[trigger] all.contains(k) implies was_seen(fs, k) by {
            let j = choose|j: int| 0 <= j < all.len() && all[j] == k;
            if j < head.len() {
                assert(head[j] == k);
                assert(head.contains(k));
                let i = choose|i: int| 0 <= i < h.len() && (#[trigger] h[i]).rel == k;
                assert(fs[i].rel == k);
            } else {
                assert(fs[fs.len() - 1].rel == k);
            }
        }
    }
}

/// A scan keeps a manifest such that it can be saved and read back.
pub proof fn law_scan_keeps_manifest_well_kept(m: Manifest, fs: Seq<FoundView>)
    requires
        manifest::well_kept(m),
        forall|i: int|
            0 <= i < fs.len() ==> (entry_of(#[trigger] fs[i]) matches Some(e) ==> e.mtime
                <= u64::MAX && e.size <= u64::MAX),
    ensures
        manifest::well_kept(scanned(m, fs)),
{
    lemma_after_files_well_kept(m, fs);
}

proof fn lemma_after_files_well_kept(m: Manifest, fs: Seq<FoundView>)
    requires
        manifest::well_kept(m),
        forall|i: int|
            0 <= i < fs.len() ==> (entry_of(#[trigger] fs[i]) matches Some(e) ==> e.mtime
                <= u64::MAX && e.size <= u64::MAX),
    ensures
        manifest::well_kept(after_files(m, fs)),
    decreases fs.len(),
{
    if fs.len() > 0 {
        let h = fs.drop_last();
        assert forall|i: int| 0 <= i < h.len() implies (entry_of(#[trigger] h[i]) matches Some(e)
            ==> e.mtime <= u64::MAX && e.size <= u64::MAX) by {
            assert(h[i] == fs[i]);
        }
        lemma_after_files_well_kept(m, h);
        assert(fs[fs.len() - 1] == fs.last());
    }
}

/// Where what a file should hold comes from.
pub enum Source {
    /// The text document with this name.
    Doc(String),
    /// The content with this hash, if it is there.
    Blob(String),
    /// Nowhere: only the directory is made.
    Nowhere,
}

/// Where what a file should hold comes from, in terms of values.
pub enum SourceView {
    Doc(Seq<char>),
    Blob(Seq<char>),
    Nowhere,
}

/// A file of a shared folder that is to be written.
pub struct Render {
    pub path: String,
    pub dir: Option<String>,
    pub source: Source,
}

/// A file of a shared folder that is to be written, in terms of values.
#[verifier::ext_equal]
pub struct RenderView {
    pub path: Seq<char>,
    pub dir: Option<Seq<char>>,
    pub source: SourceView,
}

impl View for Render {
    type V = RenderView;

    open spec fn view(&self) -> RenderView {
        RenderView {
            path: self.path@,
            dir: visible::opt_string(self.dir),
            source: match self.source {
                Source::Doc(o) => SourceView::Doc(o@),
                Source::Blob(o) => SourceView::Blob(o@),
                Source::Nowhere => SourceView::Nowhere,
            },
        }
    }
}

/// What the files of a list are.
pub open spec fn render_views(v: Seq<Render>) -> Seq<RenderView> {
    Seq::new(v.len(), |i: int| v[i]@)
}

/// How the file of an entry is written in the folder `root`.
pub open spec fn render_of(root: Seq<char>, e: EntryView) -> RenderView {
    RenderView {
        path: paths::joined_path(root, e.path),
        dir: paths::parent_of(paths::joined_path(root, e.path)),
        source: if e.kind == "text"@ {
            SourceView::Doc(e.object)
        } else if e.kind == "blob"@ {
            SourceView::Blob(e.object)
        } else {
            SourceView::Nowhere
        },
    }
}

/// The files of the first `n` keys that are to be written.
pub open spec fn renders(root: Seq<char>, m: Manifest, n: int) -> Seq<RenderView>
    decreases n,
{
    if n <= 0 {
        Seq::empty()
    } else {
        let e = m[ordmap::sorted(m.dom())[n - 1]];
        if ignore::ignored_rel(e.path) {
            renders(root, m, n - 1)
        } else {
            renders(root, m, n - 1).push(render_of(root, e))
        }
    }
}

/// The files that are to be written for a share with the folder `root`, in the order of their
/// paths. What is left alone is not written.
pub fn render_share(root: &str, m: &OrdMap<ManifestEntry>) -> (r: Vec<Render>)
    requires
        m.wf(),
    ensures
        render_views(r@) == renders(root@, m@, ordmap::sorted(m@.dom()).len() as int),
{
    let mut out: Vec<Render> = Vec::new();
    let n = m.len();
    let ghost keys = ordmap::sorted(m@.dom());
    let mut i: usize = 0;
    assert(render_views(out@) =~= Seq::<RenderView>::empty());
    while i < n
        invariant
            m.wf(),
            i <= n == keys.len(),
            keys == ordmap::sorted(m@.dom()),
            render_views(out@) =~= renders(root@, m@, i as int),
        decreases n - i,
    {
        let e = m.value(i);
        let ghost ev = m@[keys[i as int]];
        assert(ev == e@);
        if !ignore::is_ignored_rel(&e.path) {
            let path = paths::join(root, &e.path);
            let dir = paths::parent(&path);
            let source = if text::same(&e.kind, "text") {
                Source::Doc(e.object.clone())
            } else if text::same(&e.kind, "blob") {
                Source::Blob(e.object.clone())
            } else {
                Source::Nowhere
            };
            let ghost before = render_views(out@);
            let item = Render { path, dir, source };
            assert(item@ =~= render_of(root@, ev));
            out.push(item);
            assert(render_views(out@) =~= before.push(render_of(root@, ev)));
        }
        i = i + 1;
    }
    out
}

} // verus!
