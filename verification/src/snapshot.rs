//! Snapshots: what one device sends another of its shares, and what is made of it there.

use vstd::prelude::*;
use vstd::string::*;

use crate::codec;
use crate::error::Error;
use crate::home;
use crate::paths;
use crate::shares::{Share, ShareView};
use crate::table;
use crate::text;

verus! {

/// What a record of a snapshot says of a file.
#[verifier::ext_equal]
pub struct RecordView {
    pub kind: Seq<char>,
    pub share: Seq<char>,
    pub name: Seq<char>,
    pub bytes: Seq<u8>,
}

/// A record of a snapshot: what kind of file it is, the share that it belongs to, its name and
/// its content.
pub struct FileRecord {
    pub kind: String,
    pub share: String,
    pub name: String,
    pub bytes: Vec<u8>,
}

impl View for FileRecord {
    type V = RecordView;

    open spec fn view(&self) -> RecordView {
        RecordView {
            kind: self.kind@,
            share: self.share@,
            name: self.name@,
            bytes: self.bytes@,
        }
    }
}

/// What a stored file is: where it is and what it holds.
#[verifier::ext_equal]
pub struct StoredView {
    pub path: Seq<char>,
    pub bytes: Seq<u8>,
}

/// A stored file.
pub struct StoredFile {
    pub path: String,
    pub bytes: Vec<u8>,
}

impl View for StoredFile {
    type V = StoredView;

    open spec fn view(&self) -> StoredView {
        StoredView { path: self.path@, bytes: self.bytes@ }
    }
}

/// What the stored files of a list are.
pub open spec fn stored_views(v: Seq<StoredFile>) -> Seq<StoredView> {
    Seq::new(v.len(), |i: int| v[i]@)
}

/// What is stored of a share.
#[verifier::ext_equal]
pub struct ShareFilesView {
    pub share: ShareView,
    pub manifest: Option<StoredView>,
    pub crdts: Seq<StoredView>,
}

/// What is stored of a share: its manifest, where there is one, and its text documents.
pub struct ShareFiles {
    pub share: Share,
    pub manifest: Option<StoredFile>,
    pub crdts: Vec<StoredFile>,
}

impl View for ShareFiles {
    type V = ShareFilesView;

    open spec fn view(&self) -> ShareFilesView {
        ShareFilesView {
            share: self.share@,
            manifest: match self.manifest {
                Some(f) => Some(f@),
                None => None,
            },
            crdts: stored_views(self.crdts@),
        }
    }
}

/// What is stored of the shares of a list.
pub open spec fn share_files_views(v: Seq<ShareFiles>) -> Seq<ShareFilesView> {
    Seq::new(v.len(), |i: int| v[i]@)
}

/// The name under which the file at `path` is sent.
pub open spec fn record_name(path: Seq<char>) -> Seq<char> {
    match paths::file_name_of(path) {
        Some(name) => name,
        None => Seq::empty(),
    }
}

/// The record of a stored file.
pub open spec fn record_of(kind: Seq<char>, share: Seq<char>, f: StoredView) -> RecordView {
    RecordView { kind, share, name: record_name(f.path), bytes: f.bytes }
}

/// The records of stored files.
pub open spec fn records_of(kind: Seq<char>, share: Seq<char>, fs: Seq<StoredView>) -> Seq<
    RecordView,
> {
    Seq::new(fs.len(), |i: int| record_of(kind, share, fs[i]))
}

/// The columns of a record.
pub open spec fn record_columns(r: RecordView) -> Seq<Seq<char>> {
    seq!["FILE"@, r.kind, codec::escaped(r.share), codec::escaped(r.name), codec::hex_of(r.bytes)]
}

/// The line of a record.
pub open spec fn record_line(r: RecordView) -> Seq<char> {
    table::tabbed(record_columns(r))
}

/// The line that names a share.
pub open spec fn share_line(id: Seq<char>, name: Seq<char>) -> Seq<char> {
    table::tabbed(seq!["SHARE"@, codec::escaped(id), codec::escaped(name)])
}

/// The lines of records.
pub open spec fn record_lines(rs: Seq<RecordView>) -> Seq<Seq<char>> {
    Seq::new(rs.len(), |i: int| record_line(rs[i]))
}

/// The records of a share: its manifest, where there is one, and its text documents.
pub open spec fn share_records(s: ShareFilesView) -> Seq<RecordView> {
    (match s.manifest {
        Some(f) => seq![record_of("MANIFEST"@, s.share.id, f)],
        None => Seq::empty(),
    }) + records_of("CRDT"@, s.share.id, s.crdts)
}

/// Whether the share `id` is sent: all are, unless one is asked for.
pub open spec fn is_asked_for(only: Option<Seq<char>>, id: Seq<char>) -> bool {
    match only {
        Some(asked) => asked == id,
        None => true,
    }
}

/// Whether a share is sent.
pub open spec fn is_wanted(only: Option<Seq<char>>, s: ShareFilesView) -> bool {
    is_asked_for(only, s.share.id)
}

/// Whether the share `id` is sent.
pub fn sends(only: Option<&str>, id: &str) -> (r: bool)
    ensures
        r == is_asked_for(home::opt(only), id@),
{
    match only {
        Some(asked) => text::same(asked, id),
        None => true,
    }
}

/// The lines for the shares that are sent.
pub open spec fn shares_part(only: Option<Seq<char>>, ss: Seq<ShareFilesView>) -> Seq<Seq<char>>
    decreases ss.len(),
{
    if ss.len() == 0 {
        Seq::empty()
    } else {
        let s = ss.last();
        let head = shares_part(only, ss.drop_last());
        if is_wanted(only, s) {
            head.push(share_line(s.share.id, s.share.name)) + record_lines(share_records(s))
        } else {
            head
        }
    }
}

/// The lines of a snapshot: those of the shares, and those of the contents that are kept as they
/// are, between a first and a last line.
pub open spec fn snapshot_lines(
    only: Option<Seq<char>>,
    ss: Seq<ShareFilesView>,
    blobs: Seq<StoredView>,
) -> Seq<Seq<char>> {
    (seq!["SNAPSHOT 1"@] + shares_part(only, ss) + record_lines(
        records_of("BLOB"@, "_"@, blobs),
    )).push("END"@)
}

/// Adds the record of a file to a snapshot.
pub fn add_file_record(out: &mut String, kind: &str, share: &str, path: &str, content: &Vec<u8>)
    ensures
        final(out)@ == old(out)@ + record_line(
            record_of(kind@, share@, (StoredView { path: path@, bytes: content@ })),
        ).push('\n'),
{
    let name = match paths::file_name(path) {
        Some(n) => n,
        None => String::new(),
    };
    let ghost r = record_of(kind@, share@, (StoredView { path: path@, bytes: content@ }));
    assert(name@ =~= r.name);
    let cols: Vec<String> = vec![
        text::owned("FILE"),
        text::owned(kind),
        codec::esc(share),
        codec::esc(&name),
        codec::hex(content.as_slice()),
    ];
    assert(text::views(cols@) =~= record_columns(r));
    let line = table::row(&cols);
    out.append(&line);
    out.push('\n');
    assert(out@ =~= old(out)@ + record_line(r).push('\n'));
}

/// One line more makes a text that is longer by this line.
proof fn lemma_joined_push(ls: Seq<Seq<char>>, l: Seq<char>)
    ensures
        text::joined(ls.push(l)) == text::joined(ls) + l.push('\n'),
{
    assert(ls.push(l).drop_last() =~= ls);
}

/// Adds the records of files to a snapshot with the lines `lines`.
fn add_file_records(
    out: &mut String,
    kind: &str,
    share: &str,
    files: &Vec<StoredFile>,
    Ghost(lines): Ghost<Seq<Seq<char>>>,
)
    requires
        old(out)@ == text::joined(lines),
    ensures
        final(out)@ == text::joined(
            lines + record_lines(records_of(kind@, share@, stored_views(files@))),
        ),
{
    let ghost rs = records_of(kind@, share@, stored_views(files@));
    let ghost more = record_lines(rs);
    let mut i: usize = 0;
    assert(lines + more.take(0) =~= lines);
    while i < files.len()
        invariant
            i <= files@.len(),
            rs == records_of(kind@, share@, stored_views(files@)),
            more == record_lines(rs),
            out@ == text::joined(lines + more.take(i as int)),
        decreases files@.len() - i,
    {
        add_file_record(out, kind, share, &files[i].path, &files[i].bytes);
        proof {
            assert(rs[i as int] == record_of(kind@, share@, files@[i as int]@));
            lemma_joined_push(lines + more.take(i as int), more[i as int]);
            assert(lines + more.take(i + 1) =~= (lines + more.take(i as int)).push(
                more[i as int],
            ));
        }
        i = i + 1;
    }
    assert(more.take(i as int) =~= more);
}

/// The snapshot of the shares of a device, or of one of them. `stored` holds what is stored of
/// each share, `blobs` the contents that are kept as they are.
pub fn export_snapshot(only: Option<&str>, stored: &Vec<ShareFiles>, blobs: &Vec<StoredFile>) -> (r:
    String)
    ensures
        r@ == text::joined(
            snapshot_lines(home::opt(only), share_files_views(stored@), stored_views(blobs@)),
        ),
{
    let ghost ov = home::opt(only);
    let ghost ss = share_files_views(stored@);
    let mut out = text::owned("SNAPSHOT 1\n");
    let ghost mut lines = seq!["SNAPSHOT 1"@];
    proof {
        reveal_strlit("SNAPSHOT 1\n");
        reveal_strlit("SNAPSHOT 1");
        assert(lines.drop_last() =~= Seq::<Seq<char>>::empty());
        assert(text::joined(lines.drop_last()) =~= Seq::<char>::empty());
        assert(out@ =~= text::joined(lines));
        assert(ss.take(0) =~= Seq::<ShareFilesView>::empty());
        assert(seq!["SNAPSHOT 1"@] + shares_part(ov, ss.take(0)) =~= lines);
    }
    let mut i: usize = 0;
    while i < stored.len()
        invariant
            i <= stored@.len(),
            ov == home::opt(only),
            ss == share_files_views(stored@),
            lines == seq!["SNAPSHOT 1"@] + shares_part(ov, ss.take(i as int)),
            out@ == text::joined(lines),
        decreases stored@.len() - i,
    {
        let s = &stored[i];
        let ghost sv = ss[i as int];
        proof {
            assert(sv == s@);
            assert(ss.take(i + 1).drop_last() =~= ss.take(i as int));
            assert(ss.take(i + 1).last() == sv);
        }
        if sends(only, &s.share.id) {
            let cols: Vec<String> = vec![
                text::owned("SHARE"),
                codec::esc(&s.share.id),
                codec::esc(&s.share.name),
            ];
            assert(text::views(cols@) =~= seq![
                "SHARE"@,
                codec::escaped(sv.share.id),
                codec::escaped(sv.share.name),
            ]);
            let line = table::row(&cols);
            out.append(&line);
            out.push('\n');
            let ghost head = lines.push(share_line(sv.share.id, sv.share.name));
            proof {
                lemma_joined_push(lines, line@);
                assert(out@ =~= text::joined(head));
            }
            let ghost mut first = Seq::<RecordView>::empty();
            if let Some(f) = &s.manifest {
                add_file_record(&mut out, "MANIFEST", &s.share.id, &f.path, &f.bytes);
                proof {
                    let r = record_of("MANIFEST"@, sv.share.id, f@);
                    lemma_joined_push(head, record_line(r));
                    first = seq![r];
                    assert(head + record_lines(first) =~= head.push(record_line(r)));
                }
            } else {
                assert(head + record_lines(first) =~= head);
            }
            add_file_records(
                &mut out,
                "CRDT",
                &s.share.id,
                &s.crdts,
                Ghost(head + record_lines(first)),
            );
            proof {
                let rest = records_of("CRDT"@, sv.share.id, sv.crdts);
                assert(share_records(sv) =~= first + rest);
                assert(record_lines(share_records(sv)) =~= record_lines(first) + record_lines(
                    rest,
                ));
                lines = head + record_lines(share_records(sv));
                assert(lines =~= head + record_lines(first) + record_lines(rest));
                assert(lines =~= seq!["SNAPSHOT 1"@] + shares_part(ov, ss.take(i + 1)));
            }
        }
        i = i + 1;
    }
    assert(ss.take(i as int) =~= ss);
    add_file_records(&mut out, "BLOB", "_", blobs, Ghost(lines));
    let ghost all = lines + record_lines(records_of("BLOB"@, "_"@, stored_views(blobs@)));
    out.append("END\n");
    proof {
        reveal_strlit("END\n");
        reveal_strlit("END");
        assert("END\n"@ =~= "END"@.push('\n'));
        lemma_joined_push(all, "END"@);
    }
    out
}

/// What a line of a snapshot says.
pub enum Item {
    /// Nothing that is heeded.
    Nothing,
    /// That the sender has a share with this id and this name.
    Share(Seq<char>, Seq<char>),
    /// What a file holds.
    File(RecordView),
    /// A file whose content cannot be read, and why.
    Broken(Seq<char>),
}

/// What the line `line` of a snapshot says.
pub open spec fn item_of(line: Seq<char>) -> Item {
    let cols = table::columns_of(line);
    if line == "SNAPSHOT 1"@ || line == "END"@ || line.len() == 0 {
        Item::Nothing
    } else if cols[0] == "SHARE"@ && cols.len() >= 3 {
        Item::Share(codec::unescaped(cols[1]), codec::unescaped(cols[2]))
    } else if cols[0] == "FILE"@ && cols.len() >= 5 {
        match codec::unhexed(cols[4]) {
            Ok(b) => Item::File(
                RecordView {
                    kind: cols[1],
                    share: codec::unescaped(cols[2]),
                    name: codec::unescaped(cols[3]),
                    bytes: b,
                },
            ),
            Err(e) => Item::Broken(e),
        }
    } else {
        Item::Nothing
    }
}

/// What a line of a snapshot says.
pub enum Entry {
    /// Nothing that is heeded.
    Nothing,
    /// That the sender has a share with this id and this name.
    Share(String, String),
    /// What a file holds.
    File(FileRecord),
    /// A file whose content cannot be read, and why.
    Broken(Error),
}

impl View for Entry {
    type V = Item;

    open spec fn view(&self) -> Item {
        match self {
            Entry::Nothing => Item::Nothing,
            Entry::Share(id, name) => Item::Share(id@, name@),
            Entry::File(r) => Item::File(r@),
            Entry::Broken(e) => Item::Broken(e@),
        }
    }
}

/// Reads a line of a snapshot.
pub fn parse_line(line: &str) -> (r: Entry)
    ensures
        r@ == item_of(line@),
{
    if text::same(line, "SNAPSHOT 1") || text::same(line, "END") || line.is_empty() {
        return Entry::Nothing;
    }
    let cols = table::columns(line);
    let ghost cv = table::columns_of(line@);
    proof {
        assert forall|k: int| 0 <= k < cols@.len() implies cv[k] == (#[trigger] cols@[k])@ by {
            assert(text::views(cols@)[k] == cols@[k]@);
        }
    }
    if text::same(&cols[0], "SHARE") && cols.len() >= 3 {
        return Entry::Share(codec::unesc(&cols[1]), codec::unesc(&cols[2]));
    }
    if text::same(&cols[0], "FILE") && cols.len() >= 5 {
        return match codec::unhex(&cols[4]) {
            Ok(b) => Entry::File(
                FileRecord {
                    kind: cols[1].clone(),
                    share: codec::unesc(&cols[2]),
                    name: codec::unesc(&cols[3]),
                    bytes: b,
                },
            ),
            Err(e) => Entry::Broken(e),
        };
    }
    Entry::Nothing
}

} // verus!
