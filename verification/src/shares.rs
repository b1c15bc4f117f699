//! The shares of an account, and those that other devices have shown.

use vstd::prelude::*;
use vstd::string::*;

use crate::codec;
use crate::config;
use crate::entries;
use crate::home;
use crate::ordmap;
use crate::ordmap::OrdMap;
use crate::table;
use crate::text;

verus! {

/// What a share is.
#[verifier::ext_equal]
pub struct ShareView {
    pub id: Seq<char>,
    pub name: Seq<char>,
    pub root: Seq<char>,
}

/// A folder that is shared.
pub struct Share {
    pub id: String,
    pub name: String,
    pub root: String,
}

impl View for Share {
    type V = ShareView;

    open spec fn view(&self) -> ShareView {
        ShareView { id: self.id@, name: self.name@, root: self.root@ }
    }
}

impl Share {
    /// A copy.
    pub fn copy(&self) -> (r: Share)
        ensures
            r@ == self@,
    {
        Share { id: self.id.clone(), name: self.name.clone(), root: self.root.clone() }
    }
}

/// What the shares of a list are.
pub open spec fn share_views(v: Seq<Share>) -> Seq<ShareView> {
    Seq::new(v.len(), |i: int| v[i]@)
}

/// How a line of the file with the shares is read.
pub open spec fn share_reader() -> spec_fn(Seq<Seq<char>>) -> Option<ShareView> {
    |cols: Seq<Seq<char>>|
        if cols.len() >= 3 {
            Some(
                ShareView {
                    id: codec::unescaped(cols[0]),
                    name: codec::unescaped(cols[1]),
                    root: codec::unescaped(cols[2]),
                },
            )
        } else {
            None
        }
}

/// How a share is written.
pub open spec fn share_writer() -> spec_fn(ShareView) -> Seq<Seq<char>> {
    |s: ShareView| seq![codec::escaped(s.id), codec::escaped(s.name), codec::escaped(s.root)]
}

/// The shares that the file with the shares names.
pub open spec fn shares_in(file: Option<Seq<char>>) -> Seq<ShareView> {
    match file {
        None => Seq::empty(),
        Some(s) => entries::items_of(text::lines_of(s), share_reader()),
    }
}

/// The text of the file with the shares `ss`.
pub open spec fn shares_text(ss: Seq<ShareView>) -> Seq<char> {
    text::joined(entries::item_lines(ss, share_writer()))
}

/// Reads the shares of an account.
pub fn load_shares(file: Option<&str>) -> (r: Vec<Share>)
    ensures
        share_views(r@) == shares_in(home::opt(file)),
{
    let mut out: Vec<Share> = Vec::new();
    let s = match file {
        None => {
            assert(share_views(out@) =~= Seq::<ShareView>::empty());
            return out;
        },
        Some(s) => s,
    };
    let lines = text::lines(s);
    let ghost ls = text::lines_of(s@);
    let mut i: usize = 0;
    assert(ls.take(0) =~= Seq::<Seq<char>>::empty());
    while i < lines.len()
        invariant
            i <= lines@.len(),
            text::views(lines@) == ls,
            share_views(out@) =~= entries::items_of(ls.take(i as int), share_reader()),
        decreases lines@.len() - i,
    {
        proof {
            assert(ls.take(i + 1).drop_last() =~= ls.take(i as int));
            assert(ls.take(i + 1).last() == ls[i as int]);
            assert(ls[i as int] == lines@[i as int]@);
        }
        let cols = table::columns(&lines[i]);
        if cols.len() >= 3 {
            let ghost was = share_views(out@);
            proof {
                assert(text::views(cols@)[0] == cols@[0]@);
                assert(text::views(cols@)[1] == cols@[1]@);
                assert(text::views(cols@)[2] == cols@[2]@);
            }
            let share = Share {
                id: codec::unesc(&cols[0]),
                name: codec::unesc(&cols[1]),
                root: codec::unesc(&cols[2]),
            };
            let ghost sv = share@;
            out.push(share);
            assert(share_views(out@) =~= was.push(sv));
        }
        i = i + 1;
    }
    assert(ls.take(i as int) =~= ls);
    out
}

/// The text of the file with the shares of an account.
pub fn save_shares(shares: &Vec<Share>) -> (r: String)
    ensures
        r@ == shares_text(share_views(shares@)),
{
    let mut rows: Vec<String> = Vec::new();
    let ghost all = entries::item_lines(share_views(shares@), share_writer());
    let mut i: usize = 0;
    while i < shares.len()
        invariant
            i <= shares@.len(),
            all == entries::item_lines(share_views(shares@), share_writer()),
            text::views(rows@) =~= all.take(i as int),
        decreases shares@.len() - i,
    {
        let s = &shares[i];
        let cols: Vec<String> = vec![codec::esc(&s.id), codec::esc(&s.name), codec::esc(&s.root)];
        assert(text::views(cols@) =~= share_writer()(share_views(shares@)[i as int]));
        let record = table::row(&cols);
        let ghost done = text::views(rows@);
        assert(all[i as int] == record@);
        rows.push(record);
        assert(text::views(rows@) =~= done.push(all[i as int]));
        i = i + 1;
    }
    assert(all.take(i as int) =~= all);
    text::join_lines(&rows)
}

/// Shares that were saved are read back unchanged, in their order. A path that ends in a
/// carriage return would lose it.
pub proof fn law_saved_shares_are_read_back(ss: Seq<ShareView>)
    requires
        forall|i: int| 0 <= i < ss.len() ==> config::plain_end(#[trigger] ss[i].root),
    ensures
        shares_in(Some(shares_text(ss))) == ss,
{
    assert forall|i: int| 0 <= i < ss.len() implies entries::fits_line(
        share_writer()(#[trigger] ss[i]),
    ) && share_reader()(share_writer()(ss[i])) == Some(ss[i]) by {
        let s = ss[i];
        let cols = share_writer()(s);
        entries::lemma_escaped_column(s.id);
        entries::lemma_escaped_column(s.name);
        entries::lemma_escaped_column(s.root);
        assert(config::plain_end(ss[i].root));
        assert forall|j: int| 0 <= j < cols.len() implies !(#[trigger] cols[j]).contains('\t')
            && !cols[j].contains('\n') by {
            if j == 0 {
                assert(cols[j] == codec::escaped(s.id));
            } else if j == 1 {
                assert(cols[j] == codec::escaped(s.name));
            } else {
                assert(cols[j] == codec::escaped(s.root));
            }
        }
    }
    entries::lemma_items_read_back(ss, share_reader(), share_writer());
}

/// Whether some share of `ss` has the id `id`.
pub open spec fn has_share(ss: Seq<ShareView>, id: Seq<char>) -> bool {
    exists|i: int| 0 <= i < ss.len() && (#[trigger] ss[i]).id == id
}

/// Adds a share, unless one with its id is there. Says whether it was added.
pub fn add_share(shares: &mut Vec<Share>, share: &Share) -> (added: bool)
    ensures
        added == !has_share(share_views(old(shares)@), share@.id),
        share_views(final(shares)@) == if added {
            share_views(old(shares)@).push(share@)
        } else {
            share_views(old(shares)@)
        },
{
    let ghost ss = share_views(shares@);
    let mut i: usize = 0;
    while i < shares.len()
        invariant
            i <= shares@.len(),
            ss == share_views(shares@),
            ss == share_views(old(shares)@),
            forall|j: int| 0 <= j < i ==> (#[trigger] ss[j]).id != share@.id,
        decreases shares@.len() - i,
    {
        assert(ss[i as int] == shares@[i as int]@);
        if text::same(&shares[i].id, &share.id) {
            return false;
        }
        i = i + 1;
    }
    shares.push(share.copy());
    assert(share_views(shares@) =~= ss.push(share@));
    true
}

/// How a line of the file with the remote shares is read: an id and a name.
pub open spec fn remote_reader() -> spec_fn(Seq<Seq<char>>) -> Option<(Seq<char>, Seq<char>)> {
    |cols: Seq<Seq<char>>|
        if cols.len() >= 2 {
            Some((codec::unescaped(cols[0]), codec::unescaped(cols[1])))
        } else {
            None
        }
}

/// How a remote share is written.
pub open spec fn remote_writer() -> spec_fn(Seq<char>, Seq<char>) -> Seq<Seq<char>> {
    |id: Seq<char>, name: Seq<char>| seq![codec::escaped(id), codec::escaped(name)]
}

/// The remote shares that the file with the remote shares names.
pub open spec fn remote_shares_in(file: Option<Seq<char>>) -> Map<Seq<char>, Seq<char>> {
    match file {
        None => Map::empty(),
        Some(s) => entries::entries_of(text::lines_of(s), remote_reader()),
    }
}

/// The text of the file with the remote shares `m`.
pub open spec fn remote_shares_text(m: Map<Seq<char>, Seq<char>>) -> Seq<char> {
    text::joined(entries::entry_lines(m, remote_writer()))
}

/// Reads the names of the shares that other devices have shown.
pub fn load_remote_shares(file: Option<&str>) -> (r: OrdMap<String>)
    ensures
        r.wf(),
        r@ == remote_shares_in(home::opt(file)),
{
    let mut m: OrdMap<String> = OrdMap::new();
    let s = match file {
        None => return m,
        Some(s) => s,
    };
    let lines = text::lines(s);
    let ghost ls = text::lines_of(s@);
    let mut i: usize = 0;
    assert(ls.take(0) =~= Seq::<Seq<char>>::empty());
    while i < lines.len()
        invariant
            m.wf(),
            i <= lines@.len(),
            text::views(lines@) == ls,
            m@ == entries::entries_of(ls.take(i as int), remote_reader()),
        decreases lines@.len() - i,
    {
        proof {
            assert(ls.take(i + 1).drop_last() =~= ls.take(i as int));
            assert(ls.take(i + 1).last() == ls[i as int]);
            assert(ls[i as int] == lines@[i as int]@);
        }
        let cols = table::columns(&lines[i]);
        if cols.len() >= 2 {
            proof {
                assert(text::views(cols@)[0] == cols@[0]@);
                assert(text::views(cols@)[1] == cols@[1]@);
            }
            m.insert(codec::unesc(&cols[0]), codec::unesc(&cols[1]));
        }
        i = i + 1;
    }
    assert(ls.take(i as int) =~= ls);
    m
}

/// The text of the file with the names of the shares that other devices have shown.
pub fn save_remote_shares(m: &OrdMap<String>) -> (r: String)
    requires
        m.wf(),
    ensures
        r@ == remote_shares_text(m@),
{
    let mut rows: Vec<String> = Vec::new();
    let n = m.len();
    let ghost all = entries::entry_lines(m@, remote_writer());
    let ghost keys = ordmap::sorted(m@.dom());
    let mut i: usize = 0;
    while i < n
        invariant
            m.wf(),
            i <= n == keys.len(),
            keys == ordmap::sorted(m@.dom()),
            all == entries::entry_lines(m@, remote_writer()),
            text::views(rows@) =~= all.take(i as int),
        decreases n - i,
    {
        let cols: Vec<String> = vec![codec::esc(m.key(i)), codec::esc(m.value(i))];
        let ghost k = keys[i as int];
        assert(text::views(cols@) =~= remote_writer()(k, m@[k]));
        let record = table::row(&cols);
        let ghost done = text::views(rows@);
        assert(all[i as int] == record@);
        rows.push(record);
        assert(text::views(rows@) =~= done.push(all[i as int]));
        i = i + 1;
    }
    assert(all.take(i as int) =~= all);
    text::join_lines(&rows)
}

/// The names of remote shares that were saved are read back unchanged. A name that ends in a
/// carriage return would lose it.
pub proof fn law_saved_remote_shares_are_read_back(m: Map<Seq<char>, Seq<char>>)
    requires
        m.dom().finite(),
        forall|k: Seq<char>| #[trigger] m.dom().contains(k) ==> config::plain_end(m[k]),
    ensures
        remote_shares_in(Some(remote_shares_text(m))) == m,
{
    assert forall|k: Seq<char>| #[trigger] m.dom().contains(k) implies entries::fits_line(
        remote_writer()(k, m[k]),
    ) && remote_reader()(remote_writer()(k, m[k])) == Some((k, m[k])) by {
        let cols = remote_writer()(k, m[k]);
        entries::lemma_escaped_column(k);
        entries::lemma_escaped_column(m[k]);
        assert forall|i: int| 0 <= i < cols.len() implies !(#[trigger] cols[i]).contains('\t')
            && !cols[i].contains('\n') by {
            if i == 0 {
                assert(cols[i] == codec::escaped(k));
            } else {
                assert(cols[i] == codec::escaped(m[k]));
            }
        }
    }
    entries::lemma_entries_read_back(m, remote_reader(), remote_writer());
}

/// The names of remote shares `m`, each without a carriage return at its end.
pub open spec fn without_ends(m: Map<Seq<char>, Seq<char>>) -> Map<Seq<char>, Seq<char>> {
    Map::new(|k: Seq<char>| m.dom().contains(k), |k: Seq<char>| text::strip_cr(m[k]))
}

/// The names of remote shares that were saved are read back, each without a carriage return at its
/// end.
pub proof fn law_saved_remote_shares_lose_ends(m: Map<Seq<char>, Seq<char>>)
    requires
        m.dom().finite(),
    ensures
        remote_shares_in(Some(remote_shares_text(m))) == without_ends(m),
{
    let w = without_ends(m);
    let keys = ordmap::sorted(m.dom());
    let ls = entries::entry_lines(m, remote_writer());
    ordmap::lemma_sorted_exists(m.dom());
    assert(w.dom() =~= m.dom());
    assert forall|k: Seq<char>, n: Seq<char>| {
        let cols = #[trigger] remote_writer()(k, n);
        &&& table::columns_of(table::tabbed(cols)) == cols
        &&& remote_reader()(cols) == Some((k, n))
        &&& !table::tabbed(cols).contains('\n')
        &&& text::strip_cr(table::tabbed(cols)) == table::tabbed(
            remote_writer()(k, text::strip_cr(n)),
        )
    } by {
        let cols = remote_writer()(k, n);
        let a = codec::escaped(k);
        let b = codec::escaped(n);
        entries::lemma_escaped_column(k);
        entries::lemma_escaped_column(n);
        codec::lemma_escaped_strip(n);
        assert forall|i: int| 0 <= i < cols.len() implies !(#[trigger] cols[i]).contains('\t')
            && !cols[i].contains('\n') by {
            if i == 0 {
                assert(cols[i] == a);
            } else {
                assert(cols[i] == b);
            }
        }
        table::lemma_columns_of_tabbed(cols);
        table::lemma_tabbed_no_newline(cols);
        lemma_two_columns(a, b);
        lemma_two_columns(a, text::strip_cr(b));
        assert(cols =~= seq![a, b]);
        assert(remote_writer()(k, text::strip_cr(n)) =~= seq![a, text::strip_cr(b)]);
        let t = a.push('\t') + b;
        if b.len() > 0 {
            assert(t.last() == b.last());
            assert(t.drop_last() =~= a.push('\t') + b.drop_last());
        } else {
            assert(t.last() == '\t');
        }
    }
    assert forall|i: int| 0 <= i < ls.len() implies !(#[trigger] ls[i]).contains('\n') by {
        let cols = remote_writer()(keys[i], m[keys[i]]);
        assert(ls[i] == table::tabbed(cols));
    }
    text::lemma_lines_lose_ends(ls);
    let rs = entries::entry_lines(w, remote_writer());
    assert forall|i: int| 0 <= i < ls.len() implies text::strip_cr(#[trigger] ls[i]) == rs[i] by {
        let k = keys[i];
        assert(keys.contains(k));
        let cols = remote_writer()(k, m[k]);
        assert(ls[i] == table::tabbed(cols));
    }
    assert(text::lines_of(remote_shares_text(m)) =~= rs);
    assert forall|k: Seq<char>| #[trigger] w.dom().contains(k) implies table::columns_of(
        table::tabbed(remote_writer()(k, w[k])),
    ) == remote_writer()(k, w[k]) && remote_reader()(remote_writer()(k, w[k])) == Some(
        (k, w[k]),
    ) by {}
    entries::lemma_entries_of_lines(w, remote_reader(), remote_writer());
}

proof fn lemma_two_columns(a: Seq<char>, b: Seq<char>)
    ensures
        table::tabbed(seq![a, b]) == a.push('\t') + b,
{
    let cols = seq![a, b];
    assert(cols.drop_last() =~= seq![a]);
    assert(table::tabbed(seq![a]) == a);
}

} // verus!
