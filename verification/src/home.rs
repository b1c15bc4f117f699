//! Where things are kept: the global directory, and one directory for each account.

use vstd::prelude::*;
use vstd::string::*;

use crate::auth;
use crate::paths;
use crate::text;

verus! {

/// The global directory: the one that is set, or `.earth` in the home directory.
pub open spec fn global_home_of(
    program_home: Option<Seq<char>>,
    home: Option<Seq<char>>,
) -> Seq<char> {
    match program_home {
        Some(dir) => dir,
        None => match home {
            Some(dir) => paths::joined_path(dir, ".earth"@),
            None => paths::joined_path("."@, ".earth"@),
        },
    }
}

/// The directory that holds the account directories.
pub open spec fn accounts_of(global: Seq<char>) -> Seq<char> {
    paths::joined_path(global, "accounts"@)
}

/// `s` with an underscore for each character that is not safe in a directory name.
pub open spec fn safe_component(s: Seq<char>) -> Seq<char> {
    Seq::new(
        s.len(),
        |i: int|
            if auth::is_id_char(s[i]) {
                s[i]
            } else {
                '_'
            },
    )
}

/// The directory of the account with the id `id`.
pub open spec fn account_dir(global: Seq<char>, id: Seq<char>) -> Seq<char> {
    paths::joined_path(accounts_of(global), safe_component(id))
}

/// The global directory, from the values of `PROGRAM_HOME` and `HOME`.
pub fn global_home(program_home: Option<&str>, home: Option<&str>) -> (r: String)
    ensures
        r@ == global_home_of(
            match program_home {
                Some(v) => Some(v@),
                None => None,
            },
            match home {
                Some(v) => Some(v@),
                None => None,
            },
        ),
{
    match program_home {
        Some(v) => text::owned(v),
        None => match home {
            Some(v) => paths::join(v, ".earth"),
            None => paths::join(".", ".earth"),
        },
    }
}

/// The directory that holds the account directories.
pub fn accounts_dir(global: &str) -> (r: String)
    ensures
        r@ == accounts_of(global@),
{
    paths::join(global, "accounts")
}

/// The directories that must be there before anything is stored.
pub fn global_dirs(global: &str) -> (r: Vec<String>)
    ensures
        text::views(r@) == seq![
            accounts_of(global@),
            paths::joined_path(global@, "global"@),
        ],
{
    let r: Vec<String> = vec![accounts_dir(global), paths::join(global, "global")];
    assert(text::views(r@) =~= seq![
        accounts_of(global@),
        paths::joined_path(global@, "global"@),
    ]);
    r
}

/// `s` with an underscore for each character that is not safe in a directory name.
pub fn safe_account_component(s: &str) -> (r: String)
    ensures
        r@ == safe_component(s@),
{
    let chars = text::chars_of(s);
    let mut out = String::new();
    let mut i: usize = 0;
    while i < chars.len()
        invariant
            i <= chars@.len(),
            chars@ == s@,
            out@ == safe_component(s@).take(i as int),
        decreases chars@.len() - i,
    {
        let c = chars[i];
        if ('a' <= c && c <= 'z') || ('A' <= c && c <= 'Z') || ('0' <= c && c <= '9') || c == '-'
            || c == '_' {
            out.push(c);
        } else {
            out.push('_');
        }
        i = i + 1;
        assert(out@ =~= safe_component(s@).take(i as int));
    }
    assert(safe_component(s@).take(i as int) =~= safe_component(s@));
    out
}

/// The directory of the account with the id `account_id`.
pub fn account_dir_for_id(global: &str, account_id: &str) -> (r: String)
    ensures
        r@ == account_dir(global@, account_id@),
{
    paths::join(&accounts_dir(global), &safe_account_component(account_id))
}

/// The directory that is worked in: the one that was selected, else that of the account which
/// `EARTH_ACCOUNT` names, where it was found, else that of the active account, else one that
/// belongs to no account.
pub open spec fn program_home_of(
    global: Seq<char>,
    selected: Option<Seq<char>>,
    found: Option<Seq<char>>,
    active_id: Option<Seq<char>>,
) -> Seq<char> {
    match selected {
        Some(dir) => dir,
        None => match found {
            Some(dir) => dir,
            None => match active_id {
                Some(id) => account_dir(global, id),
                None => paths::joined_path(accounts_of(global), "unselected"@),
            },
        },
    }
}

/// The view of a text that may be missing.
pub open spec fn opt(s: Option<&str>) -> Option<Seq<char>> {
    match s {
        Some(t) => Some(t@),
        None => None,
    }
}

/// The directory that is worked in.
pub fn program_home(
    global: &str,
    selected: Option<&str>,
    found: Option<&str>,
    active_id: Option<&str>,
) -> (r: String)
    ensures
        r@ == program_home_of(global@, opt(selected), opt(found), opt(active_id)),
{
    match selected {
        Some(dir) => text::owned(dir),
        None => match found {
            Some(dir) => text::owned(dir),
            None => match active_id {
                Some(id) => account_dir_for_id(global, id),
                None => paths::join(&accounts_dir(global), "unselected"),
            },
        },
    }
}

/// The directories of an account.
pub fn account_dirs(home: &str) -> (r: Vec<String>)
    ensures
        text::views(r@) == seq![
            paths::joined_path(home@, "shares"@),
            paths::joined_path(home@, "crdts"@),
            paths::joined_path(home@, "blobs"@),
            paths::joined_path(home@, "logs"@),
        ],
{
    let r: Vec<String> = vec![
        paths::join(home, "shares"),
        paths::join(home, "crdts"),
        paths::join(home, "blobs"),
        paths::join(home, "logs"),
    ];
    assert(text::views(r@) =~= seq![
        paths::joined_path(home@, "shares"@),
        paths::joined_path(home@, "crdts"@),
        paths::joined_path(home@, "blobs"@),
        paths::joined_path(home@, "logs"@),
    ]);
    r
}

/// The file with the settings of an account.
pub fn config_path(home: &str) -> (r: String)
    ensures
        r@ == paths::joined_path(home@, "config.tsv"@),
{
    paths::join(home, "config.tsv")
}

/// The file with the shares of an account.
pub fn shares_path(home: &str) -> (r: String)
    ensures
        r@ == paths::joined_path(home@, "shares.tsv"@),
{
    paths::join(home, "shares.tsv")
}

/// The directory with the manifests.
pub fn manifests_dir(home: &str) -> (r: String)
    ensures
        r@ == paths::joined_path(home@, "shares"@),
{
    paths::join(home, "shares")
}

/// The directory with the text documents.
pub fn crdts_dir(home: &str) -> (r: String)
    ensures
        r@ == paths::joined_path(home@, "crdts"@),
{
    paths::join(home, "crdts")
}

/// The directory with the contents of other files.
pub fn blobs_dir(home: &str) -> (r: String)
    ensures
        r@ == paths::joined_path(home@, "blobs"@),
{
    paths::join(home, "blobs")
}

/// The file that shows that a daemon runs for the account.
pub fn lock_path(home: &str) -> (r: String)
    ensures
        r@ == paths::joined_path(home@, "account.lock"@),
{
    paths::join(home, "account.lock")
}

/// The file that names the active account.
pub fn active_account_path(global: &str) -> (r: String)
    ensures
        r@ == paths::joined_path(paths::joined_path(global@, "global"@), "active_account.tsv"@),
{
    paths::join(&paths::join(global, "global"), "active_account.tsv")
}

/// The file with the ports of the accounts.
pub fn port_allocations_path(global: &str) -> (r: String)
    ensures
        r@ == paths::joined_path(
            paths::joined_path(global@, "global"@),
            "port_allocations.tsv"@,
        ),
{
    paths::join(&paths::join(global, "global"), "port_allocations.tsv")
}

/// Where the manifest of a share is kept.
pub open spec fn manifest_file(home: Seq<char>, share_id: Seq<char>) -> Seq<char> {
    paths::joined_path(paths::joined_path(home, "shares"@), share_id + ".manifest"@)
}

/// Where a text document of a share is kept.
pub open spec fn crdt_file(home: Seq<char>, share_id: Seq<char>, name: Seq<char>) -> Seq<char> {
    paths::joined_path(paths::joined_path(paths::joined_path(home, "crdts"@), share_id), name)
}

/// Where the content with the hash `name` is kept.
pub open spec fn blob_file(home: Seq<char>, name: Seq<char>) -> Seq<char> {
    paths::joined_path(paths::joined_path(home, "blobs"@), name)
}

/// The file with the manifest of a share.
pub fn manifest_path(home: &str, share_id: &str) -> (r: String)
    ensures
        r@ == manifest_file(home@, share_id@),
{
    let mut name = text::owned(share_id);
    name.append(".manifest");
    paths::join(&manifests_dir(home), &name)
}

/// The file with a text document of a share.
pub fn crdt_path(home: &str, share_id: &str, name: &str) -> (r: String)
    ensures
        r@ == crdt_file(home@, share_id@, name@),
{
    paths::join(&paths::join(&crdts_dir(home), share_id), name)
}

/// The file with the content that has the hash `name`.
pub fn blob_path(home: &str, name: &str) -> (r: String)
    ensures
        r@ == blob_file(home@, name@),
{
    paths::join(&blobs_dir(home), name)
}

/// The file with the names of the shares that other devices have shown.
pub fn remote_shares_path(home: &str) -> (r: String)
    ensures
        r@ == paths::joined_path(home@, "remote_shares.tsv"@),
{
    paths::join(home, "remote_shares.tsv")
}

/// The directory of an account lies directly in the directory of the accounts, whatever its id
/// holds.
pub proof fn law_account_dir_is_contained(global: Seq<char>, id: Seq<char>)
    ensures
        account_dir(global, id) == accounts_of(global).push('/') + safe_component(id),
        !safe_component(id).contains('/'),
        !safe_component(id).contains('.'),
{
    reveal_strlit("accounts");
    let a = accounts_of(global);
    assert(a.last() == 's');
}

/// An id that holds only safe characters names its directory as it is, and so two such accounts
/// have two directories.
pub proof fn law_accounts_are_isolated(global: Seq<char>, a: Seq<char>, b: Seq<char>)
    requires
        forall|i: int| 0 <= i < a.len() ==> auth::is_id_char(#[trigger] a[i]),
        forall|i: int| 0 <= i < b.len() ==> auth::is_id_char(#[trigger] b[i]),
        a != b,
    ensures
        safe_component(a) == a,
        account_dir(global, a) != account_dir(global, b),
{
    assert(safe_component(a) =~= a);
    assert(safe_component(b) =~= b);
    law_account_dir_is_contained(global, a);
    law_account_dir_is_contained(global, b);
    let base = accounts_of(global).push('/');
    if base + a == base + b {
        assert((base + a).skip(base.len() as int) =~= a);
        assert((base + b).skip(base.len() as int) =~= b);
    }
}

} // verus!
