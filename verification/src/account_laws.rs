//! Which account a name stands for, what is read from its settings, and who may log in.

use vstd::prelude::*;
use vstd::utf8::*;

use crate::accounts;
use crate::accounts::AccountEntry;
use crate::auth;
use crate::codec;
use crate::config;
use crate::config::ConfigView;
use crate::decimal;
use crate::home;
use crate::text;

verus! {

/// Whether an entry has settings that can be read, which name neither a user nor an account
/// `name`.
pub open spec fn is_another(e: AccountEntry, name: Seq<char>) -> bool {
    e.file matches Ok(s) && (config::parsed_config(Some(s@)) matches Ok(c) && c.user != name
        && c.account_id != name)
}

/// The account that is found has a user or an account id that is the name that was asked for, and
/// it is the first one that has it.
pub proof fn law_found_account_has_the_name(
    es: Seq<AccountEntry>,
    name: Seq<char>,
    dir: Seq<char>,
)
    requires
        accounts::search(es, name, 0) == Ok::<Seq<char>, Seq<char>>(dir),
    ensures
        exists|i: int|
            0 <= i < es.len() && (#[trigger] es[i]).dir@ == dir && (es[i].file matches Ok(s) && (
            config::parsed_config(Some(s@)) matches Ok(c) && (c.user == name || c.account_id
                == name))) && forall|j: int| 0 <= j < i ==> is_another(#[trigger] es[j], name),
{
    lemma_search(es, name, 0);
}

/// Where every account has readable settings and none has the name, the answer is that the
/// account was not found.
pub proof fn law_unknown_name_is_not_found(es: Seq<AccountEntry>, name: Seq<char>)
    requires
        forall|i: int| 0 <= i < es.len() ==> is_another(#[trigger] es[i], name),
    ensures
        accounts::search(es, name, 0) == Err::<Seq<char>, Seq<char>>(
            "account not found: "@ + name + "; run earth login "@ + name,
        ),
{
    lemma_search(es, name, 0);
}

/// The first account that has the name is found, where the settings of those before it can be
/// read.
pub proof fn law_first_account_with_the_name_is_found(
    es: Seq<AccountEntry>,
    name: Seq<char>,
    i: int,
    c: ConfigView,
)
    requires
        0 <= i < es.len(),
        es[i].file matches Ok(s) && config::parsed_config(Some(s@)) == Ok::<
            ConfigView,
            Seq<char>,
        >(c),
        c.user == name || c.account_id == name,
        forall|j: int| 0 <= j < i ==> is_another(#[trigger] es[j], name),
    ensures
        accounts::search(es, name, 0) == Ok::<Seq<char>, Seq<char>>(es[i].dir@),
{
    lemma_search_from(es, name, i, 0);
}

/// Settings that cannot be read end the search with what is wrong with them.
pub proof fn law_unreadable_settings_end_the_search(
    es: Seq<AccountEntry>,
    name: Seq<char>,
    i: int,
    e: Seq<char>,
)
    requires
        0 <= i < es.len(),
        match es[i].file {
            Ok(s) => config::parsed_config(Some(s@)) == Err::<ConfigView, Seq<char>>(e),
            Err(x) => x.message@ == e,
        },
        forall|j: int| 0 <= j < i ==> is_another(#[trigger] es[j], name),
    ensures
        accounts::search(es, name, 0) == Err::<Seq<char>, Seq<char>>(e),
{
    lemma_search_from(es, name, i, 0);
}

/// The search passes over accounts that have another name.
proof fn lemma_search_from(es: Seq<AccountEntry>, name: Seq<char>, i: int, from: int)
    requires
        0 <= from <= i < es.len(),
        forall|j: int| from <= j < i ==> is_another(#[trigger] es[j], name),
    ensures
        accounts::search(es, name, from) == accounts::search(es, name, i),
    decreases i - from,
{
    if from < i {
        assert(is_another(es[from], name));
        lemma_search_from(es, name, i, from + 1);
    }
}

/// What comes of the search.
proof fn lemma_search(es: Seq<AccountEntry>, name: Seq<char>, from: int)
    requires
        0 <= from <= es.len(),
        forall|j: int| 0 <= j < from ==> is_another(#[trigger] es[j], name),
    ensures
        accounts::search(es, name, from) matches Ok(dir) ==> exists|i: int|
            0 <= i < es.len() && (#[trigger] es[i]).dir@ == dir && (es[i].file matches Ok(s) && (
            config::parsed_config(Some(s@)) matches Ok(c) && (c.user == name || c.account_id
                == name))) && forall|j: int| 0 <= j < i ==> is_another(#[trigger] es[j], name),
        (forall|i: int| 0 <= i < es.len() ==> is_another(#[trigger] es[i], name))
            ==> accounts::search(es, name, from) == Err::<Seq<char>, Seq<char>>(
            "account not found: "@ + name + "; run earth login "@ + name,
        ),
    decreases es.len() - from,
{
    if from < es.len() {
        if is_another(es[from], name) {
            lemma_search(es, name, from + 1);
        } else if accounts::search(es, name, from) is Ok {
            assert(es[from].dir@ == accounts::search(es, name, from)->Ok_0);
        }
    }
}

/// Whether `line` says that `field` is `v`.
pub open spec fn sets(line: Seq<char>, field: Seq<char>, v: Seq<char>) -> bool {
    line == field.push('\t') + v
}

/// Whether `line` says what `field` is.
pub open spec fn names_field(line: Seq<char>, field: Seq<char>) -> bool {
    line.len() > field.len() && line.take(field.len() as int + 1) == field.push('\t')
}

/// What a line of settings is made of.
proof fn lemma_field(line: Seq<char>, field: Seq<char>)
    requires
        !field.contains('\t'),
    ensures
        names_field(line, field) <==> (config::field_of(line) matches Some((k, v)) && k == field),
        forall|v: Seq<char>| #[trigger]
            sets(line, field, v) ==> config::field_of(line) == Some((field, v)),
{
    let t = lemma_first_tab(line, 0);
    let n = field.len() as int;
    if names_field(line, field) {
        assert(line.take(n + 1)[n] == '\t');
        assert(line[n] == '\t');
        assert forall|i: int| 0 <= i < n implies line[i] != '\t' by {
            assert(line.take(n + 1)[i] == field[i]);
            assert(field.contains(field[i]));
        }
        assert(t == n);
        assert(line.take(n) =~= field) by {
            assert forall|i: int| 0 <= i < n implies line[i] == field[i] by {
                assert(line.take(n + 1)[i] == field[i]);
            }
        }
    }
    if let Some((k, v)) = config::field_of(line) {
        if k == field {
            assert(t == n);
            assert(line.take(n + 1) =~= field.push('\t'));
        }
    }
    assert forall|v: Seq<char>| #[trigger] sets(line, field, v) implies config::field_of(line)
        == Some((field, v)) by {
        assert(line[n] == '\t');
        assert forall|i: int| 0 <= i < n implies line[i] != '\t' by {
            assert(line[i] == field[i]);
            assert(field.contains(field[i]));
        }
        assert(t == n);
        assert(line.take(n) =~= field);
        assert(line.skip(n + 1) =~= v);
    }
}

/// Where the first tab of a line stands.
proof fn lemma_first_tab(line: Seq<char>, i: int) -> (t: int)
    requires
        0 <= i <= line.len(),
    ensures
        t == config::first_tab(line, i),
        i <= t <= line.len(),
        t < line.len() ==> line[t] == '\t',
        forall|k: int| i <= k < t ==> line[k] != '\t',
    decreases line.len() - i,
{
    if i >= line.len() || line[i] == '\t' {
        i
    } else {
        lemma_first_tab(line, i + 1)
    }
}

/// The names of the settings.
proof fn lemma_field_names()
    ensures
        !"user"@.contains('\t') && !"device"@.contains('\t') && !"password_hash"@.contains('\t'),
        !"account_id"@.contains('\t') && !"port"@.contains('\t'),
        "user"@ != "device"@ && "user"@ != "password_hash"@ && "user"@ != "account_id"@,
        "user"@ != "port"@ && "device"@ != "password_hash"@ && "device"@ != "account_id"@,
        "device"@ != "port"@ && "password_hash"@ != "account_id"@ && "password_hash"@ != "port"@,
        "account_id"@ != "port"@,
{
    reveal_strlit("user");
    reveal_strlit("device");
    reveal_strlit("password_hash");
    reveal_strlit("account_id");
    reveal_strlit("port");
    assert("user"@[0] == 'u' && "device"@[0] == 'd' && "password_hash"@[0] == 'p');
    assert("account_id"@[0] == 'a' && "port"@[0] == 'p' && "port"@.len() == 4);
    assert("password_hash"@.len() == 13);
}

/// What lines of settings come to, by the last line that names each of them.
proof fn lemma_of_fields(ls: Seq<Seq<char>>)
    ensures
        ({
            let c = config::of_fields(ls);
            &&& forall|i: int, v: Seq<char>|
                0 <= i < ls.len() && #[trigger] sets(ls[i], "user"@, v) && (forall|j: int|
                    i < j < ls.len() ==> !names_field(#[trigger] ls[j], "user"@)) ==> c.user
                    == codec::unescaped(v)
            &&& forall|i: int, v: Seq<char>|
                0 <= i < ls.len() && #[trigger] sets(ls[i], "device"@, v) && (forall|j: int|
                    i < j < ls.len() ==> !names_field(#[trigger] ls[j], "device"@)) ==> c.device
                    == codec::unescaped(v)
            &&& forall|i: int, v: Seq<char>|
                0 <= i < ls.len() && #[trigger] sets(ls[i], "password_hash"@, v) && (forall|j: int|
                    i < j < ls.len() ==> !names_field(#[trigger] ls[j], "password_hash"@))
                    ==> c.password_hash == codec::unescaped(v)
            &&& forall|i: int, v: Seq<char>|
                0 <= i < ls.len() && #[trigger] sets(ls[i], "account_id"@, v) && (forall|j: int|
                    i < j < ls.len() ==> !names_field(#[trigger] ls[j], "account_id"@))
                    ==> c.account_id == codec::unescaped(v)
            &&& forall|i: int, v: Seq<char>|
                0 <= i < ls.len() && #[trigger] sets(ls[i], "port"@, v) && (forall|j: int|
                    i < j < ls.len() ==> !names_field(#[trigger] ls[j], "port"@)) ==> c.port
                    == config::port_in(v)
            &&& (forall|j: int| 0 <= j < ls.len() ==> !names_field(#[trigger] ls[j], "user"@))
                ==> c.user.len() == 0
            &&& (forall|j: int| 0 <= j < ls.len() ==> !names_field(#[trigger] ls[j], "device"@))
                ==> c.device.len() == 0
            &&& (forall|j: int|
                0 <= j < ls.len() ==> !names_field(#[trigger] ls[j], "password_hash"@))
                ==> c.password_hash.len() == 0
            &&& (forall|j: int|
                0 <= j < ls.len() ==> !names_field(#[trigger] ls[j], "account_id"@))
                ==> c.account_id.len() == 0
            &&& (forall|j: int| 0 <= j < ls.len() ==> !names_field(#[trigger] ls[j], "port"@))
                ==> c.port == 7878
        }),
    decreases ls.len(),
{
    if ls.len() > 0 {
        let h = ls.drop_last();
        let l = ls[ls.len() - 1];
        lemma_of_fields(h);
        lemma_field_names();
        lemma_field(l, "user"@);
        lemma_field(l, "device"@);
        lemma_field(l, "password_hash"@);
        lemma_field(l, "account_id"@);
        lemma_field(l, "port"@);
        assert(forall|i: int| 0 <= i < h.len() ==> #[trigger] h[i] == ls[i]);
        assert forall|i: int| 0 <= i < h.len() implies #[trigger] ls[i] == h[i] by {}
    }
}

/// Settings are read from the last line that names each of them, whatever stands in other lines.
pub proof fn law_last_line_of_a_setting_counts(file: Seq<char>, i: int, v: Seq<char>)
    requires
        0 <= i < text::lines_of(file).len(),
    ensures
        config::parsed_config(Some(file)) matches Ok(c) ==> ({
            let ls = text::lines_of(file);
            &&& sets(ls[i], "user"@, v) && (forall|j: int|
                i < j < ls.len() ==> !names_field(#[trigger] ls[j], "user"@)) ==> c.user
                == codec::unescaped(v)
            &&& sets(ls[i], "device"@, v) && (forall|j: int|
                i < j < ls.len() ==> !names_field(#[trigger] ls[j], "device"@)) ==> c.device
                == codec::unescaped(v)
            &&& sets(ls[i], "password_hash"@, v) && (forall|j: int|
                i < j < ls.len() ==> !names_field(#[trigger] ls[j], "password_hash"@))
                ==> c.password_hash == codec::unescaped(v)
            &&& sets(ls[i], "account_id"@, v) && (forall|j: int|
                i < j < ls.len() ==> !names_field(#[trigger] ls[j], "account_id"@))
                ==> c.account_id == codec::unescaped(v)
            &&& sets(ls[i], "port"@, v) && (forall|j: int|
                i < j < ls.len() ==> !names_field(#[trigger] ls[j], "port"@)) ==> c.port
                == config::port_in(v)
        }),
{
    lemma_of_fields(text::lines_of(file));
}

/// Settings in which no line names the user, the device or the account are refused, and where no
/// line names a port it is the first one that is given out.
pub proof fn law_missing_settings(file: Seq<char>)
    ensures
        ({
            let ls = text::lines_of(file);
            let c = config::parsed_config(Some(file));
            &&& (forall|j: int| 0 <= j < ls.len() ==> !names_field(#[trigger] ls[j], "user"@))
                ==> c is Err
            &&& (forall|j: int| 0 <= j < ls.len() ==> !names_field(#[trigger] ls[j], "device"@))
                ==> c is Err
            &&& (forall|j: int|
                0 <= j < ls.len() ==> !names_field(#[trigger] ls[j], "account_id"@)) ==> c is Err
            &&& (forall|j: int| 0 <= j < ls.len() ==> !names_field(#[trigger] ls[j], "port"@))
                ==> (c matches Ok(s) ==> s.port == 7878)
            &&& c matches Err(e) ==> e == "bad config; run login again"@
            &&& c matches Ok(s) ==> s.user.len() > 0 && s.device.len() > 0 && s.account_id.len() > 0
        }),
        config::parsed_config(None) == Err::<ConfigView, Seq<char>>(
            "not logged in; run earth login <user>"@,
        ),
{
    lemma_of_fields(text::lines_of(file));
}

/// A port is read where it is written in decimal and fits; other texts stand for the first one.
pub proof fn law_ports_are_read(n: nat, s: Seq<char>)
    ensures
        n <= 65535 ==> config::port_in(decimal::digits(n)) == n,
        n > 65535 ==> config::port_in(decimal::digits(n)) == 7878,
        config::port_in(s) <= 65535,
        !(s.len() > 0 && decimal::is_digit(s.last())) ==> config::port_in(s) == 7878,
{
    decimal::law_number_of_digits(n);
    if s.len() == 0 {
        assert(!decimal::all_digits(s));
    } else if !decimal::is_digit(s.last()) {
        let body = s.skip(1);
        if body.len() > 0 {
            assert(body[body.len() - 1] == s.last());
            assert(!decimal::is_digit(body[body.len() - 1]));
        }
        assert(!decimal::is_digit(s[s.len() - 1]));
    }
}

/// A login is refused before an account is looked for if and only if the user consists of
/// whitespace alone or the password has fewer than eight bytes.
pub proof fn law_logins_are_refused(user: Seq<char>, password: Seq<char>)
    ensures
        accounts::login_refused(user, password) is None <==> (exists|i: int|
            0 <= i < user.len() && !text::is_white(#[trigger] user[i])) && encode_utf8(
            password,
        ).len() >= 8,
        (forall|i: int| 0 <= i < user.len() ==> text::is_white(#[trigger] user[i]))
            ==> accounts::login_refused(user, password) == Some("username cannot be empty"@),
        (exists|i: int| 0 <= i < user.len() && !text::is_white(#[trigger] user[i]))
            && encode_utf8(password).len() < 8 ==> accounts::login_refused(user, password) == Some(
            "password must be at least 8 characters"@,
        ),
{
}

/// A password is right if and only if its hash can be read, does not ask for more lanes than
/// there can be, and accepts it. What is wrong is said.
pub proof fn law_passwords_are_checked(password: Seq<char>, encoded: Seq<char>)
    ensures
        auth::password_check(password, encoded) is Ok <==> auth::phc_parsed(encoded) is Ok
            && !auth::too_many_lanes(encoded) && auth::argon2_accepts(password, encoded),
        auth::phc_parsed(encoded) matches Err(e) ==> auth::password_check(password, encoded)
            == Err::<(), Seq<char>>("bad password hash: "@ + e),
        auth::phc_parsed(encoded) is Ok && !auth::argon2_accepts(password, encoded)
            ==> auth::password_check(password, encoded) == Err::<(), Seq<char>>(
            "wrong password"@,
        ),
{
}

/// The files and directories of an account, below its directory.
pub proof fn law_files_are_kept_by_kind(dir: Seq<char>, id: Seq<char>, name: Seq<char>)
    requires
        dir.len() > 0,
        dir.last() != '/',
        id.len() > 0,
        id[0] != '/',
        id.last() != '/',
        name.len() > 0,
        name[0] != '/',
    ensures
        home::manifest_file(dir, id) == dir + "/shares/"@ + id + ".manifest"@,
        home::crdt_file(dir, id, name) == dir + "/crdts/"@ + id + "/"@ + name,
        home::blob_file(dir, name) == dir + "/blobs/"@ + name,
{
    reveal_strlit("shares");
    reveal_strlit("crdts");
    reveal_strlit("blobs");
    reveal_strlit("/shares/");
    reveal_strlit("/crdts/");
    reveal_strlit("/blobs/");
    reveal_strlit("/");
    reveal_strlit(".manifest");
    assert((id + ".manifest"@)[0] == id[0]);
    assert(home::manifest_file(dir, id) =~= dir + "/shares/"@ + id + ".manifest"@);
    assert(home::crdt_file(dir, id, name) =~= dir + "/crdts/"@ + id + "/"@ + name);
    assert(home::blob_file(dir, name) =~= dir + "/blobs/"@ + name);
}

/// Where the account is worked in: the directory that was selected goes before that of the
/// account which was named, and that one before the active account.
#[verifier::spinoff_prover]
#[verifier::rlimit(60)]
pub proof fn law_selected_directory_goes_first(
    global: Seq<char>,
    a: Seq<char>,
    b: Seq<char>,
    id: Seq<char>,
    found: Option<Seq<char>>,
    active: Option<Seq<char>>,
)
    requires
        global.len() > 0,
        global.last() != '/',
    ensures
        home::program_home_of(global, Some(a), found, active) == a,
        home::program_home_of(global, None, Some(b), active) == b,
        home::program_home_of(global, None, None, Some(id)).len() == global.len()
            + "/accounts/"@.len() + id.len(),
        home::program_home_of(global, None, None, Some(id)).take(
            (global + "/accounts/"@).len() as int,
        ) == global + "/accounts/"@,
        (forall|i: int| 0 <= i < id.len() ==> auth::is_id_char(#[trigger] id[i]))
            ==> home::program_home_of(global, None, None, Some(id)) == global + "/accounts/"@ + id,
        home::program_home_of(global, None, None, None) == global + "/accounts/unselected"@,
        home::global_home_of(Some(a), active) == a,
        home::global_home_of(None, Some(global)) == global + "/.earth"@,
        home::global_home_of(None, None) == "./.earth"@,
{
    reveal_strlit("accounts");
    reveal_strlit("/accounts/");
    reveal_strlit("unselected");
    reveal_strlit("/accounts/unselected");
    reveal_strlit(".earth");
    reveal_strlit("/.earth");
    reveal_strlit("./.earth");
    reveal_strlit(".");
    let safe = home::safe_component(id);
    let p = home::program_home_of(global, None, None, Some(id));
    assert(p == global + "/accounts/"@ + safe) by {
        if safe.len() > 0 && safe[0] == '/' {
            assert(auth::is_id_char(safe[0]) || safe[0] == '_');
        }
        assert(p =~= global + "/accounts/"@ + safe);
    }
    assert(p.take((global + "/accounts/"@).len() as int) =~= global + "/accounts/"@);
    if forall|i: int| 0 <= i < id.len() ==> auth::is_id_char(#[trigger] id[i]) {
        assert(safe =~= id);
    }
    assert(home::program_home_of(global, None, None, None) =~= global + "/accounts/unselected"@);
    assert(home::global_home_of(None, Some(global)) =~= global + "/.earth"@);
    assert(home::global_home_of(None, None) =~= "./.earth"@);
}

/// Another character in an account id does not lead out of its directory: it stands there as an
/// underscore, and every other one as itself.
pub proof fn law_unsafe_characters_are_replaced(id: Seq<char>, i: int)
    requires
        0 <= i < id.len(),
    ensures
        home::safe_component(id).len() == id.len(),
        ('a' <= id[i] <= 'z' || 'A' <= id[i] <= 'Z' || '0' <= id[i] <= '9' || id[i] == '-' || id[i]
            == '_') ==> home::safe_component(id)[i] == id[i],
        !('a' <= id[i] <= 'z' || 'A' <= id[i] <= 'Z' || '0' <= id[i] <= '9' || id[i] == '-'
            || id[i] == '_') ==> home::safe_component(id)[i] == '_',
{
}

/// A port that some account has, whichever account it is, is not given to another one.
pub proof fn law_no_port_is_given_twice(
    m: Map<Seq<char>, u16>,
    id: Seq<char>,
    from: int,
    bindable: Set<int>,
)
    requires
        m.dom().contains(id),
        7878 <= from,
    ensures
        accounts::next_port(m, from) matches Some(p) ==> m[id] != p && from <= p < 7978,
        accounts::port_found(m, bindable, 7878) matches Some(p) ==> m[id] != p
            && bindable.contains(p) && 7878 <= p < 7978,
{
    accounts::law_tried_port_is_free(m, from);
    accounts::law_account_gets_the_least_port(m, bindable);
    if let Some(p) = accounts::next_port(m, from) {
        if m[id] == p {
            assert(accounts::port_used(m, p));
        }
    }
    if let Some(p) = accounts::port_found(m, bindable, 7878) {
        if m[id] == p {
            assert(accounts::port_used(m, p));
        }
    }
}

/// A port that can be bound and that no account has is not passed over.
pub proof fn law_no_free_port_is_passed_over(
    m: Map<Seq<char>, u16>,
    q: int,
    bindable: Set<int>,
)
    requires
        7878 <= q < 7978,
        bindable.contains(q),
        forall|id: Seq<char>| #[trigger] m.dom().contains(id) ==> m[id] != q,
    ensures
        accounts::port_found(m, bindable, 7878) matches Some(p) && p <= q,
        accounts::next_port(m, 7878) matches Some(p) && p <= q,
{
    accounts::law_account_gets_the_least_port(m, bindable);
    accounts::law_tried_port_is_free(m, 7878);
    assert(!accounts::port_used(m, q));
}

/// The device of a new account is named by the machine and the time.
pub proof fn law_device_names(host: Seq<char>, now_ms: nat)
    ensures
        accounts::device_name_of(host, now_ms).take(host.len() as int + 1) == host.push('-'),
        decimal::number(accounts::device_name_of(host, now_ms).skip(host.len() as int + 1)) == Some(
            now_ms,
        ),
{
    let d = accounts::device_name_of(host, now_ms);
    decimal::law_number_of_digits(now_ms);
    assert(d.take(host.len() as int + 1) =~= host.push('-'));
    assert(d.skip(host.len() as int + 1) =~= decimal::digits(now_ms));
}

} // verus!
