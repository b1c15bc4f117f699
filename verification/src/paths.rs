//! Paths as text: names parted by slashes.

use vstd::prelude::*;
use vstd::string::*;

use crate::text;

verus! {

/// Where the name begins that ends before position `n` of `path`.
pub open spec fn name_start(path: Seq<char>, n: int) -> int
    decreases n,
{
    if n <= 0 || path[n - 1] == '/' {
        n
    } else {
        name_start(path, n - 1)
    }
}

/// Whether the name from `b` to `e` is a dot that says nothing: one that does not stand at the
/// beginning of the path.
pub open spec fn idle_dot(path: Seq<char>, b: int, e: int) -> bool {
    b > 0 && e == b + 1 && path[b] == '.'
}

/// Where the last name of the first `n` characters of `path` stands. Slashes at the end and
/// dots that say nothing are passed over.
pub open spec fn last_name_before(path: Seq<char>, n: int) -> Option<(int, int)>
    decreases n,
{
    if n <= 0 {
        None
    } else if path[n - 1] == '/' {
        last_name_before(path, n - 1)
    } else {
        let b = name_start(path, n);
        if idle_dot(path, b, n) {
            last_name_before(path, n - 1)
        } else {
            Some((b, n))
        }
    }
}

/// The name of the file that `path` leads to: none where the path ends in the root, a dot or
/// two dots.
pub open spec fn file_name_of(path: Seq<char>) -> Option<Seq<char>> {
    match last_name_before(path, path.len() as int) {
        Some((b, e)) => {
            let name = path.subrange(b, e);
            if name == "."@ || name == ".."@ {
                None
            } else {
                Some(name)
            }
        },
        None => None,
    }
}

/// How many of the first `n` characters of `path` are left without the slashes at their end and
/// the dots that say nothing. The slash of the root stays.
pub open spec fn trimmed_length(path: Seq<char>, n: int) -> int
    decreases n,
{
    if n <= 0 {
        0
    } else if path[n - 1] == '/' {
        if n == 1 {
            1
        } else {
            trimmed_length(path, n - 1)
        }
    } else if idle_dot(path, name_start(path, n), n) {
        trimmed_length(path, n - 1)
    } else {
        n
    }
}

/// The path of the directory that holds what `path` leads to; the root has none, and so has the
/// empty path.
pub open spec fn parent_of(path: Seq<char>) -> Option<Seq<char>> {
    match last_name_before(path, path.len() as int) {
        Some((b, e)) => Some(path.take(trimmed_length(path, b))),
        None => None,
    }
}

/// The path `rel` seen from `base`. An absolute path stays as it is.
pub open spec fn joined_path(base: Seq<char>, rel: Seq<char>) -> Seq<char> {
    if rel.len() > 0 && rel[0] == '/' {
        rel
    } else if base.len() > 0 && base.last() != '/' {
        base.push('/') + rel
    } else {
        base + rel
    }
}

/// Whether the name at position `i` of a path says nothing: a dot, or nothing between two slashes.
/// What a path begins and ends with always says something.
pub open spec fn is_idle(names: Seq<Seq<char>>, i: int) -> bool {
    i + 1 < names.len() && (names[i] == "."@ || (i > 0 && names[i].len() == 0))
}

/// Whether two dots step back over the last of the names `head`: over any but two dots, which
/// step back themselves, and the root, above which there is nothing.
pub open spec fn steps_back(head: Seq<Seq<char>>) -> bool {
    head.len() > 0 && head.last() != ".."@ && !at_root(head)
}

/// Whether the names `head` lead to the root and no further.
pub open spec fn at_root(head: Seq<Seq<char>>) -> bool {
    head.len() == 1 && head[0].len() == 0
}

/// What the first `n` names of a path come to: names that say nothing are left out, and two dots
/// take back the name before them. What a path ends with stays as it is.
pub open spec fn resolved(names: Seq<Seq<char>>, n: int) -> Seq<Seq<char>>
    decreases n,
{
    if n <= 0 {
        Seq::empty()
    } else {
        let head = resolved(names, n - 1);
        if is_idle(names, n - 1) {
            head
        } else if n < names.len() && names[n - 1] == ".."@ && at_root(head) {
            head
        } else if n < names.len() && names[n - 1] == ".."@ && steps_back(head) {
            head.drop_last()
        } else {
            head.push(names[n - 1])
        }
    }
}

/// The path with the names `names`.
pub open spec fn slashed(names: Seq<Seq<char>>) -> Seq<char>
    decreases names.len(),
{
    if names.len() == 0 {
        Seq::empty()
    } else if names.len() == 1 {
        names[0]
    } else {
        slashed(names.drop_last()).push('/') + names.last()
    }
}

/// The names of a path.
pub open spec fn names_of(path: Seq<char>) -> Seq<Seq<char>> {
    text::split_at_char(path, '/')
}

/// `path` without the names that say nothing and those that are taken back. It leads to the same
/// file wherever the directories that it passes are there.
pub open spec fn plain(path: Seq<char>) -> Seq<char> {
    slashed(resolved(names_of(path), names_of(path).len() as int))
}

/// Where the last dot of `name` stands, up to position `n`.
pub open spec fn last_dot(name: Seq<char>, n: int) -> Option<int>
    decreases n,
{
    if n <= 0 {
        None
    } else if name[n - 1] == '.' {
        Some(n - 1)
    } else {
        last_dot(name, n - 1)
    }
}

/// What stands behind the last dot of the file name, where something stands before it.
pub open spec fn extension_of(path: Seq<char>) -> Option<Seq<char>> {
    match file_name_of(path) {
        Some(name) => match last_dot(name, name.len() as int) {
            Some(d) => if d > 0 {
                Some(name.skip(d + 1))
            } else {
                None
            },
            None => None,
        },
        None => None,
    }
}

/// The start of a name lies at or before its end.
pub proof fn lemma_name_start(path: Seq<char>, n: int)
    requires
        0 <= n <= path.len(),
    ensures
        0 <= name_start(path, n) <= n,
        n > 0 && path[n - 1] != '/' ==> name_start(path, n) < n,
        forall|i: int| name_start(path, n) <= i < n ==> path[i] != '/',
        name_start(path, n) > 0 ==> path[name_start(path, n) - 1] == '/',
    decreases n,
{
    if n > 0 && path[n - 1] != '/' {
        lemma_name_start(path, n - 1);
    }
}

/// A text without slashes is one name.
pub proof fn lemma_one_name(path: Seq<char>, n: int)
    requires
        0 < n <= path.len(),
        forall|i: int| 0 <= i < n ==> path[i] != '/',
    ensures
        last_name_before(path, n) == Some((0int, n)),
{
    lemma_name_start(path, n);
    if name_start(path, n) > 0 {
        assert(path[name_start(path, n) - 1] == '/');
    }
}

/// Finds the beginning of a name.
fn find_name_start(path: &Vec<char>, n: usize) -> (b: usize)
    requires
        n <= path@.len(),
    ensures
        b == name_start(path@, n as int),
        b <= n,
{
    let mut b: usize = n;
    while b > 0 && path[b - 1] != '/'
        invariant
            b <= n <= path@.len(),
            name_start(path@, b as int) == name_start(path@, n as int),
        decreases b,
    {
        b = b - 1;
    }
    b
}

/// Finds the last name of a path.
fn find_last_name(path: &Vec<char>) -> (r: Option<(usize, usize)>)
    ensures
        match r {
            Some((b, e)) => last_name_before(path@, path@.len() as int) == Some(
                (b as int, e as int),
            ) && b < e <= path@.len(),
            None => last_name_before(path@, path@.len() as int) is None,
        },
{
    let mut n: usize = path.len();
    while n > 0
        invariant
            n <= path@.len(),
            last_name_before(path@, n as int) == last_name_before(path@, path@.len() as int),
        decreases n,
    {
        if path[n - 1] != '/' {
            let b = find_name_start(path, n);
            proof {
                lemma_name_start(path@, n as int);
            }
            if !(b > 0 && n == b + 1 && path[b] == '.') {
                return Some((b, n));
            }
        }
        n = n - 1;
    }
    None
}

/// The name of the file that `path` leads to.
pub fn file_name(path: &str) -> (r: Option<String>)
    ensures
        match r {
            Some(name) => file_name_of(path@) == Some(name@),
            None => file_name_of(path@) is None,
        },
{
    let chars = text::chars_of(path);
    match find_last_name(&chars) {
        Some((b, e)) => {
            let name = text::string_of(&chars, b, e);
            if text::same(&name, ".") || text::same(&name, "..") {
                None
            } else {
                Some(name)
            }
        },
        None => None,
    }
}

/// The path of the directory that holds what `path` leads to.
pub fn parent(path: &str) -> (r: Option<String>)
    ensures
        match r {
            Some(dir) => parent_of(path@) == Some(dir@),
            None => parent_of(path@) is None,
        },
{
    let chars = text::chars_of(path);
    match find_last_name(&chars) {
        Some((b, e)) => {
            let n = trim_length(&chars, b);
            assert(path@.subrange(0, n as int) =~= path@.take(n as int));
            Some(text::string_of(&chars, 0, n))
        },
        None => None,
    }
}

/// Finds how much of a path is left without what says nothing at its end.
fn trim_length(path: &Vec<char>, b: usize) -> (r: usize)
    requires
        b <= path@.len(),
    ensures
        r == trimmed_length(path@, b as int),
        r <= b,
{
    let mut n: usize = b;
    while n > 0
        invariant
            n <= b <= path@.len(),
            trimmed_length(path@, n as int) == trimmed_length(path@, b as int),
        decreases n,
    {
        if path[n - 1] == '/' {
            if n == 1 {
                return 1;
            }
        } else {
            let s = find_name_start(path, n);
            proof {
                lemma_name_start(path@, n as int);
            }
            if !(s > 0 && n == s + 1 && path[s] == '.') {
                return n;
            }
        }
        n = n - 1;
    }
    0
}

/// The path `rel` seen from `base`.
pub fn join(base: &str, rel: &str) -> (r: String)
    ensures
        r@ == joined_path(base@, rel@),
{
    let b = text::chars_of(base);
    let c = text::chars_of(rel);
    if c.len() > 0 && c[0] == '/' {
        return text::owned(rel);
    }
    let mut out = text::owned(base);
    if b.len() > 0 && b[b.len() - 1] != '/' {
        out.push('/');
    }
    out.append(rel);
    out
}

/// The path with the names `names`.
fn join_names(names: &Vec<String>) -> (r: String)
    ensures
        r@ == slashed(text::views(names@)),
{
    let ghost nv = text::views(names@);
    let mut out = String::new();
    let mut i: usize = 0;
    assert(nv.take(0) =~= Seq::<Seq<char>>::empty());
    while i < names.len()
        invariant
            i <= names@.len(),
            nv == text::views(names@),
            out@ == slashed(nv.take(i as int)),
        decreases names@.len() - i,
    {
        let ghost next = nv.take(i + 1);
        assert(next.drop_last() =~= nv.take(i as int));
        assert(next.last() == names@[i as int]@);
        if i > 0 {
            out.push('/');
        }
        out.append(&names[i]);
        i = i + 1;
        assert(out@ =~= slashed(next));
    }
    assert(nv.take(i as int) =~= nv);
    out
}

/// The path without the names that say nothing and those that are taken back.
pub fn plain_path(path: &str) -> (r: String)
    ensures
        r@ == plain(path@),
{
    let names = text::split(path, '/');
    let ghost nv = names_of(path@);
    let n = names.len();
    let mut kept: Vec<String> = Vec::new();
    let mut i: usize = 0;
    assert(text::views(kept@) =~= resolved(nv, 0));
    while i < n
        invariant
            i <= n == names@.len(),
            text::views(names@) == nv,
            nv == names_of(path@),
            text::views(kept@) == resolved(nv, i as int),
        decreases n - i,
    {
        let ghost head = resolved(nv, i as int);
        let k = kept.len();
        assert(nv[i as int] == names@[i as int]@);
        assert(head.len() == k);
        assert(k > 0 ==> head[k - 1] == kept@[k - 1]@);
        let dot = text::same(&names[i], ".");
        let dots = i + 1 < n && text::same(&names[i], "..");
        if i + 1 < n && (dot || (i > 0 && names[i].as_str().is_empty())) {
            assert(is_idle(nv, i as int));
        } else if dots && k == 1 && kept[0].as_str().is_empty() {
            assert(at_root(head));
        } else if dots && k > 0 && !text::same(&kept[k - 1], "..") {
            assert(steps_back(head));
            let _ = kept.pop();
            assert(text::views(kept@) =~= head.drop_last());
        } else {
            kept.push(names[i].clone());
            assert(text::views(kept@) =~= head.push(nv[i as int]));
        }
        i = i + 1;
    }
    join_names(&kept)
}

/// What comes behind names that come to the same comes to the same.
proof fn lemma_resolved_behind(
    p: Seq<Seq<char>>,
    q: Seq<Seq<char>>,
    b: Seq<Seq<char>>,
    k: int,
)
    requires
        p.len() > 0,
        q.len() > 0,
        0 <= k <= b.len(),
        resolved(p + b, p.len() as int) == resolved(q + b, q.len() as int),
    ensures
        resolved(p + b, p.len() + k) == resolved(q + b, q.len() + k),
    decreases k,
{
    if k > 0 {
        lemma_resolved_behind(p, q, b, k - 1);
        assert((p + b)[p.len() + k - 1] == b[k - 1]);
        assert((q + b)[q.len() + k - 1] == b[k - 1]);
    }
}

proof fn lemma_resolved_alike(x: Seq<Seq<char>>, y: Seq<Seq<char>>, n: int)
    requires
        0 <= n < x.len(),
        n < y.len(),
        forall|i: int| 0 <= i < n ==> #[trigger] x[i] == y[i],
    ensures
        resolved(x, n) == resolved(y, n),
    decreases n,
{
    if n > 0 {
        lemma_resolved_alike(x, y, n - 1);
        assert(x[n - 1] == y[n - 1]);
    }
}

/// Names in the middle of a path that come to nothing can be left out.
proof fn lemma_names_left_out(a: Seq<char>, mid: Seq<Seq<char>>, b: Seq<char>, long: Seq<char>)
    requires
        names_of(long) == names_of(a) + mid + names_of(b),
        resolved(names_of(long), (names_of(a).len() + mid.len()) as int) == resolved(
            names_of(long),
            names_of(a).len() as int,
        ),
    ensures
        plain(long) == plain(a.push('/') + b),
{
    let x = names_of(a);
    let y = names_of(b);
    text::lemma_split_nonempty(a, '/');
    text::lemma_split_nonempty(b, '/');
    text::lemma_split_concat(a, b, '/');
    assert(names_of(a.push('/') + b) == x + y);
    assert(x + mid + y =~= (x + mid) + y);
    lemma_resolved_alike(x + mid + y, x + y, x.len() as int);
    lemma_resolved_behind(x + mid, x, y, y.len() as int);
}

/// A dot or nothing between two slashes of a path can be left out.
pub proof fn law_idle_names_are_left_out(a: Seq<char>, b: Seq<char>)
    ensures
        plain(a.push('/') + "."@.push('/') + b) == plain(a.push('/') + b),
        plain(a.push('/').push('/') + b) == plain(a.push('/') + b),
{
    let none = Seq::<char>::empty();
    let x = names_of(a);
    let y = names_of(b);
    reveal_strlit(".");
    text::lemma_split_nonempty(a, '/');
    text::lemma_split_nonempty(b, '/');
    text::lemma_split_concat("."@, b, '/');
    text::lemma_split_concat(a, "."@.push('/') + b, '/');
    text::lemma_split_concat(none, b, '/');
    text::lemma_split_concat(a, none.push('/') + b, '/');
    text::lemma_split_one("."@, '/');
    text::lemma_split_one(none, '/');
    let dotted = a.push('/') + "."@.push('/') + b;
    let doubled = a.push('/').push('/') + b;
    assert(dotted =~= a.push('/') + ("."@.push('/') + b));
    assert(doubled =~= a.push('/') + (none.push('/') + b));
    assert(x + (seq!["."@] + y) =~= x + seq!["."@] + y);
    assert(x + (seq![none] + y) =~= x + seq![none] + y);
    assert(is_idle(names_of(dotted), x.len() as int));
    assert(is_idle(names_of(doubled), x.len() as int));
    lemma_names_left_out(a, seq!["."@], b, dotted);
    lemma_names_left_out(a, seq![none], b, doubled);
}

/// A name and the two dots behind it can be left out of the middle of a path.
pub proof fn law_names_are_taken_back(a: Seq<char>, name: Seq<char>, b: Seq<char>)
    requires
        name.len() > 0,
        name != "."@,
        name != ".."@,
        !name.contains('/'),
    ensures
        plain(a.push('/') + name.push('/') + ".."@.push('/') + b) == plain(a.push('/') + b),
{
    let x = names_of(a);
    let y = names_of(b);
    let back = ".."@.push('/') + b;
    let long = a.push('/') + name.push('/') + ".."@.push('/') + b;
    reveal_strlit("..");
    reveal_strlit(".");
    text::lemma_split_nonempty(a, '/');
    text::lemma_split_nonempty(b, '/');
    text::lemma_split_one(".."@, '/');
    text::lemma_split_one(name, '/');
    text::lemma_split_concat(".."@, b, '/');
    text::lemma_split_concat(name, back, '/');
    text::lemma_split_concat(a, name.push('/') + back, '/');
    assert(long =~= a.push('/') + (name.push('/') + back));
    let mid = seq![name, ".."@];
    let names = names_of(long);
    assert(x + (seq![name] + (seq![".."@] + y)) =~= x + mid + y);
    let n = x.len() as int;
    let head = resolved(names, n);
    assert(names[n] == name);
    assert(names[n + 1] == ".."@);
    assert(".."@.len() == 2 && "."@.len() == 1);
    assert(resolved(names, n + 1) == head.push(name));
    assert(head.push(name).drop_last() =~= head);
    lemma_names_left_out(a, mid, b, long);
}

/// Whether `name` is a name that leads from a directory to what it holds.
pub open spec fn is_name(name: Seq<char>) -> bool {
    name.len() > 0 && !name.contains('/') && name != "."@ && name != ".."@
}

/// Whether `names` are one or more names that lead from a directory to what it holds.
pub open spec fn are_names(names: Seq<Seq<char>>) -> bool {
    names.len() > 0 && forall|i: int| 0 <= i < names.len() ==> is_name(#[trigger] names[i])
}

/// What the names `names` lead to from the directory `base`.
pub open spec fn below(base: Seq<char>, names: Seq<Seq<char>>) -> Seq<char> {
    joined_path(base, slashed(names))
}

/// Names without slashes are read back from their path.
proof fn lemma_names_of_slashed(names: Seq<Seq<char>>)
    requires
        names.len() > 0,
        forall|i: int| 0 <= i < names.len() ==> !(#[trigger] names[i]).contains('/'),
    ensures
        names_of(slashed(names)) == names,
    decreases names.len(),
{
    if names.len() == 1 {
        text::lemma_split_one(names[0], '/');
        assert(seq![names[0]] =~= names);
    } else {
        let r = names.drop_last();
        assert forall|i: int| 0 <= i < r.len() implies !(#[trigger] r[i]).contains('/') by {
            assert(r[i] == names[i]);
        }
        lemma_names_of_slashed(r);
        assert(!names[names.len() - 1].contains('/'));
        text::lemma_split_one(names.last(), '/');
        text::lemma_split_concat(slashed(r), names.last(), '/');
        assert(r + seq![names.last()] =~= names);
    }
}

/// A path of names begins and ends with a character of a name.
proof fn lemma_slashed_ends(names: Seq<Seq<char>>)
    requires
        are_names(names),
    ensures
        slashed(names).len() > 0,
        slashed(names)[0] != '/',
        slashed(names).last() != '/',
    decreases names.len(),
{
    let first = names[0];
    let last = names[names.len() - 1];
    assert(is_name(first) && is_name(last));
    assert(first.contains(first[0]));
    assert(last.contains(last[last.len() - 1]));
    if names.len() > 1 {
        let r = names.drop_last();
        assert forall|i: int| 0 <= i < r.len() implies is_name(#[trigger] r[i]) by {
            assert(r[i] == names[i]);
        }
        lemma_slashed_ends(r);
        assert(slashed(names)[0] == slashed(r)[0]);
        assert(slashed(names).last() == last[last.len() - 1]);
    }
}

/// One name more leads one step further.
pub proof fn lemma_step_below(base: Seq<char>, names: Seq<Seq<char>>, name: Seq<char>)
    requires
        are_names(names),
        is_name(name),
    ensures
        joined_path(below(base, names), name) == below(base, names.push(name)),
        are_names(names.push(name)),
{
    let more = names.push(name);
    lemma_slashed_ends(names);
    assert(name.contains(name[0]));
    assert(more.drop_last() =~= names);
    assert forall|i: int| 0 <= i < more.len() implies is_name(#[trigger] more[i]) by {
        if i < names.len() {
            assert(more[i] == names[i]);
        }
    }
    lemma_slashed_ends(more);
    let dir = below(base, names);
    assert(dir.last() == slashed(names).last());
    assert(joined_path(dir, name) =~= below(base, more));
}

/// What names below a directory come to.
proof fn lemma_resolved_names(head: Seq<Seq<char>>, names: Seq<Seq<char>>, k: int)
    requires
        are_names(names),
        0 <= k <= names.len(),
    ensures
        resolved(head + names, head.len() + k) == resolved(head + names, head.len() as int)
            + names.take(k),
    decreases k,
{
    let all = head + names;
    if k == 0 {
        assert(names.take(0) =~= Seq::<Seq<char>>::empty());
        assert(resolved(all, head.len() as int) + names.take(0) =~= resolved(
            all,
            head.len() as int,
        ));
    } else {
        lemma_resolved_names(head, names, k - 1);
        assert(all[head.len() + k - 1] == names[k - 1]);
        assert(is_name(names[k - 1]));
        assert(names.take(k) =~= names.take(k - 1).push(names[k - 1]));
        assert(resolved(all, head.len() as int) + names.take(k) =~= (resolved(
            all,
            head.len() as int,
        ) + names.take(k - 1)).push(names[k - 1]));
    }
}

/// The names that the first names of a path come to hold no slash.
proof fn lemma_resolved_hold_no_slash(names: Seq<Seq<char>>, n: int)
    requires
        0 <= n <= names.len(),
        forall|i: int| 0 <= i < names.len() ==> !(#[trigger] names[i]).contains('/'),
    ensures
        forall|i: int|
            0 <= i < resolved(names, n).len() ==> !(#[trigger] resolved(names, n)[i]).contains(
                '/',
            ),
    decreases n,
{
    if n > 0 {
        lemma_resolved_hold_no_slash(names, n - 1);
        let head = resolved(names, n - 1);
        let all = resolved(names, n);
        assert(!names[n - 1].contains('/'));
        assert forall|i: int| 0 <= i < all.len() implies !(#[trigger] all[i]).contains('/') by {
            if i < head.len() {
                assert(all[i] == head[i]);
            }
        }
    }
}

/// The names of what lies below a directory: those that the directory comes to, and then the
/// names below it.
proof fn lemma_names_below(base: Seq<char>, names: Seq<Seq<char>>) -> (head: Seq<Seq<char>>)
    requires
        are_names(names),
    ensures
        base.len() == 0 ==> head.len() == 0,
        base.len() > 0 && base.last() == '/' ==> head == names_of(base.drop_last()),
        base.len() > 0 && base.last() != '/' ==> head == names_of(base),
        names_of(plain(below(base, names))) == resolved(head + names, head.len() as int) + names,
{
    let s = slashed(names);
    let path = below(base, names);
    assert forall|i: int| 0 <= i < names.len() implies !(#[trigger] names[i]).contains('/') by {
        assert(is_name(names[i]));
    }
    lemma_names_of_slashed(names);
    lemma_slashed_ends(names);
    let head = if base.len() == 0 {
        Seq::empty()
    } else if base.last() == '/' {
        names_of(base.drop_last())
    } else {
        names_of(base)
    };
    if base.len() == 0 {
        assert(path =~= s);
        assert(head + names =~= names);
    } else if base.last() == '/' {
        assert(path =~= base.drop_last().push('/') + s);
        text::lemma_split_concat(base.drop_last(), s, '/');
        text::lemma_split_parts(base.drop_last(), '/');
    } else {
        text::lemma_split_concat(base, s, '/');
        text::lemma_split_parts(base, '/');
    }
    let all = head + names;
    assert(names_of(path) == all);
    assert forall|i: int| 0 <= i < all.len() implies !(#[trigger] all[i]).contains('/') by {
        if i < head.len() {
            assert(all[i] == head[i]);
        } else {
            assert(all[i] == names[i - head.len()]);
        }
    }
    let front = resolved(all, head.len() as int);
    lemma_resolved_names(head, names, names.len() as int);
    assert(names.take(names.len() as int) =~= names);
    lemma_resolved_hold_no_slash(all, all.len() as int);
    lemma_names_of_slashed(front + names);
    head
}

/// Different names below one directory lead to different files.
pub proof fn law_names_below_lead_apart(base: Seq<char>, a: Seq<Seq<char>>, b: Seq<Seq<char>>)
    requires
        are_names(a),
        are_names(b),
        plain(below(base, a)) == plain(below(base, b)),
    ensures
        a == b,
{
    let head = lemma_names_below(base, a);
    let same = lemma_names_below(base, b);
    assert(head =~= same);
    let n = head.len() as int;
    lemma_resolved_alike(head + a, head + b, n);
    let front = resolved(head + a, n);
    assert((front + a).skip(front.len() as int) =~= a);
    assert((front + b).skip(front.len() as int) =~= b);
}

/// The name of a file leads from its directory to it.
pub proof fn lemma_file_name_is_name(path: Seq<char>)
    ensures
        file_name_of(path) matches Some(name) ==> is_name(name),
{
    lemma_last_name(path, path.len() as int);
    if let Some(name) = file_name_of(path) {
        if name.contains('/') {
            let i = choose|i: int| 0 <= i < name.len() && name[i] == '/';
            let (b, e) = last_name_before(path, path.len() as int)->Some_0;
            assert(path[b + i] == '/');
        }
    }
}

/// What stands behind the last dot of the file name.
pub fn extension(path: &str) -> (r: Option<String>)
    ensures
        match r {
            Some(ext) => extension_of(path@) == Some(ext@),
            None => extension_of(path@) is None,
        },
{
    match file_name(path) {
        Some(name) => {
            let chars = text::chars_of(&name);
            let len = chars.len();
            let mut n: usize = len;
            while n > 0
                invariant
                    n <= len == chars@.len(),
                    chars@ == name@,
                    file_name_of(path@) == Some(name@),
                    last_dot(name@, n as int) == last_dot(name@, len as int),
                decreases n,
            {
                if chars[n - 1] == '.' {
                    if n == 1 {
                        return None;
                    }
                    assert(name@.subrange(n as int, len as int) =~= name@.skip(n as int));
                    return Some(text::string_of(&chars, n, len));
                }
                n = n - 1;
            }
            None
        },
        None => None,
    }
}

/// The path `path` with the extension `ext` put in place of the one that it has.
pub open spec fn put_extension(path: Seq<char>, ext: Seq<char>) -> Seq<char> {
    match last_name_before(path, path.len() as int) {
        Some((b, e)) => {
            let name = path.subrange(b, e);
            if name == "."@ || name == ".."@ {
                path
            } else {
                let stem = match last_dot(name, name.len() as int) {
                    Some(d) => if d > 0 {
                        d
                    } else {
                        name.len() as int
                    },
                    None => name.len() as int,
                };
                path.take(b + stem) + "."@ + ext
            }
        },
        None => path,
    }
}

/// The path `path` with the extension `ext` in place of the one that it has, which is taken off
/// first.
pub open spec fn with_extension(path: Seq<char>, ext: Seq<char>) -> Seq<char> {
    match extension_of(path) {
        Some(e) => put_extension(path.take(path.len() - e.len()), ext),
        None => put_extension(path, ext),
    }
}

/// The path `path` with the extension `ext` in place of the one that it has.
pub fn set_extension(path: &str, ext: &str) -> (r: String)
    ensures
        r@ == with_extension(path@, ext@),
{
    match extension(path) {
        Some(e) => {
            let chars = text::chars_of(path);
            let n = text::chars_of(&e).len();
            proof {
                lemma_extension_length(path@);
            }
            let end = chars.len() - n;
            assert(path@.subrange(0, end as int) =~= path@.take(end as int));
            exchange_extension(&text::string_of(&chars, 0, end), ext)
        },
        None => exchange_extension(path, ext),
    }
}

/// An extension is no longer than its path.
proof fn lemma_extension_length(path: Seq<char>)
    ensures
        match extension_of(path) {
            Some(e) => e.len() <= path.len(),
            None => true,
        },
{
    lemma_last_name(path, path.len() as int);
    if let Some(name) = file_name_of(path) {
        lemma_last_dot(name, name.len() as int);
    }
}

proof fn lemma_last_name(path: Seq<char>, n: int)
    requires
        0 <= n <= path.len(),
    ensures
        match last_name_before(path, n) {
            Some((b, e)) => 0 <= b < e <= path.len() && forall|i: int|
                b <= i < e ==> path[i] != '/',
            None => true,
        },
    decreases n,
{
    if n > 0 {
        lemma_last_name(path, n - 1);
        lemma_name_start(path, n);
    }
}

proof fn lemma_last_dot(name: Seq<char>, n: int)
    requires
        0 <= n <= name.len(),
    ensures
        match last_dot(name, n) {
            Some(d) => 0 <= d < name.len(),
            None => true,
        },
    decreases n,
{
    if n > 0 {
        lemma_last_dot(name, n - 1);
    }
}

/// Puts an extension in place of the one that a path has.
fn exchange_extension(path: &str, ext: &str) -> (r: String)
    ensures
        r@ == put_extension(path@, ext@),
{
    let chars = text::chars_of(path);
    match find_last_name(&chars) {
        Some((b, e)) => {
            let name = text::string_of(&chars, b, e);
            if text::same(&name, ".") || text::same(&name, "..") {
                return text::owned(path);
            }
            let end = b + stem_length(&text::chars_of(&name));
            assert(path@.subrange(0, end as int) =~= path@.take(end as int));
            let mut out = text::string_of(&chars, 0, end);
            out.append(".");
            out.append(ext);
            out
        },
        None => text::owned(path),
    }
}

/// How long a name is without its extension.
fn stem_length(name: &Vec<char>) -> (r: usize)
    ensures
        r <= name@.len(),
        r == match last_dot(name@, name@.len() as int) {
            Some(d) => if d > 0 {
                d
            } else {
                name@.len() as int
            },
            None => name@.len() as int,
        },
{
    let len = name.len();
    let mut n: usize = len;
    while n > 0
        invariant
            n <= len == name@.len(),
            last_dot(name@, n as int) == last_dot(name@, len as int),
        decreases n,
    {
        if name[n - 1] == '.' {
            return if n == 1 {
                len
            } else {
                n - 1
            };
        }
        n = n - 1;
    }
    len
}

} // verus!
