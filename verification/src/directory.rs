//! What the namespace allows, what it refuses and why, what each operation changes, and what is
//! answered about every path.

use crate::chunk::ManifestV;
use crate::code;
use crate::message::{DirEntryV, MetaOpV, QueryResultV, QueryV};
use crate::namespace::{self, NsV};
use crate::naming;
use crate::path;
use crate::tree;
use vstd::prelude::*;

verus! {

/// Whether a path is the root or one of the namespace's directories.
pub open spec fn is_directory(ns: NsV, p: Seq<char>) -> bool {
    p == seq!['/'] || ns.dirs.contains(p)
}

/// Whether a path is one of the namespace's files.
pub open spec fn is_file(ns: NsV, p: Seq<char>) -> bool {
    ns.files.dom().contains(p)
}

/// Whether nothing is at a path.
pub open spec fn is_free(ns: NsV, p: Seq<char>) -> bool {
    !is_directory(ns, p) && !is_file(ns, p)
}

/// Whether an answer says that there is a directory.
pub open spec fn says_directory(a: QueryResultV) -> bool {
    a matches QueryResultV::Stat(Some(info)) && info.is_dir && info.size == 0
        && info.content_hash.len() == 32 && forall|i: int|
        0 <= i < 32 ==> #[trigger] info.content_hash[i] == 0
}

/// Whether an answer says that there is a file of a given manifest.
pub open spec fn says_file(a: QueryResultV, m: ManifestV) -> bool {
    a matches QueryResultV::Stat(Some(info)) && !info.is_dir && info.size == m.size
        && info.content_hash == m.content_hash
}

/// Asked about a path, a namespace says of every directory, at whatever depth, that it is one, of
/// every file its size and hash, and of nothing else anything.
pub proof fn law_stat_tells_what_is_there(ns: NsV, p: Seq<char>)
    requires
        tree::tree(ns),
    ensures
        is_directory(ns, p) <==> says_directory(ns.answered(QueryV::Stat { path: p })),
        is_file(ns, p) ==> says_file(ns.answered(QueryV::Stat { path: p }), ns.files[p]),
        is_free(ns, p) <==> ns.answered(QueryV::Stat { path: p }) == QueryResultV::Stat(None),
{
    assert(path::root() == seq!['/']);
}

/// Right after a directory was made, a namespace says that it is one, and that nothing is in it.
pub proof fn law_made_directory_is_seen(ns: NsV, p: Seq<char>)
    requires
        tree::tree(ns),
        ns.validated(MetaOpV::Mkdir { path: p }) is Ok,
    ensures
        ({
            let after = ns.applied(MetaOpV::Mkdir { path: p });
            &&& says_directory(after.answered(QueryV::Stat { path: p }))
            &&& after.answered(QueryV::List { path: p }) == QueryResultV::Listing(Seq::empty())
            &&& after.answered(QueryV::Get { path: p }) == QueryResultV::Rejected(
                code::IS_A_DIRECTORY,
            )
        }),
{
    let after = ns.applied(MetaOpV::Mkdir { path: p });
    tree::law_tree_is_kept(ns, MetaOpV::Mkdir { path: p });
    law_stat_tells_what_is_there(after, p);
    tree::law_mkdir_makes_empty_directory(ns, p);
    tree::law_listing_shows_children(after, p);
    let l = namespace::by_name(after.children(p));
    if l.len() > 0 {
        assert(l.contains(l[0]));
        if exists|q: Seq<char>| #[trigger]
            after.dirs.contains(q) && path::parent_of(q) == Some(p) && l[0]
                == namespace::dir_entry(q) {
            let q = choose|q: Seq<char>| #[trigger]
                after.dirs.contains(q) && path::parent_of(q) == Some(p) && l[0]
                    == namespace::dir_entry(q);
            assert(q != path::root());
            assert(after.has_child(p));
        } else {
            assert(after.has_child(p));
        }
    }
    assert(l =~= Seq::empty());
}

/// Asked for a file's manifest, a namespace gives it, refuses for a directory, and gives nothing
/// where nothing is.
pub proof fn law_get_gives_the_manifest(ns: NsV, p: Seq<char>)
    requires
        tree::tree(ns),
    ensures
        is_file(ns, p) ==> ns.answered(QueryV::Get { path: p }) == QueryResultV::Manifest(
            Some(ns.files[p]),
        ),
        is_directory(ns, p) <==> ns.answered(QueryV::Get { path: p }) == QueryResultV::Rejected(
            code::IS_A_DIRECTORY,
        ),
        is_free(ns, p) <==> ns.answered(QueryV::Get { path: p }) == QueryResultV::Manifest(None),
{
    assert(path::root() == seq!['/']);
}

/// A listing is given of directories only, and shows under each name what is at that name in the
/// directory: a file with its size, or a directory with no size.
pub proof fn law_listing_shows_each_name(ns: NsV, dir: Seq<char>, name: Seq<char>, size: u64)
    requires
        tree::tree(ns),
        tree::all_normal(ns),
        path::normal(dir),
        name.len() > 0,
        naming::slashless(name),
    ensures
        is_file(ns, dir) <==> ns.answered(QueryV::List { path: dir }) == QueryResultV::Rejected(
            code::NOT_A_DIRECTORY,
        ),
        is_free(ns, dir) <==> ns.answered(QueryV::List { path: dir }) == QueryResultV::Rejected(
            code::NOT_FOUND,
        ),
        is_directory(ns, dir) <==> ns.answered(QueryV::List { path: dir }) is Listing,
        ns.answered(QueryV::List { path: dir }) matches QueryResultV::Listing(l) ==> ({
            let p = naming::join(dir, name);
            &&& l.contains(DirEntryV { name, is_dir: false, size }) <==> is_file(ns, p)
                && ns.files[p].size == size
            &&& l.contains(DirEntryV { name, is_dir: true, size }) <==> ns.dirs.contains(p) && size
                == 0
        }),
{
    assert(path::root() == seq!['/']);
    let p = naming::join(dir, name);
    naming::law_join_is_taken_apart(dir, name);
    if is_directory(ns, dir) {
        tree::law_listing_shows_children(ns, dir);
        let l = namespace::by_name(ns.children(dir));
        let e = DirEntryV { name, is_dir: false, size };
        if l.contains(e) {
            let q = choose|q: Seq<char>| #[trigger]
                ns.files.dom().contains(q) && path::parent_of(q) == Some(dir) && e
                    == namespace::file_entry(ns.files, q);
            naming::law_normal_path_is_joined(q);
        }
        if is_file(ns, p) && ns.files[p].size == size {
            assert(e == namespace::file_entry(ns.files, p));
        }
        let d = DirEntryV { name, is_dir: true, size };
        if l.contains(d) {
            let q = choose|q: Seq<char>| #[trigger]
                ns.dirs.contains(q) && path::parent_of(q) == Some(dir) && d
                    == namespace::dir_entry(q);
            naming::law_normal_path_is_joined(q);
        }
        if ns.dirs.contains(p) && size == 0 {
            assert(d == namespace::dir_entry(p));
        }
    }
}

/// A file can be put wherever no directory is, in a directory that is there, and is refused
/// otherwise by what is in its way.
pub proof fn law_where_files_go(ns: NsV, dir: Seq<char>, name: Seq<char>, manifest: ManifestV)
    requires
        dir.len() > 0,
        name.len() > 0,
        naming::slashless(name),
    ensures
        ({
            let p = naming::join(dir, name);
            let r = ns.validated(MetaOpV::Put { path: p, manifest });
            &&& r is Ok <==> !ns.dirs.contains(p) && is_directory(ns, dir)
            &&& r == Err::<(), u8>(code::IS_A_DIRECTORY) <==> ns.dirs.contains(p)
            &&& r == Err::<(), u8>(code::NOT_A_DIRECTORY) <==> !ns.dirs.contains(p) && is_file(
                ns,
                dir,
            ) && !is_directory(ns, dir)
            &&& r == Err::<(), u8>(code::NOT_FOUND) <==> !ns.dirs.contains(p) && is_free(ns, dir)
        }),
{
    assert(path::root() == seq!['/']);
    naming::law_join_is_taken_apart(dir, name);
}

/// A directory can be made wherever nothing is, in a directory that is there, and is refused
/// otherwise by what is in its way.
pub proof fn law_where_directories_go(ns: NsV, dir: Seq<char>, name: Seq<char>)
    requires
        dir.len() > 0,
        name.len() > 0,
        naming::slashless(name),
    ensures
        ({
            let p = naming::join(dir, name);
            let r = ns.validated(MetaOpV::Mkdir { path: p });
            &&& r is Ok <==> is_free(ns, p) && is_directory(ns, dir)
            &&& r == Err::<(), u8>(code::ALREADY_EXISTS) <==> !is_free(ns, p)
            &&& r == Err::<(), u8>(code::NOT_A_DIRECTORY) <==> is_free(ns, p) && is_file(ns, dir)
                && !is_directory(ns, dir)
            &&& r == Err::<(), u8>(code::NOT_FOUND) <==> is_free(ns, p) && is_free(ns, dir)
            &&& ns.validated(MetaOpV::Mkdir { path: seq!['/'] }) == Err::<(), u8>(
                code::ALREADY_EXISTS,
            )
        }),
{
    assert(path::root() == seq!['/']);
    naming::law_join_is_taken_apart(dir, name);
    assert(naming::join(dir, name).len() > 1);
}

/// Whether some file or directory lies directly in a directory.
pub open spec fn occupied(ns: NsV, dir: Seq<char>) -> bool {
    exists|name: Seq<char>|
        name.len() > 0 && naming::slashless(name) && !is_free(
            ns,
            #[trigger] naming::join(dir, name),
        )
}

/// Files and empty directories can be deleted, the root never can, a directory with something in
/// it cannot, and nothing cannot.
pub proof fn law_what_can_be_deleted(ns: NsV, p: Seq<char>)
    requires
        tree::tree(ns),
        tree::all_normal(ns),
        path::normal(p),
    ensures
        ({
            let r = ns.validated(MetaOpV::Delete { path: p });
            &&& r is Ok <==> is_file(ns, p) || is_directory(ns, p) && p != seq!['/'] && !occupied(
                ns,
                p,
            )
            &&& r == Err::<(), u8>(code::NOT_EMPTY) <==> is_directory(ns, p) && p != seq!['/']
                && occupied(ns, p)
            &&& r == Err::<(), u8>(code::NOT_FOUND) <==> is_free(ns, p)
            &&& r == Err::<(), u8>(code::INVALID_PATH) <==> p == seq!['/']
        }),
{
    assert(path::root() == seq!['/']);
    if occupied(ns, p) {
        let name = choose|name: Seq<char>|
            name.len() > 0 && naming::slashless(name) && !is_free(
                ns,
                #[trigger] naming::join(p, name),
            );
        let q = naming::join(p, name);
        naming::law_join_is_taken_apart(p, name);
        assert(q.len() > 1);
        assert(ns.has_child(p)) by {
            if ns.files.dom().contains(q) {
            } else {
                assert(ns.dirs.contains(q));
            }
        }
    }
    if ns.has_child(p) {
        let q = if exists|q: Seq<char>| #[trigger]
            ns.files.dom().contains(q) && path::parent_of(q) == Some(p) {
            choose|q: Seq<char>| #[trigger]
                ns.files.dom().contains(q) && path::parent_of(q) == Some(p)
        } else {
            choose|q: Seq<char>| #[trigger]
                ns.dirs.contains(q) && q != path::root() && path::parent_of(q) == Some(p)
        };
        assert(path::normal(q));
        assert(q != path::root());
        naming::law_normal_path_is_joined(q);
        assert(!is_free(ns, naming::join(p, path::name_of(q))));
    }
}

/// A rename is allowed from where something is to where nothing is, in a directory that is there
/// and not inside what moves. It is refused otherwise by what is wrong with it.
pub proof fn law_what_can_be_renamed(ns: NsV, from: Seq<char>, dir: Seq<char>, name: Seq<char>)
    requires
        dir.len() > 0,
        name.len() > 0,
        naming::slashless(name),
        from.len() > 0,
    ensures
        ({
            let to = naming::join(dir, name);
            let inside = from == dir || path::under(dir, from);
            let r = ns.validated(MetaOpV::Rename { from, to });
            let ends = from != seq!['/'] && !is_free(ns, from) && is_free(ns, to);
            &&& r is Ok <==> ends && !inside && is_directory(ns, dir)
            &&& r == Err::<(), u8>(code::INVALID_PATH) <==> from == seq!['/'] || ends && inside
            &&& r == Err::<(), u8>(code::ALREADY_EXISTS) <==> from != seq!['/'] && !is_free(
                ns,
                from,
            ) && !is_free(ns, to)
            &&& r == Err::<(), u8>(code::NOT_A_DIRECTORY) <==> ends && !inside && is_file(ns, dir)
                && !is_directory(ns, dir)
            &&& r == Err::<(), u8>(code::NOT_FOUND) <==> is_free(ns, from) || ends && !inside
                && is_free(ns, dir)
            &&& ns.validated(MetaOpV::Rename { from, to: seq!['/'] }) == Err::<(), u8>(
                code::INVALID_PATH,
            )
        }),
{
    assert(path::root() == seq!['/']);
    naming::law_join_is_taken_apart(dir, name);
    naming::law_below_by_steps(from, dir, name);
    assert(naming::join(dir, name).len() > 1);
}

/// What an operation changes: a put sets one file, a made directory is one more, and what is
/// deleted is no more. All else stays.
pub proof fn law_operations_change_one_path(ns: NsV, p: Seq<char>, m: ManifestV, q: Seq<char>)
    ensures
        ({
            let put = ns.applied(MetaOpV::Put { path: p, manifest: m });
            let made = ns.applied(MetaOpV::Mkdir { path: p });
            let cut = ns.applied(MetaOpV::Delete { path: p });
            &&& is_file(put, p) && put.files[p] == m
            &&& q != p ==> is_file(put, q) == is_file(ns, q) && put.files[q] == ns.files[q]
            &&& put.dirs.contains(q) == ns.dirs.contains(q)
            &&& is_file(made, q) == is_file(ns, q) && made.files[q] == ns.files[q]
            &&& made.dirs.contains(q) <==> q == p || ns.dirs.contains(q)
            &&& is_file(cut, q) <==> q != p && is_file(ns, q)
            &&& q != p ==> cut.files[q] == ns.files[q]
            &&& cut.dirs.contains(q) <==> q != p && ns.dirs.contains(q)
        }),
{
}

/// A file that is renamed is at its new path with its manifest and no longer at its old one, and
/// all else stays.
pub proof fn law_renamed_file(ns: NsV, from: Seq<char>, to: Seq<char>, q: Seq<char>)
    requires
        is_file(ns, from),
        from != to,
    ensures
        ({
            let after = ns.applied(MetaOpV::Rename { from, to });
            &&& is_file(after, to) && after.files[to] == ns.files[from]
            &&& !is_file(after, from)
            &&& q != from && q != to ==> is_file(after, q) == is_file(ns, q) && after.files[q]
                == ns.files[q]
            &&& after.dirs.contains(q) == ns.dirs.contains(q)
        }),
{
}

/// A directory that is renamed takes everything below it along: what was at its old path with
/// something behind is at the new path with the same behind, files with their manifests.
pub proof fn law_renamed_directory(ns: NsV, from: Seq<char>, to: Seq<char>, rest: Seq<char>)
    requires
        tree::tree(ns),
        ns.validated(MetaOpV::Rename { from, to }) is Ok,
        ns.dirs.contains(from),
    ensures
        ({
            let after = ns.applied(MetaOpV::Rename { from, to });
            let old_path = from + seq!['/'] + rest;
            let new_path = to + seq!['/'] + rest;
            &&& after.dirs.contains(to)
            &&& !after.dirs.contains(from)
            &&& ns.dirs.contains(old_path) ==> after.dirs.contains(new_path)
            &&& is_file(ns, old_path) ==> is_file(after, new_path) && after.files[new_path]
                == ns.files[old_path]
            &&& after.dirs.contains(new_path) ==> ns.dirs.contains(old_path)
            &&& is_file(after, new_path) ==> is_file(ns, old_path)
            &&& !after.dirs.contains(old_path)
            &&& !is_file(after, old_path)
        }),
{
    let after = ns.applied(MetaOpV::Rename { from, to });
    let a = from + seq!['/'] + rest;
    let b = to + seq!['/'] + rest;
    tree::law_rename_moves_subtree(ns, from, to);
    naming::law_what_lies_below(from, a, rest);
    naming::law_what_lies_below(to, b, rest);
    naming::law_moving_changes_the_front(from, to, seq!['/'] + rest);
    assert(from + (seq!['/'] + rest) =~= a);
    assert(to + (seq!['/'] + rest) =~= b);
    assert(path::moved(a, from, to) == b);
    assert(path::root() == seq!['/']);
    law_nothing_below_free(ns, to, b);
    assert forall|q: Seq<char>|
        path::under(q, from) && #[trigger] path::moved(q, from, to) == b implies q == a by {
        naming::law_what_lies_below(from, q, rest);
        let r = choose|r: Seq<char>| q == #[trigger] (from + seq!['/'] + r);
        naming::law_moving_changes_the_front(from, to, seq!['/'] + r);
        assert(from + (seq!['/'] + r) =~= q);
        assert(b == to + (seq!['/'] + r));
        let n = to.len() as int;
        assert(b.skip(n + 1) =~= rest);
        assert((to + (seq!['/'] + r)).skip(n + 1) =~= r);
    }
    // Nothing that moved lands below the old path: the new path is not below it.
    assert forall|q: Seq<char>|
        path::under(q, from) && #[trigger] path::moved(q, from, to) == a implies false by {
        naming::law_what_lies_below(from, q, rest);
        let r = choose|r: Seq<char>| q == #[trigger] (from + seq!['/'] + r);
        naming::law_moving_changes_the_front(from, to, seq!['/'] + r);
        assert(from + (seq!['/'] + r) =~= q);
        assert(a == to + (seq!['/'] + r));
        naming::law_what_lies_below(to, a, r);
        assert(to + seq!['/'] + r =~= a);
        tree::lemma_under_two(a, from, to);
        if path::under(from, to) {
            law_nothing_below_free(ns, to, from);
        }
    }
    assert(a != to) by {
        assert(!path::under(to, from));
    }
    assert(from != to);
    assert forall|q: Seq<char>|
        path::under(q, from) && #[trigger] path::moved(q, from, to) == from implies false by {
        naming::law_what_lies_below(from, q, rest);
        let r = choose|r: Seq<char>| q == #[trigger] (from + seq!['/'] + r);
        naming::law_moving_changes_the_front(from, to, seq!['/'] + r);
        assert(from + (seq!['/'] + r) =~= q);
        naming::law_what_lies_below(to, from, r);
        assert(to + seq!['/'] + r =~= from);
        law_nothing_below_free(ns, to, from);
    }
}

/// Where nothing is, nothing lies below.
pub proof fn law_nothing_below_free(ns: NsV, a: Seq<char>, p: Seq<char>)
    requires
        tree::tree(ns),
        is_free(ns, a),
        a.len() > 0,
        path::under(p, a),
    ensures
        is_free(ns, p),
{
    assert(path::root() == seq!['/']);
    if !is_free(ns, p) {
        tree::lemma_ancestors_are_dirs(ns, p, a);
    }
}

} // verus!
