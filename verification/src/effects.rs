//! What the client's operations do to the namespace, what their errors mean, and what later
//! operations see of it, while no other operation is under way.

use crate::directory;
use crate::durability;
use crate::error::ErrorV;
use crate::hash;
use crate::message::{DirEntryV, MetaOpV, QueryV};
use crate::namespace::NsV;
use crate::naming;
use crate::path;
use crate::simulation::ClusterV;
use crate::soundness;
use crate::tree;
use crate::truth;
use vstd::prelude::*;

verus! {

/// Whether a cluster is sound, a metadata node is its primary with no operation under way, and the
/// namespace there is a tree of normal paths.
pub open spec fn at_rest(v: ClusterV, p: u32) -> bool {
    &&& soundness::sound(v)
    &&& truth::idle(v, p)
    &&& tree::tree(truth::names(v, p))
    &&& tree::all_normal(truth::names(v, p))
}

/// Whether two namespaces hold the same files and directories at a path.
pub open spec fn same_at(a: NsV, b: NsV, q: Seq<char>) -> bool {
    &&& a.dirs.contains(q) <==> b.dirs.contains(q)
    &&& a.files.dom().contains(q) <==> b.files.dom().contains(q)
    &&& a.files[q] == b.files[q]
}

/// Making a directory, when it succeeds, makes that directory where nothing was, in a directory
/// that was there, and changes nothing else. When it is refused, the error says what was in the
/// way, and nothing changed.
pub proof fn law_making_a_directory(
    v: ClusterV,
    p: u32,
    dir: Seq<char>,
    name: Seq<char>,
    q: Seq<char>,
)
    requires
        at_rest(v, p),
        dir.len() > 0,
        name.len() > 0,
        naming::slashless(name),
        path::normal(naming::join(dir, name)),
    ensures
        ({
            let at = naming::join(dir, name);
            let (w, r) = v.made_dir(at);
            let a = truth::names(v, p);
            let b = truth::names(w, p);
            &&& r is Ok ==> at_rest(w, p) && directory::is_free(a, at) && directory::is_directory(
                a,
                dir,
            ) && b.dirs.contains(at) && (q != at ==> same_at(a, b, q))
            &&& r matches Err(e) ==> e == ErrorV::MetadataUnavailable || (b == a && at_rest(w, p))
            &&& r matches Err(e) ==> (e is AlreadyExists ==> e == ErrorV::AlreadyExists(at)
                && !directory::is_free(a, at))
            &&& r matches Err(e) ==> (e is NotFound ==> e == ErrorV::NotFound(at)
                && directory::is_free(a, dir))
            &&& r matches Err(e) ==> (e is NotADirectory ==> e == ErrorV::NotADirectory(at)
                && directory::is_file(a, dir))
            &&& r matches Err(e) ==> e is AlreadyExists || e is NotFound || e is NotADirectory
                || e is MetadataUnavailable
        }),
{
    let at = naming::join(dir, name);
    let op = MetaOpV::Mkdir { path: at };
    let a = truth::names(v, p);
    truth::law_operations_take_effect(v, p, op, at);
    durability::law_file_operations_keep_sound(v, at, at, seq![]);
    directory::law_where_directories_go(a, dir, name);
    if v.made_dir(at).1 is Ok {
        tree::law_tree_is_kept(a, op);
        tree::law_paths_stay_normal(a, op);
    }
}

/// Right after a directory was made, asking about it says that it is a directory, listing it shows
/// nothing, and reading it says that it is a directory, unless the metadata service cannot be
/// reached.
pub proof fn law_made_directory_is_found(v: ClusterV, p: u32, at: Seq<char>)
    requires
        at_rest(v, p),
        v.made_dir(at).1 is Ok,
    ensures
        ({
            let w = v.made_dir(at).0;
            &&& w.statted(at).1 matches Ok(s) ==> s.is_dir && s.size == 0
            &&& w.statted(at).1 matches Err(e) ==> e is MetadataUnavailable
            &&& w.listed(at).1 matches Ok(es) ==> es.len() == 0
            &&& w.listed(at).1 matches Err(e) ==> e is MetadataUnavailable
            &&& w.read(at).1 matches Err(e) && (e == ErrorV::IsADirectory(at)
                || e is MetadataUnavailable)
        }),
{
    let op = MetaOpV::Mkdir { path: at };
    truth::law_operations_take_effect(v, p, op, at);
    durability::law_file_operations_keep_sound(v, at, at, seq![]);
    let w = v.made_dir(at).0;
    let a = truth::names(v, p);
    directory::law_made_directory_is_seen(a, at);
    truth::law_queries_are_answered_truly(w, p, QueryV::List { path: at });
    truth::law_queries_are_answered_truly(w, p, QueryV::Stat { path: at });
    truth::law_queries_are_answered_truly(w, p, QueryV::Get { path: at });
}

/// Asking about a path tells whether it is a directory, at whatever depth, or a file, and then of
/// what size and hash; where nothing is, it says so.
pub proof fn law_asking_about_a_path(v: ClusterV, p: u32, at: Seq<char>)
    requires
        at_rest(v, p),
        path::normal(at),
    ensures
        ({
            let a = truth::names(v, p);
            let r = v.statted(at).1;
            &&& r matches Ok(s) ==> (s.is_dir <==> directory::is_directory(a, at))
            &&& r matches Ok(s) ==> (!s.is_dir ==> directory::is_file(a, at) && s.size
                == a.files[at].size && s.content_hash == a.files[at].content_hash)
            &&& r matches Err(e) ==> e is MetadataUnavailable || (e == ErrorV::NotFound(at)
                && directory::is_free(a, at))
        }),
{
    truth::law_queries_are_answered_truly(v, p, QueryV::Stat { path: at });
    directory::law_stat_tells_what_is_there(truth::names(v, p), at);
}

/// Listing a directory shows under each name what is at that name in it. What is no directory is
/// not listed, and the error says whether it is a file or nothing.
pub proof fn law_listing_a_directory(
    v: ClusterV,
    p: u32,
    dir: Seq<char>,
    name: Seq<char>,
    size: u64,
)
    requires
        at_rest(v, p),
        path::normal(dir),
        name.len() > 0,
        naming::slashless(name),
    ensures
        ({
            let a = truth::names(v, p);
            let r = v.listed(dir).1;
            let at = naming::join(dir, name);
            &&& r matches Ok(es) ==> directory::is_directory(a, dir)
            &&& r matches Ok(es) ==> (es.contains(DirEntryV { name, is_dir: false, size })
                <==> directory::is_file(a, at) && a.files[at].size == size)
            &&& r matches Ok(es) ==> (es.contains(DirEntryV { name, is_dir: true, size })
                <==> a.dirs.contains(at) && size == 0)
            &&& r matches Err(e) ==> e is MetadataUnavailable || (e == ErrorV::NotFound(dir)
                && directory::is_free(a, dir)) || (e == ErrorV::NotADirectory(dir)
                && directory::is_file(a, dir))
        }),
{
    truth::law_queries_are_answered_truly(v, p, QueryV::List { path: dir });
    directory::law_listing_shows_each_name(truth::names(v, p), dir, name, size);
}

/// Deleting, when it succeeds, takes away a file, or a directory with nothing in it, and nothing
/// else. When it is refused, the error says why, and nothing changed.
pub proof fn law_deleting(v: ClusterV, p: u32, at: Seq<char>, q: Seq<char>)
    requires
        at_rest(v, p),
        path::normal(at),
    ensures
        ({
            let (w, r) = v.deleted(at);
            let a = truth::names(v, p);
            let b = truth::names(w, p);
            &&& r is Ok ==> at_rest(w, p) && at != seq!['/'] && !directory::is_free(a, at)
                && directory::is_free(b, at) && (q != at ==> same_at(a, b, q))
            &&& r is Ok && directory::is_directory(a, at) ==> !directory::occupied(a, at)
            &&& r matches Err(e) ==> e == ErrorV::MetadataUnavailable || (b == a && at_rest(w, p))
            &&& r matches Err(e) ==> (e is DirectoryNotEmpty ==> e == ErrorV::DirectoryNotEmpty(at)
                && directory::is_directory(a, at) && directory::occupied(a, at))
            &&& r matches Err(e) ==> (e is NotFound ==> e == ErrorV::NotFound(at)
                && directory::is_free(a, at))
            &&& r matches Err(e) ==> (e is InvalidPath ==> e == ErrorV::InvalidPath(at) && at
                == seq!['/'])
            &&& r matches Err(e) ==> e is DirectoryNotEmpty || e is NotFound || e is InvalidPath
                || e is MetadataUnavailable
        }),
{
    let op = MetaOpV::Delete { path: at };
    let a = truth::names(v, p);
    truth::law_operations_take_effect(v, p, op, at);
    durability::law_file_operations_keep_sound(v, at, at, seq![]);
    directory::law_what_can_be_deleted(a, at);
    if v.deleted(at).1 is Ok {
        tree::law_tree_is_kept(a, op);
        tree::law_paths_stay_normal(a, op);
    }
}

/// Right after a path was deleted, nothing is found there, unless the metadata service cannot be
/// reached.
pub proof fn law_deleted_path_is_not_found(v: ClusterV, p: u32, at: Seq<char>)
    requires
        at_rest(v, p),
        v.deleted(at).1 is Ok,
    ensures
        ({
            let w = v.deleted(at).0;
            &&& w.read(at).1 matches Err(e) && (e == ErrorV::NotFound(at)
                || e is MetadataUnavailable)
            &&& w.statted(at).1 matches Err(e) && (e == ErrorV::NotFound(at)
                || e is MetadataUnavailable)
            &&& w.listed(at).1 matches Err(e) && (e == ErrorV::NotFound(at)
                || e is MetadataUnavailable)
        }),
{
    law_deleting(v, p, at, at);
    let w = v.deleted(at).0;
    truth::law_queries_are_answered_truly(w, p, QueryV::List { path: at });
    truth::law_queries_are_answered_truly(w, p, QueryV::Stat { path: at });
    truth::law_queries_are_answered_truly(w, p, QueryV::Get { path: at });
}

/// Renaming, when it succeeds, moves what was at the old path, and all below it, to where nothing
/// was: a file with its manifest, a directory with what was in it. When it is refused, the error
/// names the new path and says why, and nothing changed.
pub proof fn law_renaming(
    v: ClusterV,
    p: u32,
    from: Seq<char>,
    dir: Seq<char>,
    name: Seq<char>,
    rest: Seq<char>,
)
    requires
        at_rest(v, p),
        path::normal(from),
        dir.len() > 0,
        name.len() > 0,
        naming::slashless(name),
        path::normal(naming::join(dir, name)),
    ensures
        ({
            let to = naming::join(dir, name);
            let (w, r) = v.renamed(from, to);
            let a = truth::names(v, p);
            let b = truth::names(w, p);
            let x = from + seq!['/'] + rest;
            let y = to + seq!['/'] + rest;
            let inside = from == dir || path::under(dir, from);
            &&& r is Ok ==> at_rest(w, p) && !directory::is_free(a, from) && directory::is_free(
                a,
                to,
            ) && directory::is_directory(a, dir) && !inside && directory::is_free(b, from)
            &&& r is Ok && directory::is_file(a, from) ==> directory::is_file(b, to) && b.files[to]
                == a.files[from]
            &&& r is Ok && directory::is_directory(a, from) ==> b.dirs.contains(to)
                && directory::is_free(b, x) && (directory::is_file(b, y) <==> directory::is_file(
                a,
                x,
            )) && (directory::is_file(a, x) ==> b.files[y] == a.files[x]) && (b.dirs.contains(y)
                <==> a.dirs.contains(x))
            &&& r matches Err(e) ==> e == ErrorV::MetadataUnavailable || (b == a && at_rest(w, p))
            &&& r matches Err(e) ==> (e is AlreadyExists ==> e == ErrorV::AlreadyExists(to)
                && !directory::is_free(a, to))
            &&& r matches Err(e) ==> (e is NotFound ==> e == ErrorV::NotFound(to) && (
            directory::is_free(a, from) || directory::is_free(a, dir)))
            &&& r matches Err(e) ==> (e is NotADirectory ==> e == ErrorV::NotADirectory(to)
                && directory::is_file(a, dir))
            &&& r matches Err(e) ==> (e is InvalidPath ==> e == ErrorV::InvalidPath(to) && (from
                == seq!['/'] || inside))
            &&& r matches Err(e) ==> e is AlreadyExists || e is NotFound || e is NotADirectory
                || e is InvalidPath || e is MetadataUnavailable
        }),
{
    let to = naming::join(dir, name);
    let op = MetaOpV::Rename { from, to };
    let a = truth::names(v, p);
    truth::law_operations_take_effect(v, p, op, to);
    durability::law_file_operations_keep_sound(v, from, to, seq![]);
    directory::law_what_can_be_renamed(a, from, dir, name);
    if v.renamed(from, to).1 is Ok {
        tree::law_tree_is_kept(a, op);
        tree::law_paths_stay_normal(a, op);
        let b = truth::names(v.renamed(from, to).0, p);
        assert(path::root() == seq!['/']);
        if a.files.dom().contains(from) {
            directory::law_renamed_file(a, from, to, from);
        } else {
            directory::law_renamed_directory(a, from, to, rest);
            if directory::is_file(b, from) {
                tree::law_rename_moves_subtree(a, from, to);
                lemma_nothing_lands_on_old(a, from, to);
            }
        }
    }
}

proof fn lemma_nothing_lands_on_old(a: NsV, from: Seq<char>, to: Seq<char>)
    requires
        tree::tree(a),
        a.validated(MetaOpV::Rename { from, to }) is Ok,
        a.dirs.contains(from),
        !a.files.dom().contains(from),
        to.len() > 0,
    ensures
        !a.renamed(from, to).files.dom().contains(from),
{
    tree::law_rename_moves_subtree(a, from, to);
    assert(path::root() == seq!['/']);
    if a.renamed(from, to).files.dom().contains(from) {
        let q = choose|q: Seq<char>| #[trigger]
            a.files.dom().contains(q) && path::under(q, from) && from == path::moved(q, from, to);
        naming::law_what_lies_below(from, q, seq![]);
        let r = choose|r: Seq<char>| q == #[trigger] (from + seq!['/'] + r);
        naming::law_moving_changes_the_front(from, to, seq!['/'] + r);
        assert(from + (seq!['/'] + r) =~= q);
        naming::law_what_lies_below(to, from, r);
        assert(to + seq!['/'] + r =~= from);
        directory::law_nothing_below_free(a, to, from);
    }
}

/// Writing, when it succeeds, puts a file at the path, of as many bytes as were written and with
/// their hash, in a directory that is there, where no directory is, and changes nothing else.
pub proof fn law_writing(
    v: ClusterV,
    p: u32,
    dir: Seq<char>,
    name: Seq<char>,
    bytes: Seq<u8>,
    q: Seq<char>,
)
    requires
        at_rest(v, p),
        dir.len() > 0,
        name.len() > 0,
        naming::slashless(name),
        bytes.len() <= u64::MAX,
    ensures
        ({
            let at = naming::join(dir, name);
            let (w, r) = v.written(at, bytes);
            let a = truth::names(v, p);
            let b = truth::names(w, p);
            &&& r is Ok ==> at_rest(w, p) && directory::is_directory(a, dir) && !a.dirs.contains(at)
                && directory::is_file(b, at) && b.files[at].size == bytes.len()
                && b.files[at].content_hash == hash::digest(bytes) && (q != at ==> same_at(a, b, q))
            &&& r matches Err(e) ==> e == ErrorV::MetadataUnavailable || b == a
        }),
{
    let at = naming::join(dir, name);
    let a = truth::names(v, p);
    let op = MetaOpV::Put { path: at, manifest: truth::manifest_for(v, bytes) };
    truth::law_writes_take_effect(v, p, at, bytes);
    durability::law_file_operations_keep_sound(v, at, at, bytes);
    directory::law_where_files_go(a, dir, name, truth::manifest_for(v, bytes));
    if v.written(at, bytes).1 is Ok {
        tree::law_tree_is_kept(a, op);
        tree::law_paths_stay_normal(a, op);
    }
}

/// Right after a file was written, asking about it says that it is a file, of as many bytes as were
/// written and with their hash, unless the metadata service cannot be reached.
pub proof fn law_written_file_is_found(
    v: ClusterV,
    p: u32,
    dir: Seq<char>,
    name: Seq<char>,
    bytes: Seq<u8>,
)
    requires
        at_rest(v, p),
        dir.len() > 0,
        name.len() > 0,
        naming::slashless(name),
        bytes.len() <= u64::MAX,
        v.written(naming::join(dir, name), bytes).1 is Ok,
    ensures
        ({
            let at = naming::join(dir, name);
            let w = v.written(at, bytes).0;
            &&& w.statted(at).1 matches Ok(s) ==> !s.is_dir && s.size == bytes.len()
                && s.content_hash == hash::digest(bytes)
            &&& w.statted(at).1 matches Err(e) ==> e is MetadataUnavailable
            &&& w.listed(dir).1 matches Ok(es) ==> es.contains(
                DirEntryV { name, is_dir: false, size: bytes.len() as u64 },
            )
        }),
{
    let at = naming::join(dir, name);
    let w = v.written(at, bytes).0;
    law_writing(v, p, dir, name, bytes, at);
    truth::law_queries_are_answered_truly(w, p, QueryV::Stat { path: at });
    let b = truth::names(w, p);
    directory::law_stat_tells_what_is_there(b, at);
    assert(path::normal(at));
    naming::law_normal_path_is_joined(at);
    naming::law_join_is_taken_apart(dir, name);
    if w.listed(dir).1 is Ok {
        assert(path::normal(dir));
        law_listing_a_directory(w, p, dir, name, bytes.len() as u64);
    }
}

/// The pieces of an erasure-coded file have the cluster's chunk size, or one byte where it has
/// none.
pub proof fn law_group_size(v: ClusterV)
    ensures
        v.opts.chunk_size > 0 ==> v.group_size() == v.opts.chunk_size,
        v.opts.chunk_size == 0 ==> v.group_size() == 1,
{
}

} // verus!
