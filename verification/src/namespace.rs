//! The namespace: which files and directories there are, which operations are allowed, what
//! they do, and what queries are answered.

use crate::chunk::{Manifest, ManifestV};
use crate::code;
use crate::message::{
    entries_view, DirEntry, DirEntryV, MetaOp, MetaOpV, Query, QueryResult, QueryResultV, QueryV,
    StatInfo, StatInfoV,
};
use crate::ordmap::{self, Dup, Key, OrdMap, OrdSet};
use crate::path::{self, basename, is_root, is_under, parent, relocate};
use vstd::prelude::*;

verus! {

/// The mathematical value of a [`Namespace`].
#[verifier::ext_equal]
pub struct NsV {
    pub files: Map<Seq<char>, ManifestV>,
    pub dirs: Set<Seq<char>>,
}

/// The listing entry of a file.
pub open spec fn file_entry(files: Map<Seq<char>, ManifestV>, p: Seq<char>) -> DirEntryV {
    DirEntryV { name: path::name_of(p), is_dir: false, size: files[p].size }
}

/// The listing entry of a directory.
pub open spec fn dir_entry(p: Seq<char>) -> DirEntryV {
    DirEntryV { name: path::name_of(p), is_dir: true, size: 0 }
}

/// Entries in name order with one more entry behind those of the same name.
pub open spec fn slotted(es: Seq<DirEntryV>, e: DirEntryV) -> Seq<DirEntryV>
    decreases es.len(),
{
    if es.len() == 0 || !String::before(e.name, es.last().name) {
        es.push(e)
    } else {
        slotted(es.drop_last(), e).push(es.last())
    }
}

/// Entries in name order, those of the same name in the order they came in.
pub open spec fn by_name(es: Seq<DirEntryV>) -> Seq<DirEntryV>
    decreases es.len(),
{
    if es.len() == 0 {
        es
    } else {
        slotted(by_name(es.drop_last()), es.last())
    }
}

/// Directories after the first `n` of `ks` were moved from below `from` to below `to`.
pub open spec fn moved_dirs(
    dirs: Set<Seq<char>>,
    from: Seq<char>,
    to: Seq<char>,
    ks: Seq<Seq<char>>,
    n: nat,
) -> Set<Seq<char>>
    decreases n,
{
    if n == 0 {
        dirs
    } else {
        moved_dirs(dirs, from, to, ks, (n - 1) as nat).remove(ks[n - 1]).insert(
            path::moved(ks[n - 1], from, to),
        )
    }
}

/// Files after the first `n` of `ks` were moved from below `from` to below `to`.
pub open spec fn moved_files(
    files: Map<Seq<char>, ManifestV>,
    from: Seq<char>,
    to: Seq<char>,
    ks: Seq<Seq<char>>,
    n: nat,
) -> Map<Seq<char>, ManifestV>
    decreases n,
{
    if n == 0 {
        files
    } else {
        let before = moved_files(files, from, to, ks, (n - 1) as nat);
        let k = ks[n - 1];
        before.remove(k).insert(path::moved(k, from, to), before[k])
    }
}

/// Those of some paths that lie below `from`.
pub open spec fn below(paths: Seq<Seq<char>>, from: Seq<char>) -> Seq<Seq<char>> {
    paths.filter(|p: Seq<char>| path::under(p, from))
}

/// Those of some paths that lie in `dir`.
pub open spec fn lying_in(paths: Seq<Seq<char>>, dir: Seq<char>) -> Seq<Seq<char>> {
    paths.filter(|p: Seq<char>| path::parent_of(p) == Some(dir))
}

impl NsV {
    /// The namespace with nothing but the root.
    pub open spec fn fresh() -> NsV {
        NsV { files: Map::empty(), dirs: Set::empty().insert(path::root()) }
    }

    /// Whether a path is a directory.
    pub open spec fn is_dir(self, p: Seq<char>) -> bool {
        p == path::root() || self.dirs.contains(p)
    }

    /// Whether a path is a file or a directory.
    pub open spec fn exists_at(self, p: Seq<char>) -> bool {
        self.is_dir(p) || self.files.dom().contains(p)
    }

    /// Whether something can be put at a path: its parent must be a directory.
    pub open spec fn room_at(self, p: Seq<char>) -> Result<(), u8> {
        match path::parent_of(p) {
            None => Err(code::INVALID_PATH),
            Some(par) => if self.is_dir(par) {
                Ok(())
            } else if self.files.dom().contains(par) {
                Err(code::NOT_A_DIRECTORY)
            } else {
                Err(code::NOT_FOUND)
            },
        }
    }

    /// Whether a file or directory other than the root lies in a directory.
    pub open spec fn has_child(self, dir: Seq<char>) -> bool {
        ||| exists|p: Seq<char>| #[trigger]
            self.files.dom().contains(p) && path::parent_of(p) == Some(dir)
        ||| exists|p: Seq<char>| #[trigger]
            self.dirs.contains(p) && p != path::root() && path::parent_of(p) == Some(dir)
    }

    /// Whether an operation is allowed, and the code to refuse it with.
    pub open spec fn validated(self, op: MetaOpV) -> Result<(), u8> {
        match op {
            MetaOpV::Put { path: p, manifest } => if self.dirs.contains(p) {
                Err(code::IS_A_DIRECTORY)
            } else {
                self.room_at(p)
            },
            MetaOpV::Mkdir { path: p } => if self.exists_at(p) {
                Err(code::ALREADY_EXISTS)
            } else {
                self.room_at(p)
            },
            MetaOpV::Delete { path: p } => if p == path::root() {
                Err(code::INVALID_PATH)
            } else if self.files.dom().contains(p) {
                Ok(())
            } else if self.dirs.contains(p) {
                if self.has_child(p) {
                    Err(code::NOT_EMPTY)
                } else {
                    Ok(())
                }
            } else {
                Err(code::NOT_FOUND)
            },
            MetaOpV::Rename { from, to } => if from == path::root() || to == path::root() {
                Err(code::INVALID_PATH)
            } else if !self.exists_at(from) {
                Err(code::NOT_FOUND)
            } else if self.exists_at(to) {
                Err(code::ALREADY_EXISTS)
            } else if path::under(to, from) {
                Err(code::INVALID_PATH)
            } else {
                self.room_at(to)
            },
        }
    }

    /// The namespace after a rename.
    pub open spec fn renamed(self, from: Seq<char>, to: Seq<char>) -> NsV {
        if self.files.dom().contains(from) {
            NsV { files: self.files.remove(from).insert(to, self.files[from]), ..self }
        } else if self.dirs.contains(from) {
            let dirs = self.dirs.remove(from).insert(to);
            let ds = below(ordmap::in_order::<String>(dirs), from);
            let fs = below(ordmap::in_order::<String>(self.files.dom()), from);
            NsV {
                files: moved_files(self.files, from, to, fs, fs.len()),
                dirs: moved_dirs(dirs, from, to, ds, ds.len()),
            }
        } else {
            self
        }
    }

    /// The namespace after an operation.
    pub open spec fn applied(self, op: MetaOpV) -> NsV {
        match op {
            MetaOpV::Put { path: p, manifest } => NsV {
                files: self.files.insert(p, manifest),
                ..self
            },
            MetaOpV::Mkdir { path: p } => NsV { dirs: self.dirs.insert(p), ..self },
            MetaOpV::Delete { path: p } => NsV {
                files: self.files.remove(p),
                dirs: self.dirs.remove(p),
            },
            MetaOpV::Rename { from, to } => self.renamed(from, to),
        }
    }

    /// What lies in a directory: files, then directories, each in path order.
    pub open spec fn children(self, dir: Seq<char>) -> Seq<DirEntryV> {
        lying_in(ordmap::in_order::<String>(self.files.dom()), dir).map_values(
            |p: Seq<char>| file_entry(self.files, p),
        ) + lying_in(ordmap::in_order::<String>(self.dirs), dir).map_values(
            |p: Seq<char>| dir_entry(p),
        )
    }

    /// The answer to a query.
    pub open spec fn answered(self, q: QueryV) -> QueryResultV {
        match q {
            QueryV::Get { path: p } => if self.dirs.contains(p) {
                QueryResultV::Rejected(code::IS_A_DIRECTORY)
            } else if self.files.dom().contains(p) {
                QueryResultV::Manifest(Some(self.files[p]))
            } else {
                QueryResultV::Manifest(None)
            },
            QueryV::List { path: p } => if self.is_dir(p) {
                QueryResultV::Listing(by_name(self.children(p)))
            } else if self.files.dom().contains(p) {
                QueryResultV::Rejected(code::NOT_A_DIRECTORY)
            } else {
                QueryResultV::Rejected(code::NOT_FOUND)
            },
            QueryV::Stat { path: p } => if self.files.dom().contains(p) {
                QueryResultV::Stat(
                    Some(
                        StatInfoV {
                            is_dir: false,
                            size: self.files[p].size,
                            content_hash: self.files[p].content_hash,
                        },
                    ),
                )
            } else if self.is_dir(p) {
                QueryResultV::Stat(
                    Some(
                        StatInfoV {
                            is_dir: true,
                            size: 0,
                            content_hash: Seq::new(32, |i: int| 0u8),
                        },
                    ),
                )
            } else {
                QueryResultV::Stat(None)
            },
        }
    }
}

/// Files with their manifests, and directories.
pub struct Namespace {
    pub files: OrdMap<String, Manifest>,
    pub dirs: OrdSet<String>,
}

impl View for Namespace {
    type V = NsV;

    open spec fn view(&self) -> NsV {
        NsV { files: self.files@, dirs: self.dirs@ }
    }
}

fn root_string() -> (r: String)
    ensures
        r@ == path::root(),
{
    proof {
        reveal_strlit("/");
        assert("/"@ =~= path::root());
    }
    "/".to_owned()
}

/// The directories below `from`, in order.
fn dirs_below(dirs: &OrdSet<String>, from: &str) -> (r: Vec<String>)
    ensures
        ordmap::key_views(r@) == below(ordmap::in_order::<String>(dirs@), from@),
{
    let n = dirs.len();
    let ghost ks = ordmap::in_order::<String>(dirs@);
    let mut out: Vec<String> = Vec::new();
    let mut i: usize = 0;
    assert(ordmap::key_views(out@) =~= below(ks.take(0), from@));
    while i < n
        invariant
            i <= n,
            n == ks.len(),
            ks == ordmap::in_order::<String>(dirs@),
            ordmap::key_views(out@) == below(ks.take(i as int), from@),
        decreases n - i,
    {
        let p = dirs.at(i);
        proof {
            lemma_filter_step(ks, i as int, |p: Seq<char>| path::under(p, from@));
        }
        if is_under(p.as_str(), from) {
            let ghost before = ordmap::key_views(out@);
            out.push(p.clone());
            assert(ordmap::key_views(out@) =~= before.push(p@));
        }
        i += 1;
    }
    assert(ks.take(n as int) =~= ks);
    out
}

/// The files below `from`, in order.
fn files_below(files: &OrdMap<String, Manifest>, from: &str) -> (r: Vec<String>)
    ensures
        ordmap::key_views(r@) == below(ordmap::in_order::<String>(files@.dom()), from@),
{
    let n = files.len();
    let ghost ks = ordmap::in_order::<String>(files@.dom());
    let mut out: Vec<String> = Vec::new();
    let mut i: usize = 0;
    assert(ordmap::key_views(out@) =~= below(ks.take(0), from@));
    while i < n
        invariant
            i <= n,
            n == ks.len(),
            ks == ordmap::in_order::<String>(files@.dom()),
            ordmap::key_views(out@) == below(ks.take(i as int), from@),
        decreases n - i,
    {
        let p = files.key_at(i);
        proof {
            lemma_filter_step(ks, i as int, |p: Seq<char>| path::under(p, from@));
        }
        if is_under(p.as_str(), from) {
            let ghost before = ordmap::key_views(out@);
            out.push(p.clone());
            assert(ordmap::key_views(out@) =~= before.push(p@));
        }
        i += 1;
    }
    assert(ks.take(n as int) =~= ks);
    out
}

/// Filtering one entry more.
pub proof fn lemma_filter_step<A>(s: Seq<A>, i: int, f: spec_fn(A) -> bool)
    requires
        0 <= i < s.len(),
    ensures
        s.take(i + 1).filter(f) == if f(s[i]) {
            s.take(i).filter(f).push(s[i])
        } else {
            s.take(i).filter(f)
        },
{
    reveal(Seq::filter);
    assert(s.take(i + 1).drop_last() =~= s.take(i));
    assert(s.take(i + 1).last() == s[i]);
}

impl Namespace {
    /// A namespace with nothing but the root.
    pub fn new() -> (r: Self)
        ensures
            r@ == NsV::fresh(),
    {
        let mut dirs: OrdSet<String> = OrdSet::new();
        let _ = dirs.insert(root_string());
        let r = Namespace { files: OrdMap::new(), dirs };
        assert(r@ =~= NsV::fresh());
        r
    }

    /// A copy of this namespace.
    pub fn dup(&self) -> (r: Self)
        ensures
            r@ == self@,
    {
        Namespace { files: self.files.dup(), dirs: self.dirs.dup() }
    }

    fn exists_dir(&self, p: &String) -> (r: bool)
        ensures
            r == self@.is_dir(p@),
    {
        is_root(p.as_str()) || self.dirs.contains(p)
    }

    fn exists_path(&self, p: &String) -> (r: bool)
        ensures
            r == self@.exists_at(p@),
    {
        self.exists_dir(p) || self.files.contains_key(p)
    }

    fn room(&self, p: &String) -> (r: Result<(), u8>)
        ensures
            r == self@.room_at(p@),
    {
        match parent(p.as_str()) {
            None => Err(code::INVALID_PATH),
            Some(par) => {
                if self.exists_dir(&par) {
                    Ok(())
                } else if self.files.contains_key(&par) {
                    Err(code::NOT_A_DIRECTORY)
                } else {
                    Err(code::NOT_FOUND)
                }
            },
        }
    }

    fn has_file_in(&self, dir: &String) -> (r: bool)
        ensures
            r == exists|p: Seq<char>| #[trigger]
                self@.files.dom().contains(p) && path::parent_of(p) == Some(dir@),
    {
        let n = self.files.len();
        let ghost ks = ordmap::in_order::<String>(self.files@.dom());
        let mut i: usize = 0;
        while i < n
            invariant
                i <= n,
                n == ks.len(),
                ks == ordmap::in_order::<String>(self.files@.dom()),
                ks.to_set() == self.files@.dom(),
                forall|j: int| 0 <= j < i ==> path::parent_of(#[trigger] ks[j]) != Some(dir@),
            decreases n - i,
        {
            let p = self.files.key_at(i);
            if lies_in(p.as_str(), dir) {
                assert(self@.files.dom().contains(p@));
                return true;
            }
            i += 1;
        }
        assert forall|p: Seq<char>| #[trigger] self@.files.dom().contains(p) implies path::parent_of(
            p,
        ) != Some(dir@) by {
            assert(ks.to_set().contains(p));
            let j = choose|j: int| 0 <= j < ks.len() && ks[j] == p;
            assert(path::parent_of(ks[j]) != Some(dir@));
        }
        false
    }

    fn has_dir_in(&self, dir: &String) -> (r: bool)
        ensures
            r == exists|p: Seq<char>| #[trigger]
                self@.dirs.contains(p) && p != path::root() && path::parent_of(p) == Some(dir@),
    {
        let n = self.dirs.len();
        let ghost ks = ordmap::in_order::<String>(self.dirs@);
        let mut i: usize = 0;
        while i < n
            invariant
                i <= n,
                n == ks.len(),
                ks == ordmap::in_order::<String>(self.dirs@),
                ks.to_set() == self.dirs@,
                forall|j: int| 0 <= j < i ==> path::parent_of(#[trigger] ks[j]) != Some(dir@),
            decreases n - i,
        {
            let p = self.dirs.at(i);
            if lies_in(p.as_str(), dir) {
                assert(self@.dirs.contains(p@));
                return true;
            }
            i += 1;
        }
        assert forall|p: Seq<char>| #[trigger] self@.dirs.contains(p) implies path::parent_of(p)
            != Some(dir@) by {
            assert(ks.to_set().contains(p));
            let j = choose|j: int| 0 <= j < ks.len() && ks[j] == p;
            assert(path::parent_of(ks[j]) != Some(dir@));
        }
        false
    }

    /// Validate `op` against the current state without mutating it.
    pub fn validate(&self, op: &MetaOp) -> (r: Result<(), u8>)
        ensures
            r == self@.validated(op@),
    {
        match op {
            MetaOp::Put { path: p, manifest: _ } => {
                if self.dirs.contains(p) {
                    return Err(code::IS_A_DIRECTORY);
                }
                self.room(p)
            },
            MetaOp::Mkdir { path: p } => {
                if self.exists_path(p) {
                    return Err(code::ALREADY_EXISTS);
                }
                self.room(p)
            },
            MetaOp::Delete { path: p } => {
                if is_root(p.as_str()) {
                    return Err(code::INVALID_PATH);
                }
                if self.files.contains_key(p) {
                    Ok(())
                } else if self.dirs.contains(p) {
                    if self.has_file_in(p) || self.has_dir_in(p) {
                        Err(code::NOT_EMPTY)
                    } else {
                        Ok(())
                    }
                } else {
                    Err(code::NOT_FOUND)
                }
            },
            MetaOp::Rename { from, to } => {
                if is_root(from.as_str()) || is_root(to.as_str()) {
                    return Err(code::INVALID_PATH);
                }
                if !self.exists_path(from) {
                    return Err(code::NOT_FOUND);
                }
                if self.exists_path(to) {
                    return Err(code::ALREADY_EXISTS);
                }
                if is_under(to.as_str(), from.as_str()) {
                    return Err(code::INVALID_PATH);
                }
                self.room(to)
            },
        }
    }

    fn move_dirs(&mut self, from: &String, to: &String)
        ensures
            final(self)@.files == old(self)@.files,
            final(self)@.dirs == ({
                let ds = below(ordmap::in_order::<String>(old(self)@.dirs), from@);
                moved_dirs(old(self)@.dirs, from@, to@, ds, ds.len())
            }),
    {
        let ds = dirs_below(&self.dirs, from.as_str());
        let ghost kv = ordmap::key_views(ds@);
        let mut i: usize = 0;
        while i < ds.len()
            invariant
                i <= ds@.len(),
                kv == ordmap::key_views(ds@),
                self@.files == old(self)@.files,
                self@.dirs == moved_dirs(old(self)@.dirs, from@, to@, kv, i as nat),
            decreases ds@.len() - i,
        {
            let d = &ds[i];
            let _ = self.dirs.remove(d);
            let _ = self.dirs.insert(relocate(d.as_str(), from.as_str(), to.as_str()));
            i += 1;
        }
    }

    fn move_files(&mut self, from: &String, to: &String)
        ensures
            final(self)@.dirs == old(self)@.dirs,
            final(self)@.files == ({
                let fs = below(ordmap::in_order::<String>(old(self)@.files.dom()), from@);
                moved_files(old(self)@.files, from@, to@, fs, fs.len())
            }),
    {
        let fs = files_below(&self.files, from.as_str());
        let ghost kv = ordmap::key_views(fs@);
        let ghost start = self.files@;
        proof {
            self.files.lemma_finite();
            let ks = ordmap::in_order::<String>(start.dom());
            ordmap::lemma_order_of::<String>(start.dom());
            lemma_below_members(ks, from@);
            assert forall|j: int| 0 <= j < kv.len() implies start.dom().contains(
                #[trigger] kv[j],
            ) by {
                assert(ks.contains(kv[j]));
                assert(ks.to_set().contains(kv[j]));
            }
        }
        let mut i: usize = 0;
        while i < fs.len()
            invariant
                i <= fs@.len(),
                kv == ordmap::key_views(fs@),
                self@.dirs == old(self)@.dirs,
                start == old(self)@.files,
                kv.no_duplicates(),
                forall|j: int| 0 <= j < kv.len() ==> start.dom().contains(#[trigger] kv[j]),
                self@.files == moved_files(start, from@, to@, kv, i as nat),
            decreases fs@.len() - i,
        {
            let f = &fs[i];
            proof {
                lemma_still_there(start, from@, to@, kv, i as nat, i as int);
            }
            match self.files.remove(f) {
                Some(m) => {
                    self.files.insert(relocate(f.as_str(), from.as_str(), to.as_str()), m);
                },
                None => {
                    assert(kv[i as int] == f@);
                    assert(false);
                },
            }
            i += 1;
        }
    }

    /// Apply `op`, assuming it has already validated.
    pub fn apply(&mut self, op: &MetaOp)
        ensures
            final(self)@ == old(self)@.applied(op@),
    {
        match op {
            MetaOp::Put { path: p, manifest } => {
                self.files.insert(p.clone(), manifest.dup());
            },
            MetaOp::Mkdir { path: p } => {
                let _ = self.dirs.insert(p.clone());
            },
            MetaOp::Delete { path: p } => {
                let _ = self.files.remove(p);
                let _ = self.dirs.remove(p);
            },
            MetaOp::Rename { from, to } => {
                match self.files.remove(from) {
                    Some(m) => {
                        self.files.insert(to.clone(), m);
                    },
                    None => {
                        assert(self@ =~= old(self)@);
                        if self.dirs.remove(from) {
                            let _ = self.dirs.insert(to.clone());
                            self.move_dirs(from, to);
                            self.move_files(from, to);
                        }
                    },
                }
            },
        }
        assert(self@ =~= old(self)@.applied(op@));
    }

    fn file_children(&self, dir: &String) -> (r: Vec<DirEntry>)
        ensures
            entries_view(r@) == lying_in(
                ordmap::in_order::<String>(self@.files.dom()),
                dir@,
            ).map_values(|p: Seq<char>| file_entry(self@.files, p)),
    {
        let n = self.files.len();
        let ghost ks = ordmap::in_order::<String>(self.files@.dom());
        let ghost f = |p: Seq<char>| file_entry(self@.files, p);
        let mut out: Vec<DirEntry> = Vec::new();
        let mut i: usize = 0;
        assert(entries_view(out@) =~= lying_in(ks.take(0), dir@).map_values(f));
        while i < n
            invariant
                i <= n,
                n == ks.len(),
                ks == ordmap::in_order::<String>(self.files@.dom()),
                f == (|p: Seq<char>| file_entry(self@.files, p)),
                entries_view(out@) == lying_in(ks.take(i as int), dir@).map_values(f),
            decreases n - i,
        {
            let p = self.files.key_at(i);
            proof {
                lemma_filter_step(ks, i as int, |p: Seq<char>| path::parent_of(p) == Some(dir@));
            }
            if lies_in(p.as_str(), dir) {
                let m = self.files.value_at(i);
                let ghost before = entries_view(out@);
                out.push(
                    DirEntry { name: basename(p.as_str()).to_owned(), is_dir: false, size: m.size },
                );
                assert(entries_view(out@) =~= before.push(file_entry(self@.files, p@)));
                assert(entries_view(out@) =~= lying_in(ks.take(i + 1), dir@).map_values(f));
            }
            i += 1;
        }
        assert(ks.take(n as int) =~= ks);
        out
    }

    fn dir_children(&self, dir: &String) -> (r: Vec<DirEntry>)
        ensures
            entries_view(r@) == lying_in(ordmap::in_order::<String>(self@.dirs), dir@).map_values(
                |p: Seq<char>| dir_entry(p),
            ),
    {
        let n = self.dirs.len();
        let ghost ks = ordmap::in_order::<String>(self.dirs@);
        let ghost f = |p: Seq<char>| dir_entry(p);
        let mut out: Vec<DirEntry> = Vec::new();
        let mut i: usize = 0;
        assert(entries_view(out@) =~= lying_in(ks.take(0), dir@).map_values(f));
        while i < n
            invariant
                i <= n,
                n == ks.len(),
                ks == ordmap::in_order::<String>(self.dirs@),
                f == (|p: Seq<char>| dir_entry(p)),
                entries_view(out@) == lying_in(ks.take(i as int), dir@).map_values(f),
            decreases n - i,
        {
            let p = self.dirs.at(i);
            proof {
                lemma_filter_step(ks, i as int, |p: Seq<char>| path::parent_of(p) == Some(dir@));
            }
            if lies_in(p.as_str(), dir) {
                let ghost before = entries_view(out@);
                out.push(
                    DirEntry { name: basename(p.as_str()).to_owned(), is_dir: true, size: 0 },
                );
                assert(entries_view(out@) =~= before.push(dir_entry(p@)));
                assert(entries_view(out@) =~= lying_in(ks.take(i + 1), dir@).map_values(f));
            }
            i += 1;
        }
        assert(ks.take(n as int) =~= ks);
        out
    }

    /// The entries of a directory in name order.
    fn list(&self, dir: &String) -> (r: Vec<DirEntry>)
        ensures
            entries_view(r@) == by_name(self@.children(dir@)),
    {
        let mut all = self.file_children(dir);
        let mut dirs = self.dir_children(dir);
        let ghost fv = entries_view(all@);
        let ghost dv = entries_view(dirs@);
        all.append(&mut dirs);
        assert(entries_view(all@) =~= fv + dv);
        sort_by_name(all)
    }

    /// Answer a read-only query from the current committed state.
    pub fn answer(&self, q: &Query) -> (r: QueryResult)
        ensures
            r@ == self@.answered(q@),
    {
        match q {
            Query::Get { path: p } => {
                if self.dirs.contains(p) {
                    QueryResult::Rejected(code::IS_A_DIRECTORY)
                } else {
                    match self.files.get(p) {
                        Some(m) => QueryResult::Manifest(Some(m.dup())),
                        None => QueryResult::Manifest(None),
                    }
                }
            },
            Query::List { path: p } => {
                if self.exists_dir(p) {
                    QueryResult::Listing(self.list(p))
                } else if self.files.contains_key(p) {
                    QueryResult::Rejected(code::NOT_A_DIRECTORY)
                } else {
                    QueryResult::Rejected(code::NOT_FOUND)
                }
            },
            Query::Stat { path: p } => match self.files.get(p) {
                Some(m) => QueryResult::Stat(
                    Some(
                        StatInfo { is_dir: false, size: m.size, content_hash: m.content_hash },
                    ),
                ),
                None => {
                    if self.exists_dir(p) {
                        let zero = crate::hash::Hash([0u8; 32]);
                        assert(zero@ =~= Seq::new(32, |i: int| 0u8));
                        QueryResult::Stat(
                            Some(StatInfo { is_dir: true, size: 0, content_hash: zero }),
                        )
                    } else {
                        QueryResult::Stat(None)
                    }
                },
            },
        }
    }
}

fn lies_in(p: &str, dir: &String) -> (r: bool)
    ensures
        r == (path::parent_of(p@) == Some(dir@)),
{
    match parent(p) {
        Some(q) => q == *dir,
        None => false,
    }
}

proof fn lemma_below_members(ks: Seq<Seq<char>>, from: Seq<char>)
    requires
        ks.no_duplicates(),
    ensures
        below(ks, from).no_duplicates(),
        forall|j: int|
            0 <= j < below(ks, from).len() ==> ks.contains(#[trigger] below(ks, from)[j]),
    decreases ks.len(),
{
    reveal(Seq::filter);
    if ks.len() > 0 {
        let front = ks.drop_last();
        lemma_below_members(front, from);
        let b = below(front, from);
        assert forall|j: int| 0 <= j < b.len() implies ks.contains(#[trigger] b[j]) && b[j]
            != ks.last() by {
            assert(front.contains(b[j]));
            let i = choose|i: int| 0 <= i < front.len() && front[i] == b[j];
            assert(ks[i] == b[j]);
            assert(ks[i] != ks[ks.len() - 1]);
        }
        assert(ks.contains(ks.last())) by {
            assert(ks[ks.len() - 1] == ks.last());
        }
    }
}

proof fn lemma_still_there(
    files: Map<Seq<char>, ManifestV>,
    from: Seq<char>,
    to: Seq<char>,
    ks: Seq<Seq<char>>,
    n: nat,
    j: int,
)
    requires
        ks.no_duplicates(),
        n <= j < ks.len(),
        forall|i: int| 0 <= i < ks.len() ==> files.dom().contains(#[trigger] ks[i]),
    ensures
        moved_files(files, from, to, ks, n).dom().contains(ks[j]),
    decreases n,
{
    if n > 0 {
        lemma_still_there(files, from, to, ks, (n - 1) as nat, j);
        assert(ks[n - 1] != ks[j]);
    }
}

fn insert_by_name(out: &mut Vec<DirEntry>, e: DirEntry)
    ensures
        entries_view(final(out)@) == slotted(entries_view(old(out)@), e@),
{
    let ghost es = entries_view(out@);
    let mut at: usize = out.len();
    assert(es.take(at as int) =~= es);
    assert(es.skip(at as int) =~= seq![]);
    while at > 0 && e.name.precedes(&out[at - 1].name)
        invariant
            at <= out@.len(),
            out@ == old(out)@,
            es == entries_view(out@),
            slotted(es, e@) == slotted(es.take(at as int), e@) + es.skip(at as int),
        decreases at,
    {
        proof {
            let t = es.take(at as int);
            assert(t.last() == es[at - 1]);
            assert(t.drop_last() =~= es.take(at - 1));
            assert(slotted(t, e@) == slotted(es.take(at - 1), e@).push(es[at - 1]));
            assert(slotted(es.take(at - 1), e@).push(es[at - 1]) + es.skip(at as int) =~= slotted(
                es.take(at - 1),
                e@,
            ) + es.skip(at - 1));
        }
        at -= 1;
    }
    proof {
        let t = es.take(at as int);
        if at > 0 {
            assert(t.last() == es[at - 1]);
        }
        assert(slotted(t, e@) == t.push(e@));
        assert(t.push(e@) + es.skip(at as int) =~= es.insert(at as int, e@));
    }
    let ghost ev = e@;
    out.insert(at, e);
    assert(entries_view(out@) =~= es.insert(at as int, ev));
}

fn sort_by_name(entries: Vec<DirEntry>) -> (r: Vec<DirEntry>)
    ensures
        entries_view(r@) == by_name(entries_view(entries@)),
{
    let ghost es = entries_view(entries@);
    let mut entries = entries;
    let mut rest: Vec<DirEntry> = Vec::new();
    let mut out: Vec<DirEntry> = Vec::new();
    // Reverse into `rest` so that entries can be moved out from its end in order.
    let n = entries.len();
    let mut k: usize = 0;
    while k < n
        invariant
            k <= n,
            n == es.len(),
            entries@.len() == n - k,
            rest@.len() == k,
            forall|j: int| 0 <= j < n - k ==> (#[trigger] entries@[j])@ == es[j],
            forall|j: int| 0 <= j < k ==> (#[trigger] rest@[j])@ == es[n - 1 - j],
        decreases n - k,
    {
        match entries.pop() {
            Some(e) => {
                rest.push(e);
            },
            None => {},
        }
        k += 1;
    }
    let mut i: usize = 0;
    assert(entries_view(out@) =~= by_name(es.take(0)));
    while i < n
        invariant
            i <= n,
            n == es.len(),
            rest@.len() == n - i,
            forall|j: int| 0 <= j < n - i ==> (#[trigger] rest@[j])@ == es[n - 1 - j],
            entries_view(out@) == by_name(es.take(i as int)),
        decreases n - i,
    {
        match rest.pop() {
            Some(e) => {
                proof {
                    assert(es.take(i + 1).drop_last() =~= es.take(i as int));
                    assert(es.take(i + 1).last() == es[i as int]);
                    assert(e@ == es[i as int]);
                }
                insert_by_name(&mut out, e);
            },
            None => {},
        }
        i += 1;
    }
    assert(es.take(n as int) =~= es);
    out
}

} // verus!
