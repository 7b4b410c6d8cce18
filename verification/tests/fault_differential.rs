//! Differential testing under injected faults.
//!
//! The classic differential test runs in reliable-network mode with no faults.
//! This one runs the same kind of random operation stream while crash,
//! recovery, and partition events are interleaved, with the oracle checked as
//! far as the fault model allows:
//!
//! - A read that succeeds must return exactly the oracle bytes, unless the
//!   path was touched by a mutating op that failed client side and may have
//!   committed anyway (tainted paths). Wrong bytes on an untainted path are a
//!   hard failure.
//! - While faults are active, ops may fail with unavailability errors, but
//!   never with wrong results.
//! - In every quiescent window (all nodes recovered, partition healed,
//!   re-replication converged) the system must be back in strict agreement
//!   with the oracle: every file reads back byte for byte and listings match.
//! - A committed file that vanishes untainted, or comes back with different
//!   bytes untainted, is a hard failure. Within the configured fault bounds
//!   (fewer than R storage nodes down, fewer than a metadata quorum down)
//!   that must never happen.
//!
//!

// The tests intentionally use terse helpers and magic seed constants, and
// their local helper functions do not carry rustdoc error sections. Casts
// come from bounded modulo draws and short loop names are conventional here.
#![allow(
    clippy::missing_errors_doc,
    clippy::missing_panics_doc,
    clippy::doc_markdown,
    clippy::must_use_candidate,
    clippy::match_same_arms,
    clippy::cast_possible_truncation,
    clippy::cast_possible_wrap,
    clippy::cast_sign_loss,
    clippy::cast_lossless,
    clippy::similar_names,
    clippy::items_after_statements,
    clippy::single_match_else,
    clippy::too_many_lines
)]

use archipelago::{Cluster, Error, Options};
use std::collections::{BTreeMap, BTreeSet};


const NODES: u32 = 5;
const METAS: u32 = 3;

const PATHS: &[&str] = &[
    "/f0", "/f1", "/d0", "/d0/f0", "/d0/f1", "/d0/sub", "/d0/sub/f0", "/d1", "/d1/f0", "/d1/deep",
    "/d1/deep/f0",
];

fn is_unavailable(e: &Error) -> bool {
    matches!(
        e,
        Error::ChunkUnavailable(_) | Error::MetadataUnavailable | Error::WriteQuorumFailed { .. }
    )
}

fn ancestors(path: &str) -> Vec<String> {
    let mut v = Vec::new();
    let mut cur = path.to_string();
    while let Some(p) = parent(&cur) {
        v.push(p.clone());
        cur = p;
    }
    v
}

fn taint(tainted: &mut BTreeSet<String>, path: &str) {
    tainted.insert(path.to_string());
    for a in ancestors(path) {
        tainted.insert(a);
    }
}

fn taint_subtree(tainted: &mut BTreeSet<String>, from: &str, o: &Oracle) {
    taint(tainted, from);
    for f in o.file_paths() {
        if is_under(&f, from) {
            tainted.insert(f);
        }
    }
}

/// Recursively list every file path in the cluster.
fn walk_files(c: &mut Cluster, dir: &str) -> Vec<String> {
    let mut out = Vec::new();
    for e in c.list(dir).expect("directory must list during walk") {
        let child = if dir == "/" {
            format!("/{}", e.name)
        } else {
            format!("{dir}/{}", e.name)
        };
        if e.is_dir {
            out.extend(walk_files(c, &child));
        } else {
            out.push(child);
        }
    }
    out
}

/// Drive the cluster back to a quiescent state and re-derive the oracle.
///
/// Tainted paths may legitimately differ from the oracle because a mutating
/// op that failed client side can still commit. Untainted divergence is a
/// hard failure.
fn quiesce(c: &mut Cluster, o: &mut Oracle, tainted: &mut BTreeSet<String>) {
    for i in 0..NODES {
        c.recover_node(i);
    }
    for i in 0..METAS {
        c.recover_meta(i);
    }
    c.heal();
    assert!(c.stabilize(), "stabilize must converge after recovery");

    // Files the oracle knows that the cluster lost: legitimate only if a
    // failed-but-committed delete or rename could have removed them.
    for path in o.file_paths() {
        if c.stat(&path).is_err() {
            assert!(
                tainted.contains(&path),
                "untainted committed file {path} vanished after recovery"
            );
            o.delete(&path).ok();
        }
    }

    // Files the cluster holds: verify untainted bytes, adopt unknown files
    // (failed-but-committed writes) with their verified bytes.
    for path in walk_files(c, "/") {
        if !o.has_path(&path) {
            for anc in ancestors(&path) {
                if !o.is_dir(&anc) {
                    assert!(
                        tainted.contains(&anc) || !o.has_path(&anc),
                        "untainted file {anc} became a directory"
                    );
                    o.adopt_dir(&anc);
                }
            }
            let data = c.read_file(&path).expect("just listed file must read");
            o.adopt_file(&path, &data);
        } else if o.is_file(&path) && tainted.contains(&path) {
            if let Ok(data) = c.read_file(&path) {
                o.adopt_file(&path, &data);
            }
        } else if o.is_dir(&path) {
            panic!("path {path} is both a file in the cluster and a directory in the oracle");
        }
    }
    tainted.clear();
}

/// Full strict agreement between cluster and oracle. Only valid in a
/// quiescent window right after `quiesce`.
fn strict_consistency(c: &mut Cluster, o: &Oracle, seed: u64, step: usize) {
    for path in o.file_paths() {
        let want = o.read(&path).expect("oracle file");
        let got = c
            .read_file(&path)
            .unwrap_or_else(|e| panic!("seed {seed} step {step}: oracle file {path} unreadable: {e:?}"));
        assert_eq!(&got, want, "seed {seed} step {step}: byte mismatch at {path}");
    }
    let mut dirs = o.dir_paths();
    if !dirs.contains(&"/".to_string()) {
        dirs.push("/".into());
    }
    for dir in dirs {
        let want = o.listing(&dir).unwrap();
        let got: BTreeSet<(String, bool)> = c
            .list(&dir)
            .unwrap_or_else(|e| panic!("seed {seed} step {step}: listing {dir} failed: {e:?}"))
            .into_iter()
            .map(|e| (e.name, e.is_dir))
            .collect();
        assert_eq!(
            got, want,
            "seed {seed} step {step}: listing mismatch at {dir}"
        );
    }
}

fn run_seed(seed: u64, ops: usize) {
    let mut c = Cluster::new(Options::small(), seed);
    let mut o = Oracle::new();
    let mut r = Rng::new(seed);
    let mut tainted: BTreeSet<String> = BTreeSet::new();

    // Fault state.
    let mut down_storage: BTreeSet<u32> = BTreeSet::new();
    let mut down_meta: BTreeSet<u32> = BTreeSet::new();
    let mut partitioned = false;

    // A quiescent, strictly checked window every FAULT_WINDOW ops.
    const FAULT_WINDOW: usize = 12;

    for step in 0..ops {
        if step % FAULT_WINDOW == FAULT_WINDOW - 1 {
            quiesce(&mut c, &mut o, &mut tainted);
            down_storage.clear();
            down_meta.clear();
            partitioned = false;
            strict_consistency(&mut c, &o, seed, step);
            continue;
        }

        // Inject a fault roughly every third op.
        if r.below(3) == 0 {
            match r.below(6) {
                0 | 1 if down_storage.len() < 2 && !partitioned => {
                    let live: Vec<u32> = (0..NODES).filter(|i| !down_storage.contains(i)).collect();
                    if !live.is_empty() {
                        let n = live[r.below(live.len() as u64) as usize];
                        c.crash_node(n);
                        down_storage.insert(n);
                    }
                }
                2 if !down_storage.is_empty() => {
                    let n = *down_storage.iter().next().unwrap();
                    c.recover_node(n);
                    down_storage.remove(&n);
                }
                3 if down_meta.is_empty() && !partitioned => {
                    // The meta quorum is 2 of 3: exactly one meta may be down.
                    let live: Vec<u32> = (0..METAS).filter(|i| !down_meta.contains(i)).collect();
                    let n = live[r.below(live.len() as u64) as usize];
                    c.crash_meta(n);
                    down_meta.insert(n);
                }
                4 if !down_meta.is_empty() => {
                    let n = *down_meta.iter().next().unwrap();
                    c.recover_meta(n);
                    down_meta.remove(&n);
                }
                5 if down_storage.is_empty() && down_meta.is_empty() && !partitioned => {
                    // Partition one or two storage nodes away: fewer than R.
                    let count = 1 + r.below(2) as usize;
                    let group: Vec<u32> = (0..NODES)
                        .filter(|_| r.below(NODES as u64) < count as u64)
                        .take(2)
                        .collect();
                    if !group.is_empty() {
                        c.partition(&group);
                        partitioned = true;
                    }
                }
                _ => {}
            }
        }

        let faults_active = !down_storage.is_empty() || !down_meta.is_empty() || partitioned;

        let op = r.below(7);
        let p = PATHS[r.below(PATHS.len() as u64) as usize];
        match op {
            0 => {
                let data = r.bytes(2500);
                match c.write_file(p, &data) {
                    Ok(()) => {
                        assert!(
                            !o.is_dir(p),
                            "seed {seed} step {step}: wrote over a directory {p}"
                        );
                        if !o.has_path(p) {
                            // The cluster accepted, so the parent chain exists
                            // there. Any missing oracle ancestor is a
                            // failed-but-committed mkdir.
                            for anc in ancestors(p) {
                                assert!(
                                    !o.is_file(&anc) || tainted.contains(&anc),
                                    "seed {seed} step {step}: wrote under untainted file {anc}"
                                );
                                if !o.is_dir(&anc) {
                                    o.adopt_dir(&anc);
                                }
                            }
                        }
                        assert!(
                            o.can_write(p),
                            "seed {seed} step {step}: cluster accepted write the oracle rejects: {p}"
                        );
                        o.write(p, &data).ok();
                    }
                    Err(e) => {
                        assert!(
                            (faults_active && is_unavailable(&e)) || !o.can_write(p),
                            "seed {seed} step {step}: unexpected write error: {e:?}"
                        );
                        if is_unavailable(&e) {
                            taint(&mut tainted, p);
                        }
                    }
                }
            }
            1 => {
                // Reads may fail under faults, which is allowed.
                if let Ok(bytes) = c.read_file(p) {
                    match o.read(p) {
                        Some(want) => {
                            if tainted.contains(p) {
                                o.adopt_file(p, &bytes);
                            } else {
                                assert_eq!(
                                    &bytes, want,
                                    "seed {seed} step {step}: WRONG BYTES at {p}"
                                );
                            }
                        }
                        None => {
                            assert!(
                                !tainted.is_empty(),
                                "seed {seed} step {step}: read of unknown untainted file {p}"
                            );
                            o.adopt_file(p, &bytes);
                        }
                    }
                }
            }
            2 => {
                match c.delete(p) {
                    Ok(()) => {
                        assert!(
                            o.can_delete(p),
                            "seed {seed} step {step}: cluster deleted what oracle protects: {p}"
                        );
                        o.delete(p).ok();
                    }
                    Err(e) => {
                        assert!(
                            (faults_active && is_unavailable(&e)) || !o.can_delete(p),
                            "seed {seed} step {step}: unexpected delete error: {e:?}"
                        );
                        if is_unavailable(&e) {
                            taint(&mut tainted, p);
                        }
                    }
                }
            }
            3 => {
                match c.mkdir(p) {
                    Ok(()) => {
                        assert!(
                            o.can_mkdir(p),
                            "seed {seed} step {step}: cluster mkdir the oracle rejects: {p}"
                        );
                        o.mkdir(p).ok();
                    }
                    Err(e) => {
                        assert!(
                            (faults_active && is_unavailable(&e)) || !o.can_mkdir(p),
                            "seed {seed} step {step}: unexpected mkdir error: {e:?}"
                        );
                        if is_unavailable(&e) {
                            taint(&mut tainted, p);
                        }
                    }
                }
            }
            4 => {
                let q = PATHS[r.below(PATHS.len() as u64) as usize];
                match c.rename(p, q) {
                    Ok(()) => {
                        assert!(
                            o.can_rename(p, q),
                            "seed {seed} step {step}: cluster renamed what oracle rejects: {p} -> {q}"
                        );
                        o.rename(p, q).ok();
                    }
                    Err(e) => {
                        assert!(
                            (faults_active && is_unavailable(&e)) || !o.can_rename(p, q),
                            "seed {seed} step {step}: unexpected rename error: {e:?}"
                        );
                        if is_unavailable(&e) {
                            taint_subtree(&mut tainted, p, &o);
                        }
                    }
                }
            }
            5 => {
                let res = c.list(p);
                let want = o.listing(p);
                match (res, want) {
                    (Ok(entries), Ok(want)) => {
                        if !tainted.contains(p) {
                            let got: BTreeSet<(String, bool)> =
                                entries.into_iter().map(|e| (e.name, e.is_dir)).collect();
                            assert_eq!(got, want, "seed {seed} step {step}: listing drift at {p}");
                        }
                    }
                    (Err(e), Ok(_)) => {
                        assert!(
                            faults_active && is_unavailable(&e),
                            "seed {seed} step {step}: unexpected list error: {e:?}"
                        );
                    }
                    (Ok(_), Err(())) => panic!(
                        "seed {seed} step {step}: listed non-directory {p} the oracle rejects"
                    ),
                    (Err(_), Err(())) => {}
                }
            }
            _ => {
                match (c.stat(p), o.has_path(p)) {
                    (Ok(_), true) => {}
                    (Ok(_), false) => panic!(
                        "seed {seed} step {step}: stat found {p} the oracle does not know"
                    ),
                    (Err(e), true) => {
                        assert!(
                            faults_active && is_unavailable(&e),
                            "seed {seed} step {step}: stat of existing {p} failed: {e:?}"
                        );
                    }
                    (Err(_), false) => {}
                }
            }
        }
    }

    // Final quiescent state must be strictly consistent.
    quiesce(&mut c, &mut o, &mut tainted);
    strict_consistency(&mut c, &o, seed, ops);
}

#[test]
fn fault_differential_never_loses_or_corrupts() {
    let ops: usize = 120;
    for seed in [1u64, 2, 3, 17, 250, 99, 12345] {
        run_seed(seed, ops);
    }
}

/// A small deterministic PRNG (xorshift64). Never seed with zero.
#[allow(dead_code)]
struct Rng(u64);

#[allow(dead_code)]
impl Rng {
    /// Seed the generator. A zero seed is forced to one.
    pub fn new(seed: u64) -> Self {
        Rng(seed | 1)
    }

    /// Next raw 64 bit value.
    pub fn next(&mut self) -> u64 {
        let mut x = self.0;
        x ^= x << 13;
        x ^= x >> 7;
        x ^= x << 17;
        self.0 = x;
        x
    }

    /// A value in `0..n`.
    pub fn below(&mut self, n: u64) -> u64 {
        self.next() % n
    }

    /// A random byte buffer of length `0..=max_len`.
    pub fn bytes(&mut self, max_len: usize) -> Vec<u8> {
        let len = self.below(max_len as u64 + 1) as usize;
        (0..len).map(|_| (self.next() & 0xff) as u8).collect()
    }
}

/// The parent portion of an absolute path, `None` at the root.
#[allow(dead_code)]
fn parent(path: &str) -> Option<String> {
    if path == "/" {
        return None;
    }
    match path.rfind('/') {
        Some(0) => Some("/".into()),
        Some(i) => Some(path[..i].to_string()),
        None => None,
    }
}

/// The final component of a path.
#[allow(dead_code)]
fn basename(path: &str) -> &str {
    match path.rfind('/') {
        Some(i) => &path[i + 1..],
        None => path,
    }
}

/// Whether `path` lies strictly below `ancestor`.
#[allow(dead_code)]
fn is_under(path: &str, ancestor: &str) -> bool {
    if ancestor == "/" {
        return path != "/";
    }
    path.starts_with(&format!("{ancestor}/"))
}

/// The reference implementation of the namespace semantics.
#[derive(Default, Clone)]
#[allow(dead_code)]
struct Oracle {
    files: BTreeMap<String, Vec<u8>>,
    dirs: BTreeSet<String>,
}

#[allow(dead_code)]
impl Oracle {
    /// A fresh oracle containing only the root directory.
    pub fn new() -> Self {
        let mut o = Oracle::default();
        o.dirs.insert("/".into());
        o
    }

    /// Whether the path is a directory.
    pub fn is_dir(&self, p: &str) -> bool {
        p == "/" || self.dirs.contains(p)
    }

    /// Whether the path exists at all.
    pub fn has_path(&self, p: &str) -> bool {
        self.is_dir(p) || self.files.contains_key(p)
    }

    /// Whether the path is a file.
    pub fn is_file(&self, p: &str) -> bool {
        self.files.contains_key(p)
    }

    /// File bytes, if the path is a file.
    pub fn read(&self, p: &str) -> Option<&[u8]> {
        self.files.get(p).map(Vec::as_slice)
    }

    /// All file paths, sorted.
    pub fn file_paths(&self) -> Vec<String> {
        self.files.keys().cloned().collect()
    }

    /// All directory paths including the root, sorted.
    pub fn dir_paths(&self) -> Vec<String> {
        let mut v: Vec<String> = self.dirs.iter().cloned().collect();
        v.push("/".into());
        v.sort();
        v.dedup();
        v
    }

    /// Documented write semantics: parent must be a directory, target must
    /// not be one.
    pub fn write(&mut self, p: &str, data: &[u8]) -> Result<(), ()> {
        if self.is_dir(p) {
            return Err(());
        }
        match parent(p) {
            Some(par) if self.is_dir(&par) => {
                self.files.insert(p.into(), data.to_vec());
                Ok(())
            }
            _ => Err(()),
        }
    }

    /// Whether a write to `p` would be accepted, without mutating.
    pub fn can_write(&self, p: &str) -> bool {
        !self.is_dir(p) && parent(p).is_some_and(|par| self.is_dir(&par))
    }

    /// Whether a mkdir of `p` would be accepted, without mutating.
    pub fn can_mkdir(&self, p: &str) -> bool {
        !self.has_path(p) && parent(p).is_some_and(|par| self.is_dir(&par))
    }

    /// Whether a delete of `p` would be accepted, without mutating.
    pub fn can_delete(&self, p: &str) -> bool {
        if p == "/" {
            return false;
        }
        if self.files.contains_key(p) {
            return true;
        }
        if self.dirs.contains(p) {
            return self.children(p).is_empty();
        }
        false
    }

    /// Whether a rename from `from` to `to` would be accepted, without
    /// mutating.
    pub fn can_rename(&self, from: &str, to: &str) -> bool {
        if from == "/" || to == "/" || !self.has_path(from) || self.has_path(to) || is_under(to, from) {
            return false;
        }
        parent(to).is_some_and(|p| self.is_dir(&p))
    }

    /// Documented mkdir semantics: target must not exist, parent must be a
    /// directory.
    pub fn mkdir(&mut self, p: &str) -> Result<(), ()> {
        if self.has_path(p) {
            return Err(());
        }
        match parent(p) {
            Some(par) if self.is_dir(&par) => {
                self.dirs.insert(p.into());
                Ok(())
            }
            _ => Err(()),
        }
    }

    /// Documented delete semantics: root is protected, directories must be
    /// empty.
    pub fn delete(&mut self, p: &str) -> Result<(), ()> {
        if p == "/" {
            return Err(());
        }
        if self.files.remove(p).is_some() {
            return Ok(());
        }
        if self.dirs.contains(p) {
            let has_child = !self.children(p).is_empty();
            if has_child {
                return Err(());
            }
            self.dirs.remove(p);
            return Ok(());
        }
        Err(())
    }

    /// Documented rename semantics: no root, no overwrite, no renaming into
    /// one's own subtree.
    pub fn rename(&mut self, from: &str, to: &str) -> Result<(), ()> {
        if from == "/" || to == "/" || !self.has_path(from) || self.has_path(to) || is_under(to, from) {
            return Err(());
        }
        let par_ok = parent(to).is_some_and(|p| self.is_dir(&p));
        if !par_ok {
            return Err(());
        }
        if let Some(data) = self.files.remove(from) {
            self.files.insert(to.into(), data);
        } else {
            self.dirs.remove(from);
            self.dirs.insert(to.into());
            let sub_dirs: Vec<String> = self
                .dirs
                .iter()
                .filter(|d| is_under(d, from))
                .cloned()
                .collect();
            for d in sub_dirs {
                self.dirs.remove(&d);
                self.dirs.insert(format!("{to}{}", &d[from.len()..]));
            }
            let sub_files: Vec<String> = self
                .files
                .keys()
                .filter(|f| is_under(f, from))
                .cloned()
                .collect();
            for f in sub_files {
                let data = self.files.remove(&f).unwrap();
                self.files.insert(format!("{to}{}", &f[from.len()..]), data);
            }
        }
        Ok(())
    }

    /// Immediate children as (name, is_dir) pairs.
    pub fn children(&self, dir: &str) -> Vec<(String, bool)> {
        let files = self
            .files
            .keys()
            .filter(|p| parent(p).as_deref() == Some(dir))
            .map(|p| (basename(p).to_string(), false));
        let dirs = self
            .dirs
            .iter()
            .filter(|d| **d != "/" && parent(d).as_deref() == Some(dir))
            .map(|d| (basename(d).to_string(), true));
        let mut v: Vec<(String, bool)> = files.chain(dirs).collect();
        v.sort();
        v
    }

    /// Documented list semantics: only directories list.
    pub fn listing(&self, dir: &str) -> Result<BTreeSet<(String, bool)>, ()> {
        if !self.is_dir(dir) {
            return Err(());
        }
        Ok(self.children(dir).into_iter().collect())
    }

    /// Absorb a file the cluster committed but the oracle never recorded
    /// (possible for a write that timed out client side yet committed). The
    /// bytes are content-hash verified by the cluster on read, so adopting
    /// them is safe.
    pub fn adopt_file(&mut self, p: &str, data: &[u8]) {
        self.files.insert(p.into(), data.to_vec());
    }

    /// Absorb a directory the cluster committed but the oracle never
    /// recorded, creating any missing ancestors as directories.
    pub fn adopt_dir(&mut self, p: &str) {
        if self.is_dir(p) {
            return;
        }
        self.dirs.insert(p.into());
        let mut cur = p.to_string();
        while let Some(par) = parent(&cur) {
            if self.is_dir(&par) {
                break;
            }
            self.dirs.insert(par.clone());
            cur = par;
        }
    }
}
