//! Cluster-level erasure coding.
//!
//! The erasure module is unit tested for its field arithmetic and its
//! encode/decode contract. These tests cover the integration: files written
//! with `Options.erasure` are stored as k+m shards over distinct nodes, read
//! back byte for byte, survive the loss of any m shard holders, fail cleanly
//! beyond m, and self-heal when a read regenerates lost shards.

// The tests intentionally use terse helpers and magic seed constants, and
// their local helper functions do not carry rustdoc error sections. Casts
// come from bounded modulo draws and short loop names are conventional here.
#![allow(
    clippy::missing_errors_doc,
    clippy::missing_panics_doc,
    clippy::doc_markdown,
    clippy::must_use_candidate,
    clippy::match_same_arms,
    clippy::cast_possible_truncation,
    clippy::cast_possible_wrap,
    clippy::cast_sign_loss,
    clippy::cast_lossless,
    clippy::similar_names,
    clippy::items_after_statements,
    clippy::single_match_else,
    clippy::too_many_lines
)]

use archipelago::{sha256, Cluster, Error, Options};
use std::collections::{BTreeMap, BTreeSet};


fn erasure_cluster(seed: u64, k: usize, m: usize, nodes: u32) -> Cluster {
    let opts = Options {
        node_count: nodes,
        ..Options::small_erasure(k, m)
    };
    Cluster::new(opts, seed)
}

#[test]
fn erasure_round_trip_across_sizes() {
    let mut c = erasure_cluster(11, 2, 2, 5);
    c.mkdir("/e").unwrap();

    let sizes = [0usize, 1, 1023, 1024, 1025, 4096, 5000];
    for (i, &len) in sizes.iter().enumerate() {
        let data: Vec<u8> = (0..len).map(|b| (b % 253) as u8).collect();
        let path = format!("/e/f{i}");
        c.write_file(&path, &data).unwrap();
        assert_eq!(c.read_file(&path).unwrap(), data, "len {len}");
        let s = c.stat(&path).unwrap();
        assert_eq!(s.size as usize, len);
        assert_eq!(s.content_hash, sha256(&data));
    }

    // Overwrite shrinks and grows the shard layout correctly.
    let path = "/e/over";
    for &len in &sizes {
        let data: Vec<u8> = (0..len).map(|b| (b.wrapping_mul(31) % 249) as u8).collect();
        c.write_file(path, &data).unwrap();
        assert_eq!(c.read_file(path).unwrap(), data, "len {len}");
    }
    c.delete(path).unwrap();
    assert!(c.read_file(path).is_err());
}

#[test]
fn erasure_differential_against_oracle() {
    let ops: usize = 120;
    for seed in [3u64, 9, 27] {
        let mut c = erasure_cluster(seed, 2, 2, 5);
        let mut o = Oracle::new();
        let mut r = Rng::new(seed);
        let paths = ["/f0", "/f1", "/d0", "/d0/f0", "/d0/f1", "/d0/sub"];
        for step in 0..ops {
            let p = paths[r.below(paths.len() as u64) as usize];
            match r.below(5) {
                0 => {
                    let data = r.bytes(3000);
                    let sys = c.write_file(p, &data).is_ok();
                    let ora = o.write(p, &data).is_ok();
                    assert_eq!(sys, ora, "seed {seed} step {step}: write {p}");
                }
                1 => {
                    let sys = c.read_file(p);
                    let ora = o.read(p).map(<[u8]>::to_vec);
                    assert_eq!(sys.is_ok(), ora.is_some(), "seed {seed} step {step}: read {p}");
                    if let (Ok(got), Some(want)) = (sys, ora) {
                        assert_eq!(&got, &want, "seed {seed} step {step}: bytes {p}");
                    }
                }
                2 => {
                    let sys = c.delete(p).is_ok();
                    let ora = o.delete(p).is_ok();
                    assert_eq!(sys, ora, "seed {seed} step {step}: delete {p}");
                }
                3 => {
                    let sys = c.mkdir(p).is_ok();
                    let ora = o.mkdir(p).is_ok();
                    assert_eq!(sys, ora, "seed {seed} step {step}: mkdir {p}");
                }
                _ => {
                    let q = paths[r.below(paths.len() as u64) as usize];
                    let sys = c.rename(p, q).is_ok();
                    let ora = o.rename(p, q).is_ok();
                    assert_eq!(sys, ora, "seed {seed} step {step}: rename {p} {q}");
                }
            }
        }
        // Everything the oracle holds must read back exactly.
        for path in o.file_paths() {
            let want = o.read(&path).expect("oracle file");
            assert_eq!(
                &c.read_file(&path).unwrap(),
                &want,
                "seed {seed}: final bytes at {path}"
            );
        }
    }
}

#[test]
fn erasure_tolerates_m_node_losses() {
    // k=2, m=2: every chunk's four shards live on four distinct of the five
    // nodes. Losing any two holders leaves k shards and the file still reads.
    let mut c = erasure_cluster(42, 2, 2, 5);
    let data = b"sharded across distinct nodes for two-loss tolerance".to_vec();
    c.mkdir("/r").unwrap();
    c.write_file("/r/f", &data).unwrap();

    let holders: Vec<u32> = c
        .status()
        .nodes
        .iter()
        .filter(|n| n.chunks > 0)
        .map(|n| n.idx)
        .collect();
    assert_eq!(holders.len(), 4, "shards must be on four distinct nodes");

    c.crash_node(holders[0]);
    assert_eq!(c.read_file("/r/f").unwrap(), data, "one holder down");
    c.crash_node(holders[1]);
    assert_eq!(c.read_file("/r/f").unwrap(), data, "two holders down");

    for h in &holders[..2] {
        c.recover_node(*h);
    }
    c.stabilize();
    assert_eq!(c.read_file("/r/f").unwrap(), data);
}

#[test]
fn erasure_fails_cleanly_beyond_m_losses() {
    // A fresh cluster with no reads in between, because a read repairs the
    // shards it reconstructs and would add redundancy. Crash m+1 of the k+m
    // holders and the read must be a clean unavailability, never wrong bytes.
    let mut c = erasure_cluster(42, 2, 2, 5);
    let data = b"sharded across distinct nodes for two-loss tolerance".to_vec();
    c.mkdir("/r").unwrap();
    c.write_file("/r/f", &data).unwrap();

    let holders: Vec<u32> = c
        .status()
        .nodes
        .iter()
        .filter(|n| n.chunks > 0)
        .map(|n| n.idx)
        .collect();
    assert_eq!(holders.len(), 4);

    for h in &holders[..3] {
        c.crash_node(*h);
    }
    match c.read_file("/r/f") {
        Err(Error::ChunkUnavailable(_)) => {}
        Err(other) => panic!("expected ChunkUnavailable, got {other:?}"),
        Ok(bytes) => panic!("got {} bytes beyond m losses", bytes.len()),
    }

    // Recovery restores the durable shards and full access.
    for h in &holders[..3] {
        c.recover_node(*h);
    }
    assert!(c.stabilize(), "cluster must converge after recovery");
    assert_eq!(c.read_file("/r/f").unwrap(), data);
}

#[test]
fn erasure_read_repair_regenerates_lost_shards() {
    // With one node down the file still reads. The read reconstructs the
    // chunks and re-encodes the shards that lived on the crashed node onto
    // live nodes, so the cluster converges again even before the node
    // recovers.
    let mut c = erasure_cluster(77, 2, 2, 5);
    c.mkdir("/p").unwrap();
    // A multi-chunk file exercises repair across several groups.
    let data: Vec<u8> = (0..3500u32).map(|i| (i % 251) as u8).collect();
    c.write_file("/p/f", &data).unwrap();
    assert!(c.stabilize(), "fresh cluster must be fully replicated");

    c.crash_node(2);
    // Before any read the lost shards are gone: not fully replicated.
    assert!(!c.stabilize(), "lost shards must be reported as missing");

    assert_eq!(c.read_file("/p/f").unwrap(), data, "read under one loss");
    assert!(
        c.stabilize(),
        "read repair must regenerate the lost shards"
    );

    // And the recovered node rejoins without losing anything.
    c.recover_node(2);
    c.stabilize();
    assert_eq!(c.read_file("/p/f").unwrap(), data);
}

#[test]
fn erasure_needs_enough_nodes() {
    // k+m = 5 shards cannot fit on 3 nodes with distinct placement.
    let mut c = erasure_cluster(5, 3, 2, 3);
    match c.write_file("/f", b"too few nodes") {
        Err(Error::WriteQuorumFailed { needed, got }) => {
            assert_eq!(needed, 5);
            assert_eq!(got, 3);
        }
        Err(other) => panic!("expected WriteQuorumFailed, got {other:?}"),
        Ok(()) => panic!("write must fail without room for a whole shard group"),
    }
}

/// A small deterministic PRNG (xorshift64). Never seed with zero.
#[allow(dead_code)]
struct Rng(u64);

#[allow(dead_code)]
impl Rng {
    /// Seed the generator. A zero seed is forced to one.
    pub fn new(seed: u64) -> Self {
        Rng(seed | 1)
    }

    /// Next raw 64 bit value.
    pub fn next(&mut self) -> u64 {
        let mut x = self.0;
        x ^= x << 13;
        x ^= x >> 7;
        x ^= x << 17;
        self.0 = x;
        x
    }

    /// A value in `0..n`.
    pub fn below(&mut self, n: u64) -> u64 {
        self.next() % n
    }

    /// A random byte buffer of length `0..=max_len`.
    pub fn bytes(&mut self, max_len: usize) -> Vec<u8> {
        let len = self.below(max_len as u64 + 1) as usize;
        (0..len).map(|_| (self.next() & 0xff) as u8).collect()
    }
}

/// The parent portion of an absolute path, `None` at the root.
#[allow(dead_code)]
fn parent(path: &str) -> Option<String> {
    if path == "/" {
        return None;
    }
    match path.rfind('/') {
        Some(0) => Some("/".into()),
        Some(i) => Some(path[..i].to_string()),
        None => None,
    }
}

/// The final component of a path.
#[allow(dead_code)]
fn basename(path: &str) -> &str {
    match path.rfind('/') {
        Some(i) => &path[i + 1..],
        None => path,
    }
}

/// Whether `path` lies strictly below `ancestor`.
#[allow(dead_code)]
fn is_under(path: &str, ancestor: &str) -> bool {
    if ancestor == "/" {
        return path != "/";
    }
    path.starts_with(&format!("{ancestor}/"))
}

/// The reference implementation of the namespace semantics.
#[derive(Default, Clone)]
#[allow(dead_code)]
struct Oracle {
    files: BTreeMap<String, Vec<u8>>,
    dirs: BTreeSet<String>,
}

#[allow(dead_code)]
impl Oracle {
    /// A fresh oracle containing only the root directory.
    pub fn new() -> Self {
        let mut o = Oracle::default();
        o.dirs.insert("/".into());
        o
    }

    /// Whether the path is a directory.
    pub fn is_dir(&self, p: &str) -> bool {
        p == "/" || self.dirs.contains(p)
    }

    /// Whether the path exists at all.
    pub fn has_path(&self, p: &str) -> bool {
        self.is_dir(p) || self.files.contains_key(p)
    }

    /// Whether the path is a file.
    pub fn is_file(&self, p: &str) -> bool {
        self.files.contains_key(p)
    }

    /// File bytes, if the path is a file.
    pub fn read(&self, p: &str) -> Option<&[u8]> {
        self.files.get(p).map(Vec::as_slice)
    }

    /// All file paths, sorted.
    pub fn file_paths(&self) -> Vec<String> {
        self.files.keys().cloned().collect()
    }

    /// All directory paths including the root, sorted.
    pub fn dir_paths(&self) -> Vec<String> {
        let mut v: Vec<String> = self.dirs.iter().cloned().collect();
        v.push("/".into());
        v.sort();
        v.dedup();
        v
    }

    /// Documented write semantics: parent must be a directory, target must
    /// not be one.
    pub fn write(&mut self, p: &str, data: &[u8]) -> Result<(), ()> {
        if self.is_dir(p) {
            return Err(());
        }
        match parent(p) {
            Some(par) if self.is_dir(&par) => {
                self.files.insert(p.into(), data.to_vec());
                Ok(())
            }
            _ => Err(()),
        }
    }

    /// Whether a write to `p` would be accepted, without mutating.
    pub fn can_write(&self, p: &str) -> bool {
        !self.is_dir(p) && parent(p).is_some_and(|par| self.is_dir(&par))
    }

    /// Whether a mkdir of `p` would be accepted, without mutating.
    pub fn can_mkdir(&self, p: &str) -> bool {
        !self.has_path(p) && parent(p).is_some_and(|par| self.is_dir(&par))
    }

    /// Whether a delete of `p` would be accepted, without mutating.
    pub fn can_delete(&self, p: &str) -> bool {
        if p == "/" {
            return false;
        }
        if self.files.contains_key(p) {
            return true;
        }
        if self.dirs.contains(p) {
            return self.children(p).is_empty();
        }
        false
    }

    /// Whether a rename from `from` to `to` would be accepted, without
    /// mutating.
    pub fn can_rename(&self, from: &str, to: &str) -> bool {
        if from == "/" || to == "/" || !self.has_path(from) || self.has_path(to) || is_under(to, from) {
            return false;
        }
        parent(to).is_some_and(|p| self.is_dir(&p))
    }

    /// Documented mkdir semantics: target must not exist, parent must be a
    /// directory.
    pub fn mkdir(&mut self, p: &str) -> Result<(), ()> {
        if self.has_path(p) {
            return Err(());
        }
        match parent(p) {
            Some(par) if self.is_dir(&par) => {
                self.dirs.insert(p.into());
                Ok(())
            }
            _ => Err(()),
        }
    }

    /// Documented delete semantics: root is protected, directories must be
    /// empty.
    pub fn delete(&mut self, p: &str) -> Result<(), ()> {
        if p == "/" {
            return Err(());
        }
        if self.files.remove(p).is_some() {
            return Ok(());
        }
        if self.dirs.contains(p) {
            let has_child = !self.children(p).is_empty();
            if has_child {
                return Err(());
            }
            self.dirs.remove(p);
            return Ok(());
        }
        Err(())
    }

    /// Documented rename semantics: no root, no overwrite, no renaming into
    /// one's own subtree.
    pub fn rename(&mut self, from: &str, to: &str) -> Result<(), ()> {
        if from == "/" || to == "/" || !self.has_path(from) || self.has_path(to) || is_under(to, from) {
            return Err(());
        }
        let par_ok = parent(to).is_some_and(|p| self.is_dir(&p));
        if !par_ok {
            return Err(());
        }
        if let Some(data) = self.files.remove(from) {
            self.files.insert(to.into(), data);
        } else {
            self.dirs.remove(from);
            self.dirs.insert(to.into());
            let sub_dirs: Vec<String> = self
                .dirs
                .iter()
                .filter(|d| is_under(d, from))
                .cloned()
                .collect();
            for d in sub_dirs {
                self.dirs.remove(&d);
                self.dirs.insert(format!("{to}{}", &d[from.len()..]));
            }
            let sub_files: Vec<String> = self
                .files
                .keys()
                .filter(|f| is_under(f, from))
                .cloned()
                .collect();
            for f in sub_files {
                let data = self.files.remove(&f).unwrap();
                self.files.insert(format!("{to}{}", &f[from.len()..]), data);
            }
        }
        Ok(())
    }

    /// Immediate children as (name, is_dir) pairs.
    pub fn children(&self, dir: &str) -> Vec<(String, bool)> {
        let files = self
            .files
            .keys()
            .filter(|p| parent(p).as_deref() == Some(dir))
            .map(|p| (basename(p).to_string(), false));
        let dirs = self
            .dirs
            .iter()
            .filter(|d| **d != "/" && parent(d).as_deref() == Some(dir))
            .map(|d| (basename(d).to_string(), true));
        let mut v: Vec<(String, bool)> = files.chain(dirs).collect();
        v.sort();
        v
    }

    /// Documented list semantics: only directories list.
    pub fn listing(&self, dir: &str) -> Result<BTreeSet<(String, bool)>, ()> {
        if !self.is_dir(dir) {
            return Err(());
        }
        Ok(self.children(dir).into_iter().collect())
    }

    /// Absorb a file the cluster committed but the oracle never recorded
    /// (possible for a write that timed out client side yet committed). The
    /// bytes are content-hash verified by the cluster on read, so adopting
    /// them is safe.
    pub fn adopt_file(&mut self, p: &str, data: &[u8]) {
        self.files.insert(p.into(), data.to_vec());
    }

    /// Absorb a directory the cluster committed but the oracle never
    /// recorded, creating any missing ancestors as directories.
    pub fn adopt_dir(&mut self, p: &str) {
        if self.is_dir(p) {
            return;
        }
        self.dirs.insert(p.into());
        let mut cur = p.to_string();
        while let Some(par) = parent(&cur) {
            if self.is_dir(&par) {
                break;
            }
            self.dirs.insert(par.clone());
            cur = par;
        }
    }
}
