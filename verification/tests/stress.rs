//! Stress across the Options space and determinism under faults.
//!
//! Two jobs:
//!
//! 1. An options matrix: the randomized differential test only ever runs the
//!    default tuning. Here the same differential style is applied across a
//!    sampled grid of chunk sizes, replication factors, quorums, node counts,
//!    metadata counts, and network jitter, so a tuning-dependent defect
//!    cannot hide.
//!
//! 2. Determinism under faults: the same seed and the same script that
//!    includes crashes, recoveries, partitions, and metadata churn must
//!    produce the identical state hash and the identical delivery order,
//!    twice, at every sampled tuning.

use archipelago::net::LinkParams;
use archipelago::{Cluster, Options};
use std::collections::{BTreeMap, BTreeSet};


fn sampled_options(r: &mut Rng) -> (Options, String) {
    let chunk_sizes = [64usize, 256, 1024, 8192, 65536];
    let node_counts = [3u32, 5, 9];
    let meta_counts = [1u32, 3, 5];

    let chunk_size = chunk_sizes[r.below(chunk_sizes.len() as u64) as usize];
    let node_count = node_counts[r.below(node_counts.len() as u64) as usize];
    let meta_count = meta_counts[r.below(meta_counts.len() as u64) as usize];

    // Replication at most the node count, write quorum at most R, meta
    // quorum at most the meta count. Only writable tunings are sampled.
    let max_r = (node_count as usize).min(5);
    let replication_factor = 1 + r.below(max_r as u64) as usize;
    let write_quorum = 1 + r.below(replication_factor as u64) as usize;
    let meta_quorum = 1 + r.below(meta_count as u64) as usize;
    let jitter = [0u64, 2, 8][r.below(3) as usize];

    let opts = Options {
        chunk_size,
        replication_factor,
        write_quorum,
        read_quorum: 1,
        erasure: None,
        node_count,
        meta_count,
        meta_quorum,
        op_deadline: 10_000,
        link: LinkParams {
            base_latency: 1,
            jitter,
            drop_prob: 0,
        },
    };
    let label = format!(
        "cs={chunk_size} r={replication_factor} wq={write_quorum} nodes={node_count} \
         metas={meta_count} mq={meta_quorum} jitter={jitter}"
    );
    (opts, label)
}

const PATHS: &[&str] = &["/f0", "/f1", "/d0", "/d0/f0", "/d0/f1", "/d0/sub", "/d0/sub/f0"];

fn mini_differential(opts: Options, seed: u64, ops: usize, label: &str) {
    let mut c = Cluster::new(opts, seed);
    let mut o = Oracle::new();
    let mut r = Rng::new(seed);

    for step in 0..ops {
        let op = r.below(6);
        let p = PATHS[r.below(PATHS.len() as u64) as usize];
        match op {
            0 => {
                let data = r.bytes(3000);
                let sys = c.write_file(p, &data).is_ok();
                let ora = o.write(p, &data).is_ok();
                assert_eq!(
                    sys, ora,
                    "{label} seed {seed} step {step}: write disagreement at {p}"
                );
            }
            1 => {
                let sys = c.read_file(p);
                let ora = o.read(p).map(|b| b.to_vec());
                assert_eq!(
                    sys.is_ok(),
                    ora.is_some(),
                    "{label} seed {seed} step {step}: read agreement broke at {p}"
                );
                if let (Ok(bytes), Some(want)) = (sys, ora) {
                    assert_eq!(
                        &bytes, &want,
                        "{label} seed {seed} step {step}: bytes differ at {p}"
                    );
                }
            }
            2 => {
                let sys = c.delete(p).is_ok();
                let ora = o.delete(p).is_ok();
                assert_eq!(
                    sys, ora,
                    "{label} seed {seed} step {step}: delete disagreement at {p}"
                );
            }
            3 => {
                let sys = c.mkdir(p).is_ok();
                let ora = o.mkdir(p).is_ok();
                assert_eq!(
                    sys, ora,
                    "{label} seed {seed} step {step}: mkdir disagreement at {p}"
                );
            }
            4 => {
                let q = PATHS[r.below(PATHS.len() as u64) as usize];
                let sys = c.rename(p, q).is_ok();
                let ora = o.rename(p, q).is_ok();
                assert_eq!(
                    sys, ora,
                    "{label} seed {seed} step {step}: rename disagreement {p} -> {q}"
                );
            }
            _ => {
                let sys = c.stat(p).is_ok();
                let ora = o.has_path(p);
                assert_eq!(
                    sys, ora,
                    "{label} seed {seed} step {step}: stat disagreement at {p}"
                );
            }
        }
    }

    // Final full byte and listing agreement.
    for path in o.file_paths() {
        let want = o.read(&path).expect("oracle file");
        let got = c
            .read_file(&path)
            .unwrap_or_else(|e| panic!("{label} seed {seed}: {path} unreadable: {e:?}"));
        assert_eq!(&got, want, "{label} seed {seed}: bytes differ at {path}");
    }
    let mut dirs = o.dir_paths();
    dirs.push("/".into());
    dirs.sort();
    dirs.dedup();
    for dir in dirs {
        let want = o.listing(&dir).unwrap();
        let got: BTreeSet<(String, bool)> = c
            .list(&dir)
            .unwrap_or_else(|e| panic!("{label} seed {seed}: list {dir}: {e:?}"))
            .into_iter()
            .map(|e| (e.name, e.is_dir))
            .collect();
        assert_eq!(got, want, "{label} seed {seed}: listing differs at {dir}");
    }
}

#[test]
fn options_matrix_differential() {
    let ops: usize = 60;
    let mut r = Rng::new(2026_09_05);
    for cfg in 0..20 {
        let (opts, label) = sampled_options(&mut r);
        for seed in [7u64, 8] {
            mini_differential(opts, seed, ops, &format!("[cfg {cfg} {label}]"));
        }
    }
}

/// A scripted run with faults and namespace churn, entirely driven by the
/// seed. Used for the determinism test at stress scale.
fn fault_script(opts: Options, seed: u64, rounds: usize) -> (archipelago::hash::Hash, archipelago::hash::Hash) {
    let nodes = opts.node_count;
    let metas = opts.meta_count;
    let mut c = Cluster::new(opts, seed);
    let mut r = Rng::new(seed);
    c.mkdir("/s").unwrap();

    for i in 0..rounds {
        let data = r.bytes(3000);
        let _ = c.write_file(&format!("/s/f{}", i % 10), &data);
        let _ = c.read_file(&format!("/s/f{}", r.below(10)));

        match r.below(10) {
            0 | 1 => c.crash_node(r.below(nodes as u64) as u32),
            2 => c.recover_node(r.below(nodes as u64) as u32),
            3 if metas > 1 => c.crash_meta(r.below(metas as u64) as u32),
            4 if metas > 1 => c.recover_meta(r.below(metas as u64) as u32),
            5 => {
                let n = 1 + r.below((nodes / 2).max(1) as u64) as u32;
                let group: Vec<u32> = (0..n).map(|k| k % nodes).collect();
                c.partition(&group);
            }
            6 => c.heal(),
            7 => {
                c.stabilize();
            }
            _ => {}
        }
    }

    // Converge fully: every node and meta back, no partitions.
    for i in 0..nodes {
        c.recover_node(i);
    }
    for i in 0..metas {
        c.recover_meta(i);
    }
    c.heal();
    c.stabilize();
    (c.state_hash(), c.delivery_digest())
}

#[test]
fn determinism_under_faults_across_tunings() {
    let rounds: usize = 40;
    let mut r = Rng::new(777_001);
    for _cfg in 0..12 {
        let (opts, label) = sampled_options(&mut r);
        let a = fault_script(opts, 555, rounds);
        let b = fault_script(opts, 555, rounds);
        assert_eq!(
            a.0, b.0,
            "{label}: state hash diverged between identical runs"
        );
        assert_eq!(
            a.1, b.1,
            "{label}: delivery order diverged between identical runs"
        );
    }
}

#[test]
fn different_seeds_produce_different_schedules() {
    let (opts, label) = {
        let mut r = Rng::new(424_242);
        sampled_options(&mut r)
    };
    let a = fault_script(opts, 1, 30);
    let b = fault_script(opts, 2, 30);
    assert_ne!(a.1, b.1, "{label}: seeds produced identical delivery order");
}

/// A small deterministic PRNG (xorshift64). Never seed with zero.
#[allow(dead_code)]
struct Rng(u64);

#[allow(dead_code)]
impl Rng {
    /// Seed the generator. A zero seed is forced to one.
    pub fn new(seed: u64) -> Self {
        Rng(seed | 1)
    }

    /// Next raw 64 bit value.
    pub fn next(&mut self) -> u64 {
        let mut x = self.0;
        x ^= x << 13;
        x ^= x >> 7;
        x ^= x << 17;
        self.0 = x;
        x
    }

    /// A value in `0..n`.
    pub fn below(&mut self, n: u64) -> u64 {
        self.next() % n
    }

    /// A random byte buffer of length `0..=max_len`.
    pub fn bytes(&mut self, max_len: usize) -> Vec<u8> {
        let len = self.below(max_len as u64 + 1) as usize;
        (0..len).map(|_| (self.next() & 0xff) as u8).collect()
    }
}

/// The parent portion of an absolute path, `None` at the root.
#[allow(dead_code)]
fn parent(path: &str) -> Option<String> {
    if path == "/" {
        return None;
    }
    match path.rfind('/') {
        Some(0) => Some("/".into()),
        Some(i) => Some(path[..i].to_string()),
        None => None,
    }
}

/// The final component of a path.
#[allow(dead_code)]
fn basename(path: &str) -> &str {
    match path.rfind('/') {
        Some(i) => &path[i + 1..],
        None => path,
    }
}

/// Whether `path` lies strictly below `ancestor`.
#[allow(dead_code)]
fn is_under(path: &str, ancestor: &str) -> bool {
    if ancestor == "/" {
        return path != "/";
    }
    path.starts_with(&format!("{ancestor}/"))
}

/// The reference implementation of the namespace semantics.
#[derive(Default, Clone)]
#[allow(dead_code)]
struct Oracle {
    files: BTreeMap<String, Vec<u8>>,
    dirs: BTreeSet<String>,
}

#[allow(dead_code)]
impl Oracle {
    /// A fresh oracle containing only the root directory.
    pub fn new() -> Self {
        let mut o = Oracle::default();
        o.dirs.insert("/".into());
        o
    }

    /// Whether the path is a directory.
    pub fn is_dir(&self, p: &str) -> bool {
        p == "/" || self.dirs.contains(p)
    }

    /// Whether the path exists at all.
    pub fn has_path(&self, p: &str) -> bool {
        self.is_dir(p) || self.files.contains_key(p)
    }

    /// Whether the path is a file.
    pub fn is_file(&self, p: &str) -> bool {
        self.files.contains_key(p)
    }

    /// File bytes, if the path is a file.
    pub fn read(&self, p: &str) -> Option<&[u8]> {
        self.files.get(p).map(Vec::as_slice)
    }

    /// All file paths, sorted.
    pub fn file_paths(&self) -> Vec<String> {
        self.files.keys().cloned().collect()
    }

    /// All directory paths including the root, sorted.
    pub fn dir_paths(&self) -> Vec<String> {
        let mut v: Vec<String> = self.dirs.iter().cloned().collect();
        v.push("/".into());
        v.sort();
        v.dedup();
        v
    }

    /// Documented write semantics: parent must be a directory, target must
    /// not be one.
    pub fn write(&mut self, p: &str, data: &[u8]) -> Result<(), ()> {
        if self.is_dir(p) {
            return Err(());
        }
        match parent(p) {
            Some(par) if self.is_dir(&par) => {
                self.files.insert(p.into(), data.to_vec());
                Ok(())
            }
            _ => Err(()),
        }
    }

    /// Whether a write to `p` would be accepted, without mutating.
    pub fn can_write(&self, p: &str) -> bool {
        !self.is_dir(p) && parent(p).is_some_and(|par| self.is_dir(&par))
    }

    /// Whether a mkdir of `p` would be accepted, without mutating.
    pub fn can_mkdir(&self, p: &str) -> bool {
        !self.has_path(p) && parent(p).is_some_and(|par| self.is_dir(&par))
    }

    /// Whether a delete of `p` would be accepted, without mutating.
    pub fn can_delete(&self, p: &str) -> bool {
        if p == "/" {
            return false;
        }
        if self.files.contains_key(p) {
            return true;
        }
        if self.dirs.contains(p) {
            return self.children(p).is_empty();
        }
        false
    }

    /// Whether a rename from `from` to `to` would be accepted, without
    /// mutating.
    pub fn can_rename(&self, from: &str, to: &str) -> bool {
        if from == "/" || to == "/" || !self.has_path(from) || self.has_path(to) || is_under(to, from) {
            return false;
        }
        parent(to).is_some_and(|p| self.is_dir(&p))
    }

    /// Documented mkdir semantics: target must not exist, parent must be a
    /// directory.
    pub fn mkdir(&mut self, p: &str) -> Result<(), ()> {
        if self.has_path(p) {
            return Err(());
        }
        match parent(p) {
            Some(par) if self.is_dir(&par) => {
                self.dirs.insert(p.into());
                Ok(())
            }
            _ => Err(()),
        }
    }

    /// Documented delete semantics: root is protected, directories must be
    /// empty.
    pub fn delete(&mut self, p: &str) -> Result<(), ()> {
        if p == "/" {
            return Err(());
        }
        if self.files.remove(p).is_some() {
            return Ok(());
        }
        if self.dirs.contains(p) {
            let has_child = !self.children(p).is_empty();
            if has_child {
                return Err(());
            }
            self.dirs.remove(p);
            return Ok(());
        }
        Err(())
    }

    /// Documented rename semantics: no root, no overwrite, no renaming into
    /// one's own subtree.
    pub fn rename(&mut self, from: &str, to: &str) -> Result<(), ()> {
        if from == "/" || to == "/" || !self.has_path(from) || self.has_path(to) || is_under(to, from) {
            return Err(());
        }
        let par_ok = parent(to).is_some_and(|p| self.is_dir(&p));
        if !par_ok {
            return Err(());
        }
        if let Some(data) = self.files.remove(from) {
            self.files.insert(to.into(), data);
        } else {
            self.dirs.remove(from);
            self.dirs.insert(to.into());
            let sub_dirs: Vec<String> = self
                .dirs
                .iter()
                .filter(|d| is_under(d, from))
                .cloned()
                .collect();
            for d in sub_dirs {
                self.dirs.remove(&d);
                self.dirs.insert(format!("{to}{}", &d[from.len()..]));
            }
            let sub_files: Vec<String> = self
                .files
                .keys()
                .filter(|f| is_under(f, from))
                .cloned()
                .collect();
            for f in sub_files {
                let data = self.files.remove(&f).unwrap();
                self.files.insert(format!("{to}{}", &f[from.len()..]), data);
            }
        }
        Ok(())
    }

    /// Immediate children as (name, is_dir) pairs.
    pub fn children(&self, dir: &str) -> Vec<(String, bool)> {
        let files = self
            .files
            .keys()
            .filter(|p| parent(p).as_deref() == Some(dir))
            .map(|p| (basename(p).to_string(), false));
        let dirs = self
            .dirs
            .iter()
            .filter(|d| **d != "/" && parent(d).as_deref() == Some(dir))
            .map(|d| (basename(d).to_string(), true));
        let mut v: Vec<(String, bool)> = files.chain(dirs).collect();
        v.sort();
        v
    }

    /// Documented list semantics: only directories list.
    pub fn listing(&self, dir: &str) -> Result<BTreeSet<(String, bool)>, ()> {
        if !self.is_dir(dir) {
            return Err(());
        }
        Ok(self.children(dir).into_iter().collect())
    }

    /// Absorb a file the cluster committed but the oracle never recorded
    /// (possible for a write that timed out client side yet committed). The
    /// bytes are content-hash verified by the cluster on read, so adopting
    /// them is safe.
    pub fn adopt_file(&mut self, p: &str, data: &[u8]) {
        self.files.insert(p.into(), data.to_vec());
    }

    /// Absorb a directory the cluster committed but the oracle never
    /// recorded, creating any missing ancestors as directories.
    pub fn adopt_dir(&mut self, p: &str) {
        if self.is_dir(p) {
            return;
        }
        self.dirs.insert(p.into());
        let mut cur = p.to_string();
        while let Some(par) = parent(&cur) {
            if self.is_dir(&par) {
                break;
            }
            self.dirs.insert(par.clone());
            cur = par;
        }
    }
}
