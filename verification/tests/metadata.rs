//! The metadata node.

use archipelago::message::{code, Message, MetaOp, MetaResult, Query, QueryResult};
use archipelago::metadata::{normalize, MetaNode};
use archipelago::{sha256, Manifest, NodeId};

fn m() -> Manifest {
    Manifest {
        size: 3,
        content_hash: sha256(b"abc"),
        chunks: vec![sha256(b"abc")],
        erasure: None,
    }
}

fn node() -> MetaNode {
    let mut n = MetaNode::new(0, 1, vec![0], 3);
    n.set_role(true, vec![0]);
    n
}

#[test]
fn normalize_rules() {
    assert_eq!(normalize("/"), Some("/".into()));
    assert_eq!(normalize("/a/b"), Some("/a/b".into()));
    assert_eq!(normalize("a/b"), None);
    assert_eq!(normalize("/a/"), None);
    assert_eq!(normalize("/a//b"), None);
    assert_eq!(normalize("/a/../b"), None);
}

#[test]
fn mkdir_list_delete() {
    let mut n = node();
    assert!(matches!(
        n.handle(NodeId::Client, Message::MetaOpMsg { req_id: 1, op: MetaOp::Mkdir { path: "/d".into() } })[0].2,
        Message::MetaCommitted { result: MetaResult::Committed, .. }
    ));
    // Mkdir with missing parent fails.
    let r = n.handle(NodeId::Client, Message::MetaOpMsg { req_id: 2, op: MetaOp::Mkdir { path: "/x/y".into() } });
    assert!(matches!(r[0].2, Message::MetaCommitted { result: MetaResult::Rejected(code::NOT_FOUND), .. }));
    // Put a file under /d.
    n.handle(NodeId::Client, Message::MetaOpMsg { req_id: 3, op: MetaOp::Put { path: "/d/f".into(), manifest: m() } });
    let resp = &n.handle(NodeId::Client, Message::MetaQueryMsg { req_id: 4, q: Query::List { path: "/d".into() } })[0].2;
    if let Message::MetaQueryResp { result: QueryResult::Listing(entries), .. } = resp {
        assert_eq!(entries.len(), 1);
        assert_eq!(entries[0].name, "f");
    } else {
        panic!("expected listing");
    }
}

#[test]
fn delete_non_empty_dir_rejected() {
    let mut n = node();
    n.handle(NodeId::Client, Message::MetaOpMsg { req_id: 1, op: MetaOp::Mkdir { path: "/d".into() } });
    n.handle(NodeId::Client, Message::MetaOpMsg { req_id: 2, op: MetaOp::Put { path: "/d/f".into(), manifest: m() } });
    let r = n.handle(NodeId::Client, Message::MetaOpMsg { req_id: 3, op: MetaOp::Delete { path: "/d".into() } });
    assert!(matches!(r[0].2, Message::MetaCommitted { result: MetaResult::Rejected(code::NOT_EMPTY), .. }));
}

#[test]
fn rename_subtree() {
    let mut n = node();
    n.handle(NodeId::Client, Message::MetaOpMsg { req_id: 1, op: MetaOp::Mkdir { path: "/a".into() } });
    n.handle(NodeId::Client, Message::MetaOpMsg { req_id: 2, op: MetaOp::Put { path: "/a/f".into(), manifest: m() } });
    let r = n.handle(NodeId::Client, Message::MetaOpMsg { req_id: 3, op: MetaOp::Rename { from: "/a".into(), to: "/b".into() } });
    assert!(matches!(r[0].2, Message::MetaCommitted { result: MetaResult::Committed, .. }));
    assert!(n.manifest("/b/f").is_some());
    assert!(n.manifest("/a/f").is_none());
}

#[test]
fn rename_into_descendant_rejected() {
    let mut n = node();
    n.handle(NodeId::Client, Message::MetaOpMsg { req_id: 1, op: MetaOp::Mkdir { path: "/a".into() } });
    let r = n.handle(NodeId::Client, Message::MetaOpMsg { req_id: 2, op: MetaOp::Rename { from: "/a".into(), to: "/a/b".into() } });
    assert!(matches!(r[0].2, Message::MetaCommitted { result: MetaResult::Rejected(code::INVALID_PATH), .. }));
}
