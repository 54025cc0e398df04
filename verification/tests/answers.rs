use crabmap::record::{Deleted, Record, SysError};
use crabmap::reply::Reply;

fn pairs(items: &[(&str, &str)]) -> Vec<(String, String)> {
    items.iter().map(|(a, b)| (a.to_string(), b.to_string())).collect()
}

#[test]
fn deletion_states() {
    assert_eq!(Deleted::no(), Deleted(0));
    assert_eq!(Deleted::soft(), Deleted(1));
    assert_eq!(Deleted::hard(), Deleted(2));
    let rec = |d| Record { replica_volumes: Vec::new(), deleted: d, content_hash: String::new() };
    assert!(rec(Deleted::no()).is_live() && !rec(Deleted::no()).is_hidden());
    assert!(rec(Deleted::soft()).is_hidden() && !rec(Deleted::soft()).is_live());
    assert!(rec(Deleted::hard()).is_hidden() && !rec(Deleted::hard()).is_live());
    assert!(!rec(Deleted(3)).is_hidden() && !rec(Deleted(3)).is_live());
}

#[test]
fn error_texts() {
    let m = || "boom".to_string();
    assert_eq!(SysError::Transaction(m()).describe(), "transaction error: boom");
    assert_eq!(SysError::Table(m()).describe(), "table error: boom");
    assert_eq!(SysError::Storage(m()).describe(), "storage error: boom");
    assert_eq!(SysError::Commit(m()).describe(), "commit error: boom");
    assert_eq!(SysError::Json(m()).describe(), "JSON error: boom");
    assert_eq!(SysError::Reqwest(m()).describe(), "HTTP error: boom");
    assert_eq!(SysError::Axum(m()).describe(), "Axum error: boom");
    assert_eq!(SysError::NotFound.describe(), "not found");
    assert_eq!(SysError::RecordNotFound.describe(), "record not found");
    assert_eq!(SysError::Internal.describe(), "internal server error");
}

#[test]
fn error_answers() {
    assert_eq!(SysError::NotFound.status(), 404);
    assert_eq!(SysError::RecordNotFound.status(), 404);
    assert_eq!(SysError::Internal.status(), 500);
    assert_eq!(SysError::Json("x".to_string()).status(), 500);
    assert_eq!(SysError::NotFound.error_message(), "not found");
    assert_eq!(SysError::RecordNotFound.error_message(), "record not found");
    assert_eq!(SysError::Internal.error_message(), "internal server error");
    assert_eq!(SysError::Table("x".to_string()).error_message(), "internal server error");
    let r = Reply::Failed(SysError::RecordNotFound);
    assert_eq!(r.status(), 404);
    assert_eq!(r.body(), Some(pairs(&[("error", "record not found")])));
    let r = Reply::Failed(SysError::Axum("x".to_string()));
    assert_eq!(r.status(), 500);
    assert_eq!(r.body(), Some(pairs(&[("error", "internal server error")])));
    assert!(r.headers().is_empty());
}

#[test]
fn found_answer_redirects() {
    let r = Reply::Found { location: "http://v/5D/41/aGVsbG8=".to_string(), key_volumes: "v,w".to_string() };
    assert_eq!(r.status(), 302);
    assert_eq!(
        r.headers(),
        pairs(&[("location", "http://v/5D/41/aGVsbG8="), ("key-volumes", "v,w"), ("key-balance", "balanced")])
    );
    assert_eq!(r.body(), Some(Vec::new()));
}

#[test]
fn plain_answers() {
    let cases: Vec<(Reply, u16, Option<Vec<(String, String)>>)> = vec![
        (
            Reply::NoSuchRecord,
            404,
            Some(pairs(&[("status", "Not found"), ("message", "No such record in DB")])),
        ),
        (Reply::LengthRequired, 411, Some(pairs(&[("error", "Content-Length is required")]))),
        (Reply::ExistingKey, 403, Some(pairs(&[("error", "PUTting into an existing key")]))),
        (Reply::Created, 201, Some(pairs(&[("status", "Success")]))),
        (Reply::AlreadyDeleted, 404, None),
        (Reply::Removed, 204, None),
        (Reply::KeyBusy, 409, Some(pairs(&[("error", "The key is being used")]))),
        (Reply::MethodNotAllowed, 405, Some(pairs(&[("error", "Method not allowed")]))),
    ];
    for (reply, status, body) in cases {
        assert_eq!(reply.status(), status);
        assert_eq!(reply.body(), body);
        assert!(reply.headers().is_empty());
    }
}
