use crabmap::record::{Deleted, Record, SysError};
use crabmap::reply::Reply;
use crabmap::requests::{
    delete_after_lookup, delete_after_removal, dispatch_finish, dispatch_start, get_after_lookup,
    get_after_probe, join_commas, probe_answer, probe_start, put_after_lookup, put_start,
    remove_after_blob, remove_start, route, shuffled_replicas, write_after_commit,
    write_after_pending, write_after_upload, DeleteAction, Dispatch, GetAction, KeyLocks, Probe,
    PutAction, RemoveStep, Route, WriteStep,
};

fn texts(names: &[&str]) -> Vec<String> {
    names.iter().map(|s| s.to_string()).collect()
}

fn record(deleted: Deleted) -> Record {
    Record {
        replica_volumes: texts(&["localhost:3001", "localhost:3002"]),
        deleted,
        content_hash: String::new(),
    }
}

fn sorted(mut v: Vec<String>) -> Vec<String> {
    v.sort();
    v
}

#[test]
fn routes_by_method() {
    assert_eq!(route("GET"), Route::Get);
    assert_eq!(route("PUT"), Route::Put);
    assert_eq!(route("DELETE"), Route::Delete);
    assert_eq!(route("POST"), Route::NotAllowed);
    assert_eq!(route("get"), Route::NotAllowed);
    assert!(Route::Put.locks_key() && Route::Delete.locks_key());
    assert!(!Route::Get.locks_key() && !Route::NotAllowed.locks_key());
}

#[test]
fn key_locks_exclude_a_second_writer() {
    let mut locks = KeyLocks::new();
    assert!(!locks.is_held("k"));
    assert!(locks.try_lock("k"));
    assert!(locks.is_held("k"));
    assert!(!locks.try_lock("k"));
    assert!(locks.try_lock("other"));
    locks.unlock("k");
    assert!(!locks.is_held("k"));
    assert!(locks.is_held("other"));
    assert!(locks.try_lock("k"));
}

#[test]
fn dispatch_takes_and_releases_the_key() {
    let mut locks = KeyLocks::new();
    assert!(matches!(dispatch_start("PUT", "k", &mut locks), Dispatch::Handle(Route::Put)));
    assert!(matches!(dispatch_start("DELETE", "k", &mut locks), Dispatch::Respond(Reply::KeyBusy)));
    assert!(matches!(dispatch_start("GET", "k", &mut locks), Dispatch::Handle(Route::Get)));
    assert!(matches!(
        dispatch_start("PATCH", "k", &mut locks),
        Dispatch::Respond(Reply::MethodNotAllowed)
    ));
    dispatch_finish(Route::Get, "k", &mut locks);
    assert!(locks.is_held("k"));
    dispatch_finish(Route::Put, "k", &mut locks);
    assert!(!locks.is_held("k"));
    assert!(matches!(dispatch_start("DELETE", "k", &mut locks), Dispatch::Handle(Route::Delete)));
}

#[test]
fn get_of_failed_lookup_answers_the_error() {
    match get_after_lookup(Err(SysError::RecordNotFound), "k") {
        GetAction::Respond(Reply::Failed(SysError::RecordNotFound)) => {}
        other => panic!("unexpected {:?}", other),
    }
}

#[test]
fn get_of_deleted_key_reads_as_absent() {
    assert!(matches!(
        get_after_lookup(Ok(record(Deleted::soft())), "k"),
        GetAction::Respond(Reply::NoSuchRecord)
    ));
    assert!(matches!(
        get_after_lookup(Ok(record(Deleted::hard())), "k"),
        GetAction::Respond(Reply::NoSuchRecord)
    ));
}

#[test]
fn get_of_live_key_probes_every_replica() {
    match get_after_lookup(Ok(record(Deleted::no())), "hello") {
        GetAction::Probe { urls, key_volumes } => {
            assert_eq!(key_volumes, "localhost:3001,localhost:3002");
            assert_eq!(
                sorted(urls),
                texts(&["http://localhost:3001/5D/41/aGVsbG8=", "http://localhost:3002/5D/41/aGVsbG8="])
            );
        }
        other => panic!("unexpected {:?}", other),
    }
    // A deletion state other than 0, 1 and 2 is not hidden.
    assert!(matches!(get_after_lookup(Ok(record(Deleted(7))), "hello"), GetAction::Probe { .. }));
}

#[test]
fn shuffle_keeps_the_replicas() {
    let rec = Record {
        replica_volumes: texts(&["a", "b", "c", "d", "e"]),
        deleted: Deleted::no(),
        content_hash: String::new(),
    };
    for _ in 0..10 {
        assert_eq!(sorted(shuffled_replicas(&rec)), texts(&["a", "b", "c", "d", "e"]));
    }
}

#[test]
fn probing_stops_at_the_first_holder() {
    let urls = texts(&["u0", "u1", "u2"]);
    assert!(matches!(probe_start(&urls), Probe::Ask(0)));
    assert!(matches!(probe_start(&Vec::new()), Probe::Stop(None)));
    assert!(matches!(probe_answer(&urls, 0, false), Probe::Ask(1)));
    match probe_answer(&urls, 1, true) {
        Probe::Stop(Some(u)) => assert_eq!(u, "u1"),
        other => panic!("unexpected {:?}", other),
    }
    assert!(matches!(probe_answer(&urls, 2, false), Probe::Stop(None)));
}

#[test]
fn get_answers_after_probing() {
    match get_after_probe(Some("http://v/p".to_string()), "v,w".to_string()) {
        Reply::Found { location, key_volumes } => {
            assert_eq!(location, "http://v/p");
            assert_eq!(key_volumes, "v,w");
        }
        other => panic!("unexpected {:?}", other),
    }
    assert!(matches!(get_after_probe(None, "v".to_string()), Reply::NoSuchRecord));
}

#[test]
fn put_needs_a_body() {
    assert!(matches!(put_start(Some(0)), PutAction::Respond(Reply::LengthRequired)));
    assert!(matches!(put_start(Some(12)), PutAction::LookUp));
    assert!(matches!(put_start(None), PutAction::LookUp));
}

#[test]
fn put_does_not_overwrite_a_live_key() {
    assert!(matches!(
        put_after_lookup(Ok(record(Deleted::no()))),
        PutAction::Respond(Reply::ExistingKey)
    ));
    assert!(matches!(put_after_lookup(Ok(record(Deleted::soft()))), PutAction::Write));
    assert!(matches!(put_after_lookup(Ok(record(Deleted::hard()))), PutAction::Write));
    assert!(matches!(put_after_lookup(Err(SysError::RecordNotFound)), PutAction::Write));
    assert!(matches!(
        put_after_lookup(Err(SysError::Storage("disk".to_string()))),
        PutAction::Respond(Reply::Failed(SysError::Storage(_)))
    ));
}

#[test]
fn write_steps() {
    assert!(matches!(write_after_pending(Ok(())), WriteStep::Upload));
    assert!(matches!(
        write_after_pending(Err(SysError::Commit("c".to_string()))),
        WriteStep::Respond(Reply::Failed(SysError::Commit(_)))
    ));
    // A failed upload is not looked at: the key is recorded live anyway.
    assert!(matches!(write_after_upload(Ok(())), WriteStep::StoreCommitted));
    assert!(matches!(write_after_upload(Err(SysError::Internal)), WriteStep::StoreCommitted));
    assert!(matches!(write_after_commit(Ok(())), Reply::Created));
    assert!(matches!(write_after_commit(Err(SysError::Storage("s".to_string()))), Reply::Created));
}

#[test]
fn remove_steps() {
    let urls = texts(&["u0", "u1"]);
    assert!(matches!(remove_start(&urls), RemoveStep::DeleteBlob(0)));
    assert!(matches!(remove_start(&Vec::new()), RemoveStep::DeleteRecord));
    assert!(matches!(remove_after_blob(&urls, 0, Ok(())), RemoveStep::DeleteBlob(1)));
    assert!(matches!(remove_after_blob(&urls, 1, Ok(())), RemoveStep::DeleteRecord));
    assert!(matches!(
        remove_after_blob(&urls, 0, Err(SysError::Reqwest("refused".to_string()))),
        RemoveStep::Respond(Reply::Failed(SysError::Reqwest(_)))
    ));
}

#[test]
fn probe_runs_ask_in_order_until_a_holder() {
    let urls = texts(&["u0", "u1", "u2", "u3"]);
    for holder in 0..5usize {
        let mut asked = Vec::new();
        let mut step = probe_start(&urls);
        let found = loop {
            match step {
                Probe::Ask(i) => {
                    asked.push(i);
                    step = probe_answer(&urls, i, i == holder);
                }
                Probe::Stop(found) => break found,
            }
        };
        let last = holder.min(3);
        assert_eq!(asked, (0..=last).collect::<Vec<usize>>());
        assert_eq!(found, if holder < 4 { Some(urls[holder].clone()) } else { None });
    }
}

#[test]
fn delete_decisions() {
    assert!(matches!(
        delete_after_lookup(Err(SysError::RecordNotFound), "k"),
        DeleteAction::Respond(Reply::Failed(SysError::RecordNotFound))
    ));
    assert!(matches!(
        delete_after_lookup(Err(SysError::Internal), "k"),
        DeleteAction::Respond(Reply::Failed(SysError::Internal))
    ));
    assert!(matches!(
        delete_after_lookup(Ok(record(Deleted::soft())), "k"),
        DeleteAction::Respond(Reply::AlreadyDeleted)
    ));
    match delete_after_lookup(Ok(record(Deleted::no())), "hello") {
        DeleteAction::Remove { urls } => assert_eq!(
            urls,
            texts(&["http://localhost:3001/5D/41/aGVsbG8=", "http://localhost:3002/5D/41/aGVsbG8="])
        ),
        other => panic!("unexpected {:?}", other),
    }
    assert!(matches!(delete_after_removal(Ok(())), Reply::Removed));
    assert!(matches!(
        delete_after_removal(Err(SysError::Reqwest("refused".to_string()))),
        Reply::Failed(SysError::Reqwest(_))
    ));
}

#[test]
fn join_with_commas() {
    assert_eq!(join_commas(&Vec::new()), "");
    assert_eq!(join_commas(&texts(&["a"])), "a");
    assert_eq!(join_commas(&texts(&["a", "", "c"])), "a,,c");
}

#[test]
fn a_held_key_stays_refused_until_its_writer_finishes() {
    let mut locks = KeyLocks::new();
    assert!(matches!(dispatch_start("PUT", "k", &mut locks), Dispatch::Handle(Route::Put)));
    // Other requests come and go meanwhile.
    assert!(matches!(dispatch_start("GET", "k", &mut locks), Dispatch::Handle(Route::Get)));
    dispatch_finish(Route::Get, "k", &mut locks);
    assert!(matches!(dispatch_start("DELETE", "j", &mut locks), Dispatch::Handle(Route::Delete)));
    dispatch_finish(Route::Delete, "j", &mut locks);
    assert!(matches!(dispatch_start("POST", "k", &mut locks), Dispatch::Respond(Reply::MethodNotAllowed)));
    assert!(matches!(dispatch_start("DELETE", "k", &mut locks), Dispatch::Respond(Reply::KeyBusy)));
    assert!(matches!(dispatch_start("PUT", "k", &mut locks), Dispatch::Respond(Reply::KeyBusy)));
    dispatch_finish(Route::Put, "k", &mut locks);
    assert!(matches!(dispatch_start("DELETE", "k", &mut locks), Dispatch::Handle(Route::Delete)));
}
