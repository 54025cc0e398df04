use crabmap::record::Deleted;
use crabmap::requests::{get_after_lookup, GetAction};
use crabmap::settings::{check_settings, split_volumes, App, SettingsError};

fn texts(names: &[&str]) -> Vec<String> {
    names.iter().map(|s| s.to_string()).collect()
}

fn app(volumes: Vec<String>, nreplicas: usize, nsub: usize) -> App {
    let db = redb::Database::builder()
        .create_with_backend(redb::backends::InMemoryBackend::new())
        .unwrap();
    App { volumes, nsub, nreplicas, voltimeout: 1000, db }
}

#[test]
fn splits_volume_lists() {
    assert_eq!(split_volumes("a,b"), texts(&["a", "b"]));
    assert_eq!(split_volumes("localhost:3001"), texts(&["localhost:3001"]));
    assert_eq!(split_volumes(""), texts(&[""]));
    assert_eq!(split_volumes("a,,"), texts(&["a", "", ""]));
    assert_eq!(split_volumes(",x"), texts(&["", "x"]));
    assert_eq!(split_volumes("é,ü"), texts(&["é", "ü"]));
}

#[test]
fn settings_checks() {
    assert_eq!(check_settings(0, 1), Err(SettingsError::NoVolumes));
    assert_eq!(check_settings(3, 0), Err(SettingsError::NoReplicas));
    assert_eq!(check_settings(2, 3), Err(SettingsError::TooFewVolumes { nreplicas: 3, volumes: 2 }));
    assert_eq!(check_settings(3, 3), Ok(()));
    assert_eq!(check_settings(5, 1), Ok(()));
}

#[test]
fn write_plan_records_the_selected_volumes() {
    let a = app(texts(&["localhost:3001", "localhost:3002", "localhost:3003"]), 2, 5);
    let plan = a.replica_write_plan("hello");
    assert_eq!(plan.volumes, texts(&["localhost:3001/sv03", "localhost:3003/sv03"]));
    assert_eq!(
        plan.urls,
        texts(&[
            "http://localhost:3001/sv03/5D/41/aGVsbG8=",
            "http://localhost:3003/sv03/5D/41/aGVsbG8="
        ])
    );
    assert_eq!(plan.pending.replica_volumes, plan.volumes);
    assert_eq!(plan.pending.deleted, Deleted::soft());
    assert_eq!(plan.pending.content_hash, "");
    assert_eq!(plan.committed.replica_volumes, plan.volumes);
    assert_eq!(plan.committed.deleted, Deleted::no());
    assert_eq!(plan.committed.content_hash, "");
}

#[test]
fn write_states_read_as_the_law_says() {
    let a = app(texts(&["v1", "v2"]), 1, 1);
    let plan = a.replica_write_plan("k");
    assert!(plan.pending.is_hidden() && !plan.pending.is_live());
    assert!(plan.committed.is_live() && !plan.committed.is_hidden());
}

#[test]
fn get_probes_where_put_wrote() {
    let a = app(texts(&["localhost:3001", "localhost:3002", "localhost:3003"]), 3, 5);
    let plan = a.replica_write_plan("user/42");
    let mut written = plan.urls.clone();
    written.sort();
    match get_after_lookup(Ok(plan.committed), "user/42") {
        GetAction::Probe { mut urls, key_volumes } => {
            urls.sort();
            assert_eq!(urls, written);
            assert_eq!(key_volumes, plan.volumes.join(","));
        }
        other => panic!("unexpected {:?}", other),
    }
    assert!(matches!(
        get_after_lookup(Ok(plan.pending), "user/42"),
        GetAction::Respond(crabmap::reply::Reply::NoSuchRecord)
    ));
}

#[test]
fn write_plan_with_zero_replicas() {
    let a = app(Vec::new(), 0, 1usize << 32);
    let plan = a.replica_write_plan("k");
    assert!(plan.volumes.is_empty() && plan.urls.is_empty());
    assert!(plan.pending.replica_volumes.is_empty() && plan.pending.is_hidden());
    assert!(plan.committed.replica_volumes.is_empty() && plan.committed.is_live());
}
