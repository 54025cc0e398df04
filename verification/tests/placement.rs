use crabmap::hexfmt::hex_pad2;
use crabmap::keypath::{hash_key_into_path, replica_urls};
use crabmap::placement::{hash_key_volume, select_volumes_by_key};

fn volumes(names: &[&str]) -> Vec<String> {
    names.iter().map(|s| s.to_string()).collect()
}

fn three() -> Vec<String> {
    volumes(&["localhost:3001", "localhost:3002", "localhost:3003"])
}

#[test]
fn md5_of_key_and_volume() {
    let h = hash_key_volume(b"key", "vol");
    assert_eq!(
        h,
        [0x69, 0xf2, 0x87, 0x50, 0x66, 0x25, 0xd1, 0xbd, 0xfe, 0xdb, 0x8e, 0xa4, 0x65, 0x29, 0x92, 0x33]
    );
}

#[test]
fn key_path_of_hello() {
    assert_eq!(hash_key_into_path(b"hello"), "5D/41/aGVsbG8=");
}

#[test]
fn key_path_of_empty_key() {
    assert_eq!(hash_key_into_path(b""), "D4/1D/");
}

#[test]
fn key_path_of_non_ascii_key() {
    assert_eq!(hash_key_into_path("ключ".as_bytes()), "C3/65/0LrQu9GO0Yc=");
}

#[test]
fn hex_padding() {
    assert_eq!(hex_pad2(0), "00");
    assert_eq!(hex_pad2(5), "05");
    assert_eq!(hex_pad2(15), "0F");
    assert_eq!(hex_pad2(16), "10");
    assert_eq!(hex_pad2(255), "FF");
    assert_eq!(hex_pad2(0x12A), "12A");
    assert_eq!(hex_pad2(0xABCDEF), "ABCDEF");
    assert_eq!(hex_pad2(u32::MAX), "FFFFFFFF");
}

#[test]
fn selection_without_subvolumes() {
    assert_eq!(
        select_volumes_by_key("hello", &three(), 3, 1),
        volumes(&["localhost:3001", "localhost:3003", "localhost:3002"])
    );
    assert_eq!(
        select_volumes_by_key("user/42", &three(), 3, 1),
        volumes(&["localhost:3001", "localhost:3002", "localhost:3003"])
    );
    assert_eq!(
        select_volumes_by_key("a", &three(), 2, 1),
        volumes(&["localhost:3002", "localhost:3003"])
    );
}

#[test]
fn selection_with_subvolumes() {
    assert_eq!(
        select_volumes_by_key("hello", &three(), 3, 5),
        volumes(&["localhost:3001/sv03", "localhost:3003/sv03", "localhost:3002/sv01"])
    );
    assert_eq!(
        select_volumes_by_key("a", &three(), 3, 5),
        volumes(&["localhost:3002/sv03", "localhost:3003/sv00", "localhost:3001/sv04"])
    );
    assert_eq!(
        select_volumes_by_key("hello", &three(), 3, 300),
        volumes(&["localhost:3001/sv12A", "localhost:3003/svE4", "localhost:3002/sv88"])
    );
}

#[test]
fn selection_of_no_replicas_is_empty() {
    assert!(select_volumes_by_key("hello", &three(), 0, 5).is_empty());
    assert!(select_volumes_by_key("hello", &[], 0, 1).is_empty());
}

#[test]
fn fewer_replicas_give_a_prefix() {
    let all = select_volumes_by_key("hello", &three(), 3, 5);
    for n in 0..=3 {
        assert_eq!(select_volumes_by_key("hello", &three(), n, 5), all[..n].to_vec());
    }
}

#[test]
fn selection_is_deterministic() {
    assert_eq!(
        select_volumes_by_key("user/42", &three(), 2, 5),
        select_volumes_by_key("user/42", &three(), 2, 5)
    );
}

#[test]
fn replicas_are_on_distinct_volumes() {
    let chosen = select_volumes_by_key("a", &three(), 3, 1);
    for i in 0..chosen.len() {
        assert!(three().contains(&chosen[i]));
        for j in 0..i {
            assert_ne!(chosen[i], chosen[j]);
        }
    }
    for name in select_volumes_by_key("a", &three(), 3, 7) {
        let (volume, sub) = name.split_once("/sv").unwrap();
        assert!(three().contains(&volume.to_string()));
        assert!(u32::from_str_radix(sub, 16).unwrap() < 7);
    }
}

#[test]
fn adding_a_volume_keeps_the_others_in_order() {
    let before = select_volumes_by_key("hello", &three(), 3, 1);
    let mut four = three();
    four.push("localhost:3004".to_string());
    let after = select_volumes_by_key("hello", &four, 4, 1);
    assert_eq!(
        after,
        volumes(&["localhost:3004", "localhost:3001", "localhost:3003", "localhost:3002"])
    );
    let without_new: Vec<String> = after.into_iter().filter(|v| v != "localhost:3004").collect();
    assert_eq!(without_new, before);
}

#[test]
fn equal_scores_keep_configuration_order() {
    assert_eq!(
        select_volumes_by_key("k", &volumes(&["a", "a"]), 2, 7),
        volumes(&["a/sv04", "a/sv04"])
    );
}

#[test]
fn urls_of_replicas() {
    let urls = replica_urls(&volumes(&["localhost:3001", "localhost:3002"]), "hello");
    assert_eq!(
        urls,
        volumes(&["http://localhost:3001/5D/41/aGVsbG8=", "http://localhost:3002/5D/41/aGVsbG8="])
    );
    assert!(replica_urls(&Vec::new(), "hello").is_empty());
}

#[test]
fn distinct_keys_have_distinct_paths() {
    let keys: [&[u8]; 6] = [b"", b"a", b"b", b"ab", b"abc", b"abcd"];
    for i in 0..keys.len() {
        for j in 0..keys.len() {
            assert_eq!(i == j, hash_key_into_path(keys[i]) == hash_key_into_path(keys[j]));
        }
    }
    assert_eq!(hash_key_into_path(b"ab"), "18/7E/YWI=");
}

#[test]
fn zero_replicas_with_any_subvolume_count() {
    assert!(select_volumes_by_key("k", &[], 0, 1usize << 32).is_empty());
    assert!(select_volumes_by_key("k", &three(), 0, 1usize << 32).is_empty());
}

#[test]
fn listing_order_does_not_matter() {
    let orders = [[0usize, 1, 2], [0, 2, 1], [1, 0, 2], [1, 2, 0], [2, 0, 1], [2, 1, 0]];
    for key in ["hello", "user/42", "a"] {
        let expected = select_volumes_by_key(key, &three(), 3, 5);
        for order in orders.iter() {
            let listed: Vec<String> = order.iter().map(|&i| three()[i].clone()).collect();
            assert_eq!(select_volumes_by_key(key, &listed, 3, 5), expected);
        }
    }
}
