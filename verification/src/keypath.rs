//! Where a key's blob lives on a volume server: `XX/YY/<base64 of key>`,
//! with `XX` and `YY` the first two bytes of the key's MD5 in hexadecimal.

use crate::base64_laws::lemma_base64_injective;
use crate::hashing::{base64_encode, base64_standard, md5_digest, md5_of};
use crate::hexfmt::{
    hex_pad2, hex_text_value, hex_upper_pad2, is_hex_char, lemma_byte_pad2_len,
    lemma_hex_pad2_reads_back,
};
use crate::placement::names;
use vstd::prelude::*;

verus! {

/// The path of the blob of `key` on every volume that holds it.
pub open spec fn key_path(key: Seq<u8>) -> Seq<char> {
    let h = md5_of(key);
    hex_upper_pad2(h[0] as nat) + seq!['/'] + hex_upper_pad2(h[1] as nat) + seq!['/']
        + base64_standard(key)
}

/// The URL of the blob of `key` (given as text) on `volume`.
pub open spec fn replica_url(volume: Seq<char>, key: Seq<char>) -> Seq<char> {
    seq!['h', 't', 't', 'p', ':', '/', '/'] + volume + seq!['/'] + key_path(
        vstd::utf8::encode_utf8(key),
    )
}

/// Law: every blob path is two directories of two hexadecimal digits each,
/// then the base64 text of the key.
pub proof fn lemma_key_path_shape(key: Seq<u8>)
    ensures
        key_path(key).len() == 6 + base64_standard(key).len(),
        key_path(key)[2] == '/',
        key_path(key)[5] == '/',
        key_path(key).subrange(0, 2) == hex_upper_pad2(md5_of(key)[0] as nat),
        key_path(key).subrange(3, 5) == hex_upper_pad2(md5_of(key)[1] as nat),
        key_path(key).skip(6) == base64_standard(key),
{
    let h = md5_of(key);
    lemma_byte_pad2_len(h[0] as nat);
    lemma_byte_pad2_len(h[1] as nat);
    let path = key_path(key);
    assert(path.subrange(0, 2) =~= hex_upper_pad2(h[0] as nat));
    assert(path.subrange(3, 5) =~= hex_upper_pad2(h[1] as nat));
    assert(path.skip(6) =~= base64_standard(key));
}

/// Law: the two directories of a blob path are hexadecimal digits that read
/// back, in base 16, as the first two bytes of the key's MD5.
pub proof fn lemma_key_path_reads_back(key: Seq<u8>)
    ensures
        hex_text_value(key_path(key).subrange(0, 2)) == md5_of(key)[0],
        hex_text_value(key_path(key).subrange(3, 5)) == md5_of(key)[1],
        forall|i: int| 0 <= i < 2 ==> is_hex_char(#[trigger] key_path(key)[i]),
        forall|i: int| 3 <= i < 5 ==> is_hex_char(#[trigger] key_path(key)[i]),
{
    let h = md5_of(key);
    lemma_key_path_shape(key);
    lemma_hex_pad2_reads_back(h[0] as nat);
    lemma_hex_pad2_reads_back(h[1] as nat);
    let p = key_path(key);
    assert forall|i: int| 0 <= i < 2 implies is_hex_char(#[trigger] p[i]) by {
        assert(p[i] == p.subrange(0, 2)[i]);
    }
    assert forall|i: int| 3 <= i < 5 implies is_hex_char(#[trigger] p[i]) by {
        assert(p[i] == p.subrange(3, 5)[i - 3]);
    }
}

/// Law: distinct keys have distinct blob paths.
pub proof fn lemma_distinct_keys_distinct_paths(k1: Seq<u8>, k2: Seq<u8>)
    requires
        k1 != k2,
    ensures
        key_path(k1) != key_path(k2),
{
    lemma_key_path_shape(k1);
    lemma_key_path_shape(k2);
    if key_path(k1) == key_path(k2) {
        lemma_base64_injective(k1, k2);
    }
}

/// Computes `key_path(key)`.
pub fn hash_key_into_path(key: &[u8]) -> (path: String)
    ensures
        path@ == key_path(key@),
        path@.len() == 6 + base64_standard(key@).len(),
        hex_text_value(path@.subrange(0, 2)) == md5_of(key@)[0],
        path@[2] == '/',
        hex_text_value(path@.subrange(3, 5)) == md5_of(key@)[1],
        path@[5] == '/',
        path@.skip(6) == base64_standard(key@),
{
    proof {
        lemma_key_path_shape(key@);
        lemma_key_path_reads_back(key@);
    }
    let mkey = md5_digest(key);
    let b64key = base64_encode(key);
    let mut path = hex_pad2(mkey[0] as u32);
    proof {
        reveal_strlit("/");
    }
    path.append("/");
    let second = hex_pad2(mkey[1] as u32);
    path.append(second.as_str());
    path.append("/");
    path.append(b64key.as_str());
    assert(path@ =~= key_path(key@));
    path
}

/// The URLs of the blob of `key` on each of `volumes`, in the same order.
pub fn replica_urls(volumes: &Vec<String>, key: &str) -> (urls: Vec<String>)
    ensures
        names(urls@) == names(volumes@).map_values(|v: Seq<char>| replica_url(v, key@)),
{
    let path = hash_key_into_path(key.as_bytes());
    let mut urls: Vec<String> = Vec::new();
    let mut i: usize = 0;
    while i < volumes.len()
        invariant
            i <= volumes@.len(),
            path@ == key_path(vstd::utf8::encode_utf8(key@)),
            urls@.len() == i,
            forall|j: int| 0 <= j < i ==> (#[trigger] urls@[j])@ == replica_url(volumes@[j]@, key@),
        decreases volumes@.len() - i,
    {
        proof {
            reveal_strlit("http://");
            reveal_strlit("/");
        }
        let mut url = String::from_str("http://");
        url.append(volumes[i].as_str());
        url.append("/");
        url.append(path.as_str());
        assert(url@ =~= replica_url(volumes@[i as int]@, key@));
        urls.push(url);
        i = i + 1;
    }
    assert(names(urls@) =~= names(volumes@).map_values(|v: Seq<char>| replica_url(v, key@)));
    urls
}

} // verus!
