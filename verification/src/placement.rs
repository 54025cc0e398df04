//! Which volume servers hold a key.
//!
//! Every volume gets a score, the MD5 digest of the key's bytes followed by
//! the volume's name. Volumes are ranked by score, byte-wise; two volumes
//! with equal scores keep the order in which they were configured. The key
//! goes to the first `nreplicas` volumes of that ranking; with more than one
//! subvolume per server, the last four bytes of the score pick the
//! subvolume.

use crate::hashing::{md5_digest, md5_of};
use crate::hexfmt::{hex_pad2, hex_upper_pad2};
use vstd::prelude::*;
use vstd::relations::{sorted_by, total_ordering};
use vstd::seq_lib::lemma_sorted_unique;
use vstd::utf8::encode_utf8;

verus! {

/// Byte-wise lexicographic order, the order of `Ord` on byte arrays: a
/// proper prefix comes first.
pub open spec fn lex_less(a: Seq<u8>, b: Seq<u8>) -> bool
    decreases a.len(),
{
    if a.len() == 0 {
        b.len() > 0
    } else if b.len() == 0 {
        false
    } else if a[0] != b[0] {
        a[0] < b[0]
    } else {
        lex_less(a.drop_first(), b.drop_first())
    }
}

/// The score of `volume` for `key`: MD5 of the UTF-8 bytes of the key
/// followed by those of the volume's name.
pub open spec fn volume_hash(key: Seq<char>, volume: Seq<char>) -> Seq<u8> {
    md5_of(encode_utf8(key) + encode_utf8(volume))
}

/// The scores of all volumes, in configuration order.
pub open spec fn volume_hashes(key: Seq<char>, volumes: Seq<Seq<char>>) -> Seq<Seq<u8>> {
    volumes.map_values(|v: Seq<char>| volume_hash(key, v))
}

/// The names of a list of volumes.
pub open spec fn names(volumes: Seq<String>) -> Seq<Seq<char>> {
    volumes.map_values(|v: String| v@)
}

/// Volume `i` ranks before volume `j`: a smaller score, or an equal score
/// and an earlier position.
pub open spec fn ranks_before(hashes: Seq<Seq<u8>>, i: int, j: int) -> bool {
    lex_less(hashes[i], hashes[j]) || (hashes[i] == hashes[j] && i < j)
}

/// `order` lists every volume position exactly once, best ranked first.
pub open spec fn is_ranking(hashes: Seq<Seq<u8>>, order: Seq<int>) -> bool {
    &&& order.len() == hashes.len()
    &&& forall|m: int| 0 <= m < order.len() ==> 0 <= #[trigger] order[m] < hashes.len()
    &&& forall|i: int| 0 <= i < hashes.len() ==> #[trigger] order.contains(i)
    &&& forall|m1: int, m2: int|
        0 <= m1 < m2 < order.len() ==> ranks_before(hashes, #[trigger] order[m1], #[trigger] order[m2])
}

/// The ranking of volumes with the given scores (there is exactly one; see
/// `lemma_ranking_unique` and `lemma_ranking_exists`).
pub open spec fn ranking(hashes: Seq<Seq<u8>>) -> Seq<int> {
    choose|order: Seq<int>| is_ranking(hashes, order)
}

/// The subvolume that a score selects among `divisor` subvolumes: its last
/// four bytes read big-endian, modulo `divisor`.
pub open spec fn subvolume_of(hash: Seq<u8>, divisor: u32) -> int {
    (hash[12] * 0x100_0000 + hash[13] * 0x1_0000 + hash[14] * 0x100 + hash[15] as int) % (
    divisor as int)
}

/// The name under which a replica is stored on `volume`: the volume itself
/// with one subvolume, else `volume/svNN` with the subvolume in upper-case
/// hexadecimal of at least two digits. The count of subvolumes is taken
/// modulo 2^32, as the index computes it in 32 bits.
pub open spec fn replica_name(volume: Seq<char>, hash: Seq<u8>, nsub: usize) -> Seq<char> {
    if nsub == 1 {
        volume
    } else {
        volume + seq!['/', 's', 'v'] + hex_upper_pad2(subvolume_of(hash, nsub as u32) as nat)
    }
}

/// The replica locations of `key`: the `nreplicas` best-ranked volumes,
/// each named as `replica_name` says.
pub open spec fn selection(key: Seq<char>, volumes: Seq<Seq<char>>, nreplicas: nat, nsub: usize) -> Seq<
    Seq<char>,
> {
    let hashes = volume_hashes(key, volumes);
    let order = ranking(hashes);
    Seq::new(nreplicas, |k: int| replica_name(volumes[order[k]], hashes[order[k]], nsub))
}

// ---------------------------------------------------------------------------
// The byte-wise order is a strict total order.

proof fn lemma_lex_irreflexive(a: Seq<u8>)
    ensures
        !lex_less(a, a),
    decreases a.len(),
{
    if a.len() > 0 {
        lemma_lex_irreflexive(a.drop_first());
    }
}

proof fn lemma_lex_asymmetric(a: Seq<u8>, b: Seq<u8>)
    ensures
        lex_less(a, b) ==> !lex_less(b, a),
    decreases a.len(),
{
    if a.len() > 0 && b.len() > 0 && a[0] == b[0] {
        lemma_lex_asymmetric(a.drop_first(), b.drop_first());
    }
}

proof fn lemma_lex_transitive(a: Seq<u8>, b: Seq<u8>, c: Seq<u8>)
    requires
        lex_less(a, b),
        lex_less(b, c),
    ensures
        lex_less(a, c),
    decreases a.len(),
{
    if a.len() > 0 && b.len() > 0 && c.len() > 0 && a[0] == b[0] && b[0] == c[0] {
        lemma_lex_transitive(a.drop_first(), b.drop_first(), c.drop_first());
    }
}

proof fn lemma_lex_total(a: Seq<u8>, b: Seq<u8>)
    ensures
        a == b || lex_less(a, b) || lex_less(b, a),
    decreases a.len(),
{
    if a.len() == 0 && b.len() == 0 {
        assert(a =~= b);
    } else if a.len() > 0 && b.len() > 0 && a[0] == b[0] {
        lemma_lex_total(a.drop_first(), b.drop_first());
        if a.drop_first() == b.drop_first() {
            assert(a =~= seq![a[0]] + a.drop_first());
            assert(b =~= seq![b[0]] + b.drop_first());
        }
    }
}

proof fn lemma_ranks_before_strict(hashes: Seq<Seq<u8>>, i: int, j: int)
    ensures
        !ranks_before(hashes, i, i),
        ranks_before(hashes, i, j) ==> !ranks_before(hashes, j, i),
        i != j ==> ranks_before(hashes, i, j) || ranks_before(hashes, j, i),
{
    lemma_lex_irreflexive(hashes[i]);
    lemma_lex_asymmetric(hashes[i], hashes[j]);
    lemma_lex_total(hashes[i], hashes[j]);
    if hashes[i] == hashes[j] {
        lemma_lex_irreflexive(hashes[j]);
    }
}

proof fn lemma_ranks_before_transitive(hashes: Seq<Seq<u8>>, i: int, j: int, k: int)
    requires
        ranks_before(hashes, i, j),
        ranks_before(hashes, j, k),
    ensures
        ranks_before(hashes, i, k),
{
    if lex_less(hashes[i], hashes[j]) && lex_less(hashes[j], hashes[k]) {
        lemma_lex_transitive(hashes[i], hashes[j], hashes[k]);
    }
}

// ---------------------------------------------------------------------------
// There is exactly one ranking.

proof fn lemma_rankings_agree_below(hashes: Seq<Seq<u8>>, p: Seq<int>, q: Seq<int>, k: int)
    requires
        is_ranking(hashes, p),
        is_ranking(hashes, q),
        0 <= k <= p.len(),
    ensures
        forall|j: int| 0 <= j < k ==> p[j] == q[j],
    decreases k,
{
    if k > 0 {
        let c = k - 1;
        lemma_rankings_agree_below(hashes, p, q, c);
        // Where does p[c] stand in q, and q[c] in p?
        let x = p[c];
        let y = q[c];
        assert(q.contains(x));
        assert(p.contains(y));
        let cq = choose|m: int| 0 <= m < q.len() && q[m] == x;
        let cp = choose|m: int| 0 <= m < p.len() && p[m] == y;
        if cq < c {
            assert(p[cq] == x);
            lemma_ranks_before_strict(hashes, x, x);
        }
        if cp < c {
            assert(q[cp] == y);
            lemma_ranks_before_strict(hashes, y, y);
        }
        if cq > c && cp > c {
            assert(ranks_before(hashes, q[c], q[cq]));
            assert(ranks_before(hashes, p[c], p[cp]));
            lemma_ranks_before_strict(hashes, x, y);
        }
    }
}

/// Law: two rankings of the same scores are the same list, so `ranking` is
/// determined by the scores alone.
pub proof fn lemma_ranking_unique(hashes: Seq<Seq<u8>>, p: Seq<int>, q: Seq<int>)
    requires
        is_ranking(hashes, p),
        is_ranking(hashes, q),
    ensures
        p == q,
{
    lemma_rankings_agree_below(hashes, p, q, p.len() as int);
    assert(p =~= q);
}

// ---------------------------------------------------------------------------
// Executable part.

/// Compares two digests byte-wise.
fn hash_less(a: &[u8; 16], b: &[u8; 16]) -> (less: bool)
    ensures
        less == lex_less(a@, b@),
{
    let mut i: usize = 0;
    assert(a@.skip(0) =~= a@);
    assert(b@.skip(0) =~= b@);
    while i < 16
        invariant
            0 <= i <= 16,
            a@.len() == 16,
            b@.len() == 16,
            lex_less(a@, b@) == lex_less(a@.skip(i as int), b@.skip(i as int)),
        decreases 16 - i,
    {
        if a[i] != b[i] {
            return a[i] < b[i];
        }
        assert(a@.skip(i as int).drop_first() =~= a@.skip(i + 1));
        assert(b@.skip(i as int).drop_first() =~= b@.skip(i + 1));
        i = i + 1;
    }
    assert(a@.skip(16).len() == 0);
    false
}

/// The scores held in a list of digests.
pub open spec fn hash_views(hashes: Seq<[u8; 16]>) -> Seq<Seq<u8>> {
    hashes.map_values(|h: [u8; 16]| h@)
}

/// Decides `ranks_before` for two positions.
fn ranks_before_exec(hashes: &Vec<[u8; 16]>, i: usize, j: usize) -> (before: bool)
    requires
        i < hashes@.len(),
        j < hashes@.len(),
    ensures
        before == ranks_before(hash_views(hashes@), i as int, j as int),
{
    let hv = Ghost(hash_views(hashes@));
    let less = hash_less(&hashes[i], &hashes[j]);
    if less {
        return true;
    }
    let greater = hash_less(&hashes[j], &hashes[i]);
    proof {
        lemma_lex_total(hv@[i as int], hv@[j as int]);
        lemma_lex_asymmetric(hv@[i as int], hv@[j as int]);
    }
    !greater && i < j
}

/// `order` ranks the first `count` positions.
spec fn ranks_prefix(hashes: Seq<Seq<u8>>, order: Seq<int>, count: int) -> bool {
    &&& order.len() == count
    &&& forall|m: int| 0 <= m < order.len() ==> 0 <= #[trigger] order[m] < count
    &&& forall|i: int| 0 <= i < count ==> #[trigger] order.contains(i)
    &&& forall|m1: int, m2: int|
        0 <= m1 < m2 < order.len() ==> ranks_before(hashes, #[trigger] order[m1], #[trigger] order[m2])
}

/// Inserting position `i` after the ranked positions that rank before it,
/// and before the others, ranks one more position.
proof fn lemma_insert_ranked(hashes: Seq<Seq<u8>>, order: Seq<int>, i: int, m: int)
    requires
        i < hashes.len(),
        ranks_prefix(hashes, order, i),
        0 <= m <= order.len(),
        forall|k: int| 0 <= k < m ==> ranks_before(hashes, #[trigger] order[k], i),
        m < order.len() ==> !ranks_before(hashes, order[m], i),
    ensures
        ranks_prefix(hashes, order.insert(m, i), i + 1),
{
    let o = order.insert(m, i);
    if m < order.len() {
        lemma_ranks_before_strict(hashes, order[m], i);
        assert(ranks_before(hashes, i, order[m]));
    }
    assert forall|m1: int, m2: int| 0 <= m1 < m2 < o.len() implies ranks_before(
        hashes,
        #[trigger] o[m1],
        #[trigger] o[m2],
    ) by {
        if m1 < m && m2 < m {
            assert(o[m1] == order[m1] && o[m2] == order[m2]);
        } else if m1 < m && m2 == m {
            assert(o[m1] == order[m1]);
        } else if m1 < m && m2 > m {
            assert(o[m1] == order[m1] && o[m2] == order[m2 - 1]);
        } else if m1 == m {
            assert(o[m2] == order[m2 - 1]);
            if m2 - 1 > m {
                assert(ranks_before(hashes, order[m], order[m2 - 1]));
                lemma_ranks_before_transitive(hashes, i, order[m], order[m2 - 1]);
            }
        } else {
            assert(o[m1] == order[m1 - 1] && o[m2] == order[m2 - 1]);
        }
    }
    assert forall|j: int| 0 <= j < i + 1 implies #[trigger] o.contains(j) by {
        if j == i {
            assert(o[m] == j);
        } else {
            assert(order.contains(j));
            let k0 = choose|k: int| 0 <= k < order.len() && order[k] == j;
            if k0 < m {
                assert(o[k0] == j);
            } else {
                assert(o[k0 + 1] == j);
            }
        }
    }
    assert forall|k: int| 0 <= k < o.len() implies 0 <= #[trigger] o[k] < i + 1 by {
        if k < m {
            assert(o[k] == order[k]);
        } else if k > m {
            assert(o[k] == order[k - 1]);
        }
    }
}

/// Where position `i` goes among the ranked positions, searching from `from`.
proof fn insertion_point(hashes: Seq<Seq<u8>>, order: Seq<int>, i: int, from: int) -> (m: int)
    requires
        0 <= from <= order.len(),
        forall|k: int| 0 <= k < from ==> ranks_before(hashes, #[trigger] order[k], i),
    ensures
        from <= m <= order.len(),
        forall|k: int| 0 <= k < m ==> ranks_before(hashes, #[trigger] order[k], i),
        m < order.len() ==> !ranks_before(hashes, order[m], i),
    decreases order.len() - from,
{
    if from == order.len() || !ranks_before(hashes, order[from], i) {
        from
    } else {
        insertion_point(hashes, order, i, from + 1)
    }
}

/// A ranking of the first `count` positions, built by insertion.
proof fn ranking_of_prefix(hashes: Seq<Seq<u8>>, count: int) -> (order: Seq<int>)
    requires
        0 <= count <= hashes.len(),
    ensures
        ranks_prefix(hashes, order, count),
    decreases count,
{
    if count == 0 {
        Seq::empty()
    } else {
        let o = ranking_of_prefix(hashes, count - 1);
        let m = insertion_point(hashes, o, count - 1, 0);
        lemma_insert_ranked(hashes, o, count - 1, m);
        o.insert(m, count - 1)
    }
}

/// Law: every list of scores has a ranking, so `ranking(hashes)` is one.
pub proof fn lemma_ranking_exists(hashes: Seq<Seq<u8>>)
    ensures
        is_ranking(hashes, ranking(hashes)),
{
    let o = ranking_of_prefix(hashes, hashes.len() as int);
    assert(is_ranking(hashes, o));
}

/// Ranks all positions by insertion.
fn rank_volumes(hashes: &Vec<[u8; 16]>) -> (order: Vec<usize>)
    ensures
        is_ranking(hash_views(hashes@), order@.map_values(|x: usize| x as int)),
{
    let ghost hv = hash_views(hashes@);
    let n = hashes.len();
    let mut order: Vec<usize> = Vec::new();
    let mut i: usize = 0;
    assert(order@.map_values(|x: usize| x as int) =~= Seq::<int>::empty());
    while i < n
        invariant
            n == hashes@.len(),
            hv == hash_views(hashes@),
            i <= n,
            order@.len() == i,
            ranks_prefix(hv, order@.map_values(|x: usize| x as int), i as int),
        decreases n - i,
    {
        let ghost io = order@.map_values(|x: usize| x as int);
        // Skip the ranked positions that come before `i`.
        let mut m: usize = 0;
        while m < order.len()
            invariant
                n == hashes@.len(),
                hv == hash_views(hashes@),
                i < n,
                order@.len() == i,
                io == order@.map_values(|x: usize| x as int),
                ranks_prefix(hv, io, i as int),
                m <= order@.len(),
                forall|k: int| 0 <= k < m ==> ranks_before(hv, #[trigger] io[k], i as int),
            ensures
                m <= order@.len(),
                forall|k: int| 0 <= k < m ==> ranks_before(hv, #[trigger] io[k], i as int),
                m < order@.len() ==> !ranks_before(hv, io[m as int], i as int),
            decreases order@.len() - m,
        {
            assert(io[m as int] == order@[m as int] as int);
            if !ranks_before_exec(hashes, order[m], i) {
                break;
            }
            m = m + 1;
        }
        proof {
            lemma_insert_ranked(hv, io, i as int, m as int);
        }
        order.insert(m, i);
        assert(order@.map_values(|x: usize| x as int) =~= io.insert(m as int, i as int));
        i = i + 1;
    }
    order
}

/// Any ranking of the scores is the one `ranking` names.
proof fn lemma_ranking_is_ranking(hashes: Seq<Seq<u8>>, order: Seq<int>)
    requires
        is_ranking(hashes, order),
    ensures
        ranking(hashes) == order,
{
    lemma_ranking_unique(hashes, ranking(hashes), order);
}

/// Law: asking for fewer replicas gives the first locations of the longer
/// selection; a key's replicas do not move when `nreplicas` grows.
pub proof fn lemma_selection_prefix(
    key: Seq<char>,
    volumes: Seq<Seq<char>>,
    fewer: nat,
    more: nat,
    nsub: usize,
)
    requires
        fewer <= more,
    ensures
        selection(key, volumes, fewer, nsub) == selection(key, volumes, more, nsub).take(
            fewer as int,
        ),
{
    assert(selection(key, volumes, fewer, nsub) =~= selection(key, volumes, more, nsub).take(
        fewer as int,
    ));
}

/// Law: the replicas of a key are on distinct configured volumes, the
/// `k`-th on the volume ranked `k`-th; with several subvolumes, the
/// location is that volume followed by `/sv` and a subvolume number below
/// the count of subvolumes (taken modulo 2^32).
pub proof fn lemma_selection_locations(
    key: Seq<char>,
    volumes: Seq<Seq<char>>,
    nreplicas: nat,
    nsub: usize,
)
    requires
        nreplicas <= volumes.len(),
        nsub as u32 != 0,
    ensures
        ({
            let hashes = volume_hashes(key, volumes);
            let order = ranking(hashes);
            let chosen = selection(key, volumes, nreplicas, nsub);
            &&& chosen.len() == nreplicas
            &&& forall|k: int|
                0 <= k < nreplicas ==> 0 <= #[trigger] order[k] < volumes.len()
            &&& forall|j: int, k: int|
                0 <= j < k < nreplicas ==> #[trigger] order[j] != #[trigger] order[k]
            &&& nsub == 1 ==> forall|k: int| 0 <= k < nreplicas ==> #[trigger] chosen[k] == volumes[order[k]]
            &&& nsub != 1 ==> forall|k: int|
                0 <= k < nreplicas ==> {
                    &&& #[trigger] chosen[k] == volumes[order[k]] + seq!['/', 's', 'v'] + hex_upper_pad2(
                        subvolume_of(hashes[order[k]], nsub as u32) as nat,
                    )
                    &&& 0 <= subvolume_of(hashes[order[k]], nsub as u32) < nsub as u32
                }
        }),
{
    let hashes = volume_hashes(key, volumes);
    lemma_ranking_exists(hashes);
    let order = ranking(hashes);
    assert forall|j: int, k: int| 0 <= j < k < nreplicas implies #[trigger] order[j] != #[trigger] order[k] by {
        lemma_ranks_before_strict(hashes, order[j], order[k]);
    }
}

/// Law: the replica name on the volume ranked `k`-th is that volume's name,
/// or, with several subvolumes, that name followed by `/sv` and the
/// `{:02X}` numeral of the last four bytes of its MD5 score read big-endian,
/// modulo the subvolume count taken in 32 bits.
pub proof fn lemma_replica_name_arithmetic(
    key: Seq<char>,
    volumes: Seq<Seq<char>>,
    nreplicas: nat,
    nsub: usize,
    k: int,
)
    requires
        0 <= k < nreplicas <= volumes.len(),
    ensures
        ({
            let v = volumes[ranking(volume_hashes(key, volumes))[k]];
            let h = md5_of(encode_utf8(key) + encode_utf8(v));
            selection(key, volumes, nreplicas, nsub)[k] == if nsub == 1 {
                v
            } else {
                v + seq!['/', 's', 'v'] + hex_upper_pad2(
                    ((h[12] as int * 16777216 + h[13] as int * 65536 + h[14] as int * 256
                        + h[15] as int) % ((nsub as u32) as int)) as nat,
                )
            }
        }),
{
    let hashes = volume_hashes(key, volumes);
    lemma_ranking_exists(hashes);
}

/// Law: adding a volume at the end of the configuration inserts it
/// somewhere in the ranking and leaves the other volumes in the same order;
/// so the replicas of a key move only onto the new volume.
pub proof fn lemma_ranking_after_adding(hashes: Seq<Seq<u8>>, added: Seq<u8>)
    ensures
        exists|p: int|
            0 <= p <= hashes.len() && ranking(hashes.push(added)) == #[trigger] ranking(hashes).insert(
                p,
                hashes.len() as int,
            ),
{
    let n = hashes.len() as int;
    let more = hashes.push(added);
    lemma_ranking_exists(more);
    let r = ranking(more);
    assert(r.contains(n));
    let p = choose|k: int| 0 <= k < r.len() && r[k] == n;
    let q = r.remove(p);
    assert forall|k1: int, k2: int| 0 <= k1 < r.len() && 0 <= k2 < r.len() && k1 != k2 implies r[k1]
        != r[k2] by {
        if k1 < k2 {
            lemma_ranks_before_strict(more, r[k1], r[k2]);
        } else {
            lemma_ranks_before_strict(more, r[k2], r[k1]);
        }
    }
    assert forall|m: int| 0 <= m < q.len() implies 0 <= #[trigger] q[m] < n by {
        if m < p {
            assert(q[m] == r[m]);
        } else {
            assert(q[m] == r[m + 1]);
        }
    }
    assert forall|i: int| 0 <= i < n implies #[trigger] q.contains(i) by {
        assert(r.contains(i));
        let k = choose|k: int| 0 <= k < r.len() && r[k] == i;
        if k < p {
            assert(q[k] == i);
        } else {
            assert(q[k - 1] == i);
        }
    }
    assert forall|m1: int, m2: int| 0 <= m1 < m2 < q.len() implies ranks_before(
        hashes,
        #[trigger] q[m1],
        #[trigger] q[m2],
    ) by {
        let k1 = if m1 < p {
            m1
        } else {
            m1 + 1
        };
        let k2 = if m2 < p {
            m2
        } else {
            m2 + 1
        };
        assert(q[m1] == r[k1] && q[m2] == r[k2]);
        assert(ranks_before(more, r[k1], r[k2]));
        assert(more[q[m1]] == hashes[q[m1]]);
        assert(more[q[m2]] == hashes[q[m2]]);
    }
    assert(is_ranking(hashes, q));
    lemma_ranking_is_ranking(hashes, q);
    assert(r =~= q.insert(p, n));
}

/// `pi` lists every position below `n` exactly once.
pub open spec fn is_index_permutation(pi: Seq<int>, n: nat) -> bool {
    &&& pi.len() == n
    &&& forall|i: int| 0 <= i < n ==> 0 <= #[trigger] pi[i] < n
    &&& forall|j: int| 0 <= j < n ==> #[trigger] pi.contains(j)
    &&& forall|i: int, j: int| 0 <= i < n && 0 <= j < n && i != j ==> #[trigger] pi[i] != #[trigger] pi[j]
}

/// A ranking lists every position exactly once.
proof fn lemma_ranking_permutes(hashes: Seq<Seq<u8>>, order: Seq<int>)
    requires
        is_ranking(hashes, order),
    ensures
        is_index_permutation(order, hashes.len()),
{
    assert forall|i: int, j: int|
        0 <= i < order.len() && 0 <= j < order.len() && i != j implies #[trigger] order[i]
        != #[trigger] order[j] by {
        if i < j {
            lemma_ranks_before_strict(hashes, order[i], order[j]);
        } else {
            lemma_ranks_before_strict(hashes, order[j], order[i]);
        }
    }
}

/// Reordering a sequence by a permutation of its positions keeps its
/// elements with their multiplicities.
proof fn lemma_reindex_multiset<A>(s: Seq<A>, pi: Seq<int>)
    requires
        is_index_permutation(pi, s.len()),
    ensures
        Seq::new(s.len(), |k: int| s[pi[k]]).to_multiset() == s.to_multiset(),
    decreases s.len(),
{
    broadcast use vstd::seq_lib::group_to_multiset_ensures;

    let n = s.len() as int;
    let t = Seq::new(s.len(), |k: int| s[pi[k]]);
    if n == 0 {
        assert(t =~= s);
    } else {
        assert(pi.contains(n - 1));
        let m = choose|k: int| 0 <= k < pi.len() && pi[k] == n - 1;
        let pi2 = pi.remove(m);
        let s2 = s.drop_last();
        assert forall|i: int| 0 <= i < n - 1 implies 0 <= #[trigger] pi2[i] < n - 1 by {
            if i < m {
                assert(pi2[i] == pi[i] && i != m);
            } else {
                assert(pi2[i] == pi[i + 1] && i + 1 != m);
            }
        }
        assert forall|j: int| 0 <= j < n - 1 implies #[trigger] pi2.contains(j) by {
            assert(pi.contains(j));
            let k = choose|k: int| 0 <= k < pi.len() && pi[k] == j;
            if k < m {
                assert(pi2[k] == j);
            } else {
                assert(k != m);
                assert(pi2[k - 1] == j);
            }
        }
        assert forall|i: int, j: int|
            0 <= i < n - 1 && 0 <= j < n - 1 && i != j implies #[trigger] pi2[i]
            != #[trigger] pi2[j] by {
            let ii = if i < m {
                i
            } else {
                i + 1
            };
            let jj = if j < m {
                j
            } else {
                j + 1
            };
            assert(pi2[i] == pi[ii] && pi2[j] == pi[jj]);
        }
        lemma_reindex_multiset(s2, pi2);
        let t2 = Seq::new(s2.len(), |k: int| s2[pi2[k]]);
        assert(t2 =~= t.remove(m));
        assert(t =~= t.remove(m).insert(m, s[n - 1]));
        assert(s =~= s2.push(s[n - 1]));
    }
}

/// Scores ordered byte-wise, with equal scores together.
pub open spec fn hash_leq() -> spec_fn(Seq<u8>, Seq<u8>) -> bool {
    |a: Seq<u8>, b: Seq<u8>| lex_less(a, b) || a == b
}

proof fn lemma_hash_leq_total()
    ensures
        total_ordering(hash_leq()),
{
    let leq = hash_leq();
    assert forall|x: Seq<u8>, y: Seq<u8>| #[trigger] leq(x, y) && #[trigger] leq(y, x) implies x
        == y by {
        lemma_lex_asymmetric(x, y);
    }
    assert forall|x: Seq<u8>, y: Seq<u8>, z: Seq<u8>| #[trigger] leq(x, y) && #[trigger] leq(
        y,
        z,
    ) implies leq(x, z) by {
        if lex_less(x, y) && lex_less(y, z) {
            lemma_lex_transitive(x, y, z);
        }
    }
    assert forall|x: Seq<u8>, y: Seq<u8>| #[trigger] leq(x, y) || #[trigger] leq(y, x) by {
        lemma_lex_total(x, y);
    }
}

/// The scores of the volumes in ranked order.
spec fn ranked_hashes(hashes: Seq<Seq<u8>>) -> Seq<Seq<u8>> {
    Seq::new(hashes.len(), |k: int| hashes[ranking(hashes)[k]])
}

/// The ranked scores are the scores, sorted.
proof fn lemma_ranked_hashes(hashes: Seq<Seq<u8>>)
    ensures
        sorted_by(ranked_hashes(hashes), hash_leq()),
        ranked_hashes(hashes).to_multiset() == hashes.to_multiset(),
{
    lemma_ranking_exists(hashes);
    let order = ranking(hashes);
    lemma_ranking_permutes(hashes, order);
    lemma_reindex_multiset(hashes, order);
    let r = ranked_hashes(hashes);
    assert forall|i: int, j: int| 0 <= i < j < r.len() implies #[trigger] (hash_leq())(
        r[i],
        r[j],
    ) by {
        assert(ranks_before(hashes, order[i], order[j]));
    }
}

/// Law: the order in which volumes are listed does not change where a key's
/// replicas go, as long as no two differently named volumes get the same
/// score for the key (an MD5 collision). `listed` is `volumes` reordered by
/// the permutation `pi`.
pub proof fn lemma_selection_ignores_listing_order(
    key: Seq<char>,
    volumes: Seq<Seq<char>>,
    listed: Seq<Seq<char>>,
    pi: Seq<int>,
    nreplicas: nat,
    nsub: usize,
)
    requires
        is_index_permutation(pi, volumes.len()),
        listed.len() == volumes.len(),
        forall|i: int| 0 <= i < listed.len() ==> #[trigger] listed[i] == volumes[pi[i]],
        nreplicas <= volumes.len(),
        forall|i: int, j: int|
            0 <= i < volumes.len() && 0 <= j < volumes.len() && volume_hash(key, #[trigger] volumes[i])
                == volume_hash(key, #[trigger] volumes[j]) ==> volumes[i] == volumes[j],
    ensures
        selection(key, listed, nreplicas, nsub) == selection(key, volumes, nreplicas, nsub),
{
    let n = volumes.len();
    let h = volume_hashes(key, volumes);
    let h2 = volume_hashes(key, listed);
    lemma_ranking_exists(h);
    lemma_ranking_exists(h2);
    let r = ranking(h);
    let r2 = ranking(h2);
    assert(h2 =~= Seq::new(n, |k: int| h[pi[k]]));
    lemma_reindex_multiset(h, pi);
    lemma_ranked_hashes(h);
    lemma_ranked_hashes(h2);
    lemma_hash_leq_total();
    lemma_sorted_unique(ranked_hashes(h), ranked_hashes(h2), hash_leq());
    assert forall|k: int| 0 <= k < nreplicas implies #[trigger] r2[k] >= 0 && volumes[r[k]]
        == listed[r2[k]] by {
        assert(ranked_hashes(h)[k] == ranked_hashes(h2)[k]);
        assert(h2[r2[k]] == h[pi[r2[k]]]);
        assert(listed[r2[k]] == volumes[pi[r2[k]]]);
    }
    assert(selection(key, listed, nreplicas, nsub) =~= selection(key, volumes, nreplicas, nsub));
}

/// MD5 of `key` followed by the UTF-8 bytes of `volume`.
pub fn hash_key_volume(key: &[u8], volume: &str) -> (hash: [u8; 16])
    ensures
        hash@ == md5_of(key@ + encode_utf8(volume@)),
{
    let vbytes = volume.as_bytes();
    let mut data: Vec<u8> = Vec::new();
    let mut i: usize = 0;
    while i < key.len()
        invariant
            i <= key@.len(),
            data@ == key@.subrange(0, i as int),
        decreases key@.len() - i,
    {
        data.push(key[i]);
        i = i + 1;
    }
    let mut j: usize = 0;
    while j < vbytes.len()
        invariant
            j <= vbytes@.len(),
            data@ == key@ + vbytes@.subrange(0, j as int),
        decreases vbytes@.len() - j,
    {
        data.push(vbytes[j]);
        j = j + 1;
    }
    assert(key@.subrange(0, key@.len() as int) =~= key@);
    assert(vbytes@.subrange(0, vbytes@.len() as int) =~= vbytes@);
    md5_digest(data.as_slice())
}

/// The name of the replica of a key on `volume`, given the volume's score.
fn replica_volume_name(volume: &String, hash: &[u8; 16], nsub: usize) -> (name: String)
    requires
        nsub as u32 != 0,
    ensures
        name@ == replica_name(volume@, hash@, nsub),
{
    if nsub == 1 {
        return volume.clone();
    }
    let b12 = hash[12];
    let b13 = hash[13];
    let b14 = hash[14];
    let b15 = hash[15];
    let svhash: u32 = (b12 as u32) << 24u32 | (b13 as u32) << 16u32 | (b14 as u32) << 8u32
        | b15 as u32;
    assert(svhash == b12 * 0x100_0000 + b13 * 0x1_0000 + b14 * 0x100 + b15 as int) by (bit_vector)
        requires
            svhash == (b12 as u32) << 24u32 | (b13 as u32) << 16u32 | (b14 as u32) << 8u32
                | b15 as u32,
    ;
    let divisor: u32 = nsub as u32;
    let sub = svhash % divisor;
    let digits = hex_pad2(sub);
    let mut name = volume.clone();
    proof {
        reveal_strlit("/sv");
    }
    name.append("/sv");
    name.append(digits.as_str());
    assert(name@ =~= replica_name(volume@, hash@, nsub));
    name
}

/// The replica locations of `key` among `volumes` (see `selection`).
pub fn select_volumes_by_key(key: &str, volumes: &[String], nreplicas: usize, nsub: usize) -> (kvolumes:
    Vec<String>)
    requires
        nreplicas <= volumes@.len(),
        nsub > 0,
        nreplicas == 0 || nsub as u32 != 0,
    ensures
        names(kvolumes@) == selection(key@, names(volumes@), nreplicas as nat, nsub),
        kvolumes@.len() == nreplicas,
        forall|k: int|
            0 <= k < nreplicas ==> ({
                let v = names(volumes@)[ranking(volume_hashes(key@, names(volumes@)))[k]];
                let h = md5_of(encode_utf8(key@) + encode_utf8(v));
                (#[trigger] kvolumes@[k])@ == if nsub == 1 {
                    v
                } else {
                    v + seq!['/', 's', 'v'] + hex_upper_pad2(
                        ((h[12] as int * 16777216 + h[13] as int * 65536 + h[14] as int * 256
                            + h[15] as int) % ((nsub as u32) as int)) as nat,
                    )
                }
            }),
{
    let ghost vnames = names(volumes@);
    let kbytes = key.as_bytes();
    let n = volumes.len();
    let mut hashes: Vec<[u8; 16]> = Vec::new();
    let mut i: usize = 0;
    while i < n
        invariant
            n == volumes@.len(),
            kbytes@ == encode_utf8(key@),
            vnames == names(volumes@),
            i <= n,
            hashes@.len() == i,
            forall|j: int| 0 <= j < i ==> (#[trigger] hashes@[j])@ == volume_hash(key@, vnames[j]),
        decreases n - i,
    {
        let h = hash_key_volume(kbytes, volumes[i].as_str());
        hashes.push(h);
        i = i + 1;
    }
    let ghost hv = volume_hashes(key@, vnames);
    assert(hash_views(hashes@) =~= hv);
    let order = rank_volumes(&hashes);
    let ghost io = order@.map_values(|x: usize| x as int);
    proof {
        lemma_ranking_is_ranking(hv, io);
    }
    let mut kvolumes: Vec<String> = Vec::new();
    let mut k: usize = 0;
    while k < nreplicas
        invariant
            n == volumes@.len(),
            n == hashes@.len(),
            n == order@.len(),
            nreplicas <= n,
            nreplicas == 0 || nsub as u32 != 0,
            vnames == names(volumes@),
            hv == hash_views(hashes@),
            io == order@.map_values(|x: usize| x as int),
            is_ranking(hv, io),
            k <= nreplicas,
            kvolumes@.len() == k,
            forall|j: int|
                0 <= j < k ==> (#[trigger] kvolumes@[j])@ == replica_name(
                    vnames[io[j]],
                    hv[io[j]],
                    nsub,
                ),
        decreases nreplicas - k,
    {
        let pos = order[k];
        assert(io[k as int] == pos as int);
        let name = replica_volume_name(&volumes[pos], &hashes[pos], nsub);
        kvolumes.push(name);
        k = k + 1;
    }
    assert(names(kvolumes@) =~= selection(key@, vnames, nreplicas as nat, nsub));
    assert forall|k: int| 0 <= k < nreplicas implies ({
        let v = vnames[ranking(volume_hashes(key@, vnames))[k]];
        let h = md5_of(encode_utf8(key@) + encode_utf8(v));
        (#[trigger] kvolumes@[k])@ == if nsub == 1 {
            v
        } else {
            v + seq!['/', 's', 'v'] + hex_upper_pad2(
                ((h[12] as int * 16777216 + h[13] as int * 65536 + h[14] as int * 256
                    + h[15] as int) % ((nsub as u32) as int)) as nat,
            )
        }
    }) by {
        assert(names(kvolumes@)[k] == kvolumes@[k]@);
        lemma_replica_name_arithmetic(key@, vnames, nreplicas as nat, nsub, k);
    }
    kvolumes
}

} // verus!
