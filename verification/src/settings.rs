//! The index's settings, how they are read from the command line, and what
//! a write of a key does with them.

use crate::keypath::{replica_url, replica_urls};
use crate::placement::{names, select_volumes_by_key, selection};
use crate::record::{Deleted, Record};
use crate::requests::join_with;
use vstd::prelude::*;

verus! {

/// Declares `redb::Database` to Verus, opaque: the index carries its
/// database and only the server reads or writes it.
#[verifier::external_type_specification]
#[verifier::external_body]
pub struct ExDatabase(redb::Database);

/// The index: its volume servers, replicas per key, subvolumes per server,
/// the timeout for volume servers in milliseconds, and the database that
/// maps keys to records.
pub struct App {
    pub volumes: Vec<String>,
    pub nsub: usize,
    pub nreplicas: usize,
    pub voltimeout: usize,
    pub db: redb::Database,
}

/// The pieces of `s` between occurrences of `sep`, as `str::split` gives
/// them: one more piece than there are separators.
pub open spec fn split_on(s: Seq<char>, sep: char) -> Seq<Seq<char>>
    decreases s.len(),
{
    if s.len() == 0 {
        seq![seq![]]
    } else {
        let pieces = split_on(s.drop_last(), sep);
        if s.last() == sep {
            pieces.push(seq![])
        } else {
            pieces.update(pieces.len() - 1, pieces.last().push(s.last()))
        }
    }
}

proof fn lemma_split_nonempty(s: Seq<char>, sep: char)
    ensures
        split_on(s, sep).len() >= 1,
    decreases s.len(),
{
    if s.len() > 0 {
        lemma_split_nonempty(s.drop_last(), sep);
    }
}

/// How many times `c` occurs in `s`.
pub open spec fn occurrences(s: Seq<char>, c: char) -> nat
    decreases s.len(),
{
    if s.len() == 0 {
        0
    } else {
        occurrences(s.drop_last(), c) + if s.last() == c {
            1nat
        } else {
            0nat
        }
    }
}

/// Joining after appending one character to the last part.
proof fn lemma_join_extend_last(parts: Seq<Seq<char>>, sep: Seq<char>, c: char)
    requires
        parts.len() >= 1,
    ensures
        join_with(parts.update(parts.len() - 1, parts.last().push(c)), sep) == join_with(
            parts,
            sep,
        ).push(c),
{
    let q = parts.update(parts.len() - 1, parts.last().push(c));
    if parts.len() >= 2 {
        assert(q.drop_last() =~= parts.drop_last());
        assert(join_with(parts, sep).push(c) =~= join_with(parts.drop_last(), sep) + sep
            + parts.last().push(c));
    }
}

/// Law: splitting loses nothing and finds every separator: joining the
/// pieces with the separator gives back the text, no piece holds the
/// separator, and there is one piece more than separators.
pub proof fn lemma_split_then_join(s: Seq<char>, sep: char)
    ensures
        join_with(split_on(s, sep), seq![sep]) == s,
        forall|i: int|
            0 <= i < split_on(s, sep).len() ==> !(#[trigger] split_on(s, sep)[i]).contains(sep),
        split_on(s, sep).len() == occurrences(s, sep) + 1,
    decreases s.len(),
{
    if s.len() == 0 {
        assert(split_on(s, sep) =~= seq![seq![]]);
        assert(s =~= Seq::<char>::empty());
    } else {
        let t = s.drop_last();
        let c = s.last();
        lemma_split_then_join(t, sep);
        lemma_split_nonempty(t, sep);
        let p = split_on(t, sep);
        assert(s =~= t.push(c));
        if c == sep {
            assert(split_on(s, sep) == p.push(seq![]));
            assert(p.push(seq![]).drop_last() =~= p);
            assert(join_with(p.push(seq![]), seq![sep]) =~= t + seq![sep] + seq![]);
            assert forall|i: int| 0 <= i < p.push(seq![]).len() implies !(#[trigger] p.push(
                seq![],
            )[i]).contains(sep) by {
                if i < p.len() {
                    assert(p.push(seq![])[i] == p[i]);
                }
            }
        } else {
            let q = p.update(p.len() - 1, p.last().push(c));
            assert(split_on(s, sep) == q);
            lemma_join_extend_last(p, seq![sep], c);
            assert forall|i: int| 0 <= i < q.len() implies !(#[trigger] q[i]).contains(sep) by {
                if i < p.len() - 1 {
                    assert(q[i] == p[i]);
                } else {
                    assert(q[i] == p.last().push(c));
                    assert(!p[p.len() - 1].contains(sep));
                    if q[i].contains(sep) {
                        let j = choose|j: int| 0 <= j < q[i].len() && q[i][j] == sep;
                        assert(p.last()[j] == sep);
                    }
                }
            }
        }
    }
}

/// A text without the separator splits into itself alone.
proof fn lemma_split_plain(x: Seq<char>, sep: char)
    requires
        !x.contains(sep),
    ensures
        split_on(x, sep) == seq![x],
    decreases x.len(),
{
    if x.len() == 0 {
        assert(x =~= Seq::<char>::empty());
        assert(split_on(x, sep) =~= seq![x]);
    } else {
        let y = x.drop_last();
        assert(!y.contains(sep)) by {
            if y.contains(sep) {
                let j = choose|j: int| 0 <= j < y.len() && y[j] == sep;
                assert(x[j] == sep);
            }
        }
        lemma_split_plain(y, sep);
        assert(x.last() != sep) by {
            assert(x[x.len() - 1] == x.last());
        }
        assert(x =~= y.push(x.last()));
        let z = y.push(x.last());
        assert(split_on(x, sep) == split_on(y, sep).update(0, z));
        assert(seq![y].update(0, z) =~= seq![z]);
        assert(z == x);
    }
}

/// Splitting text, a separator, then text without the separator.
proof fn lemma_split_after_sep(t: Seq<char>, sep: char, x: Seq<char>)
    requires
        !x.contains(sep),
    ensures
        split_on(t + seq![sep] + x, sep) == split_on(t, sep).push(x),
    decreases x.len(),
{
    if x.len() == 0 {
        let whole = t + seq![sep] + x;
        assert(whole =~= t.push(sep));
        assert(whole.drop_last() =~= t);
        assert(whole.last() == sep);
        assert(split_on(whole, sep) == split_on(t, sep).push(seq![]));
        assert(x =~= Seq::<char>::empty());
    } else {
        let y = x.drop_last();
        let c = x.last();
        assert(!y.contains(sep)) by {
            if y.contains(sep) {
                let j = choose|j: int| 0 <= j < y.len() && y[j] == sep;
                assert(x[j] == sep);
            }
        }
        assert(c != sep) by {
            assert(x[x.len() - 1] == c);
        }
        lemma_split_after_sep(t, sep, y);
        let whole = t + seq![sep] + x;
        assert(whole.drop_last() =~= t + seq![sep] + y);
        assert(whole.last() == c);
        let p = split_on(t + seq![sep] + y, sep);
        assert(split_on(whole, sep) == p.update(p.len() - 1, p.last().push(c)));
        assert(p == split_on(t, sep).push(y));
        assert(p.last() == y);
        assert(y.push(c) =~= x);
        assert(p.update(p.len() - 1, p.last().push(c)) =~= split_on(t, sep).push(x));
    }
}

/// Law: joining loses nothing: when no part holds the separator,
/// splitting the joined text at the separator gives back the parts, in
/// order.
pub proof fn lemma_join_then_split(parts: Seq<Seq<char>>, sep: char)
    requires
        parts.len() >= 1,
        forall|i: int| 0 <= i < parts.len() ==> !(#[trigger] parts[i]).contains(sep),
    ensures
        split_on(join_with(parts, seq![sep]), sep) == parts,
    decreases parts.len(),
{
    if parts.len() == 1 {
        lemma_split_plain(parts[0], sep);
        assert(seq![parts[0]] =~= parts);
    } else {
        let q = parts.drop_last();
        assert forall|i: int| 0 <= i < q.len() implies !(#[trigger] q[i]).contains(sep) by {
            assert(q[i] == parts[i]);
        }
        lemma_join_then_split(q, sep);
        assert(!parts.last().contains(sep)) by {
            assert(parts[parts.len() - 1] == parts.last());
        }
        lemma_split_after_sep(join_with(q, seq![sep]), sep, parts.last());
        assert(q.push(parts.last()) =~= parts);
    }
}

/// The volume servers named in a comma-separated list.
pub fn split_volumes(pvolumes: &str) -> (volumes: Vec<String>)
    ensures
        names(volumes@) == split_on(pvolumes@, ','),
        volumes@.len() >= 1,
        join_with(names(volumes@), seq![',']) == pvolumes@,
        forall|i: int| 0 <= i < volumes@.len() ==> !(#[trigger] names(volumes@)[i]).contains(','),
        volumes@.len() == occurrences(pvolumes@, ',') + 1,
{
    proof {
        lemma_split_nonempty(pvolumes@, ',');
        lemma_split_then_join(pvolumes@, ',');
    }
    let n = pvolumes.unicode_len();
    let mut volumes: Vec<String> = Vec::new();
    let mut start: usize = 0;
    let mut i: usize = 0;
    assert(pvolumes@.take(0) =~= seq![]);
    assert(names(volumes@).push(pvolumes@.subrange(0, 0)) =~= split_on(pvolumes@.take(0), ','));
    while i < n
        invariant
            n == pvolumes@.len(),
            start <= i <= n,
            names(volumes@).push(pvolumes@.subrange(start as int, i as int)) == split_on(
                pvolumes@.take(i as int),
                ',',
            ),
        decreases n - i,
    {
        let c = pvolumes.get_char(i);
        let ghost prefix = pvolumes@.take(i as int);
        let ghost before = names(volumes@);
        assert(pvolumes@.take(i + 1).drop_last() =~= prefix);
        assert(pvolumes@.take(i + 1).last() == c);
        if c == ',' {
            let ghost piece_begin = start;
            let piece = pvolumes.substring_char(start, i);
            volumes.push(piece.to_owned());
            start = i + 1;
            assert(names(volumes@) =~= before.push(pvolumes@.subrange(piece_begin as int, i as int)));
            assert(pvolumes@.subrange(start as int, i + 1) =~= seq![]);
        } else {
            assert(pvolumes@.subrange(start as int, i + 1) =~= pvolumes@.subrange(
                start as int,
                i as int,
            ).push(c));
        }
        i = i + 1;
    }
    let last = pvolumes.substring_char(start, n);
    let ghost before = names(volumes@);
    volumes.push(last.to_owned());
    assert(pvolumes@.take(n as int) =~= pvolumes@);
    assert(names(volumes@) =~= before.push(pvolumes@.subrange(start as int, n as int)));
    volumes
}

/// Why settings are refused.
#[derive(Debug, Clone, Copy, PartialEq, Eq, Structural)]
pub enum SettingsError {
    /// No volume server is named.
    NoVolumes,
    /// Zero replicas per key.
    NoReplicas,
    /// More replicas per key than volume servers.
    TooFewVolumes { nreplicas: usize, volumes: usize },
}

/// Checks the replica count against the number of volume servers.
pub fn check_settings(volume_count: usize, nreplicas: usize) -> (checked: Result<(), SettingsError>)
    ensures
        volume_count == 0 ==> checked == Err::<(), SettingsError>(SettingsError::NoVolumes),
        volume_count > 0 && nreplicas == 0 ==> checked == Err::<(), SettingsError>(
            SettingsError::NoReplicas,
        ),
        volume_count > 0 && nreplicas > volume_count ==> checked == Err::<(), SettingsError>(
            SettingsError::TooFewVolumes { nreplicas, volumes: volume_count },
        ),
        0 < nreplicas <= volume_count ==> checked == Ok::<(), SettingsError>(()),
{
    if volume_count == 0 {
        Err(SettingsError::NoVolumes)
    } else if nreplicas == 0 {
        Err(SettingsError::NoReplicas)
    } else if nreplicas > volume_count {
        Err(SettingsError::TooFewVolumes { nreplicas, volumes: volume_count })
    } else {
        Ok(())
    }
}

/// What a write of a key does: record it as being written on `volumes`,
/// send the blob to `urls`, then record it as live on the same volumes.
#[derive(Debug)]
pub struct WritePlan {
    pub volumes: Vec<String>,
    pub urls: Vec<String>,
    pub pending: Record,
    pub committed: Record,
}

/// A copy of a list of texts.
fn copy_texts(texts: &Vec<String>) -> (copy: Vec<String>)
    ensures
        names(copy@) == names(texts@),
{
    let mut copy: Vec<String> = Vec::new();
    let mut i: usize = 0;
    while i < texts.len()
        invariant
            i <= texts@.len(),
            copy@.len() == i,
            forall|j: int| 0 <= j < i ==> (#[trigger] copy@[j])@ == texts@[j]@,
        decreases texts@.len() - i,
    {
        copy.push(texts[i].clone());
        i = i + 1;
    }
    assert(names(copy@) =~= names(texts@));
    copy
}

impl App {
    /// Plans the write of `key`: its replicas go to the volumes that
    /// `select_volumes_by_key` picks; both records name those volumes and
    /// an empty content hash.
    pub fn replica_write_plan(&self, key: &str) -> (plan: WritePlan)
        requires
            self.nreplicas <= self.volumes@.len(),
            self.nsub > 0,
            self.nreplicas == 0 || self.nsub as u32 != 0,
        ensures
            names(plan.volumes@) == selection(
                key@,
                names(self.volumes@),
                self.nreplicas as nat,
                self.nsub,
            ),
            names(plan.urls@) == names(plan.volumes@).map_values(|v: Seq<char>| replica_url(v, key@)),
            plan.pending.deleted == Deleted::soft(),
            names(plan.pending.replica_volumes@) == names(plan.volumes@),
            plan.pending.content_hash@ == Seq::<char>::empty(),
            plan.committed.deleted == Deleted::no(),
            names(plan.committed.replica_volumes@) == names(plan.volumes@),
            plan.committed.content_hash@ == Seq::<char>::empty(),
    {
        let kvolumes = select_volumes_by_key(key, self.volumes.as_slice(), self.nreplicas, self.nsub);
        let urls = replica_urls(&kvolumes, key);
        let pending = Record {
            replica_volumes: copy_texts(&kvolumes),
            deleted: Deleted::soft(),
            content_hash: String::new(),
        };
        let committed = Record {
            replica_volumes: copy_texts(&kvolumes),
            deleted: Deleted::no(),
            content_hash: String::new(),
        };
        WritePlan { volumes: kvolumes, urls, pending, committed }
    }
}

/// Law: while its blob is being written a key reads as absent and may be
/// written again; once recorded live it reads as present and a second
/// write is refused.
pub proof fn lemma_write_states(pending: Record, committed: Record)
    requires
        pending.deleted == Deleted::soft(),
        committed.deleted == Deleted::no(),
    ensures
        pending.hidden() && !pending.live(),
        committed.live() && !committed.hidden(),
{
}

} // verus!
