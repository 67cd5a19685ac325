//! The object model: tree entries, commit records, their mathematical
//! models, the content hash, and the fixed serialization layout from which
//! object hashes are derived.

use vstd::prelude::*;
use crate::patterns::push_range;

verus! {

// ---------------------------------------------------------------------------
// Content hash
// ---------------------------------------------------------------------------

/// Seed of the polynomial content hash.
pub const HASH_SEED: u64 = 0xcbf29ce484222325;

/// Multiplier of the polynomial content hash.
pub const HASH_PRIME: u64 = 0x100000001b3;

/// The object hash of a byte sequence: a deterministic function of the
/// serialized content, so two objects with identical bytes share a hash.
pub open spec fn hash_bytes(s: Seq<u8>) -> u64
    decreases s.len(),
{
    if s.len() == 0 {
        HASH_SEED
    } else {
        vstd::wrapping::u64_specs::wrapping_mul(hash_bytes(s.drop_last()) ^ (s.last() as u64), HASH_PRIME)
    }
}

/// Compute the content hash of serialized object bytes.
pub fn object_hash(bytes: &[u8]) -> (h: u64)
    ensures
        h == hash_bytes(bytes@),
{
    let n = bytes.len();
    let mut h: u64 = HASH_SEED;
    let mut i: usize = 0;
    while i < n
        invariant
            n == bytes@.len(),
            i <= n,
            h == hash_bytes(bytes@.subrange(0, i as int)),
        decreases n - i,
    {
        h = (h ^ (bytes[i] as u64)).wrapping_mul(HASH_PRIME);
        proof {
            assert(bytes@.subrange(0, i as int + 1).drop_last() =~= bytes@.subrange(0, i as int));
            assert(bytes@.subrange(0, i as int + 1).last() == bytes@[i as int]);
        }
        i = i + 1;
    }
    proof {
        assert(bytes@.subrange(0, n as int) =~= bytes@);
    }
    h
}

// ---------------------------------------------------------------------------
// Trees
// ---------------------------------------------------------------------------

/// One entry of a tree object. `hash` is the content hash of the target
/// object. A directory entry also carries its subtree, materialized.
pub struct TreeEntry {
    pub mode: Vec<u8>,
    pub name: Vec<u8>,
    pub hash: u64,
    pub target: EntryTarget,
}

/// What a tree entry points at: a blob, or a subtree.
pub enum EntryTarget {
    Blob,
    Dir(Vec<TreeEntry>),
}

/// Mathematical model of a tree entry.
pub struct EntryModel {
    pub mode: Seq<u8>,
    pub name: Seq<u8>,
    pub hash: u64,
    pub target: TargetModel,
}

pub enum TargetModel {
    Blob,
    Dir(Seq<EntryModel>),
}

pub open spec fn entry_model(e: TreeEntry) -> EntryModel
    decreases e,
{
    EntryModel {
        mode: e.mode@,
        name: e.name@,
        hash: e.hash,
        target: match e.target {
            EntryTarget::Blob => TargetModel::Blob,
            EntryTarget::Dir(sub) => TargetModel::Dir(entries_model(sub@)),
        },
    }
}

pub open spec fn entries_model(s: Seq<TreeEntry>) -> Seq<EntryModel>
    decreases s,
{
    if s.len() == 0 {
        Seq::empty()
    } else {
        entries_model(s.drop_last()).push(entry_model(s.last()))
    }
}

pub proof fn lemma_entries_model_push(s: Seq<TreeEntry>, e: TreeEntry)
    ensures
        entries_model(s.push(e)) == entries_model(s).push(entry_model(e)),
{
    assert(s.push(e).drop_last() =~= s);
    assert(s.push(e).last() == e);
    assert(entries_model(s.push(e)) =~= entries_model(s).push(entry_model(e)));
}

pub proof fn lemma_entries_model(s: Seq<TreeEntry>)
    ensures
        entries_model(s).len() == s.len(),
        forall|i: int| 0 <= i < s.len() ==> entries_model(s)[i] == entry_model(s[i]),
    decreases s,
{
    if s.len() > 0 {
        lemma_entries_model(s.drop_last());
    }
}

// ---------------------------------------------------------------------------
// Tree serialization
// ---------------------------------------------------------------------------

pub const KIND_BLOB: u8 = 98;

pub const KIND_TREE: u8 = 116;

pub const SPACE: u8 = 32;

pub const NUL: u8 = 0;

/// Little-endian bytes of a 64-bit hash.
pub open spec fn u64_le_bytes(h: u64) -> Seq<u8> {
    seq![
        (h & 0xff) as u8,
        ((h >> 8) & 0xff) as u8,
        ((h >> 16) & 0xff) as u8,
        ((h >> 24) & 0xff) as u8,
        ((h >> 32) & 0xff) as u8,
        ((h >> 40) & 0xff) as u8,
        ((h >> 48) & 0xff) as u8,
        ((h >> 56) & 0xff) as u8,
    ]
}

proof fn lemma_byte_masks(h: u64)
    ensures
        h & 0xff < 256,
        (h >> 8) & 0xff < 256,
        (h >> 16) & 0xff < 256,
        (h >> 24) & 0xff < 256,
        (h >> 32) & 0xff < 256,
        (h >> 40) & 0xff < 256,
        (h >> 48) & 0xff < 256,
        (h >> 56) & 0xff < 256,
{
    assert(h & 0xff < 256) by (bit_vector);
    assert((h >> 8) & 0xff < 256) by (bit_vector);
    assert((h >> 16) & 0xff < 256) by (bit_vector);
    assert((h >> 24) & 0xff < 256) by (bit_vector);
    assert((h >> 32) & 0xff < 256) by (bit_vector);
    assert((h >> 40) & 0xff < 256) by (bit_vector);
    assert((h >> 48) & 0xff < 256) by (bit_vector);
    assert((h >> 56) & 0xff < 256) by (bit_vector);
}

/// Append the little-endian bytes of `h` onto `v`.
pub fn push_u64_le(v: &mut Vec<u8>, h: u64)
    ensures
        final(v)@ == old(v)@ + u64_le_bytes(h),
{
    proof {
        lemma_byte_masks(h);
    }
    v.push((h & 0xff) as u8);
    v.push(((h >> 8) & 0xff) as u8);
    v.push(((h >> 16) & 0xff) as u8);
    v.push(((h >> 24) & 0xff) as u8);
    v.push(((h >> 32) & 0xff) as u8);
    v.push(((h >> 40) & 0xff) as u8);
    v.push(((h >> 48) & 0xff) as u8);
    v.push(((h >> 56) & 0xff) as u8);
    proof {
        assert(v@ =~= old(v)@ + u64_le_bytes(h));
    }
}

/// The 64-bit value read back from eight little-endian bytes.
pub open spec fn u64_from_le_bytes(s: Seq<u8>) -> u64
    recommends
        s.len() == 8,
{
    (s[0] as u64) | ((s[1] as u64) << 8) | ((s[2] as u64) << 16) | ((s[3] as u64) << 24) | ((
    s[4] as u64) << 32) | ((s[5] as u64) << 40) | ((s[6] as u64) << 48) | ((s[7] as u64) << 56)
}

/// Writing a hash as bytes and reading it back round-trips.
pub proof fn lemma_u64_le_round_trip(h: u64)
    ensures
        u64_from_le_bytes(u64_le_bytes(h)) == h,
{
    let s = u64_le_bytes(h);
    assert(s[0] == (h & 0xff) as u8);
    assert(s[1] == ((h >> 8) & 0xff) as u8);
    assert(s[2] == ((h >> 16) & 0xff) as u8);
    assert(s[3] == ((h >> 24) & 0xff) as u8);
    assert(s[4] == ((h >> 32) & 0xff) as u8);
    assert(s[5] == ((h >> 40) & 0xff) as u8);
    assert(s[6] == ((h >> 48) & 0xff) as u8);
    assert(s[7] == ((h >> 56) & 0xff) as u8);
    assert((((h & 0xff) as u8) as u64) | ((((h >> 8) & 0xff) as u8 as u64) << 8) | ((((h >> 16)
        & 0xff) as u8 as u64) << 16) | ((((h >> 24) & 0xff) as u8 as u64) << 24) | ((((h >> 32)
        & 0xff) as u8 as u64) << 32) | ((((h >> 40) & 0xff) as u8 as u64) << 40) | ((((h >> 48)
        & 0xff) as u8 as u64) << 48) | ((((h >> 56) & 0xff) as u8 as u64) << 56) == h)
        by (bit_vector);
}

/// Read the 64-bit value stored at `at` in little-endian order.
pub fn read_u64_le(bytes: &[u8], at: usize) -> (r: u64)
    requires
        at + 8 <= bytes@.len(),
    ensures
        r == u64_from_le_bytes(bytes@.subrange(at as int, at as int + 8)),
{
    let r = (bytes[at] as u64) | ((bytes[at + 1] as u64) << 8u64) | ((bytes[at + 2] as u64)
        << 16u64) | ((bytes[at + 3] as u64) << 24u64) | ((bytes[at + 4] as u64) << 32u64) | ((
    bytes[at + 5] as u64) << 40u64) | ((bytes[at + 6] as u64) << 48u64) | ((bytes[at + 7] as u64)
        << 56u64);
    proof {
        let s = bytes@.subrange(at as int, at as int + 8);
        assert(s[0] == bytes@[at as int]);
        assert(s[1] == bytes@[at as int + 1]);
        assert(s[2] == bytes@[at as int + 2]);
        assert(s[3] == bytes@[at as int + 3]);
        assert(s[4] == bytes@[at as int + 4]);
        assert(s[5] == bytes@[at as int + 5]);
        assert(s[6] == bytes@[at as int + 6]);
        assert(s[7] == bytes@[at as int + 7]);
    }
    r
}

pub open spec fn entry_kind_byte(t: TargetModel) -> u8 {
    match t {
        TargetModel::Blob => KIND_BLOB,
        TargetModel::Dir(_) => KIND_TREE,
    }
}

/// Serialized form of one tree entry:
/// kind byte, mode, space, name, NUL, target hash.
pub open spec fn entry_bytes(e: EntryModel) -> Seq<u8> {
    seq![entry_kind_byte(e.target)] + e.mode + seq![SPACE] + e.name + seq![NUL] + u64_le_bytes(e.hash)
}

/// Serialized form of an ordered entry list, in list order.
pub open spec fn tree_bytes(s: Seq<EntryModel>) -> Seq<u8>
    decreases s.len(),
{
    if s.len() == 0 {
        Seq::empty()
    } else {
        tree_bytes(s.drop_last()) + entry_bytes(s.last())
    }
}

/// Serialize an ordered tree entry list, preserving order. An empty list
/// serializes as a valid (empty) tree object.
pub fn serialize_tree(entries: &Vec<TreeEntry>) -> (out: Vec<u8>)
    ensures
        out@ == tree_bytes(entries_model(entries@)),
{
    let ghost em = entries_model(entries@);
    proof {
        lemma_entries_model(entries@);
    }
    let mut out: Vec<u8> = Vec::new();
    let n = entries.len();
    let mut i: usize = 0;
    while i < n
        invariant
            n == entries@.len(),
            em == entries_model(entries@),
            i <= n,
            out@ == tree_bytes(em.subrange(0, i as int)),
        decreases n - i,
    {
        proof {
            lemma_entries_model(entries@);
        }
        let ghost out0 = out@;
        let e = &entries[i];
        match &e.target {
            EntryTarget::Blob => out.push(KIND_BLOB),
            EntryTarget::Dir(_) => out.push(KIND_TREE),
        }
        push_range(&mut out, e.mode.as_slice(), 0, e.mode.len());
        out.push(SPACE);
        push_range(&mut out, e.name.as_slice(), 0, e.name.len());
        out.push(NUL);
        push_u64_le(&mut out, e.hash);
        proof {
            assert(e.mode@.subrange(0, e.mode@.len() as int) =~= e.mode@);
            assert(e.name@.subrange(0, e.name@.len() as int) =~= e.name@);
            assert(em[i as int] == entry_model(entries@[i as int]));
            assert(out@ =~= out0 + entry_bytes(em[i as int]));
            assert(em.subrange(0, i as int + 1).drop_last() =~= em.subrange(0, i as int));
            assert(em.subrange(0, i as int + 1).last() == em[i as int]);
        }
        i = i + 1;
    }
    proof {
        assert(em.subrange(0, n as int) =~= em);
    }
    out
}

// ---------------------------------------------------------------------------
// Commits
// ---------------------------------------------------------------------------

/// A commit record: the tree hash, the ordered parent hashes, authorship
/// metadata, and the message. The commit's own hash is derived from the
/// serialized record, never stored in it.
pub struct CommitRecord {
    pub tree: u64,
    pub parents: Vec<u64>,
    pub author: Vec<u8>,
    pub committer: Vec<u8>,
    pub message: Vec<u8>,
}

/// Mathematical model of a commit record.
pub struct CommitModel {
    pub tree: u64,
    pub parents: Seq<u64>,
    pub author: Seq<u8>,
    pub committer: Seq<u8>,
    pub message: Seq<u8>,
}

impl View for CommitRecord {
    type V = CommitModel;

    open spec fn view(&self) -> CommitModel {
        CommitModel {
            tree: self.tree,
            parents: self.parents@,
            author: self.author@,
            committer: self.committer@,
            message: self.message@,
        }
    }
}

pub open spec fn parents_bytes(ps: Seq<u64>) -> Seq<u8>
    decreases ps.len(),
{
    if ps.len() == 0 {
        Seq::empty()
    } else {
        parents_bytes(ps.drop_last()) + u64_le_bytes(ps.last())
    }
}

/// Serialized form of a commit record: tree hash, parent count, parent
/// hashes, length-prefixed author and committer, then the message.
pub open spec fn commit_bytes(c: CommitModel) -> Seq<u8> {
    u64_le_bytes(c.tree) + u64_le_bytes(c.parents.len() as u64) + parents_bytes(c.parents)
        + u64_le_bytes(c.author.len() as u64) + c.author
        + u64_le_bytes(c.committer.len() as u64) + c.committer
        + c.message
}

pub proof fn lemma_parents_bytes_len(ps: Seq<u64>)
    ensures
        parents_bytes(ps).len() == 8 * ps.len(),
    decreases ps.len(),
{
    if ps.len() > 0 {
        lemma_parents_bytes_len(ps.drop_last());
    }
}

pub proof fn lemma_parents_bytes_index(ps: Seq<u64>, k: int)
    requires
        0 <= k < ps.len(),
    ensures
        parents_bytes(ps).subrange(8 * k, 8 * k + 8) == u64_le_bytes(ps[k]),
    decreases ps.len(),
{
    lemma_parents_bytes_len(ps);
    lemma_parents_bytes_len(ps.drop_last());
    if k == ps.len() - 1 {
        assert(parents_bytes(ps).subrange(8 * k, 8 * k + 8) =~= u64_le_bytes(ps.last()));
    } else {
        lemma_parents_bytes_index(ps.drop_last(), k);
        assert(parents_bytes(ps).subrange(8 * k, 8 * k + 8) =~= parents_bytes(
            ps.drop_last(),
        ).subrange(8 * k, 8 * k + 8));
    }
}

/// Parse of the fixed commit byte layout; `None` when the bytes are not a
/// well-formed record.
pub open spec fn spec_parse_commit(s: Seq<u8>) -> Option<CommitModel> {
    if s.len() < 16 {
        None
    } else {
        let tree = u64_from_le_bytes(s.subrange(0, 8));
        let pcount = u64_from_le_bytes(s.subrange(8, 16)) as int;
        if s.len() - 16 < 8 * pcount {
            None
        } else {
            let pend = 16 + 8 * pcount;
            if s.len() - pend < 8 {
                None
            } else {
                let alen = u64_from_le_bytes(s.subrange(pend, pend + 8)) as int;
                if s.len() - pend - 8 < alen {
                    None
                } else {
                    let aend = pend + 8 + alen;
                    if s.len() - aend < 8 {
                        None
                    } else {
                        let clen = u64_from_le_bytes(s.subrange(aend, aend + 8)) as int;
                        if s.len() - aend - 8 < clen {
                            None
                        } else {
                            let cstart = aend + 8;
                            Some(CommitModel {
                                tree,
                                parents: Seq::new(pcount as nat, |k: int| u64_from_le_bytes(
                                    s.subrange(16 + 8 * k, 16 + 8 * k + 8),
                                )),
                                author: s.subrange(pend + 8, aend),
                                committer: s.subrange(cstart, cstart + clen),
                                message: s.subrange(cstart + clen, s.len() as int),
                            })
                        }
                    }
                }
            }
        }
    }
}

/// Read a commit record back from its serialized bytes.
pub fn parse_commit(bytes: &[u8]) -> (r: Option<CommitRecord>)
    ensures
        (match r {
            Some(rec) => spec_parse_commit(bytes@) == Some(rec@),
            None => spec_parse_commit(bytes@) is None,
        }),
{
    let n = bytes.len();
    if n < 16 {
        return None;
    }
    let tree = read_u64_le(bytes, 0);
    let pcount64 = read_u64_le(bytes, 8);
    if pcount64 > ((n - 16) / 8) as u64 {
        proof {
            assert(8 * (((n - 16) as int) / 8) <= (n - 16) as int);
        }
        return None;
    }
    let pcount = pcount64 as usize;
    proof {
        assert(8 * pcount as int <= (n - 16) as int);
    }
    let pend = 16 + 8 * pcount;
    let mut parents: Vec<u64> = Vec::new();
    let mut k: usize = 0;
    while k < pcount
        invariant
            n == bytes@.len(),
            pend == 16 + 8 * pcount,
            pend <= n,
            k <= pcount,
            parents@.len() == k,
            forall|i: int| 0 <= i < k ==> parents@[i] == u64_from_le_bytes(
                bytes@.subrange(16 + 8 * i, 16 + 8 * i + 8),
            ),
        decreases pcount - k,
    {
        let p = read_u64_le(bytes, 16 + 8 * k);
        parents.push(p);
        k = k + 1;
    }
    if n - pend < 8 {
        return None;
    }
    let alen64 = read_u64_le(bytes, pend);
    if alen64 > (n - pend - 8) as u64 {
        return None;
    }
    let alen = alen64 as usize;
    let aend = pend + 8 + alen;
    let author = crate::patterns::subrange_to_vec(bytes, pend + 8, aend);
    if n - aend < 8 {
        return None;
    }
    let clen64 = read_u64_le(bytes, aend);
    if clen64 > (n - aend - 8) as u64 {
        return None;
    }
    let clen = clen64 as usize;
    let cstart = aend + 8;
    let committer = crate::patterns::subrange_to_vec(bytes, cstart, cstart + clen);
    let message = crate::patterns::subrange_to_vec(bytes, cstart + clen, n);
    let rec = CommitRecord { tree, parents, author, committer, message };
    proof {
        let m = spec_parse_commit(bytes@);
        assert(m is Some);
        assert(rec@.parents =~= m->Some_0.parents);
        assert(rec@ == m->Some_0);
    }
    Some(rec)
}

/// Serialize a commit record into the fixed byte layout.
pub fn serialize_commit(c: &CommitRecord) -> (out: Vec<u8>)
    ensures
        out@ == commit_bytes(c@),
{
    let mut out: Vec<u8> = Vec::new();
    push_u64_le(&mut out, c.tree);
    push_u64_le(&mut out, c.parents.len() as u64);
    let n = c.parents.len();
    let mut i: usize = 0;
    while i < n
        invariant
            n == c.parents@.len(),
            i <= n,
            out@ == u64_le_bytes(c@.tree) + u64_le_bytes(c@.parents.len() as u64) + parents_bytes(c@.parents.subrange(0, i as int)),
        decreases n - i,
    {
        push_u64_le(&mut out, c.parents[i]);
        proof {
            assert(c@.parents.subrange(0, i as int + 1).drop_last() =~= c@.parents.subrange(0, i as int));
            assert(c@.parents.subrange(0, i as int + 1).last() == c@.parents[i as int]);
            assert(out@ =~= u64_le_bytes(c@.tree) + u64_le_bytes(c@.parents.len() as u64) + parents_bytes(c@.parents.subrange(0, i as int + 1)));
        }
        i = i + 1;
    }
    proof {
        assert(c@.parents.subrange(0, n as int) =~= c@.parents);
    }
    push_u64_le(&mut out, c.author.len() as u64);
    push_range(&mut out, c.author.as_slice(), 0, c.author.len());
    push_u64_le(&mut out, c.committer.len() as u64);
    push_range(&mut out, c.committer.as_slice(), 0, c.committer.len());
    push_range(&mut out, c.message.as_slice(), 0, c.message.len());
    proof {
        assert(c.author@.subrange(0, c.author@.len() as int) =~= c.author@);
        assert(c.committer@.subrange(0, c.committer@.len() as int) =~= c.committer@);
        assert(c.message@.subrange(0, c.message@.len() as int) =~= c.message@);
        assert(out@ =~= commit_bytes(c@));
    }
    out
}

/// Parsing inverts serialization: reading a serialized record back yields
/// the record itself, byte-for-byte.
pub proof fn lemma_commit_round_trip(c: CommitModel)
    requires
        c.parents.len() < 0x1_0000_0000_0000_0000,
        c.author.len() < 0x1_0000_0000_0000_0000,
        c.committer.len() < 0x1_0000_0000_0000_0000,
    ensures
        spec_parse_commit(commit_bytes(c)) == Some(c),
{
    let b = commit_bytes(c);
    let p = c.parents.len() as int;
    let alen = c.author.len() as int;
    let clen = c.committer.len() as int;
    let pend = 16 + 8 * p;
    let aend = pend + 8 + alen;
    let cstart = aend + 8;
    lemma_parents_bytes_len(c.parents);
    assert(b.len() == cstart + clen + c.message.len());
    assert(b.subrange(0, 8) =~= u64_le_bytes(c.tree));
    lemma_u64_le_round_trip(c.tree);
    assert(b.subrange(8, 16) =~= u64_le_bytes(c.parents.len() as u64));
    lemma_u64_le_round_trip(c.parents.len() as u64);
    assert(u64_from_le_bytes(b.subrange(8, 16)) as int == p);
    assert(b.subrange(pend, pend + 8) =~= u64_le_bytes(c.author.len() as u64));
    lemma_u64_le_round_trip(c.author.len() as u64);
    assert(u64_from_le_bytes(b.subrange(pend, pend + 8)) as int == alen);
    assert(b.subrange(aend, aend + 8) =~= u64_le_bytes(c.committer.len() as u64));
    lemma_u64_le_round_trip(c.committer.len() as u64);
    assert(u64_from_le_bytes(b.subrange(aend, aend + 8)) as int == clen);
    let m = spec_parse_commit(b);
    assert(m is Some);
    let mm = m->Some_0;
    assert(mm.tree == c.tree);
    assert forall|k: int| 0 <= k < p implies mm.parents[k] == c.parents[k] by {
        lemma_parents_bytes_index(c.parents, k);
        assert(b.subrange(16 + 8 * k, 16 + 8 * k + 8) =~= parents_bytes(c.parents).subrange(
            8 * k,
            8 * k + 8,
        ));
        lemma_u64_le_round_trip(c.parents[k]);
    }
    assert(mm.parents =~= c.parents);
    assert(mm.author =~= c.author);
    assert(mm.committer =~= c.committer);
    assert(mm.message =~= c.message);
    assert(mm == c);
}

/// Compare two commit records field for field.
pub fn commit_records_equal(a: &CommitRecord, b: &CommitRecord) -> (r: bool)
    ensures
        r == (a@ == b@),
{
    if a.tree != b.tree {
        return false;
    }
    if a.parents.len() != b.parents.len() {
        proof {
            assert(a@.parents.len() != b@.parents.len());
        }
        return false;
    }
    let n = a.parents.len();
    let mut i: usize = 0;
    while i < n
        invariant
            n == a.parents@.len() == b.parents@.len(),
            i <= n,
            forall|j: int| 0 <= j < i ==> a.parents@[j] == b.parents@[j],
        decreases n - i,
    {
        if a.parents[i] != b.parents[i] {
            return false;
        }
        i = i + 1;
    }
    proof {
        assert(a.parents@ =~= b.parents@);
    }
    let r = crate::patterns::bytes_eq(a.author.as_slice(), b.author.as_slice())
        && crate::patterns::bytes_eq(a.committer.as_slice(), b.committer.as_slice())
        && crate::patterns::bytes_eq(a.message.as_slice(), b.message.as_slice());
    r
}

/// Dry-run validation of one rewritten record: serialize it and read it
/// back. The result is always `true` — parsing inverts serialization — so
/// a round-trip mismatch can only signal a corrupted record and is treated
/// as fatal by callers.
pub fn serialization_round_trips(c: &CommitRecord) -> (b: bool)
    ensures
        b,
{
    let plen = c.parents.len();
    let alen = c.author.len();
    let clen = c.committer.len();
    proof {
        assert(c@.parents.len() == plen as int);
        lemma_commit_round_trip(c@);
    }
    let bytes = serialize_commit(c);
    match parse_commit(bytes.as_slice()) {
        Some(p) => commit_records_equal(&p, c),
        None => false,
    }
}

} // verus!
