//! The commit pipeline: consumes all commits oldest-first (every parent
//! before any child), rewrites each commit's tree, remaps parent hashes
//! through the remap table, hands rewritten objects to persistence, and —
//! after the whole traversal succeeded — repoints every ref whose target
//! was rewritten. A dry run performs the identical compute pass and leaves
//! the store and the refs untouched.

use vstd::prelude::*;
use crate::objects::{
    CommitModel, CommitRecord, EntryModel, TreeEntry, commit_bytes, entries_model, hash_bytes,
    object_hash, serialize_commit,
};
use crate::patterns::{FilePattern, FilePatterns, FolderPattern, FolderPatterns};
use crate::rewrite::{
    NewObject, clone_bytes, lemma_objects_model_append, lemma_objects_model_push,
    objects_model, rewrite_tree, root_path, spec_rewrite_entries, spec_rewrite_root,
};
use crate::table::{RemapTable, table_model};

verus! {

// ---------------------------------------------------------------------------
// Inputs
// ---------------------------------------------------------------------------

/// One commit as fed to the pipeline: its original hash, its record, and
/// the materialized tree of the record's tree hash.
pub struct CommitInput {
    pub hash: u64,
    pub record: CommitRecord,
    pub tree: Vec<TreeEntry>,
}

/// Mathematical model of a commit input.
pub struct CommitInputModel {
    pub hash: u64,
    pub record: CommitModel,
    pub tree: Seq<EntryModel>,
}

impl View for CommitInput {
    type V = CommitInputModel;

    open spec fn view(&self) -> CommitInputModel {
        CommitInputModel { hash: self.hash, record: self.record@, tree: entries_model(self.tree@) }
    }
}

pub open spec fn inputs_model(s: Seq<CommitInput>) -> Seq<CommitInputModel> {
    Seq::new(s.len(), |i: int| s[i]@)
}

/// Whether parent `k` of commit `j` is the hash of a strictly earlier
/// commit.
pub open spec fn parent_has_earlier(cs: Seq<CommitInputModel>, j: int, k: int) -> bool {
    exists|l: int| 0 <= l < j && cs[l].hash == cs[j].record.parents[k]
}

/// Oldest-first topological order: every parent of a commit appears
/// earlier in the sequence.
pub open spec fn parents_before(cs: Seq<CommitInputModel>) -> bool {
    forall|j: int, k: int|
        0 <= j < cs.len() && 0 <= k < cs[j].record.parents.len() ==> #[trigger] parent_has_earlier(
            cs,
            j,
            k,
        )
}

/// No two commits share a hash.
pub open spec fn distinct_hashes(cs: Seq<CommitInputModel>) -> bool {
    forall|j1: int, j2: int| 0 <= j1 < j2 < cs.len() ==> cs[j1].hash != cs[j2].hash
}

// ---------------------------------------------------------------------------
// Pipeline model
// ---------------------------------------------------------------------------

/// Remap one parent hash: substitute when the table has an entry, keep the
/// original otherwise (absence means the parent is known unchanged).
pub open spec fn remap_parent(t: Map<u64, u64>, p: u64) -> u64 {
    if t.dom().contains(p) {
        t[p]
    } else {
        p
    }
}

pub open spec fn spec_remap_parents(t: Map<u64, u64>, ps: Seq<u64>) -> Seq<u64> {
    ps.map_values(|p: u64| remap_parent(t, p))
}

pub open spec fn spec_any_parent_mapped(t: Map<u64, u64>, ps: Seq<u64>) -> bool {
    exists|i: int| 0 <= i < ps.len() && t.dom().contains(ps[i])
}

/// One emitted rewrite: the original commit hash, the rewritten record and
/// its new hash.
pub struct EmitModel {
    pub old_hash: u64,
    pub new_hash: u64,
    pub record: CommitModel,
}

/// Everything a pipeline pass produces: the final remap table, the emitted
/// records in emission order, and the new objects (trees, then each commit)
/// in persistence order.
pub struct PipelineModel {
    pub table: Map<u64, u64>,
    pub emitted: Seq<EmitModel>,
    pub objects: Seq<(u64, Seq<u8>)>,
}

/// One pipeline step. A commit whose tree rewrite reports no change and
/// none of whose parents is remapped is left entirely alone: no table
/// entry, no emission. Otherwise the new record keeps the original author,
/// committer and message, takes the rewritten tree hash (or the original
/// when the tree was unchanged) and the remapped parent list; its hash is
/// derived from its serialized bytes and recorded in the table.
pub open spec fn spec_step(
    acc: PipelineModel,
    c: CommitInputModel,
    fps: Seq<FilePattern>,
    dps: Seq<FolderPattern>,
) -> PipelineModel {
    let tr = spec_rewrite_root(c.tree, fps, dps);
    let pchanged = spec_any_parent_mapped(acc.table, c.record.parents);
    if tr is None && !pchanged {
        acc
    } else {
        let ntree = if tr is Some {
            tr->Some_0.hash
        } else {
            c.record.tree
        };
        let nrec = CommitModel {
            tree: ntree,
            parents: spec_remap_parents(acc.table, c.record.parents),
            author: c.record.author,
            committer: c.record.committer,
            message: c.record.message,
        };
        let nbytes = commit_bytes(nrec);
        let nh = hash_bytes(nbytes);
        let tree_objs = if tr is Some {
            tr->Some_0.objects
        } else {
            Seq::<(u64, Seq<u8>)>::empty()
        };
        PipelineModel {
            table: acc.table.insert(c.hash, nh),
            emitted: acc.emitted.push(EmitModel { old_hash: c.hash, new_hash: nh, record: nrec }),
            objects: acc.objects + tree_objs + seq![(nh, nbytes)],
        }
    }
}

/// The whole pass, oldest first.
pub open spec fn spec_pipeline(
    cs: Seq<CommitInputModel>,
    fps: Seq<FilePattern>,
    dps: Seq<FolderPattern>,
) -> PipelineModel
    decreases cs.len(),
{
    if cs.len() == 0 {
        PipelineModel { table: Map::empty(), emitted: Seq::empty(), objects: Seq::empty() }
    } else {
        spec_step(spec_pipeline(cs.drop_last(), fps, dps), cs.last(), fps, dps)
    }
}

// ---------------------------------------------------------------------------
// Store and refs
// ---------------------------------------------------------------------------

/// The content-addressed object store: an append-only log of serialized
/// objects keyed by their content hash.
pub struct ObjectStore {
    pub objects: Vec<NewObject>,
}

/// A named ref (branch or tag) pointing at a commit hash.
pub struct RefBinding {
    pub name: Vec<u8>,
    pub target: u64,
}

/// One emitted rewritten commit.
pub struct EmittedCommit {
    pub old_hash: u64,
    pub new_hash: u64,
    pub record: CommitRecord,
}

pub open spec fn emitted_model(v: Seq<EmittedCommit>) -> Seq<EmitModel> {
    Seq::new(v.len(), |i: int| EmitModel { old_hash: v[i].old_hash, new_hash: v[i].new_hash, record: v[i].record@ })
}

// ---------------------------------------------------------------------------
// The pass
// ---------------------------------------------------------------------------

/// Run one removal pass over all commits, oldest first. The compute pass is
/// the same with and without `dry_run`: the returned table and emissions
/// are a function of the inputs and patterns alone. A dry run leaves the
/// store and the refs untouched; a real run appends every new object to the
/// store and then repoints each ref whose target has a table entry.
pub fn run_removal(
    commits: &Vec<CommitInput>,
    fps: &FilePatterns,
    dps: &FolderPatterns,
    dry_run: bool,
    store: &mut ObjectStore,
    refs: &mut Vec<RefBinding>,
) -> (r: (RemapTable, Vec<EmittedCommit>))
    requires
        parents_before(inputs_model(commits@)),
        distinct_hashes(inputs_model(commits@)),
    ensures
        table_model(r.0) == spec_pipeline(inputs_model(commits@), fps.pats@, dps.pats@).table,
        emitted_model(r.1@) == spec_pipeline(inputs_model(commits@), fps.pats@, dps.pats@).emitted,
        dry_run ==> final(store).objects@ == old(store).objects@,
        dry_run ==> final(refs)@ == old(refs)@,
        !dry_run ==> objects_model(final(store).objects@) == objects_model(old(store).objects@)
            + spec_pipeline(inputs_model(commits@), fps.pats@, dps.pats@).objects,
        !dry_run ==> final(refs)@.len() == old(refs)@.len(),
        !dry_run ==> forall|x: int| 0 <= x < old(refs)@.len() ==> final(refs)@[x].name@ == old(
            refs,
        )@[x].name@ && final(refs)@[x].target == remap_parent(
            spec_pipeline(inputs_model(commits@), fps.pats@, dps.pats@).table,
            old(refs)@[x].target,
        ),
{
    let ghost im = inputs_model(commits@);
    let mut table = RemapTable::new();
    proof {
        table_model(table).dom().lemma_len0_is_empty();
        assert(table_model(table) =~= Map::<u64, u64>::empty());
    }
    let mut emitted: Vec<EmittedCommit> = Vec::new();
    let mut pending: Vec<NewObject> = Vec::new();
    let n = commits.len();
    let mut i: usize = 0;
    while i < n
        invariant
            n == commits@.len(),
            im == inputs_model(commits@),
            i <= n,
            ({
                let m = spec_pipeline(im.subrange(0, i as int), fps.pats@, dps.pats@);
                table_model(table) == m.table && emitted_model(emitted@) == m.emitted
                    && objects_model(pending@) == m.objects
            }),
        decreases n - i,
    {
        let ghost acc = spec_pipeline(im.subrange(0, i as int), fps.pats@, dps.pats@);
        proof {
            assert(im.subrange(0, i as int + 1).drop_last() =~= im.subrange(0, i as int));
            assert(im.subrange(0, i as int + 1).last() == im[i as int]);
        }
        let ghost tm = table_model(table);
        let c = &commits[i];
        proof {
            assert(im[i as int] == commits@[i as int]@);
        }
        let tr = rewrite_tree(&c.tree, fps, dps);
        let ps = &c.record.parents;
        let plen = ps.len();
        let mut new_parents: Vec<u64> = Vec::new();
        let mut pchanged: bool = false;
        let mut k: usize = 0;
        while k < plen
            invariant
                plen == ps@.len(),
                k <= plen,
                tm == table_model(table),
                new_parents@ == spec_remap_parents(tm, ps@.subrange(0, k as int)),
                pchanged == spec_any_parent_mapped(tm, ps@.subrange(0, k as int)),
            decreases plen - k,
        {
            let p = ps[k];
            match table.get(p) {
                Some(np) => {
                    new_parents.push(np);
                    pchanged = true;
                },
                None => {
                    new_parents.push(p);
                },
            }
            proof {
                let pre = ps@.subrange(0, k as int);
                let ext = ps@.subrange(0, k as int + 1);
                assert(spec_remap_parents(tm, ext) =~= spec_remap_parents(tm, pre).push(
                    remap_parent(tm, ps@[k as int]),
                ));
                assert(spec_any_parent_mapped(tm, ext) == (spec_any_parent_mapped(tm, pre)
                    || tm.dom().contains(ps@[k as int]))) by {
                    if spec_any_parent_mapped(tm, ext) {
                        let x = choose|x: int| 0 <= x < ext.len() && tm.dom().contains(ext[x]);
                        if x < k as int {
                            assert(pre[x] == ext[x]);
                            assert(spec_any_parent_mapped(tm, pre));
                        } else {
                            assert(ext[x] == ps@[k as int]);
                        }
                    }
                    if spec_any_parent_mapped(tm, pre) {
                        let x = choose|x: int| 0 <= x < pre.len() && tm.dom().contains(pre[x]);
                        assert(ext[x] == pre[x]);
                        assert(spec_any_parent_mapped(tm, ext));
                    }
                    if tm.dom().contains(ps@[k as int]) {
                        assert(ext[k as int] == ps@[k as int]);
                        assert(spec_any_parent_mapped(tm, ext));
                    }
                }
            }
            k = k + 1;
        }
        proof {
            assert(ps@.subrange(0, plen as int) =~= ps@);
        }
        let changed = pchanged || match &tr {
            Some(_) => true,
            None => false,
        };
        if changed {
            let ntree = match &tr {
                Some(u) => u.hash,
                None => c.record.tree,
            };
            let nrec = CommitRecord {
                tree: ntree,
                parents: new_parents,
                author: clone_bytes(&c.record.author),
                committer: clone_bytes(&c.record.committer),
                message: clone_bytes(&c.record.message),
            };
            let nbytes = serialize_commit(&nrec);
            let nh = object_hash(nbytes.as_slice());
            table.insert(c.hash, nh);
            let ghost pending0 = pending@;
            let ghost tree_objs: Seq<(u64, Seq<u8>)> = match tr {
                Some(ref u) => objects_model(u.objects@),
                None => Seq::empty(),
            };
            match tr {
                Some(u) => {
                    let mut tobjs = u.objects;
                    let ghost tobjs0 = tobjs@;
                    pending.append(&mut tobjs);
                    proof {
                        lemma_objects_model_append(pending0, tobjs0);
                    }
                },
                None => {},
            }
            let ghost pending1 = pending@;
            let gnob = NewObject { hash: nh, bytes: nbytes };
            let ghost gnobg = gnob;
            pending.push(gnob);
            let ghost emitted0 = emitted@;
            let ghost gnrec = nrec;
            emitted.push(EmittedCommit { old_hash: c.hash, new_hash: nh, record: nrec });
            proof {
                lemma_objects_model_push(pending1, gnobg);
                assert(objects_model(pending@) =~= acc.objects + tree_objs + seq![
                    (nh, gnobg.bytes@),
                ]);
                assert(emitted_model(emitted@) =~= emitted_model(emitted0).push(EmitModel {
                    old_hash: c.hash,
                    new_hash: nh,
                    record: gnrec@,
                }));
                let m1 = spec_pipeline(im.subrange(0, i as int + 1), fps.pats@, dps.pats@);
                assert(m1 == spec_step(acc, im[i as int], fps.pats@, dps.pats@));
                assert(table_model(table) == m1.table && emitted_model(emitted@) == m1.emitted
                    && objects_model(pending@) == m1.objects);
            }
        } else {
            proof {
                let m1 = spec_pipeline(im.subrange(0, i as int + 1), fps.pats@, dps.pats@);
                assert(m1 == spec_step(acc, im[i as int], fps.pats@, dps.pats@));
                assert(m1 == acc);
            }
        }
        i = i + 1;
    }
    proof {
        assert(im.subrange(0, n as int) =~= im);
    }
    if !dry_run {
        let ghost store0 = store.objects@;
        let ghost pendingv = pending@;
        let mut p = pending;
        store.objects.append(&mut p);
        proof {
            lemma_objects_model_append(store0, pendingv);
        }
        let ghost ftm = table_model(table);
        let rn = refs.len();
        let mut j: usize = 0;
        while j < rn
            invariant
                rn == refs@.len(),
                refs@.len() == old(refs)@.len(),
                j <= rn,
                ftm == table_model(table),
                forall|x: int| j <= x < rn ==> refs@[x] == old(refs)@[x],
                forall|x: int| 0 <= x < j ==> refs@[x].name@ == old(refs)@[x].name@ && refs@[x].target
                    == remap_parent(ftm, old(refs)@[x].target),
            decreases rn - j,
        {
            let t = refs[j].target;
            match table.get(t) {
                Some(nh) => {
                    let name = clone_bytes(&refs[j].name);
                    refs.set(j, RefBinding { name, target: nh });
                },
                None => {},
            }
            j = j + 1;
        }
        (table, emitted)
    } else {
        // Dry run: persistence only validates that each emitted record's
        // serialization round-trips (always true, and fatal when it is
        // not); the store and the refs stay untouched.
        let en = emitted.len();
        let mut j: usize = 0;
        while j < en
            invariant
                en == emitted@.len(),
                j <= en,
            decreases en - j,
        {
            let _ok = crate::objects::serialization_round_trips(&emitted[j].record);
            j = j + 1;
        }
        (table, emitted)
    }
}

} // verus!
