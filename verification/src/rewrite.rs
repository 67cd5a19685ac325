//! The tree rewriter: recursively rewrites a directory tree against the
//! compiled predicates, dropping matching entries, substituting the hashes
//! of rewritten subtrees in place, and reporting `None` when nothing in the
//! subtree changed (callers then keep the original hash and persist nothing).

use vstd::prelude::*;
use crate::objects::{
    EntryModel, EntryTarget, TargetModel, TreeEntry, entries_model, entry_model,
    hash_bytes, lemma_entries_model, lemma_entries_model_push, object_hash, serialize_tree,
    tree_bytes,
};
use crate::patterns::{
    FilePattern, FilePatterns, FolderPattern, FolderPatterns, SEP, push_range,
    spec_compiled_files_match, spec_compiled_folders_match,
};

verus! {

/// Model of rewriting an entry list: the kept entries (order preserved),
/// whether anything changed, and the new tree objects produced bottom-up as
/// (hash, serialized bytes) pairs.
pub struct RewriteModel {
    pub entries: Seq<EntryModel>,
    pub changed: bool,
    pub objects: Seq<(u64, Seq<u8>)>,
}

/// The directory path of the tree root.
pub open spec fn root_path() -> Seq<u8> {
    seq![SEP]
}

/// Depth-first rewrite of an ordered entry list at directory `path`:
/// a directory entry whose path matches is dropped whole, with no recursion
/// into it; other directory entries are recursed into and, when the subtree
/// changed, their hash is substituted in place; a file entry is dropped
/// exactly when the file predicate matches.
pub open spec fn spec_rewrite_entries(
    s: Seq<EntryModel>,
    path: Seq<u8>,
    fps: Seq<FilePattern>,
    dps: Seq<FolderPattern>,
) -> RewriteModel
    decreases s,
{
    if s.len() == 0 {
        RewriteModel { entries: Seq::empty(), changed: false, objects: Seq::empty() }
    } else {
        let r = spec_rewrite_entries(s.drop_last(), path, fps, dps);
        let e = s.last();
        match e.target {
            TargetModel::Blob => {
                if spec_compiled_files_match(fps, path, e.name) {
                    RewriteModel { entries: r.entries, changed: true, objects: r.objects }
                } else {
                    RewriteModel { entries: r.entries.push(e), changed: r.changed, objects: r.objects }
                }
            },
            TargetModel::Dir(sub) => {
                let dpath = path + e.name + seq![SEP];
                if spec_compiled_folders_match(dps, dpath) {
                    RewriteModel { entries: r.entries, changed: true, objects: r.objects }
                } else {
                    let rs = spec_rewrite_entries(sub, dpath, fps, dps);
                    if rs.changed {
                        let nbytes = tree_bytes(rs.entries);
                        let nh = hash_bytes(nbytes);
                        RewriteModel {
                            entries: r.entries.push(EntryModel {
                                mode: e.mode,
                                name: e.name,
                                hash: nh,
                                target: TargetModel::Dir(rs.entries),
                            }),
                            changed: true,
                            objects: r.objects + rs.objects + seq![(nh, nbytes)],
                        }
                    } else {
                        RewriteModel { entries: r.entries.push(e), changed: r.changed, objects: r.objects }
                    }
                }
            },
        }
    }
}

/// Model of rewriting a whole tree from the root: `None` when the tree's
/// effective content is unchanged, otherwise the new root hash, the new
/// entries, and every new tree object, root last.
pub struct TreeUpdateModel {
    pub hash: u64,
    pub entries: Seq<EntryModel>,
    pub objects: Seq<(u64, Seq<u8>)>,
}

pub open spec fn spec_rewrite_root(
    t: Seq<EntryModel>,
    fps: Seq<FilePattern>,
    dps: Seq<FolderPattern>,
) -> Option<TreeUpdateModel> {
    let r = spec_rewrite_entries(t, root_path(), fps, dps);
    if r.changed {
        let nbytes = tree_bytes(r.entries);
        let nh = hash_bytes(nbytes);
        Some(TreeUpdateModel { hash: nh, entries: r.entries, objects: r.objects + seq![(nh, nbytes)] })
    } else {
        None
    }
}

// ---------------------------------------------------------------------------
// Executable rewriter
// ---------------------------------------------------------------------------

/// A freshly produced object: its content hash and serialized bytes.
pub struct NewObject {
    pub hash: u64,
    pub bytes: Vec<u8>,
}

pub open spec fn objects_model(v: Seq<NewObject>) -> Seq<(u64, Seq<u8>)> {
    Seq::new(v.len(), |i: int| (v[i].hash, v[i].bytes@))
}

pub proof fn lemma_objects_model_push(s: Seq<NewObject>, o: NewObject)
    ensures
        objects_model(s.push(o)) == objects_model(s).push((o.hash, o.bytes@)),
{
    assert(objects_model(s.push(o)) =~= objects_model(s).push((o.hash, o.bytes@)));
}

pub proof fn lemma_objects_model_append(a: Seq<NewObject>, b: Seq<NewObject>)
    ensures
        objects_model(a + b) == objects_model(a) + objects_model(b),
{
    assert(objects_model(a + b) =~= objects_model(a) + objects_model(b));
}

/// Copy a byte vector.
pub fn clone_bytes(v: &Vec<u8>) -> (r: Vec<u8>)
    ensures
        r@ == v@,
{
    let mut out: Vec<u8> = Vec::new();
    push_range(&mut out, v.as_slice(), 0, v.len());
    proof {
        assert(v@.subrange(0, v@.len() as int) =~= v@);
    }
    out
}

/// Deep copy of one tree entry, preserving its model.
pub fn clone_entry(e: &TreeEntry) -> (r: TreeEntry)
    ensures
        entry_model(r) == entry_model(*e),
    decreases *e,
{
    let target = match &e.target {
        EntryTarget::Blob => EntryTarget::Blob,
        EntryTarget::Dir(sub) => {
            let mut csub: Vec<TreeEntry> = Vec::new();
            let n = sub.len();
            let mut i: usize = 0;
            while i < n
                invariant
                    n == sub@.len(),
                    i <= n,
                    e.target == EntryTarget::Dir(*sub),
                    entries_model(csub@) == entries_model(sub@.subrange(0, i as int)),
                decreases n - i,
            {
                proof {
                    assert(e.target->Dir_0 == *sub);
                    assert(decreases_to!(*e => e.target));
                    assert(decreases_to!(e.target => e.target->Dir_0));
                    assert(decreases_to!(*sub => sub@));
                    assert(decreases_to!(sub@ => sub@[i as int]));
                }
                let c = clone_entry(&sub[i]);
                let ghost csub0 = csub@;
                csub.push(c);
                proof {
                    lemma_entries_model_push(csub0, c);
                    assert(sub@.subrange(0, i as int + 1).drop_last() =~= sub@.subrange(
                        0,
                        i as int,
                    ));
                    assert(sub@.subrange(0, i as int + 1).last() == sub@[i as int]);
                }
                i = i + 1;
            }
            proof {
                assert(sub@.subrange(0, n as int) =~= sub@);
            }
            EntryTarget::Dir(csub)
        },
    };
    TreeEntry { mode: clone_bytes(&e.mode), name: clone_bytes(&e.name), hash: e.hash, target }
}

/// Result of rewriting an entry list.
pub struct RewriteResult {
    pub entries: Vec<TreeEntry>,
    pub changed: bool,
    pub objects: Vec<NewObject>,
}

/// Rewrite an ordered entry list at directory `path` against the compiled
/// predicates; see `spec_rewrite_entries` for the exact semantics.
pub fn rewrite_entries(
    entries: &Vec<TreeEntry>,
    path: &Vec<u8>,
    fps: &FilePatterns,
    dps: &FolderPatterns,
) -> (r: RewriteResult)
    ensures
        ({
            let m = spec_rewrite_entries(entries_model(entries@), path@, fps.pats@, dps.pats@);
            entries_model(r.entries@) == m.entries && r.changed == m.changed && objects_model(r.objects@)
                == m.objects
        }),
    decreases entries@,
{
    let ghost em = entries_model(entries@);
    proof {
        lemma_entries_model(entries@);
    }
    let mut out: Vec<TreeEntry> = Vec::new();
    let mut objects: Vec<NewObject> = Vec::new();
    let mut changed: bool = false;
    let n = entries.len();
    let mut i: usize = 0;
    while i < n
        invariant
            n == entries@.len(),
            em == entries_model(entries@),
            em.len() == n,
            forall|j: int| 0 <= j < n ==> em[j] == entry_model(entries@[j]),
            i <= n,
            ({
                let m = spec_rewrite_entries(em.subrange(0, i as int), path@, fps.pats@, dps.pats@);
                entries_model(out@) == m.entries && changed == m.changed && objects_model(objects@)
                    == m.objects
            }),
        decreases n - i,
    {
        let ghost m0 = spec_rewrite_entries(em.subrange(0, i as int), path@, fps.pats@, dps.pats@);
        proof {
            assert(em.subrange(0, i as int + 1).drop_last() =~= em.subrange(0, i as int));
            assert(em.subrange(0, i as int + 1).last() == em[i as int]);
        }
        let e = &entries[i];
        match &e.target {
            EntryTarget::Blob => {
                if fps.is_match(path.as_slice(), e.name.as_slice()) {
                    changed = true;
                } else {
                    let c = clone_entry(e);
                    let ghost out0 = out@;
                    out.push(c);
                    proof {
                        lemma_entries_model_push(out0, c);
                    }
                }
            },
            EntryTarget::Dir(sub) => {
                let mut dpath = clone_bytes(path);
                push_range(&mut dpath, e.name.as_slice(), 0, e.name.len());
                dpath.push(SEP);
                proof {
                    assert(e.name@.subrange(0, e.name@.len() as int) =~= e.name@);
                    assert(dpath@ =~= path@ + e.name@ + seq![SEP]);
                }
                if dps.is_match(dpath.as_slice()) {
                    changed = true;
                } else {
                    proof {
                        assert(em[i as int].target == TargetModel::Dir(entries_model(sub@)));
                        assert(e.target->Dir_0 == *sub);
                        assert(decreases_to!(entries@ => entries@[i as int]));
                        assert(decreases_to!(*e => e.target));
                        assert(decreases_to!(e.target => e.target->Dir_0));
                        assert(decreases_to!(*sub => sub@));
                    }
                    let sub_res = rewrite_entries(sub, &dpath, fps, dps);
                    if sub_res.changed {
                        let nbytes = serialize_tree(&sub_res.entries);
                        let nh = object_hash(nbytes.as_slice());
                        let ghost objects0 = objects@;
                        let mut sub_objects = sub_res.objects;
                        let ghost sub_objects0 = sub_objects@;
                        objects.append(&mut sub_objects);
                        let ghost objects1 = objects@;
                        let nob = NewObject { hash: nh, bytes: nbytes };
                        let ghost gnob = nob;
                        objects.push(nob);
                        let ne = TreeEntry {
                            mode: clone_bytes(&e.mode),
                            name: clone_bytes(&e.name),
                            hash: nh,
                            target: EntryTarget::Dir(sub_res.entries),
                        };
                        let ghost gne = ne;
                        let ghost out0 = out@;
                        out.push(ne);
                        changed = true;
                        proof {
                            lemma_objects_model_append(objects0, sub_objects0);
                            lemma_objects_model_push(objects1, gnob);
                            assert(objects_model(objects@) =~= objects_model(objects0)
                                + objects_model(sub_objects0) + seq![(nh, gnob.bytes@)]);
                            lemma_entries_model_push(out0, gne);
                        }
                    } else {
                        let c = clone_entry(e);
                        let ghost out0 = out@;
                        out.push(c);
                        proof {
                            lemma_entries_model_push(out0, c);
                        }
                    }
                }
            },
        }
        i = i + 1;
    }
    proof {
        assert(em.subrange(0, n as int) =~= em);
    }
    RewriteResult { entries: out, changed, objects }
}

/// The rewritten form of a whole tree: its new root hash, new entries, and
/// every newly produced tree object, root last.
pub struct TreeUpdate {
    pub hash: u64,
    pub entries: Vec<TreeEntry>,
    pub objects: Vec<NewObject>,
}

/// Rewrite a whole tree from the root. Returns `None` exactly when the
/// tree's effective content is unchanged (including recursively); the
/// caller must then keep the original hash and persist nothing. Otherwise
/// the resulting ordered entry list (order preserved) is serialized and its
/// content hash returned; an entirely empty result is a valid tree object.
pub fn rewrite_tree(entries: &Vec<TreeEntry>, fps: &FilePatterns, dps: &FolderPatterns) -> (r:
    Option<TreeUpdate>)
    ensures
        ({
            let m = spec_rewrite_root(entries_model(entries@), fps.pats@, dps.pats@);
            match r {
                None => m is None,
                Some(u) => m is Some && {
                    let mu = m->Some_0;
                    u.hash == mu.hash && entries_model(u.entries@) == mu.entries && objects_model(
                        u.objects@,
                    ) == mu.objects
                },
            }
        }),
{
    let mut root: Vec<u8> = Vec::new();
    root.push(SEP);
    proof {
        assert(root@ =~= root_path());
    }
    let res = rewrite_entries(entries, &root, fps, dps);
    if res.changed {
        let nbytes = serialize_tree(&res.entries);
        let nh = object_hash(nbytes.as_slice());
        let mut objects = res.objects;
        let ghost objects0 = objects@;
        objects.push(NewObject { hash: nh, bytes: nbytes });
        proof {
            assert(objects_model(objects@) =~= objects_model(objects0) + seq![
                (nh, tree_bytes(entries_model(res.entries@))),
            ]);
        }
        Some(TreeUpdate { hash: nh, entries: res.entries, objects })
    } else {
        None
    }
}

} // verus!
