//! Laws of the rewrite engine and the commit pipeline, stated over the
//! models and proved once for all inputs.

use vstd::prelude::*;
use crate::objects::EntryModel;
use crate::objects::TargetModel;
use crate::patterns::{FilePattern, FolderPattern};
use crate::pipeline::{
    CommitInputModel, EmitModel, distinct_hashes, parent_has_earlier, parents_before, remap_parent,
    spec_any_parent_mapped, spec_pipeline, spec_remap_parents,
};
use crate::rewrite::{root_path, spec_rewrite_entries, spec_rewrite_root};

verus! {

/// A rewrite that reports no change kept every entry exactly as it was and
/// produced no new object: untouched trees are never rewritten.
pub proof fn lemma_rewrite_unchanged_is_identity(
    s: Seq<EntryModel>,
    path: Seq<u8>,
    fps: Seq<FilePattern>,
    dps: Seq<FolderPattern>,
)
    requires
        !spec_rewrite_entries(s, path, fps, dps).changed,
    ensures
        spec_rewrite_entries(s, path, fps, dps).entries == s,
        spec_rewrite_entries(s, path, fps, dps).objects == Seq::<(u64, Seq<u8>)>::empty(),
    decreases s,
{
    let r = spec_rewrite_entries(s, path, fps, dps);
    if s.len() == 0 {
        assert(r.entries =~= s);
    } else {
        let r0 = spec_rewrite_entries(s.drop_last(), path, fps, dps);
        let e = s.last();
        assert(!r0.changed);
        lemma_rewrite_unchanged_is_identity(s.drop_last(), path, fps, dps);
        assert(r.entries =~= s);
    }
}

/// Applying the same removal twice is idempotent: rewriting the rewritten
/// entry list once more finds nothing left to remove — no change, the same
/// entries, and no new object.
pub proof fn lemma_rewrite_idempotent(
    s: Seq<EntryModel>,
    path: Seq<u8>,
    fps: Seq<FilePattern>,
    dps: Seq<FolderPattern>,
)
    ensures
        ({
            let r = spec_rewrite_entries(s, path, fps, dps);
            let r2 = spec_rewrite_entries(r.entries, path, fps, dps);
            !r2.changed && r2.entries == r.entries && r2.objects == Seq::<(u64, Seq<u8>)>::empty()
        }),
    decreases s,
{
    let r = spec_rewrite_entries(s, path, fps, dps);
    if s.len() == 0 {
        assert(!spec_rewrite_entries(r.entries, path, fps, dps).changed);
        assert(spec_rewrite_entries(r.entries, path, fps, dps).entries =~= r.entries);
        assert(spec_rewrite_entries(r.entries, path, fps, dps).objects =~= Seq::<(
            u64,
            Seq<u8>,
        )>::empty());
    } else {
        let pre = s.drop_last();
        let r0 = spec_rewrite_entries(pre, path, fps, dps);
        let e = s.last();
        lemma_rewrite_idempotent(pre, path, fps, dps);
        let r02 = spec_rewrite_entries(r0.entries, path, fps, dps);
        match e.target {
            TargetModel::Blob => {
                if crate::patterns::spec_compiled_files_match(fps, path, e.name) {
                    assert(r.entries == r0.entries);
                } else {
                    assert(r.entries == r0.entries.push(e));
                    assert(r0.entries.push(e).drop_last() =~= r0.entries);
                    assert(r0.entries.push(e).last() == e);
                    let r2 = spec_rewrite_entries(r.entries, path, fps, dps);
                    assert(r2.entries == r02.entries.push(e));
                    assert(!r2.changed);
                }
            },
            TargetModel::Dir(sub) => {
                assert(decreases_to!(s => s[s.len() - 1]));
                assert(e == s[s.len() - 1]);
                assert(decreases_to!(e => e.target));
                assert(e.target->Dir_0 == sub);
                assert(decreases_to!(e.target => e.target->Dir_0));
                let dpath = path + e.name + seq![crate::patterns::SEP];
                if crate::patterns::spec_compiled_folders_match(dps, dpath) {
                    assert(r.entries == r0.entries);
                } else {
                    let rs = spec_rewrite_entries(sub, dpath, fps, dps);
                    lemma_rewrite_idempotent(sub, dpath, fps, dps);
                    let rs2 = spec_rewrite_entries(rs.entries, dpath, fps, dps);
                    if rs.changed {
                        let ne = EntryModel {
                            mode: e.mode,
                            name: e.name,
                            hash: crate::objects::hash_bytes(crate::objects::tree_bytes(rs.entries)),
                            target: TargetModel::Dir(rs.entries),
                        };
                        assert(r.entries == r0.entries.push(ne));
                        assert(r0.entries.push(ne).drop_last() =~= r0.entries);
                        assert(r0.entries.push(ne).last() == ne);
                        let r2 = spec_rewrite_entries(r.entries, path, fps, dps);
                        assert(r2.entries == r02.entries.push(ne));
                        assert(!r2.changed);
                    } else {
                        assert(r.entries == r0.entries.push(e));
                        assert(r0.entries.push(e).drop_last() =~= r0.entries);
                        assert(r0.entries.push(e).last() == e);
                        let r2 = spec_rewrite_entries(r.entries, path, fps, dps);
                        assert(r2.entries == r02.entries.push(e));
                        assert(!r2.changed);
                    }
                }
            },
        }
        let r2 = spec_rewrite_entries(r.entries, path, fps, dps);
        assert(r2.entries == r.entries);
        assert(r2.objects =~= Seq::<(u64, Seq<u8>)>::empty());
    }
}

/// A whole tree rewritten once has nothing left to remove: rewriting its
/// result from the root reports "unchanged".
pub proof fn lemma_rewrite_root_idempotent(
    t: Seq<EntryModel>,
    fps: Seq<FilePattern>,
    dps: Seq<FolderPattern>,
)
    ensures
        (match spec_rewrite_root(t, fps, dps) {
            Some(u) => spec_rewrite_root(u.entries, fps, dps) is None,
            None => spec_rewrite_root(t, fps, dps) is None,
        }),
{
    lemma_rewrite_idempotent(t, root_path(), fps, dps);
}

/// Whether anything in the entry list is matched by the predicates: a file
/// entry whose (path, name) the file predicate accepts, a directory entry
/// whose path the directory predicate accepts, or, recursively, anything
/// inside a directory entry.
pub open spec fn spec_any_match(
    s: Seq<EntryModel>,
    path: Seq<u8>,
    fps: Seq<FilePattern>,
    dps: Seq<FolderPattern>,
) -> bool
    decreases s,
{
    if s.len() == 0 {
        false
    } else {
        let e = s.last();
        spec_any_match(s.drop_last(), path, fps, dps) || (match e.target {
            TargetModel::Blob => crate::patterns::spec_compiled_files_match(fps, path, e.name),
            TargetModel::Dir(sub) => {
                let dpath = path + e.name + seq![crate::patterns::SEP];
                crate::patterns::spec_compiled_folders_match(dps, dpath) || spec_any_match(
                    sub,
                    dpath,
                    fps,
                    dps,
                )
            },
        })
    }
}

/// A tree rewrites to "changed" exactly when it holds a matching entry; a
/// tree with zero matching entries rewrites to no change, so its owner
/// keeps the original hash.
pub proof fn lemma_changed_iff_any_match(
    s: Seq<EntryModel>,
    path: Seq<u8>,
    fps: Seq<FilePattern>,
    dps: Seq<FolderPattern>,
)
    ensures
        spec_rewrite_entries(s, path, fps, dps).changed == spec_any_match(s, path, fps, dps),
    decreases s,
{
    if s.len() > 0 {
        let e = s.last();
        lemma_changed_iff_any_match(s.drop_last(), path, fps, dps);
        match e.target {
            TargetModel::Blob => {},
            TargetModel::Dir(sub) => {
                assert(decreases_to!(s => s[s.len() - 1]));
                assert(e == s[s.len() - 1]);
                assert(decreases_to!(e => e.target));
                assert(e.target->Dir_0 == sub);
                assert(decreases_to!(e.target => e.target->Dir_0));
                let dpath = path + e.name + seq![crate::patterns::SEP];
                lemma_changed_iff_any_match(sub, dpath, fps, dps);
            },
        }
    }
}

// ---------------------------------------------------------------------------
// Order preservation
// ---------------------------------------------------------------------------

/// Whether `a` can be obtained from `b` by removing elements, keeping the
/// order of the rest.
pub open spec fn is_subsequence<T>(a: Seq<T>, b: Seq<T>) -> bool
    decreases a.len(), b.len(),
{
    if a.len() == 0 {
        true
    } else if b.len() == 0 {
        false
    } else if a.last() == b.last() {
        is_subsequence(a.drop_last(), b.drop_last())
    } else {
        is_subsequence(a, b.drop_last())
    }
}

/// Extending the containing sequence keeps a subsequence a subsequence.
pub proof fn lemma_subsequence_push<T>(a: Seq<T>, b: Seq<T>, x: T)
    requires
        is_subsequence(a, b),
    ensures
        is_subsequence(a, b.push(x)),
    decreases a.len(), b.len(), 1int,
{
    if a.len() > 0 {
        assert(b.push(x).drop_last() =~= b);
        if a.last() == x {
            lemma_subsequence_drop(a, b);
        }
    }
}

/// Dropping the last kept element keeps a subsequence a subsequence.
pub proof fn lemma_subsequence_drop<T>(a: Seq<T>, b: Seq<T>)
    requires
        is_subsequence(a, b),
        a.len() > 0,
    ensures
        is_subsequence(a.drop_last(), b),
    decreases a.len(), b.len(), 0int,
{
    if a.last() == b.last() {
        assert(is_subsequence(a.drop_last(), b.drop_last()));
        lemma_subsequence_push(a.drop_last(), b.drop_last(), b.last());
        assert(b.drop_last().push(b.last()) =~= b);
    } else {
        lemma_subsequence_drop(a, b.drop_last());
        if a.drop_last().len() > 0 && a.drop_last().last() == b.last() {
            lemma_subsequence_drop(a.drop_last(), b.drop_last());
        }
    }
}

/// The names of an entry list, in order.
pub open spec fn entry_names(s: Seq<EntryModel>) -> Seq<Seq<u8>> {
    s.map_values(|e: EntryModel| e.name)
}

/// Tree entry order survives rewriting: entries are only removed or
/// hash-substituted in place, never reordered, so the rewritten entry
/// names form a subsequence of the original names.
pub proof fn lemma_rewrite_preserves_order(
    s: Seq<EntryModel>,
    path: Seq<u8>,
    fps: Seq<FilePattern>,
    dps: Seq<FolderPattern>,
)
    ensures
        is_subsequence(entry_names(spec_rewrite_entries(s, path, fps, dps).entries), entry_names(s)),
    decreases s,
{
    let r = spec_rewrite_entries(s, path, fps, dps);
    if s.len() == 0 {
        assert(entry_names(r.entries).len() == 0);
    } else {
        let pre = s.drop_last();
        let r0 = spec_rewrite_entries(pre, path, fps, dps);
        let e = s.last();
        lemma_rewrite_preserves_order(pre, path, fps, dps);
        assert(entry_names(s) =~= entry_names(pre).push(e.name));
        if r.entries == r0.entries {
            // the last entry was dropped
            lemma_subsequence_push(entry_names(r0.entries), entry_names(pre), e.name);
        } else {
            // the last entry was kept, possibly with a substituted hash;
            // either way its name is unchanged
            assert(r.entries.last().name == e.name);
            assert(r.entries.drop_last() == r0.entries);
            assert(entry_names(r.entries) =~= entry_names(r0.entries).push(e.name));
            assert(entry_names(r.entries).last() == entry_names(s).last());
            assert(entry_names(r.entries).drop_last() =~= entry_names(r0.entries));
            assert(entry_names(s).drop_last() =~= entry_names(pre));
        }
    }
}

// ---------------------------------------------------------------------------
// Pipeline laws
// ---------------------------------------------------------------------------

/// Whether `h` is the hash of one of the commits.
pub open spec fn hash_in(cs: Seq<CommitInputModel>, h: u64) -> bool {
    exists|l: int| 0 <= l < cs.len() && cs[l].hash == h
}

/// Every key of the pipeline's remap table is the hash of one of its
/// input commits.
pub proof fn lemma_pipeline_table_dom(
    cs: Seq<CommitInputModel>,
    fps: Seq<FilePattern>,
    dps: Seq<FolderPattern>,
)
    ensures
        forall|h: u64| spec_pipeline(cs, fps, dps).table.dom().contains(h) ==> hash_in(cs, h),
    decreases cs.len(),
{
    if cs.len() > 0 {
        let pre = cs.drop_last();
        lemma_pipeline_table_dom(pre, fps, dps);
        let m0 = spec_pipeline(pre, fps, dps);
        let m = spec_pipeline(cs, fps, dps);
        assert forall|h: u64| m.table.dom().contains(h) implies hash_in(cs, h) by {
            if m0.table.dom().contains(h) {
                assert(hash_in(pre, h));
                let l = choose|l: int| 0 <= l < pre.len() && pre[l].hash == h;
                assert(cs[l].hash == h);
            } else {
                assert(h == cs.last().hash);
                assert(cs[cs.len() - 1].hash == h);
            }
        }
    }
}

/// A pass over commits whose trees have nothing to remove leaves every
/// commit alone: no table entry, no emission, no new object.
pub proof fn lemma_pipeline_nothing_to_do(
    cs: Seq<CommitInputModel>,
    fps: Seq<FilePattern>,
    dps: Seq<FolderPattern>,
)
    requires
        forall|j: int| 0 <= j < cs.len() ==> !(#[trigger] spec_rewrite_entries(
            cs[j].tree,
            root_path(),
            fps,
            dps,
        )).changed,
    ensures
        spec_pipeline(cs, fps, dps).table == Map::<u64, u64>::empty(),
        spec_pipeline(cs, fps, dps).emitted == Seq::<EmitModel>::empty(),
        spec_pipeline(cs, fps, dps).objects == Seq::<(u64, Seq<u8>)>::empty(),
    decreases cs.len(),
{
    if cs.len() > 0 {
        let pre = cs.drop_last();
        lemma_pipeline_nothing_to_do(pre, fps, dps);
        let m0 = spec_pipeline(pre, fps, dps);
        let c = cs.last();
        assert(c == cs[cs.len() - 1]);
        assert(!spec_rewrite_entries(c.tree, root_path(), fps, dps).changed);
        assert(spec_rewrite_root(c.tree, fps, dps) is None);
        assert(!spec_any_parent_mapped(m0.table, c.record.parents)) by {
            if spec_any_parent_mapped(m0.table, c.record.parents) {
                let x = choose|x: int|
                    0 <= x < c.record.parents.len() && m0.table.dom().contains(c.record.parents[x]);
                assert(!Map::<u64, u64>::empty().dom().contains(c.record.parents[x]));
            }
        }
    }
}

/// Applying the same removal twice is idempotent: after a pass, feed each
/// commit's resulting tree back in (the rewritten tree where the first
/// pass changed it, the original tree where it did not) and the second
/// pass finds nothing left to remove — it produces an empty hash-remap
/// table and emits nothing.
pub proof fn lemma_second_pass_is_empty(
    cs: Seq<CommitInputModel>,
    cs2: Seq<CommitInputModel>,
    fps: Seq<FilePattern>,
    dps: Seq<FolderPattern>,
)
    requires
        cs2.len() == cs.len(),
        forall|j: int| 0 <= j < cs.len() ==> (#[trigger] cs2[j].tree) == ({
            let r = spec_rewrite_entries(cs[j].tree, root_path(), fps, dps);
            if r.changed {
                r.entries
            } else {
                cs[j].tree
            }
        }),
    ensures
        spec_pipeline(cs2, fps, dps).table == Map::<u64, u64>::empty(),
        spec_pipeline(cs2, fps, dps).emitted == Seq::<EmitModel>::empty(),
{
    assert forall|j: int| 0 <= j < cs2.len() implies !(#[trigger] spec_rewrite_entries(
        cs2[j].tree,
        root_path(),
        fps,
        dps,
    )).changed by {
        let r = spec_rewrite_entries(cs[j].tree, root_path(), fps, dps);
        lemma_rewrite_idempotent(cs[j].tree, root_path(), fps, dps);
    }
    lemma_pipeline_nothing_to_do(cs2, fps, dps);
}

/// For any commit C with a rewritten parent P, C's new record's parent
/// field holds P's new hash, never P's old one: under oldest-first order
/// with distinct hashes, each emitted record's parent list equals the
/// original list remapped through the final table, and the table sends
/// each rewritten commit's old hash to the hash of its emitted record.
pub proof fn lemma_parents_remapped_to_final(
    cs: Seq<CommitInputModel>,
    fps: Seq<FilePattern>,
    dps: Seq<FolderPattern>,
)
    requires
        parents_before(cs),
        distinct_hashes(cs),
    ensures
        ({
            let m = spec_pipeline(cs, fps, dps);
            forall|i: int| 0 <= i < m.emitted.len() ==> exists|j: int|
                0 <= j < cs.len() && (#[trigger] m.emitted[i]).old_hash == cs[j].hash
                    && m.emitted[i].record.parents == spec_remap_parents(
                    m.table,
                    cs[j].record.parents,
                ) && m.table.dom().contains(cs[j].hash) && m.table[cs[j].hash]
                    == m.emitted[i].new_hash
        }),
    decreases cs.len(),
{
    let m = spec_pipeline(cs, fps, dps);
    if cs.len() > 0 {
        let pre = cs.drop_last();
        let m0 = spec_pipeline(pre, fps, dps);
        assert(parents_before(pre)) by {
            assert forall|j: int, k: int|
                0 <= j < pre.len() && 0 <= k < pre[j].record.parents.len() implies #[trigger] parent_has_earlier(
                pre,
                j,
                k,
            ) by {
                assert(pre[j] == cs[j]);
                assert(parent_has_earlier(cs, j, k));
                let l = choose|l: int| 0 <= l < j && cs[l].hash == cs[j].record.parents[k];
                assert(pre[l].hash == pre[j].record.parents[k]);
            }
        }
        lemma_parents_remapped_to_final(pre, fps, dps);
        let c = cs.last();
        assert(c == cs[cs.len() - 1]);
        let tr = spec_rewrite_root(c.tree, fps, dps);
        let pchanged = spec_any_parent_mapped(m0.table, c.record.parents);
        // Parents of any commit are hashes of strictly earlier commits, so
        // the step's insert (keyed by the newest commit's hash) never
        // disturbs them.
        assert forall|p: u64| hash_in(pre, p) implies remap_parent(m.table, p) == remap_parent(
            m0.table,
            p,
        ) && m0.table.dom().contains(p) == m.table.dom().contains(p) by {
            let l = choose|l: int| 0 <= l < pre.len() && pre[l].hash == p;
            assert(cs[l].hash == p);
            assert(cs[l].hash != cs[cs.len() - 1].hash);
        }
        if tr is None && !pchanged {
            assert(m == m0);
            assert forall|i: int| 0 <= i < m.emitted.len() implies exists|j: int|
                0 <= j < cs.len() && (#[trigger] m.emitted[i]).old_hash == cs[j].hash
                    && m.emitted[i].record.parents == spec_remap_parents(
                    m.table,
                    cs[j].record.parents,
                ) && m.table.dom().contains(cs[j].hash) && m.table[cs[j].hash]
                    == m.emitted[i].new_hash by {
                assert(m0.emitted[i] == m.emitted[i]);
                let j = choose|j: int|
                    0 <= j < pre.len() && m0.emitted[i].old_hash == pre[j].hash
                        && m0.emitted[i].record.parents == spec_remap_parents(
                        m0.table,
                        pre[j].record.parents,
                    ) && m0.table.dom().contains(pre[j].hash) && m0.table[pre[j].hash]
                        == m0.emitted[i].new_hash;
                assert(pre[j] == cs[j]);
            }
        } else {
            assert forall|i: int| 0 <= i < m.emitted.len() implies exists|j: int|
                0 <= j < cs.len() && (#[trigger] m.emitted[i]).old_hash == cs[j].hash
                    && m.emitted[i].record.parents == spec_remap_parents(
                    m.table,
                    cs[j].record.parents,
                ) && m.table.dom().contains(cs[j].hash) && m.table[cs[j].hash]
                    == m.emitted[i].new_hash by {
                if i < m0.emitted.len() {
                    assert(m.emitted[i] == m0.emitted[i]);
                    let j = choose|j: int|
                        0 <= j < pre.len() && m0.emitted[i].old_hash == pre[j].hash
                            && m0.emitted[i].record.parents == spec_remap_parents(
                            m0.table,
                            pre[j].record.parents,
                        ) && m0.table.dom().contains(pre[j].hash) && m0.table[pre[j].hash]
                            == m0.emitted[i].new_hash;
                    assert(pre[j] == cs[j]);
                    assert(cs[j].hash != cs[cs.len() - 1].hash);
                    assert forall|k: int| 0 <= k < cs[j].record.parents.len() implies remap_parent(
                        m.table,
                        #[trigger] cs[j].record.parents[k],
                    ) == remap_parent(m0.table, cs[j].record.parents[k]) by {
                        assert(parent_has_earlier(cs, j, k));
                        let l = choose|l: int|
                            0 <= l < j && cs[l].hash == cs[j].record.parents[k];
                        assert(pre[l].hash == cs[j].record.parents[k]);
                        assert(hash_in(pre, cs[j].record.parents[k]));
                    }
                    assert(spec_remap_parents(m.table, cs[j].record.parents) =~= spec_remap_parents(
                        m0.table,
                        cs[j].record.parents,
                    ));
                } else {
                    let j = cs.len() - 1;
                    assert(m.emitted[i] == m.emitted.last());
                    assert(m.emitted[i].old_hash == c.hash);
                    assert(m.table == m0.table.insert(c.hash, m.emitted[i].new_hash));
                    assert forall|k: int| 0 <= k < c.record.parents.len() implies remap_parent(
                        m.table,
                        #[trigger] c.record.parents[k],
                    ) == remap_parent(m0.table, c.record.parents[k]) by {
                        assert(c.record.parents[k] == cs[j].record.parents[k]);
                        assert(parent_has_earlier(cs, j, k));
                        let l = choose|l: int|
                            0 <= l < j && cs[l].hash == cs[j].record.parents[k];
                        assert(pre[l].hash == c.record.parents[k]);
                        assert(hash_in(pre, c.record.parents[k]));
                    }
                    assert(spec_remap_parents(m.table, c.record.parents) =~= spec_remap_parents(
                        m0.table,
                        c.record.parents,
                    ));
                }
            }
        }
    }
}

} // verus!
