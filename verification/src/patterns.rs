//! Path pattern compiler: turns user-supplied file and directory patterns
//! into predicates over `(directory path, file name)` byte sequences.
//!
//! A directory path always begins and ends with the separator, e.g.
//! `/some/folder/`. The wildcard `*` is permitted only as a single leading
//! or trailing character of a pattern.

use vstd::prelude::*;
use vstd::string::StrSliceExecFns;

verus! {

/// The path separator byte, `/`.
pub const SEP: u8 = 47;

/// The wildcard byte, `*`.
pub const STAR: u8 = 42;

// ---------------------------------------------------------------------------
// Spec-level byte-sequence helpers
// ---------------------------------------------------------------------------

pub open spec fn ends_with(s: Seq<u8>, suffix: Seq<u8>) -> bool {
    suffix.len() <= s.len() && s.subrange(s.len() - suffix.len(), s.len() as int) == suffix
}

pub open spec fn starts_with(s: Seq<u8>, prefix: Seq<u8>) -> bool {
    prefix.len() <= s.len() && s.subrange(0, prefix.len() as int) == prefix
}

/// Index of the last occurrence of `b` in `s`, or `-1` if absent.
pub open spec fn last_byte_index(s: Seq<u8>, b: u8) -> int
    decreases s.len(),
{
    if s.len() == 0 {
        -1
    } else if s.last() == b {
        s.len() - 1
    } else {
        last_byte_index(s.drop_last(), b)
    }
}

pub proof fn lemma_last_byte_index(s: Seq<u8>, b: u8)
    ensures
        -1 <= last_byte_index(s, b) < s.len(),
        last_byte_index(s, b) >= 0 ==> s[last_byte_index(s, b)] == b,
        forall|j: int| last_byte_index(s, b) < j < s.len() ==> s[j] != b,
    decreases s.len(),
{
    if s.len() > 0 && s.last() != b {
        lemma_last_byte_index(s.drop_last(), b);
        assert forall|j: int| last_byte_index(s, b) < j < s.len() implies s[j] != b by {
            if j < s.len() - 1 {
                assert(s.drop_last()[j] == s[j]);
            }
        }
    }
}

// ---------------------------------------------------------------------------
// Exec byte-sequence helpers
// ---------------------------------------------------------------------------

/// Index of the last occurrence of `needle` in `path`, if any.
pub fn last_index_of(path: &[u8], needle: u8) -> (r: Option<usize>)
    ensures
        (match r {
            Some(i) => last_byte_index(path@, needle) == i as int,
            None => last_byte_index(path@, needle) == -1,
        }),
{
    let mut i: usize = path.len();
    while i > 0
        invariant
            i <= path@.len(),
            forall|j: int| i <= j < path@.len() ==> path@[j] != needle,
        decreases i,
    {
        i = i - 1;
        if path[i] == needle {
            proof {
                lemma_last_byte_index(path@, needle);
                let li = last_byte_index(path@, needle);
                assert(li >= 0) by {
                    if li < i as int {
                        assert(path@[i as int] != needle);
                    }
                }
                assert(li == i as int) by {
                    if li < i as int {
                        assert(path@[i as int] != needle);
                    }
                    if li > i as int {
                        assert(path@[li] != needle);
                    }
                }
            }
            return Some(i);
        }
    }
    proof {
        lemma_last_byte_index(path@, needle);
        let li = last_byte_index(path@, needle);
        if li >= 0 {
            assert(path@[li] != needle);
        }
    }
    None
}

/// Byte-for-byte equality of two slices.
pub fn bytes_eq(a: &[u8], b: &[u8]) -> (r: bool)
    ensures
        r == (a@ == b@),
{
    if a.len() != b.len() {
        return false;
    }
    let n = a.len();
    let mut i: usize = 0;
    while i < n
        invariant
            n == a@.len() == b@.len(),
            i <= n,
            forall|j: int| 0 <= j < i ==> a@[j] == b@[j],
        decreases n - i,
    {
        if a[i] != b[i] {
            return false;
        }
        i = i + 1;
    }
    proof {
        assert(a@ =~= b@);
    }
    true
}

/// Whether `s[0 .. end]` ends with `suffix`.
pub fn range_ends_with(s: &[u8], end: usize, suffix: &[u8]) -> (r: bool)
    requires
        end <= s@.len(),
    ensures
        r == ends_with(s@.subrange(0, end as int), suffix@),
{
    let m = suffix.len();
    if m > end {
        return false;
    }
    let mut i: usize = 0;
    while i < m
        invariant
            m == suffix@.len(),
            m <= end <= s@.len(),
            i <= m,
            forall|j: int| 0 <= j < i ==> s@[end - m + j] == suffix@[j],
        decreases m - i,
    {
        if s[end - m + i] != suffix[i] {
            proof {
                let p = s@.subrange(0, end as int);
                if ends_with(p, suffix@) {
                    assert(p.subrange(p.len() - m, p.len() as int)[i as int] == suffix@[i as int]);
                    assert(p[end - m + i] == s@[end - m + i]);
                }
            }
            return false;
        }
        i = i + 1;
    }
    proof {
        let p = s@.subrange(0, end as int);
        assert(p.subrange(p.len() - m, p.len() as int) =~= suffix@);
    }
    true
}

/// Whether `s` ends with `suffix`.
pub fn bytes_ends_with(s: &[u8], suffix: &[u8]) -> (r: bool)
    ensures
        r == ends_with(s@, suffix@),
{
    let r = range_ends_with(s, s.len(), suffix);
    proof {
        assert(s@.subrange(0, s@.len() as int) =~= s@);
    }
    r
}

/// Whether `s` starts with `prefix`.
pub fn bytes_starts_with(s: &[u8], prefix: &[u8]) -> (r: bool)
    ensures
        r == starts_with(s@, prefix@),
{
    let m = prefix.len();
    if m > s.len() {
        return false;
    }
    let mut i: usize = 0;
    while i < m
        invariant
            m == prefix@.len(),
            m <= s@.len(),
            i <= m,
            forall|j: int| 0 <= j < i ==> s@[j] == prefix@[j],
        decreases m - i,
    {
        if s[i] != prefix[i] {
            proof {
                if starts_with(s@, prefix@) {
                    assert(s@.subrange(0, m as int)[i as int] == prefix@[i as int]);
                }
            }
            return false;
        }
        i = i + 1;
    }
    proof {
        assert(s@.subrange(0, m as int) =~= prefix@);
    }
    true
}

/// Copy of `s[from .. to]` as a fresh vector.
pub fn subrange_to_vec(s: &[u8], from: usize, to: usize) -> (v: Vec<u8>)
    requires
        from <= to <= s@.len(),
    ensures
        v@ == s@.subrange(from as int, to as int),
{
    let mut v: Vec<u8> = Vec::new();
    let mut i: usize = from;
    while i < to
        invariant
            from <= i <= to <= s@.len(),
            v@ == s@.subrange(from as int, i as int),
        decreases to - i,
    {
        v.push(s[i]);
        proof {
            assert(s@.subrange(from as int, i as int + 1) =~= s@.subrange(from as int, i as int).push(s@[i as int]));
        }
        i = i + 1;
    }
    v
}

/// Append `s[from .. to]` onto `v`.
pub fn push_range(v: &mut Vec<u8>, s: &[u8], from: usize, to: usize)
    requires
        from <= to <= s@.len(),
    ensures
        final(v)@ == old(v)@ + s@.subrange(from as int, to as int),
{
    let mut i: usize = from;
    while i < to
        invariant
            from <= i <= to <= s@.len(),
            v@ == old(v)@ + s@.subrange(from as int, i as int),
        decreases to - i,
    {
        v.push(s[i]);
        proof {
            assert(s@.subrange(from as int, i as int + 1) =~= s@.subrange(from as int, i as int).push(s@[i as int]));
            assert(old(v)@ + s@.subrange(from as int, i as int + 1) =~= (old(v)@ + s@.subrange(from as int, i as int)).push(s@[i as int]));
        }
        i = i + 1;
    }
}

// ---------------------------------------------------------------------------
// Directory patterns
// ---------------------------------------------------------------------------

/// A raw directory pattern is valid when it is non-empty.
pub open spec fn folder_pattern_valid(pat: Seq<u8>) -> bool {
    pat.len() > 0
}

/// Normative semantics of one raw directory pattern against a directory path
/// (the path begins and ends with the separator).
pub open spec fn spec_folder_match(pat: Seq<u8>, path: Seq<u8>) -> bool
    recommends
        folder_pattern_valid(pat),
{
    if pat[0] == STAR {
        if pat.last() == SEP {
            ends_with(path, pat.drop_first())
        } else {
            path.len() > 0 && ends_with(path.drop_last(), pat.drop_first())
        }
    } else if pat.last() == STAR {
        starts_with(path, pat.drop_last())
    } else if pat[0] == SEP {
        if pat.last() == SEP {
            path == pat
        } else {
            path == pat.push(SEP)
        }
    } else {
        let norm = if pat.last() == SEP {
            seq![SEP] + pat
        } else {
            seq![SEP] + pat + seq![SEP]
        };
        ends_with(path, norm)
    }
}

/// OR over a list of raw directory patterns.
pub open spec fn spec_folders_match(pats: Seq<Seq<u8>>, path: Seq<u8>) -> bool {
    exists|i: int| 0 <= i < pats.len() && spec_folder_match(pats[i], path)
}

/// One compiled directory pattern.
#[derive(Debug)]
pub enum FolderPattern {
    /// The path is exactly this (separator-terminated) sequence.
    Exact(Vec<u8>),
    /// The path ends with this sequence.
    SuffixFull(Vec<u8>),
    /// The path with its final separator removed ends with this sequence.
    SuffixTrim(Vec<u8>),
    /// The path starts with this sequence.
    Prefix(Vec<u8>),
}

pub open spec fn spec_compiled_folder_match(p: FolderPattern, path: Seq<u8>) -> bool {
    match p {
        FolderPattern::Exact(v) => path == v@,
        FolderPattern::SuffixFull(v) => ends_with(path, v@),
        FolderPattern::SuffixTrim(v) => path.len() > 0 && ends_with(path.drop_last(), v@),
        FolderPattern::Prefix(v) => starts_with(path, v@),
    }
}

pub open spec fn spec_compiled_folders_match(ps: Seq<FolderPattern>, path: Seq<u8>) -> bool {
    exists|i: int| 0 <= i < ps.len() && spec_compiled_folder_match(ps[i], path)
}

impl FolderPattern {
    /// Whether this compiled pattern matches the directory path.
    pub fn is_match(&self, path: &[u8]) -> (r: bool)
        ensures
            r == spec_compiled_folder_match(*self, path@),
    {
        match self {
            FolderPattern::Exact(v) => bytes_eq(path, v.as_slice()),
            FolderPattern::SuffixFull(v) => bytes_ends_with(path, v.as_slice()),
            FolderPattern::SuffixTrim(v) => {
                if path.len() == 0 {
                    false
                } else {
                    let r = range_ends_with(path, path.len() - 1, v.as_slice());
                    proof {
                        assert(path@.subrange(0, path@.len() - 1) =~= path@.drop_last());
                    }
                    r
                }
            },
            FolderPattern::Prefix(v) => bytes_starts_with(path, v.as_slice()),
        }
    }
}

/// Compile one raw directory pattern.
pub fn compile_folder(pat: &[u8]) -> (r: FolderPattern)
    requires
        folder_pattern_valid(pat@),
    ensures
        forall|path: Seq<u8>| #[trigger] spec_compiled_folder_match(r, path) == spec_folder_match(pat@, path),
{
    let n = pat.len();
    if pat[0] == STAR {
        let tail = subrange_to_vec(pat, 1, n);
        proof {
            assert(pat@.subrange(1, n as int) =~= pat@.drop_first());
        }
        if pat[n - 1] == SEP {
            FolderPattern::SuffixFull(tail)
        } else {
            FolderPattern::SuffixTrim(tail)
        }
    } else if pat[n - 1] == STAR {
        let head = subrange_to_vec(pat, 0, n - 1);
        proof {
            assert(pat@.subrange(0, n - 1) =~= pat@.drop_last());
        }
        FolderPattern::Prefix(head)
    } else if pat[0] == SEP {
        let mut v = subrange_to_vec(pat, 0, n);
        proof {
            assert(pat@.subrange(0, n as int) =~= pat@);
        }
        if pat[n - 1] == SEP {
            FolderPattern::Exact(v)
        } else {
            v.push(SEP);
            FolderPattern::Exact(v)
        }
    } else {
        let mut v: Vec<u8> = Vec::new();
        v.push(SEP);
        push_range(&mut v, pat, 0, n);
        proof {
            assert(pat@.subrange(0, n as int) =~= pat@);
        }
        if pat[n - 1] != SEP {
            v.push(SEP);
            proof {
                assert(v@ =~= seq![SEP] + pat@ + seq![SEP]);
            }
        } else {
            proof {
                assert(v@ =~= seq![SEP] + pat@);
            }
        }
        FolderPattern::SuffixFull(v)
    }
}

/// The compiled form of a set of directory patterns, combined with OR.
#[derive(Debug)]
pub struct FolderPatterns {
    pub pats: Vec<FolderPattern>,
}

impl FolderPatterns {
    /// Whether any of the compiled patterns matches the directory path.
    pub fn is_match(&self, path: &[u8]) -> (r: bool)
        ensures
            r == spec_compiled_folders_match(self.pats@, path@),
    {
        let n = self.pats.len();
        let mut i: usize = 0;
        while i < n
            invariant
                n == self.pats@.len(),
                i <= n,
                forall|j: int| 0 <= j < i ==> !spec_compiled_folder_match(self.pats@[j], path@),
            decreases n - i,
        {
            if self.pats[i].is_match(path) {
                return true;
            }
            i = i + 1;
        }
        false
    }
}

/// A directory predicate from a single compiled pattern.
pub fn single_folder(p: FolderPattern) -> (r: FolderPatterns)
    ensures
        forall|path: Seq<u8>| #[trigger] spec_compiled_folders_match(r.pats@, path) == spec_compiled_folder_match(p, path),
{
    let ghost gp = p;
    let mut pats: Vec<FolderPattern> = Vec::new();
    pats.push(p);
    let r = FolderPatterns { pats };
    proof {
        assert forall|path: Seq<u8>| #[trigger] spec_compiled_folders_match(r.pats@, path) == spec_compiled_folder_match(gp, path) by {
            assert(r.pats@[0] == gp);
            if spec_compiled_folder_match(gp, path) {
                assert(spec_compiled_folder_match(r.pats@[0], path));
            }
        }
    }
    r
}

/// Disjunction of two compiled directory pattern sets.
pub fn or_folder(a: FolderPatterns, b: FolderPatterns) -> (r: FolderPatterns)
    ensures
        forall|path: Seq<u8>| #[trigger] spec_compiled_folders_match(r.pats@, path) == (spec_compiled_folders_match(a.pats@, path) || spec_compiled_folders_match(b.pats@, path)),
{
    let ghost av = a.pats@;
    let ghost bv = b.pats@;
    let mut pats = a.pats;
    let mut rest = b.pats;
    pats.append(&mut rest);
    let r = FolderPatterns { pats };
    proof {
        assert forall|path: Seq<u8>| #[trigger] spec_compiled_folders_match(r.pats@, path) == (spec_compiled_folders_match(av, path) || spec_compiled_folders_match(bv, path)) by {
            let s = r.pats@;
            assert(s =~= av + bv);
            if spec_compiled_folders_match(s, path) {
                let i = choose|i: int| 0 <= i < s.len() && spec_compiled_folder_match(s[i], path);
                if i < av.len() {
                    assert(av[i] == s[i]);
                    assert(spec_compiled_folders_match(av, path));
                } else {
                    assert(bv[i - av.len()] == s[i]);
                    assert(spec_compiled_folders_match(bv, path));
                }
            }
            if spec_compiled_folders_match(av, path) {
                let i = choose|i: int| 0 <= i < av.len() && spec_compiled_folder_match(av[i], path);
                assert(s[i] == av[i]);
                assert(spec_compiled_folders_match(s, path));
            }
            if spec_compiled_folders_match(bv, path) {
                let i = choose|i: int| 0 <= i < bv.len() && spec_compiled_folder_match(bv[i], path);
                assert(s[av.len() + i] == bv[i]);
                assert(spec_compiled_folders_match(s, path));
            }
        }
    }
    r
}

/// Errors detected while compiling patterns, before any repository access.
#[derive(Clone, Copy, PartialEq, Eq, Structural, Debug)]
pub enum PatternError {
    /// A pattern was the empty string.
    EmptyPattern,
    /// A bare file name pattern contained a path separator.
    SeparatorInFileName,
}

/// The byte sequence a pattern string denotes.
pub open spec fn pattern_bytes(s: String) -> Seq<u8> {
    vstd::utf8::encode_utf8(s@)
}

pub open spec fn patterns_bytes(ss: Seq<String>) -> Seq<Seq<u8>> {
    ss.map_values(|s: String| pattern_bytes(s))
}

proof fn lemma_folders_match_extend(pats: Seq<Seq<u8>>, k: int, path: Seq<u8>)
    requires
        0 <= k < pats.len(),
    ensures
        spec_folders_match(pats.subrange(0, k + 1), path) == (spec_folders_match(pats.subrange(0, k), path) || spec_folder_match(pats[k], path)),
{
    let pre = pats.subrange(0, k);
    let ext = pats.subrange(0, k + 1);
    if spec_folders_match(ext, path) {
        let i = choose|i: int| 0 <= i < ext.len() && spec_folder_match(ext[i], path);
        if i < k {
            assert(pre[i] == ext[i]);
            assert(spec_folders_match(pre, path));
        } else {
            assert(ext[k] == pats[k]);
        }
    }
    if spec_folders_match(pre, path) {
        let i = choose|i: int| 0 <= i < pre.len() && spec_folder_match(pre[i], path);
        assert(ext[i] == pre[i]);
        assert(spec_folders_match(ext, path));
    }
    if spec_folder_match(pats[k], path) {
        assert(ext[k] == pats[k]);
        assert(spec_folders_match(ext, path));
    }
}

/// Compile every directory pattern, combined with OR. An empty pattern is a
/// configuration error and is reported before any repository access.
pub fn build_folder_delete_patterns(folders: &Vec<String>) -> (r: Result<FolderPatterns, PatternError>)
    ensures
        (r is Ok) == (forall|i: int| 0 <= i < folders@.len() ==> folder_pattern_valid(#[trigger] patterns_bytes(folders@)[i])),
        (r is Err) ==> (match r {
            Ok(_) => false,
            Err(e) => e == PatternError::EmptyPattern,
        }),
        (match r {
            Ok(ps) => forall|path: Seq<u8>| #[trigger] spec_compiled_folders_match(ps.pats@, path) == spec_folders_match(patterns_bytes(folders@), path),
            Err(_) => true,
        }),
{
    let ghost pb = patterns_bytes(folders@);
    let mut acc = FolderPatterns { pats: Vec::new() };
    let n = folders.len();
    let mut k: usize = 0;
    while k < n
        invariant
            n == folders@.len(),
            k <= n,
            pb == patterns_bytes(folders@),
            forall|i: int| 0 <= i < k ==> folder_pattern_valid(#[trigger] pb[i]),
            forall|path: Seq<u8>| #[trigger] spec_compiled_folders_match(acc.pats@, path) == spec_folders_match(pb.subrange(0, k as int), path),
        decreases n - k,
    {
        let fb: Vec<u8> = folders[k].as_str().as_bytes_vec();
        proof {
            assert(fb@ == pb[k as int]);
        }
        if fb.len() == 0 {
            proof {
                assert(!folder_pattern_valid(pb[k as int]));
            }
            return Err(PatternError::EmptyPattern);
        }
        let p = compile_folder(fb.as_slice());
        acc = or_folder(acc, single_folder(p));
        proof {
            assert forall|path: Seq<u8>| #[trigger] spec_compiled_folders_match(acc.pats@, path) == spec_folders_match(pb.subrange(0, k as int + 1), path) by {
                lemma_folders_match_extend(pb, k as int, path);
            }
        }
        k = k + 1;
    }
    proof {
        assert(pb.subrange(0, n as int) =~= pb);
    }
    Ok(acc)
}

// ---------------------------------------------------------------------------
// Laws of directory pattern matching
// ---------------------------------------------------------------------------

/// For an absolute directory pattern without wildcard, the presence or
/// absence of a trailing separator does not change which paths match.
pub proof fn lemma_absolute_trailing_separator_irrelevant(pat: Seq<u8>, path: Seq<u8>)
    requires
        pat.len() > 0,
        pat[0] == SEP,
        pat.last() != STAR,
        pat.last() != SEP,
    ensures
        spec_folder_match(pat, path) == spec_folder_match(pat.push(SEP), path),
{
    let q = pat.push(SEP);
    assert(q[0] == SEP);
    assert(q.last() == SEP);
}

/// An absolute directory pattern without wildcard matches exactly one path:
/// the pattern itself, separator-terminated.
pub proof fn lemma_absolute_matches_only_exact(pat: Seq<u8>, path: Seq<u8>)
    requires
        pat.len() > 0,
        pat[0] == SEP,
        pat.last() != STAR,
    ensures
        pat.last() == SEP ==> (spec_folder_match(pat, path) <==> path == pat),
        pat.last() != SEP ==> (spec_folder_match(pat, path) <==> path == pat.push(SEP)),
{
}

/// An absolute, separator-terminated directory pattern rejects every strict
/// descendant of the directory it names.
pub proof fn lemma_absolute_rejects_descendants(pat: Seq<u8>, ext: Seq<u8>)
    requires
        pat.len() > 0,
        pat[0] == SEP,
        pat.last() == SEP,
        ext.len() > 0,
    ensures
        !spec_folder_match(pat, pat + ext),
{
    assert((pat + ext).len() != pat.len());
}

/// A leading-wildcard directory pattern without trailing separator matches a
/// path exactly when the path, with its final separator removed, ends with
/// the pattern's suffix — so the suffix must be the end of the final path
/// segment, with nothing nested below it.
pub proof fn lemma_star_suffix_characterization(pat: Seq<u8>, path: Seq<u8>)
    requires
        pat.len() > 0,
        pat[0] == STAR,
        pat.last() != SEP,
    ensures
        spec_folder_match(pat, path) <==> (path.len() > 0 && ends_with(path.drop_last(), pat.drop_first())),
{
}

/// A leading-wildcard directory pattern matches at any depth: prefixing the
/// suffix with an arbitrary directory path still matches.
pub proof fn lemma_star_suffix_matches_any_depth(pat: Seq<u8>, q: Seq<u8>)
    requires
        pat.len() > 0,
        pat[0] == STAR,
        pat.last() != SEP,
    ensures
        spec_folder_match(pat, q + pat.drop_first() + seq![SEP]),
{
    let path = q + pat.drop_first() + seq![SEP];
    assert(path.len() > 0);
    assert(path.drop_last() =~= q + pat.drop_first());
    let base = q + pat.drop_first();
    assert(base.subrange(base.len() - pat.drop_first().len(), base.len() as int) =~= pat.drop_first());
}

/// A trailing-wildcard directory pattern matches a path exactly when the
/// path starts with the pattern's prefix.
pub proof fn lemma_prefix_characterization(pat: Seq<u8>, path: Seq<u8>)
    requires
        pat.len() > 0,
        pat[0] != STAR,
        pat.last() == STAR,
    ensures
        spec_folder_match(pat, path) <==> starts_with(path, pat.drop_last()),
{
}

/// A trailing-wildcard directory pattern matches the named directory itself
/// and every descendant: any extension of the prefix still matches.
pub proof fn lemma_prefix_matches_all_descendants(pat: Seq<u8>, ext: Seq<u8>)
    requires
        pat.len() > 0,
        pat[0] != STAR,
        pat.last() == STAR,
    ensures
        spec_folder_match(pat, pat.drop_last() + ext),
{
    let path = pat.drop_last() + ext;
    assert(path.subrange(0, pat.drop_last().len() as int) =~= pat.drop_last());
}

// ---------------------------------------------------------------------------
// File patterns
// ---------------------------------------------------------------------------

/// A raw file pattern is valid when it is non-empty and, if it is a bare
/// file name (no wildcard, not absolute), contains no separator.
pub open spec fn file_pattern_valid(pat: Seq<u8>) -> bool {
    pat.len() > 0 && (pat[0] == STAR || pat.last() == STAR || pat[0] == SEP || last_byte_index(pat, SEP) == -1)
}

/// Normative semantics of one raw file pattern against a directory path and
/// a file name within that directory.
pub open spec fn spec_file_match(pat: Seq<u8>, path: Seq<u8>, name: Seq<u8>) -> bool
    recommends
        file_pattern_valid(pat),
{
    let ls = last_byte_index(pat, SEP);
    if pat[0] == STAR {
        if ls >= 0 {
            ends_with(path, pat.subrange(1, ls + 1)) && name == pat.subrange(ls + 1, pat.len() as int)
        } else {
            ends_with(name, pat.drop_first())
        }
    } else if pat.last() == STAR {
        if ls >= 0 {
            path == pat.subrange(0, ls + 1) && starts_with(name, pat.subrange(ls + 1, pat.len() - 1))
        } else {
            starts_with(name, pat.drop_last())
        }
    } else if pat[0] == SEP {
        path == pat.subrange(0, ls + 1) && name == pat.subrange(ls + 1, pat.len() as int)
    } else {
        name == pat
    }
}

/// OR over a list of raw file patterns.
pub open spec fn spec_files_match(pats: Seq<Seq<u8>>, path: Seq<u8>, name: Seq<u8>) -> bool {
    exists|i: int| 0 <= i < pats.len() && spec_file_match(pats[i], path, name)
}

/// One compiled file pattern.
#[derive(Debug)]
pub enum FilePattern {
    /// The path ends with `dir` and the name is exactly `name`.
    DirSuffixName { dir: Vec<u8>, name: Vec<u8> },
    /// The name ends with this sequence.
    NameSuffix(Vec<u8>),
    /// The path is exactly `dir` and the name starts with `prefix`.
    DirExactNamePrefix { dir: Vec<u8>, prefix: Vec<u8> },
    /// The name starts with this sequence.
    NamePrefix(Vec<u8>),
    /// The path is exactly `dir` and the name is exactly `name`.
    DirExactName { dir: Vec<u8>, name: Vec<u8> },
    /// The name is exactly this sequence, in any directory.
    NameExact(Vec<u8>),
}

pub open spec fn spec_compiled_file_match(p: FilePattern, path: Seq<u8>, name: Seq<u8>) -> bool {
    match p {
        FilePattern::DirSuffixName { dir, name: n } => ends_with(path, dir@) && name == n@,
        FilePattern::NameSuffix(v) => ends_with(name, v@),
        FilePattern::DirExactNamePrefix { dir, prefix } => path == dir@ && starts_with(name, prefix@),
        FilePattern::NamePrefix(v) => starts_with(name, v@),
        FilePattern::DirExactName { dir, name: n } => path == dir@ && name == n@,
        FilePattern::NameExact(v) => name == v@,
    }
}

pub open spec fn spec_compiled_files_match(ps: Seq<FilePattern>, path: Seq<u8>, name: Seq<u8>) -> bool {
    exists|i: int| 0 <= i < ps.len() && spec_compiled_file_match(ps[i], path, name)
}

impl FilePattern {
    /// Whether this compiled pattern matches the file at `path` + `name`.
    pub fn is_match(&self, path: &[u8], name: &[u8]) -> (r: bool)
        ensures
            r == spec_compiled_file_match(*self, path@, name@),
    {
        match self {
            FilePattern::DirSuffixName { dir, name: n } => {
                bytes_ends_with(path, dir.as_slice()) && bytes_eq(name, n.as_slice())
            },
            FilePattern::NameSuffix(v) => bytes_ends_with(name, v.as_slice()),
            FilePattern::DirExactNamePrefix { dir, prefix } => {
                bytes_eq(path, dir.as_slice()) && bytes_starts_with(name, prefix.as_slice())
            },
            FilePattern::NamePrefix(v) => bytes_starts_with(name, v.as_slice()),
            FilePattern::DirExactName { dir, name: n } => {
                bytes_eq(path, dir.as_slice()) && bytes_eq(name, n.as_slice())
            },
            FilePattern::NameExact(v) => bytes_eq(name, v.as_slice()),
        }
    }
}

/// Compile one raw file pattern. A bare file name containing a separator is
/// a configuration error.
pub fn compile_file(pat: &[u8]) -> (r: Result<FilePattern, PatternError>)
    requires
        pat@.len() > 0,
    ensures
        (r is Ok) == file_pattern_valid(pat@),
        (match r {
            Ok(_) => true,
            Err(e) => e == PatternError::SeparatorInFileName,
        }),
        (match r {
            Ok(p) => forall|path: Seq<u8>, name: Seq<u8>| #[trigger] spec_compiled_file_match(p, path, name) == spec_file_match(pat@, path, name),
            Err(_) => true,
        }),
{
    let n = pat.len();
    let ls_opt = last_index_of(pat, SEP);
    proof {
        lemma_last_byte_index(pat@, SEP);
    }
    if pat[0] == STAR {
        match ls_opt {
            Some(ls) => Ok(FilePattern::DirSuffixName {
                dir: subrange_to_vec(pat, 1, ls + 1),
                name: subrange_to_vec(pat, ls + 1, n),
            }),
            None => Ok(FilePattern::NameSuffix({
                let v = subrange_to_vec(pat, 1, n);
                proof {
                    assert(pat@.subrange(1, n as int) =~= pat@.drop_first());
                }
                v
            })),
        }
    } else if pat[n - 1] == STAR {
        match ls_opt {
            Some(ls) => {
                proof {
                    assert(pat@[ls as int] == SEP);
                    assert(ls < n - 1);
                }
                Ok(FilePattern::DirExactNamePrefix {
                    dir: subrange_to_vec(pat, 0, ls + 1),
                    prefix: subrange_to_vec(pat, ls + 1, n - 1),
                })
            },
            None => Ok(FilePattern::NamePrefix({
                let v = subrange_to_vec(pat, 0, n - 1);
                proof {
                    assert(pat@.subrange(0, n - 1) =~= pat@.drop_last());
                }
                v
            })),
        }
    } else if pat[0] == SEP {
        match ls_opt {
            Some(ls) => Ok(FilePattern::DirExactName {
                dir: subrange_to_vec(pat, 0, ls + 1),
                name: subrange_to_vec(pat, ls + 1, n),
            }),
            None => {
                proof {
                    assert(pat@[0] != SEP);
                }
                Err(PatternError::SeparatorInFileName)
            },
        }
    } else {
        match ls_opt {
            Some(_) => Err(PatternError::SeparatorInFileName),
            None => Ok(FilePattern::NameExact({
                let v = subrange_to_vec(pat, 0, n);
                proof {
                    assert(pat@.subrange(0, n as int) =~= pat@);
                }
                v
            })),
        }
    }
}

/// The compiled form of a set of file patterns, combined with OR.
#[derive(Debug)]
pub struct FilePatterns {
    pub pats: Vec<FilePattern>,
}

impl FilePatterns {
    /// Whether any of the compiled patterns matches the file at `path` + `name`.
    pub fn is_match(&self, path: &[u8], name: &[u8]) -> (r: bool)
        ensures
            r == spec_compiled_files_match(self.pats@, path@, name@),
    {
        let n = self.pats.len();
        let mut i: usize = 0;
        while i < n
            invariant
                n == self.pats@.len(),
                i <= n,
                forall|j: int| 0 <= j < i ==> !spec_compiled_file_match(self.pats@[j], path@, name@),
            decreases n - i,
        {
            if self.pats[i].is_match(path, name) {
                return true;
            }
            i = i + 1;
        }
        false
    }
}

/// A file predicate from a single compiled pattern.
pub fn single(p: FilePattern) -> (r: FilePatterns)
    ensures
        forall|path: Seq<u8>, name: Seq<u8>| #[trigger] spec_compiled_files_match(r.pats@, path, name) == spec_compiled_file_match(p, path, name),
{
    let ghost gp = p;
    let mut pats: Vec<FilePattern> = Vec::new();
    pats.push(p);
    let r = FilePatterns { pats };
    proof {
        assert forall|path: Seq<u8>, name: Seq<u8>| #[trigger] spec_compiled_files_match(r.pats@, path, name) == spec_compiled_file_match(gp, path, name) by {
            assert(r.pats@[0] == gp);
            if spec_compiled_file_match(gp, path, name) {
                assert(spec_compiled_file_match(r.pats@[0], path, name));
            }
        }
    }
    r
}

/// Disjunction of two compiled file pattern sets.
pub fn or(a: FilePatterns, b: FilePatterns) -> (r: FilePatterns)
    ensures
        forall|path: Seq<u8>, name: Seq<u8>| #[trigger] spec_compiled_files_match(r.pats@, path, name) == (spec_compiled_files_match(a.pats@, path, name) || spec_compiled_files_match(b.pats@, path, name)),
{
    let ghost av = a.pats@;
    let ghost bv = b.pats@;
    let mut pats = a.pats;
    let mut rest = b.pats;
    pats.append(&mut rest);
    let r = FilePatterns { pats };
    proof {
        assert forall|path: Seq<u8>, name: Seq<u8>| #[trigger] spec_compiled_files_match(r.pats@, path, name) == (spec_compiled_files_match(av, path, name) || spec_compiled_files_match(bv, path, name)) by {
            let s = r.pats@;
            assert(s =~= av + bv);
            if spec_compiled_files_match(s, path, name) {
                let i = choose|i: int| 0 <= i < s.len() && spec_compiled_file_match(s[i], path, name);
                if i < av.len() {
                    assert(av[i] == s[i]);
                    assert(spec_compiled_files_match(av, path, name));
                } else {
                    assert(bv[i - av.len()] == s[i]);
                    assert(spec_compiled_files_match(bv, path, name));
                }
            }
            if spec_compiled_files_match(av, path, name) {
                let i = choose|i: int| 0 <= i < av.len() && spec_compiled_file_match(av[i], path, name);
                assert(s[i] == av[i]);
                assert(spec_compiled_files_match(s, path, name));
            }
            if spec_compiled_files_match(bv, path, name) {
                let i = choose|i: int| 0 <= i < bv.len() && spec_compiled_file_match(bv[i], path, name);
                assert(s[av.len() + i] == bv[i]);
                assert(spec_compiled_files_match(s, path, name));
            }
        }
    }
    r
}

proof fn lemma_files_match_extend(pats: Seq<Seq<u8>>, k: int, path: Seq<u8>, name: Seq<u8>)
    requires
        0 <= k < pats.len(),
    ensures
        spec_files_match(pats.subrange(0, k + 1), path, name) == (spec_files_match(pats.subrange(0, k), path, name) || spec_file_match(pats[k], path, name)),
{
    let pre = pats.subrange(0, k);
    let ext = pats.subrange(0, k + 1);
    if spec_files_match(ext, path, name) {
        let i = choose|i: int| 0 <= i < ext.len() && spec_file_match(ext[i], path, name);
        if i < k {
            assert(pre[i] == ext[i]);
            assert(spec_files_match(pre, path, name));
        } else {
            assert(ext[k] == pats[k]);
        }
    }
    if spec_files_match(pre, path, name) {
        let i = choose|i: int| 0 <= i < pre.len() && spec_file_match(pre[i], path, name);
        assert(ext[i] == pre[i]);
        assert(spec_files_match(ext, path, name));
    }
    if spec_file_match(pats[k], path, name) {
        assert(ext[k] == pats[k]);
        assert(spec_files_match(ext, path, name));
    }
}

/// Compile every file pattern, combined with OR. An empty pattern, or a bare
/// file name containing a separator, is a configuration error, reported for
/// the first offending pattern before any repository access.
pub fn build_file_delete_patterns(files: &Vec<String>) -> (r: Result<FilePatterns, PatternError>)
    ensures
        (r is Ok) == (forall|i: int| 0 <= i < files@.len() ==> file_pattern_valid(#[trigger] patterns_bytes(files@)[i])),
        (match r {
            Ok(_) => true,
            Err(e) => exists|i: int| 0 <= i < files@.len()
                && !file_pattern_valid(#[trigger] patterns_bytes(files@)[i])
                && (forall|j: int| 0 <= j < i ==> file_pattern_valid(#[trigger] patterns_bytes(files@)[j]))
                && e == (if patterns_bytes(files@)[i].len() == 0 { PatternError::EmptyPattern } else { PatternError::SeparatorInFileName }),
        }),
        (match r {
            Ok(ps) => forall|path: Seq<u8>, name: Seq<u8>| #[trigger] spec_compiled_files_match(ps.pats@, path, name) == spec_files_match(patterns_bytes(files@), path, name),
            Err(_) => true,
        }),
{
    let ghost pb = patterns_bytes(files@);
    let mut acc = FilePatterns { pats: Vec::new() };
    let n = files.len();
    let mut k: usize = 0;
    while k < n
        invariant
            n == files@.len(),
            k <= n,
            pb == patterns_bytes(files@),
            forall|i: int| 0 <= i < k ==> file_pattern_valid(#[trigger] pb[i]),
            forall|path: Seq<u8>, name: Seq<u8>| #[trigger] spec_compiled_files_match(acc.pats@, path, name) == spec_files_match(pb.subrange(0, k as int), path, name),
        decreases n - k,
    {
        let fb: Vec<u8> = files[k].as_str().as_bytes_vec();
        proof {
            assert(fb@ == pb[k as int]);
        }
        if fb.len() == 0 {
            proof {
                assert(!file_pattern_valid(pb[k as int]));
            }
            return Err(PatternError::EmptyPattern);
        }
        match compile_file(fb.as_slice()) {
            Ok(p) => {
                acc = or(acc, single(p));
                proof {
                    assert forall|path: Seq<u8>, name: Seq<u8>| #[trigger] spec_compiled_files_match(acc.pats@, path, name) == spec_files_match(pb.subrange(0, k as int + 1), path, name) by {
                        lemma_files_match_extend(pb, k as int, path, name);
                    }
                }
            },
            Err(e) => {
                return Err(e);
            },
        }
        k = k + 1;
    }
    proof {
        assert(pb.subrange(0, n as int) =~= pb);
    }
    Ok(acc)
}

} // verus!
