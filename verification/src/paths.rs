//! Resolution of output-path conflicts: splitting a path into directory, stem
//! and extension, the `_N` increment step, the rename-for-availability loop,
//! and the conflict decision itself.

use vstd::prelude::*;
use vstd::slice::{slice_subrange, slice_to_vec};
use crate::byteops::{
    eq_bytes, lemma_rfind, lemma_rfind_at, lemma_rfind_none, rfind, rfind_byte,
};
use crate::digits::{
    all_digits, all_digits_exec, dec_rep, format_u64, is_digit, lemma_dec_rep,
    lemma_parsed_or_zero_bounds, parse_digits_or_zero, parsed_or_zero, u32_limit,
};
use crate::extension::dot;

verus! {

pub open spec fn slash() -> u8 {
    '/' as u8
}

pub open spec fn underscore() -> u8 {
    '_' as u8
}

/// Length of the directory prefix, up to and including the last slash.
pub open spec fn dir_prefix_len(path: Seq<u8>) -> int {
    match rfind(path, slash()) {
        Some(i) => i + 1,
        None => 0,
    }
}

pub open spec fn dir_part(path: Seq<u8>) -> Seq<u8> {
    path.subrange(0, dir_prefix_len(path))
}

/// The final path component: everything after the last slash.
pub open spec fn file_part(path: Seq<u8>) -> Seq<u8> {
    path.subrange(dir_prefix_len(path), path.len() as int)
}

/// The file stem: the name up to its last dot, unless that dot is the leading
/// byte (a dotfile has no extension).
pub open spec fn stem_of(fname: Seq<u8>) -> Seq<u8> {
    match rfind(fname, dot()) {
        Some(i) => if i >= 1 {
            fname.subrange(0, i)
        } else {
            fname
        },
        None => fname,
    }
}

/// The extension after the last dot, or empty when there is none.
pub open spec fn ext_of(fname: Seq<u8>) -> Seq<u8> {
    match rfind(fname, dot()) {
        Some(i) => if i >= 1 {
            fname.subrange(i + 1, fname.len() as int)
        } else {
            Seq::empty()
        },
        None => Seq::empty(),
    }
}

/// The stem up to and including the underscore that carries the counter; when
/// the stem has no all-digit underscore suffix, an underscore is appended.
pub open spec fn inc_base(stem: Seq<u8>) -> Seq<u8> {
    match rfind(stem, underscore()) {
        Some(u) => if all_digits(stem.subrange(u + 1, stem.len() as int)) {
            stem.subrange(0, u + 1)
        } else {
            stem + seq![underscore()]
        },
        None => stem + seq![underscore()],
    }
}

/// The counter the incremented stem will carry.
pub open spec fn inc_num(stem: Seq<u8>) -> int {
    match rfind(stem, underscore()) {
        Some(u) => if all_digits(stem.subrange(u + 1, stem.len() as int)) {
            parsed_or_zero(stem.subrange(u + 1, stem.len() as int)) + 1
        } else {
            1
        },
        None => 1,
    }
}

/// The counter a stem currently carries: its all-digit underscore suffix read
/// as `u32` parsing reads it, zero when there is none.
pub open spec fn stem_number(stem: Seq<u8>) -> int {
    match rfind(stem, underscore()) {
        Some(u) => if all_digits(stem.subrange(u + 1, stem.len() as int)) {
            parsed_or_zero(stem.subrange(u + 1, stem.len() as int))
        } else {
            0
        },
        None => 0,
    }
}

/// One increment step on the stem: `file` becomes `file_1`, `file_7` becomes
/// `file_8`.
pub open spec fn stem_increment(stem: Seq<u8>) -> Seq<u8> {
    match rfind(stem, underscore()) {
        Some(u) => if all_digits(stem.subrange(u + 1, stem.len() as int)) {
            stem.subrange(0, u + 1) + dec_rep((parsed_or_zero(
                stem.subrange(u + 1, stem.len() as int),
            ) + 1) as nat)
        } else {
            stem + seq![underscore(), '1' as u8]
        },
        None => stem + seq![underscore(), '1' as u8],
    }
}

/// One increment step on a whole path: same directory, incremented stem, the
/// extension (when present) reattached.
pub open spec fn increment_path(path: Seq<u8>) -> Seq<u8> {
    let fname = file_part(path);
    let new_stem = stem_increment(stem_of(fname));
    if ext_of(fname).len() == 0 {
        dir_part(path) + new_stem
    } else {
        dir_part(path) + new_stem + seq![dot()] + ext_of(fname)
    }
}

/// The counter the path's stem carries.
pub open spec fn path_number(path: Seq<u8>) -> int {
    stem_number(stem_of(file_part(path)))
}

/// Paths on which the increment step re-splits the same way afterwards: the
/// name keeps an extension, or its stem has no interior dot.  A trailing-dot
/// name re-splits differently after one step.
pub open spec fn stable_split(path: Seq<u8>) -> bool {
    let fname = file_part(path);
    ext_of(fname).len() > 0 || rfind(stem_of(fname), dot()) is None || rfind(
        stem_of(fname),
        dot(),
    ) == Some(0int)
}

/// The incremented stem decomposes into its base (ending in an underscore)
/// followed by the decimal digits of the new counter.
proof fn lemma_stem_increment(stem: Seq<u8>)
    ensures
        stem_increment(stem) == inc_base(stem) + dec_rep(inc_num(stem) as nat),
        inc_base(stem).len() >= 1,
        inc_base(stem).len() <= stem.len() + 1,
        inc_base(stem)[inc_base(stem).len() - 1] == underscore(),
        forall|j: int| 0 <= j < inc_base(stem).len() - 1 ==> inc_base(stem)[j] == stem[j],
        inc_num(stem) == stem_number(stem) + 1,
        inc_num(stem) >= 1,
{
    lemma_rfind(stem, underscore());
    match rfind(stem, underscore()) {
        Some(u) => {
            if all_digits(stem.subrange(u + 1, stem.len() as int)) {
                lemma_parsed_or_zero_bounds(stem.subrange(u + 1, stem.len() as int));
            } else {
                assert(dec_rep(1nat) =~= seq!['1' as u8]);
                assert(stem + seq![underscore(), '1' as u8] =~= (stem + seq![underscore()])
                    + dec_rep(1nat));
            }
        },
        None => {
            assert(dec_rep(1nat) =~= seq!['1' as u8]);
            assert(stem + seq![underscore(), '1' as u8] =~= (stem + seq![underscore()]) + dec_rep(
                1nat,
            ));
        },
    }
}

/// Reading the counter back out of an incremented stem gives the new counter.
proof fn lemma_stem_number_increment(stem: Seq<u8>)
    requires
        stem_number(stem) < u32_limit(),
    ensures
        stem_number(stem_increment(stem)) == stem_number(stem) + 1,
    {
    lemma_stem_increment(stem);
    let b = inc_base(stem);
    let m = inc_num(stem);
    lemma_dec_rep(m as nat);
    let ns = stem_increment(stem);
    assert(ns.len() == b.len() + dec_rep(m as nat).len());
    assert(ns[b.len() - 1] == underscore());
    assert forall|j: int| b.len() - 1 < j < ns.len() implies ns[j] != underscore() by {
        assert(ns[j] == dec_rep(m as nat)[j - b.len()]);
        assert(is_digit(dec_rep(m as nat)[j - b.len()]));
    }
    lemma_rfind_at(ns, underscore(), b.len() - 1);
    let suffix = ns.subrange(b.len() as int, ns.len() as int);
    assert(suffix =~= dec_rep(m as nat));
    assert(m <= u32_limit());
    assert(parsed_or_zero(dec_rep(m as nat)) == m);
}

/// One increment step takes the path's counter up by exactly one, and keeps
/// the path splitting stably.
proof fn lemma_increment_number(p: Seq<u8>)
    requires
        path_number(p) < u32_limit(),
        stable_split(p),
    ensures
        path_number(increment_path(p)) == path_number(p) + 1,
        stable_split(increment_path(p)),
{
    let pre = dir_part(p);
    let fname = file_part(p);
    let stem = stem_of(fname);
    let ext = ext_of(fname);
    let ns = stem_increment(stem);
    let b = inc_base(stem);
    let m = inc_num(stem);
    let q = increment_path(p);

    lemma_rfind(p, slash());
    // no slash in the file part
    assert forall|j: int| 0 <= j < fname.len() implies fname[j] != slash() by {
        match rfind(p, slash()) {
            Some(i) => {
                assert(fname[j] == p[dir_prefix_len(p) + j]);
            },
            None => {
                assert(fname[j] == p[j]);
            },
        }
    }
    lemma_rfind(fname, dot());
    // the stem is a prefix of the name; the extension is dot-free
    assert(forall|j: int| 0 <= j < stem.len() ==> stem[j] == fname[j]);
    assert forall|j: int| 0 <= j < ext.len() implies ext[j] != dot() by {
        match rfind(fname, dot()) {
            Some(i) => {
                if i >= 1 {
                    assert(ext[j] == fname[i + 1 + j]);
                }
            },
            None => {},
        }
    }
    lemma_stem_increment(stem);
    lemma_stem_number_increment(stem);
    lemma_dec_rep(m as nat);
    // how the new stem is indexed
    let dd = dec_rep(m as nat);
    assert(ns.len() == b.len() + dd.len());
    assert(forall|j: int| 0 <= j < b.len() ==> ns[j] == (b + dd)[j] && (b + dd)[j] == b[j]);
    assert(forall|j: int|
        b.len() <= j < ns.len() ==> ns[j] == (b + dd)[j] && (b + dd)[j] == dd[j - b.len()]);
    assert(forall|j: int| 0 <= j < dd.len() ==> is_digit(#[trigger] dd[j]));
    // no slash in the new stem
    assert forall|j: int| 0 <= j < ns.len() implies ns[j] != slash() by {
        if j < b.len() - 1 {
            assert(ns[j] == b[j]);
            assert(b[j] == stem[j]);
            assert(stem[j] == fname[j]);
        } else if j == b.len() - 1 {
            assert(ns[j] == underscore());
        } else {
            assert(ns[j] == dd[j - b.len()]);
            assert(is_digit(dd[j - b.len()]));
        }
    }
    // the tail after the directory prefix
    let t = if ext.len() == 0 {
        ns
    } else {
        ns + seq![dot()] + ext
    };
    assert(q == pre + t) by {
        if ext.len() == 0 {
        } else {
            assert(pre + (ns + seq![dot()] + ext) =~= pre + ns + seq![dot()] + ext);
        }
    }
    assert forall|j: int| 0 <= j < t.len() implies t[j] != slash() by {
        if j < ns.len() {
            assert(t[j] == ns[j]);
        } else if j == ns.len() {
            assert(t[j] == dot());
        } else {
            assert(t[j] == ext[j - ns.len() - 1]);
            assert(fname[rfind(fname, dot()).unwrap() + 1 + (j - ns.len() - 1)] != slash());
        }
    }
    // the directory prefix is unchanged
    assert(dir_prefix_len(q) == pre.len()) by {
        match rfind(p, slash()) {
            Some(i) => {
                assert(pre[i] == p[i]);
                assert(q[i] == pre[i]);
                assert(p[i] == slash());
                assert forall|j: int| i < j < q.len() implies q[j] != slash() by {
                    assert(q[j] == t[j - pre.len()]);
                }
                lemma_rfind_at(q, slash(), i);
            },
            None => {
                assert(pre.len() == 0);
                assert forall|j: int| 0 <= j < q.len() implies q[j] != slash() by {
                    assert(q[j] == t[j - pre.len()]);
                }
                lemma_rfind_none(q, slash());
            },
        }
    }
    assert(file_part(q) =~= t);
    // the new name splits into the incremented stem and the old extension
    if ext.len() > 0 {
        assert(t[ns.len() as int] == dot());
        assert forall|j: int| ns.len() < j < t.len() implies t[j] != dot() by {
            assert(t[j] == ext[j - ns.len() - 1]);
        }
        lemma_rfind_at(t, dot(), ns.len() as int);
        assert(ns.len() >= 2);
        assert(stem_of(t) =~= ns);
        assert(ext_of(t) =~= ext);
    } else {
        assert(t == ns);
        // dots in the stem sit only at position zero, so they stay there
        match rfind(stem, dot()) {
            Some(i0) => {
                assert(i0 == 0);
                lemma_rfind(stem, dot());
                assert forall|j: int| 0 < j < ns.len() implies ns[j] != dot() by {
                    if j < b.len() - 1 {
                        assert(ns[j] == b[j]);
                        assert(b[j] == stem[j]);
                    } else if j == b.len() - 1 {
                        assert(ns[j] == underscore());
                    } else {
                        assert(ns[j] == dd[j - b.len()]);
                        assert(is_digit(dd[j - b.len()]));
                    }
                }
                if ns[0] == dot() {
                    lemma_rfind_at(ns, dot(), 0);
                    assert(stem_of(t) == ns);
                } else {
                    lemma_rfind_none(ns, dot());
                    assert(stem_of(t) == ns);
                }
            },
            None => {
                lemma_rfind(stem, dot());
                assert forall|j: int| 0 <= j < ns.len() implies ns[j] != dot() by {
                    if j < b.len() - 1 {
                        assert(ns[j] == b[j]);
                        assert(b[j] == stem[j]);
                    } else if j == b.len() - 1 {
                        assert(ns[j] == underscore());
                    } else {
                        assert(ns[j] == dd[j - b.len()]);
                        assert(is_digit(dd[j - b.len()]));
                    }
                }
                lemma_rfind_none(ns, dot());
                assert(stem_of(t) == ns);
            },
        }
    }
    assert(path_number(q) == stem_number(ns));
}

/// Renames the path's file name to `<stem>_1`, or increments an existing
/// `_<digits>` suffix, keeping directory and extension.
#[verifier::rlimit(60)]
pub fn rename_or_increment_filename(path: &[u8]) -> (r: Vec<u8>)
    ensures
        r@ == increment_path(path@),
{
    proof {
        lemma_rfind(path@, slash());
    }
    let n = path.len();
    let dpl: usize = match rfind_byte(path, '/' as u8) {
        Some(i) => {
            proof {
                assert(rfind(path@, slash()) == Some(i as int));
            }
            i + 1
        },
        None => 0,
    };
    proof {
        assert(dpl as int == dir_prefix_len(path@));
    }
    let fname = slice_subrange(path, dpl, n);
    proof {
        assert(fname@ =~= file_part(path@));
    }
    let fn_len = fname.len();
    proof {
        lemma_rfind(fname@, dot());
    }
    let stem: &[u8];
    let ext: &[u8];
    match rfind_byte(fname, '.' as u8) {
        Some(i) => {
            proof {
                assert(rfind(fname@, dot()) == Some(i as int));
            }
            if i >= 1 {
                stem = slice_subrange(fname, 0, i);
                ext = slice_subrange(fname, i + 1, fn_len);
            } else {
                stem = fname;
                ext = slice_subrange(fname, 0, 0);
            }
        },
        None => {
            stem = fname;
            ext = slice_subrange(fname, 0, 0);
        },
    }
    proof {
        assert(stem@ =~= stem_of(fname@));
        assert(ext@ =~= ext_of(fname@));
    }
    proof {
        lemma_rfind(stem@, underscore());
    }
    let st_len = stem.len();
    let mut new_stem: Vec<u8> = Vec::new();
    match rfind_byte(stem, '_' as u8) {
        Some(u) => {
            proof {
                assert(rfind(stem@, underscore()) == Some(u as int));
            }
            let suffix = slice_subrange(stem, u + 1, st_len);
            if all_digits_exec(suffix) {
                let v = parse_digits_or_zero(suffix);
                new_stem.extend_from_slice(slice_subrange(stem, 0, u + 1));
                let digits = format_u64(v + 1);
                new_stem.extend_from_slice(digits.as_slice());
                proof {
                    assert(new_stem@ =~= stem_increment(stem@));
                }
            } else {
                new_stem.extend_from_slice(stem);
                new_stem.push('_' as u8);
                new_stem.push('1' as u8);
                proof {
                    assert(new_stem@ =~= stem_increment(stem@));
                }
            }
        },
        None => {
            new_stem.extend_from_slice(stem);
            new_stem.push('_' as u8);
            new_stem.push('1' as u8);
            proof {
                assert(new_stem@ =~= stem_increment(stem@));
            }
        },
    }
    let mut out: Vec<u8> = Vec::new();
    out.extend_from_slice(slice_subrange(path, 0, dpl));
    out.extend_from_slice(new_stem.as_slice());
    if ext.len() > 0 {
        out.push('.' as u8);
        out.extend_from_slice(ext);
        proof {
            assert(out@ =~= dir_part(path@) + stem_increment(stem_of(file_part(path@))) + seq![
                dot(),
            ] + ext_of(file_part(path@)));
        }
    } else {
        proof {
            assert(out@ =~= dir_part(path@) + stem_increment(stem_of(file_part(path@))));
        }
    }
    out
}

/// The views of a list of paths.
pub open spec fn path_views(l: Seq<Vec<u8>>) -> Seq<Seq<u8>> {
    l.map_values(|v: Vec<u8>| v@)
}

/// Whether `x` is one of the paths in `list`.
pub fn contains_path(list: &Vec<Vec<u8>>, x: &[u8]) -> (r: bool)
    ensures
        r == path_views(list@).contains(x@),
{
    let n = list.len();
    let mut i: usize = 0;
    while i < n
        invariant
            n == list@.len(),
            i <= n,
            forall|j: int| 0 <= j < i ==> list@[j]@ != x@,
        decreases n - i,
    {
        if eq_bytes(list[i].as_slice(), x) {
            proof {
                assert(path_views(list@)[i as int] == x@);
            }
            return true;
        }
        i = i + 1;
    }
    proof {
        assert forall|j: int| 0 <= j < path_views(list@).len() implies path_views(list@)[j] != x@
        by {
            assert(path_views(list@)[j] == list@[j]@);
        }
    }
    false
}

/// The `k`-th repeated application of the increment step, starting with one
/// application.
pub open spec fn iterate_increment(path: Seq<u8>, k: nat) -> Seq<u8>
    decreases k,
{
    if k == 0 {
        increment_path(path)
    } else {
        increment_path(iterate_increment(path, (k - 1) as nat))
    }
}

/// What renaming for availability returns: some iterate of the increment step
/// that is not taken, every earlier iterate being taken.
pub open spec fn renamed_ok(path: Seq<u8>, existing: Seq<Vec<u8>>, r: Seq<u8>) -> bool {
    &&& !path_views(existing).contains(r)
    &&& exists|k: nat|
        r == #[trigger] iterate_increment(path, k) && (forall|j: nat|
            j < k ==> path_views(existing).contains(#[trigger] iterate_increment(path, j)))
}

/// Applies the increment step until the result collides with none of the
/// paths in `existing` (the occupied names this resolution is run against).
pub fn rename_for_available_filename(path: &[u8], existing: &Vec<Vec<u8>>) -> (r: Vec<u8>)
    requires
        path_number(path@) + existing@.len() + 1 < u32_limit(),
        stable_split(path@),
    ensures
        renamed_ok(path@, existing@, r@),
{
    let ghost pn0 = path_number(path@);
    let mut renamed: Vec<u8> = rename_or_increment_filename(path);
    proof {
        lemma_increment_number(path@);
    }
    let ghost mut k: nat = 0;
    let ghost mut seen: Seq<Seq<u8>> = Seq::empty();
    while contains_path(existing, renamed.as_slice())
        invariant
            pn0 == path_number(path@),
            pn0 + existing@.len() + 1 < u32_limit(),
            renamed@ == iterate_increment(path@, k),
            path_number(renamed@) == pn0 + 1 + k,
            stable_split(renamed@),
            k == seen.len(),
            k <= existing@.len(),
            forall|j: int| 0 <= j < k ==> seen[j] == iterate_increment(path@, j as nat),
            forall|j: int|
                0 <= j < k ==> path_views(existing@).contains(#[trigger] seen[j]),
            forall|j: int| 0 <= j < k ==> path_number(#[trigger] seen[j]) == pn0 + 1 + j,
        decreases existing@.len() - k,
    {
        proof {
            let seen2 = seen.push(renamed@);
            assert forall|i1: int, j1: int| 0 <= i1 < j1 < seen2.len() implies seen2[i1]
                != seen2[j1] by {
                if j1 < k {
                    assert(path_number(seen2[i1]) == pn0 + 1 + i1);
                    assert(path_number(seen2[j1]) == pn0 + 1 + j1);
                } else {
                    assert(seen2[j1] == renamed@);
                    assert(path_number(seen2[i1]) == pn0 + 1 + i1);
                    assert(path_number(seen2[j1]) == pn0 + 1 + k);
                }
            }
            assert(seen2.no_duplicates());
            seen2.unique_seq_to_set();
            path_views(existing@).lemma_cardinality_of_set();
            assert(seen2.to_set() <= path_views(existing@).to_set()) by {
                assert forall|x: Seq<u8>| seen2.to_set().contains(x) implies path_views(
                    existing@,
                ).to_set().contains(x) by {
                    assert(seen2.contains(x));
                    let j = choose|j: int| 0 <= j < seen2.len() && seen2[j] == x;
                    assert(path_views(existing@).contains(x));
                }
            }
            vstd::set_lib::lemma_len_subset(seen2.to_set(), path_views(existing@).to_set());
            assert(seen2.len() <= path_views(existing@).len());
            assert(path_views(existing@).len() == existing@.len());
            seen = seen2;
            k = k + 1;
        }
        let ghost prev = renamed@;
        renamed = rename_or_increment_filename(renamed.as_slice());
        proof {
            lemma_increment_number(prev);
            assert(renamed@ == iterate_increment(path@, k));
        }
    }
    proof {
        assert(renamed@ == iterate_increment(path@, k));
        assert forall|j: nat| j < k implies path_views(existing@).contains(
            #[trigger] iterate_increment(path@, j),
        ) by {
            assert(seen[j as int] == iterate_increment(path@, j));
            assert(path_views(existing@).contains(seen[j as int]));
        }
        assert(renamed_ok(path@, existing@, renamed@));
    }
    renamed
}

/// Whether `rename_for_available_filename` accepts this path and this many
/// occupied names: the counter must have room to grow within the `u32` range,
/// and the name must re-split stably under incrementing.
pub fn can_rename(path: &[u8], existing: &Vec<Vec<u8>>) -> (r: bool)
    ensures
        r == (path_number(path@) + existing@.len() + 1 < u32_limit() && stable_split(path@)),
{
    proof {
        lemma_rfind(path@, slash());
    }
    let n = path.len();
    let dpl: usize = match rfind_byte(path, '/' as u8) {
        Some(i) => i + 1,
        None => 0,
    };
    let fname = slice_subrange(path, dpl, n);
    proof {
        assert(fname@ =~= file_part(path@));
        lemma_rfind(fname@, dot());
    }
    let fn_len = fname.len();
    let stem: &[u8];
    let has_ext: bool;
    match rfind_byte(fname, '.' as u8) {
        Some(i) => {
            if i >= 1 {
                stem = slice_subrange(fname, 0, i);
                has_ext = i + 1 < fn_len;
            } else {
                stem = fname;
                has_ext = false;
            }
        },
        None => {
            stem = fname;
            has_ext = false;
        },
    }
    proof {
        assert(stem@ =~= stem_of(fname@));
        assert(has_ext == (ext_of(fname@).len() > 0));
    }
    let stable: bool = if has_ext {
        true
    } else {
        match rfind_byte(stem, '.' as u8) {
            None => true,
            Some(d) => d == 0,
        }
    };
    if !stable {
        return false;
    }
    proof {
        lemma_rfind(stem@, underscore());
    }
    let st_len = stem.len();
    let num: u64 = match rfind_byte(stem, '_' as u8) {
        Some(u) => {
            let suffix = slice_subrange(stem, u + 1, st_len);
            if all_digits_exec(suffix) {
                parse_digits_or_zero(suffix)
            } else {
                0
            }
        },
        None => 0,
    };
    proof {
        assert(num as int == path_number(path@));
    }
    (num as u128) + (existing.len() as u128) + 1 < 0xFFFF_FFFF
}

/// The decision an external policy or prompt takes about an occupied path.
#[derive(Copy, Clone, PartialEq, Eq, Debug, Structural)]
pub enum FileConflictOperation {
    /// Abort the whole operation.
    Cancel,
    /// Delete what is there and use the path.
    Overwrite,
    /// Keep what is there and pick a fresh name.
    Rename,
    /// Use the path as is; the caller merges contents.
    Merge,
}

/// Decides which output path to use.  A free path is used as is.  For an
/// occupied one the supplied decision rules: cancelling yields nothing,
/// overwriting and merging keep the path (the caller deletes on overwrite),
/// renaming picks the first free incremented name against `existing`.
pub fn resolve_path_conflict(
    path: &[u8],
    occupied: bool,
    op: FileConflictOperation,
    existing: &Vec<Vec<u8>>,
) -> (r: Option<Vec<u8>>)
    requires
        occupied && op is Rename ==> path_number(path@) + existing@.len() + 1 < u32_limit()
            && stable_split(path@),
    ensures
        !occupied ==> (r matches Some(p) && p@ == path@),
        occupied && op is Cancel ==> r is None,
        occupied && (op is Overwrite || op is Merge) ==> (r matches Some(p) && p@ == path@),
        occupied && op is Rename ==> (r matches Some(p) && renamed_ok(path@, existing@, p@)),
{
    if !occupied {
        Some(slice_to_vec(path))
    } else {
        match op {
            FileConflictOperation::Cancel => None,
            FileConflictOperation::Overwrite => Some(slice_to_vec(path)),
            FileConflictOperation::Rename => Some(rename_for_available_filename(path, existing)),
            FileConflictOperation::Merge => Some(slice_to_vec(path)),
        }
    }
}

/// Whether the path is the conventional stdin/stdout marker `-`.
pub fn is_path_stdin(path: &[u8]) -> (r: bool)
    ensures
        r <==> path@ == seq!['-' as u8],
{
    let r = path.len() == 1 && path[0] == '-' as u8;
    proof {
        if r {
            assert(path@ =~= seq!['-' as u8]);
        }
    }
    r
}

} // verus!
