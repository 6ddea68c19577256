//! Small byte-sequence operations the parsers are built on: finding the first
//! or last occurrence of a byte, and comparing slices.

use vstd::prelude::*;

verus! {

/// Index of the last occurrence of `b` in `s`, if any.
pub open spec fn rfind(s: Seq<u8>, b: u8) -> Option<int>
    decreases s.len(),
{
    if s.len() == 0 {
        None
    } else if s[s.len() - 1] == b {
        Some(s.len() - 1)
    } else {
        rfind(s.subrange(0, s.len() - 1), b)
    }
}

/// Index of the first occurrence of `b` in `s` at or after `from`, if any.
pub open spec fn find_from(s: Seq<u8>, from: int, b: u8) -> Option<int>
    decreases s.len() - from,
{
    if from < 0 || from >= s.len() {
        None
    } else if s[from] == b {
        Some(from)
    } else {
        find_from(s, from + 1, b)
    }
}

/// What `rfind` returns is the last occurrence: a hit, with nothing after it.
pub proof fn lemma_rfind(s: Seq<u8>, b: u8)
    ensures
        match rfind(s, b) {
            Some(i) => 0 <= i < s.len() && s[i] == b && (forall|j: int|
                i < j < s.len() ==> s[j] != b),
            None => forall|j: int| 0 <= j < s.len() ==> s[j] != b,
        },
    decreases s.len(),
{
    if s.len() == 0 {
    } else if s[s.len() - 1] == b {
    } else {
        let pre = s.subrange(0, s.len() - 1);
        lemma_rfind(pre, b);
        assert(forall|j: int| 0 <= j < pre.len() ==> pre[j] == s[j]);
    }
}

/// What `find_from` returns is the first occurrence at or after `from`.
pub proof fn lemma_find_from(s: Seq<u8>, from: int, b: u8)
    requires
        0 <= from,
    ensures
        match find_from(s, from, b) {
            Some(i) => from <= i < s.len() && s[i] == b && (forall|j: int|
                from <= j < i ==> s[j] != b),
            None => forall|j: int| from <= j < s.len() ==> s[j] != b,
        },
    decreases s.len() - from,
{
    if from < 0 || from >= s.len() {
    } else if s[from] == b {
    } else {
        lemma_find_from(s, from + 1, b);
    }
}

/// A position that holds `b` with nothing but other bytes after it is where
/// `rfind` points.
pub proof fn lemma_rfind_at(s: Seq<u8>, b: u8, i: int)
    requires
        0 <= i < s.len(),
        s[i] == b,
        forall|j: int| i < j < s.len() ==> s[j] != b,
    ensures
        rfind(s, b) == Some(i),
{
    lemma_rfind(s, b);
    match rfind(s, b) {
        Some(k) => {
            if k < i {
                assert(s[i] == b);
                assert(false);
            }
            if k > i {
                assert(s[k] != b);
                assert(false);
            }
        },
        None => {
            assert(s[i] != b);
            assert(false);
        },
    }
}

/// A sequence without `b` has no last occurrence of it.
pub proof fn lemma_rfind_none(s: Seq<u8>, b: u8)
    requires
        forall|j: int| 0 <= j < s.len() ==> s[j] != b,
    ensures
        rfind(s, b) is None,
{
    lemma_rfind(s, b);
    match rfind(s, b) {
        Some(k) => {
            assert(s[k] != b);
            assert(false);
        },
        None => {},
    }
}

/// Finds the last occurrence of `b` in `s`.
pub fn rfind_byte(s: &[u8], b: u8) -> (r: Option<usize>)
    ensures
        r is Some <==> rfind(s@, b) is Some,
        r is Some ==> rfind(s@, b) == Some(r.unwrap() as int),
{
    let mut j: usize = s.len();
    proof {
        assert(s@.subrange(0, s@.len() as int) =~= s@);
    }
    while j > 0
        invariant
            j <= s@.len(),
            rfind(s@, b) == rfind(s@.subrange(0, j as int), b),
        decreases j,
    {
        if s[j - 1] == b {
            proof {
                assert(s@.subrange(0, j as int)[j - 1] == s@[j - 1]);
            }
            return Some(j - 1);
        }
        proof {
            let cur = s@.subrange(0, j as int);
            assert(cur[cur.len() - 1] == s@[j - 1]);
            assert(cur.subrange(0, cur.len() - 1) =~= s@.subrange(0, j - 1));
        }
        j = j - 1;
    }
    proof {
        assert(s@.subrange(0, 0) =~= Seq::<u8>::empty());
    }
    None
}

/// Finds the first occurrence of `b` in `s` at or after `from`.
pub fn find_byte_from(s: &[u8], from: usize, b: u8) -> (r: Option<usize>)
    ensures
        r is Some <==> find_from(s@, from as int, b) is Some,
        r is Some ==> find_from(s@, from as int, b) == Some(r.unwrap() as int),
{
    let mut i: usize = from;
    while i < s.len()
        invariant
            from <= i,
            find_from(s@, from as int, b) == find_from(s@, i as int, b),
        decreases s@.len() - i,
    {
        if s[i] == b {
            return Some(i);
        }
        i = i + 1;
    }
    None
}

/// Byte-for-byte equality of two slices.
pub fn eq_bytes(a: &[u8], b: &[u8]) -> (r: bool)
    ensures
        r <==> a@ == b@,
{
    if a.len() != b.len() {
        return false;
    }
    let n = a.len();
    let mut i: usize = 0;
    while i < n
        invariant
            n == a@.len() == b@.len(),
            i <= n,
            forall|j: int| 0 <= j < i ==> a@[j] == b@[j],
        decreases n - i,
    {
        if a[i] != b[i] {
            return false;
        }
        i = i + 1;
    }
    proof {
        assert(a@ =~= b@);
    }
    true
}

/// Whether `buf` begins with `pat`.
pub fn starts_with_bytes(buf: &[u8], pat: &[u8]) -> (r: bool)
    ensures
        r <==> (buf@.len() >= pat@.len() && buf@.subrange(0, pat@.len() as int) == pat@),
{
    if buf.len() < pat.len() {
        return false;
    }
    let n = pat.len();
    let mut i: usize = 0;
    while i < n
        invariant
            n == pat@.len() <= buf@.len(),
            i <= n,
            forall|j: int| 0 <= j < i ==> buf@[j] == pat@[j],
        decreases n - i,
    {
        if buf[i] != pat[i] {
            proof {
                if buf@.subrange(0, pat@.len() as int) == pat@ {
                    assert(buf@.subrange(0, pat@.len() as int)[i as int] == buf@[i as int]);
                }
            }
            return false;
        }
        i = i + 1;
    }
    proof {
        assert(buf@.subrange(0, pat@.len() as int) =~= pat@);
    }
    true
}

} // verus!
