//! Relative paths inside the installation prefix.
//!
//! Every file an archive asks to place under the prefix is named by a byte
//! path with `/` separators.  A path is *clean* when it is relative and can
//! never resolve outside the prefix: no leading slash, no empty segment, no
//! `.` or `..` segment, and no newline byte (paths are persisted in the
//! line-based manifest file).

use vstd::prelude::*;

verus! {

/// Byte value of `/`.
pub const SLASH: u8 = 47;

/// Byte value of `.`.
pub const DOT: u8 = 46;

/// Byte value of the line feed.
pub const NEWLINE: u8 = 10;

/// A segment starts at `i` when `i` is the start of the path or the
/// previous byte is a separator.
pub open spec fn seg_starts_at(s: Seq<u8>, i: int) -> bool {
    i == 0 || s[i - 1] == SLASH
}

/// A segment ends just before `j` when `j` is the end of the path or the
/// byte at `j` is a separator.
pub open spec fn seg_ends_at(s: Seq<u8>, j: int) -> bool {
    j == s.len() || s[j] == SLASH
}

/// The path has a `.` segment at position `i`.
pub open spec fn dot_seg_at(s: Seq<u8>, i: int) -> bool {
    &&& 0 <= i < s.len()
    &&& s[i] == DOT
    &&& seg_starts_at(s, i)
    &&& seg_ends_at(s, i + 1)
}

/// The path has a `..` segment at position `i`.
pub open spec fn dotdot_seg_at(s: Seq<u8>, i: int) -> bool {
    &&& 0 <= i
    &&& i + 1 < s.len()
    &&& s[i] == DOT
    &&& s[i + 1] == DOT
    &&& seg_starts_at(s, i)
    &&& seg_ends_at(s, i + 2)
}

/// A clean relative path: nonempty, not absolute, no empty segment, no
/// `.` or `..` segment, and no newline byte.
pub open spec fn clean_path(s: Seq<u8>) -> bool {
    &&& s.len() > 0
    &&& s[0] != SLASH
    &&& s[s.len() - 1] != SLASH
    &&& forall|i: int| #![trigger s[i]] 1 <= i < s.len() ==> !(s[i] == SLASH && s[i - 1] == SLASH)
    &&& forall|i: int| !dot_seg_at(s, i)
    &&& forall|i: int| !dotdot_seg_at(s, i)
    &&& forall|i: int| #![trigger s[i]] 0 <= i < s.len() ==> s[i] != NEWLINE
}

/// Decides whether `p` is a clean relative path.
pub fn is_clean_path(p: &Vec<u8>) -> (b: bool)
    ensures
        b == clean_path(p@),
{
    let n = p.len();
    if n == 0 {
        return false;
    }
    let mut i: usize = 0;
    while i < n
        invariant
            n == p@.len(),
            0 < n,
            0 <= i <= n,
            forall|j: int| #![trigger p@[j]] 0 <= j < i ==> p@[j] != NEWLINE,
            forall|j: int| #![trigger p@[j]]
                1 <= j < n && j <= i ==> !(p@[j] == SLASH && p@[j - 1] == SLASH),
            i > 0 ==> p@[0] != SLASH,
            forall|j: int| 0 <= j < i ==> !dot_seg_at(p@, j),
            forall|j: int| 0 <= j < i ==> !dotdot_seg_at(p@, j),
            forall|j: int| #![trigger p@[j]] 0 <= j < i && j == n - 1 ==> p@[j] != SLASH,
        decreases n - i,
    {
        let c = p[i];
        if c == NEWLINE {
            return false;
        }
        if c == SLASH {
            if i == 0 || i == n - 1 {
                return false;
            }
            if p[i + 1] == SLASH {
                assert(!clean_path(p@)) by {
                    let w: int = i as int + 1;
                    assert(p@[w] == SLASH && p@[w - 1] == SLASH);
                }
                return false;
            }
        }
        if c == DOT {
            let starts = i == 0 || p[i - 1] == SLASH;
            if starts {
                if i + 1 == n || p[i + 1] == SLASH {
                    assert(dot_seg_at(p@, i as int));
                    return false;
                }
                if p[i + 1] == DOT && (i + 2 == n || p[i + 2] == SLASH) {
                    assert(dotdot_seg_at(p@, i as int));
                    return false;
                }
            }
        }
        i = i + 1;
    }
    true
}

/// The first segment of a path: the bytes before the first separator.
pub open spec fn first_seg(s: Seq<u8>) -> Seq<u8>
    decreases s.len(),
{
    if s.len() == 0 || s[0] == SLASH {
        Seq::empty()
    } else {
        seq![s[0]] + first_seg(s.drop_first())
    }
}

/// A well-formed component name: nonempty, with no separator and no
/// newline byte (names are persisted in the line-based manifest file).
pub open spec fn name_ok(n: Seq<u8>) -> bool {
    &&& n.len() > 0
    &&& forall|i: int| #![trigger n[i]] 0 <= i < n.len() ==> n[i] != SLASH && n[i] != NEWLINE
}

/// The first segment copies a prefix of the path and carries no separator.
pub proof fn lemma_first_seg_elems(s: Seq<u8>)
    ensures
        first_seg(s).len() <= s.len(),
        forall|j: int| #![trigger first_seg(s)[j]]
            0 <= j < first_seg(s).len() ==> first_seg(s)[j] == s[j] && s[j] != SLASH,
    decreases s.len(),
{
    if s.len() == 0 || s[0] == SLASH {
    } else {
        lemma_first_seg_elems(s.drop_first());
        let f = first_seg(s);
        let t = first_seg(s.drop_first());
        assert(forall|j: int| 0 <= j < t.len() ==> s.drop_first()[j] == s[j + 1]);
        assert(forall|j: int| #![trigger f[j]] 0 <= j < f.len() ==> f[j] == s[j] && s[j] != SLASH)
            by {
            assert(forall|j: int| 1 <= j < f.len() ==> f[j] == t[j - 1]);
        }
    }
}

/// On a clean path the first segment is a well-formed component name.
pub proof fn lemma_first_seg_clean(s: Seq<u8>)
    requires
        clean_path(s),
    ensures
        name_ok(first_seg(s)),
    decreases s.len(),
{
    lemma_first_seg_elems(s);
    assert(first_seg(s).len() > 0);
}

/// The first segment is the prefix of `s` that ends at the first separator.
pub proof fn lemma_first_seg_prefix(s: Seq<u8>, k: int)
    requires
        0 <= k <= s.len(),
        forall|j: int| #![trigger s[j]] 0 <= j < k ==> s[j] != SLASH,
        k < s.len() ==> s[k] == SLASH,
    ensures
        first_seg(s) == s.subrange(0, k),
    decreases s.len(),
{
    if s.len() == 0 || s[0] == SLASH {
        assert(k == 0);
        assert(first_seg(s) =~= s.subrange(0, 0));
    } else {
        assert(k > 0);
        let t = s.drop_first();
        lemma_first_seg_prefix(t, k - 1);
        assert(first_seg(s) =~= s.subrange(0, k)) by {
            assert(forall|j: int| 0 <= j < k - 1 ==> t[j] == s[j + 1]);
        }
    }
}

/// Extracts the first segment of `p`.
pub fn take_first_seg(p: &Vec<u8>) -> (r: Vec<u8>)
    ensures
        r@ == first_seg(p@),
{
    let n = p.len();
    let mut k: usize = 0;
    while k < n && p[k] != SLASH
        invariant
            n == p@.len(),
            0 <= k <= n,
            forall|j: int| #![trigger p@[j]] 0 <= j < k ==> p@[j] != SLASH,
        decreases n - k,
    {
        k = k + 1;
    }
    assert(k < n ==> p@[k as int] == SLASH);
    let mut r: Vec<u8> = Vec::new();
    let mut j: usize = 0;
    while j < k
        invariant
            0 <= j <= k <= n,
            n == p@.len(),
            r@.len() == j,
            forall|t: int| #![trigger r@[t]] 0 <= t < j ==> r@[t] == p@[t],
        decreases k - j,
    {
        r.push(p[j]);
        j = j + 1;
    }
    proof {
        lemma_first_seg_prefix(p@, k as int);
        assert(r@ =~= p@.subrange(0, k as int));
    }
    r
}

} // verus!
