//! Verified text operations on path strings: substring containment,
//! final path component extraction, and depth of a path relative to a root.

use vstd::prelude::*;

verus! {

use vstd::string::StrSliceExecFns;

/// `nee` occurs in `hay` starting at character position `i`.
pub open spec fn contains_at(hay: Seq<char>, nee: Seq<char>, i: int) -> bool {
    &&& 0 <= i
    &&& i + nee.len() <= hay.len()
    &&& forall|k: int| 0 <= k < nee.len() ==> hay[i + k] == nee[k]
}

/// `nee` occurs somewhere in `hay` (substring containment; an empty `nee`
/// is contained in every `hay`).
pub open spec fn contains_sub(hay: Seq<char>, nee: Seq<char>) -> bool {
    exists|i: int| contains_at(hay, nee, i)
}

/// Whether `nee` occurs in `hay` at position `i`, checked character by
/// character.
fn match_at(hay: &str, nee: &str, hlen: usize, nlen: usize, i: usize) -> (r: bool)
    requires
        hlen == hay@.len(),
        nlen == nee@.len(),
        i + nlen <= hlen,
    ensures
        r == contains_at(hay@, nee@, i as int),
{
    let mut j: usize = 0;
    while j < nlen
        invariant
            hlen == hay@.len(),
            nlen == nee@.len(),
            i + nlen <= hlen,
            0 <= j <= nlen,
            forall|k: int| 0 <= k < j ==> hay@[i + k] == nee@[k],
        decreases nlen - j,
    {
        if hay.get_char(i + j) != nee.get_char(j) {
            proof {
                assert(hay@[i + j] != nee@[j as int]);
            }
            return false;
        }
        j += 1;
    }
    true
}

/// Substring search: does `nee` occur anywhere in `hay`?
pub fn str_contains_sub(hay: &str, nee: &str) -> (r: bool)
    ensures
        r == contains_sub(hay@, nee@),
{
    let hlen = hay.unicode_len();
    let nlen = nee.unicode_len();
    if nlen > hlen {
        proof {
            assert forall|k: int| !contains_at(hay@, nee@, k) by {}
        }
        return false;
    }
    let mut i: usize = 0;
    while i <= hlen - nlen
        invariant
            hlen == hay@.len(),
            nlen == nee@.len(),
            nlen <= hlen,
            0 <= i <= hlen - nlen + 1,
            forall|k: int| 0 <= k < i ==> !contains_at(hay@, nee@, k),
        decreases hlen + 1 - i,
    {
        if match_at(hay, nee, hlen, nlen, i) {
            return true;
        }
        i += 1;
    }
    proof {
        assert forall|k: int| !contains_at(hay@, nee@, k) by {
            if 0 <= k < i {
            }
        }
    }
    false
}

/// The final component of a path: everything after the last `/`
/// (the whole string when it holds no `/`, empty when it ends in `/`).
pub open spec fn base_name(s: Seq<char>) -> Seq<char>
    decreases s.len(),
{
    if s.len() == 0 {
        s
    } else if s.last() == '/' {
        Seq::empty()
    } else {
        base_name(s.drop_last()).push(s.last())
    }
}

proof fn lemma_base_name_suffix(s: Seq<char>, i: int)
    requires
        0 <= i <= s.len(),
        forall|k: int| i <= k < s.len() ==> s[k] != '/',
        i > 0 ==> s[i - 1] == '/',
    ensures
        base_name(s) == s.subrange(i, s.len() as int),
    decreases s.len(),
{
    if i == s.len() {
        if s.len() == 0 {
            assert(base_name(s) =~= s.subrange(i, s.len() as int));
        } else {
            assert(s.last() == '/');
            assert(base_name(s) =~= s.subrange(i, s.len() as int));
        }
    } else {
        assert(s.last() != '/');
        let d = s.drop_last();
        lemma_base_name_suffix(d, i);
        assert(d.subrange(i, d.len() as int).push(s.last()) =~= s.subrange(i, s.len() as int));
    }
}

/// The final component of a path, as a slice of the input.
pub fn base_name_str<'a>(s: &'a str) -> (r: &'a str)
    ensures
        r@ == base_name(s@),
{
    let len = s.unicode_len();
    let mut i: usize = len;
    while i > 0 && s.get_char(i - 1) != '/'
        invariant
            len == s@.len(),
            0 <= i <= len,
            forall|k: int| i <= k < len ==> s@[k] != '/',
        decreases i,
    {
        i -= 1;
    }
    proof {
        lemma_base_name_suffix(s@, i as int);
    }
    s.substring_char(i, len)
}

/// `s` with every trailing `/` removed.
pub open spec fn trim_slashes(s: Seq<char>) -> Seq<char>
    decreases s.len(),
{
    if s.len() > 0 && s.last() == '/' {
        trim_slashes(s.drop_last())
    } else {
        s
    }
}

/// The number of characters of `s` left after trimming trailing slashes.
pub fn trimmed_len(s: &str) -> (r: usize)
    ensures
        r <= s@.len(),
        trim_slashes(s@) == s@.take(r as int),
{
    let len = s.unicode_len();
    let mut i: usize = len;
    proof {
        assert(s@.take(len as int) =~= s@);
    }
    while i > 0 && s.get_char(i - 1) == '/'
        invariant
            len == s@.len(),
            0 <= i <= len,
            trim_slashes(s@) == trim_slashes(s@.take(i as int)),
        decreases i,
    {
        proof {
            assert(s@.take(i as int).drop_last() =~= s@.take(i - 1));
        }
        i -= 1;
    }
    proof {
        if i > 0 {
            assert(s@.take(i as int).last() != '/');
        }
    }
    i
}

/// The number of `/` characters in `s`.
pub open spec fn slash_count(s: Seq<char>) -> nat
    decreases s.len(),
{
    if s.len() == 0 {
        0
    } else {
        slash_count(s.drop_last()) + (if s.last() == '/' {
            1nat
        } else {
            0nat
        })
    }
}

/// The depth of path `p` below `root`, both taken up to trailing slashes:
/// `Some(0)` when `p` is `root` itself, `Some(1 + slashes in the
/// remainder)` when `p` extends `root` past a separator, and `None` when
/// `p` does not lie under `root` in that textual sense.
pub open spec fn rel_depth(root: Seq<char>, p: Seq<char>) -> Option<int> {
    let rn = trim_slashes(root);
    let pn = trim_slashes(p);
    if pn == rn {
        Some(0)
    } else if pn.len() > rn.len() + 1 && pn.take(rn.len() as int) == rn && pn[rn.len() as int]
        == '/' {
        Some(1 + slash_count(pn.skip(rn.len() as int + 1)) as int)
    } else {
        None
    }
}

/// Whether the first `n` characters of `a` and of `b` agree.
fn prefix_eq(a: &str, b: &str, n: usize) -> (r: bool)
    requires
        n <= a@.len(),
        n <= b@.len(),
    ensures
        r == (a@.take(n as int) == b@.take(n as int)),
{
    let mut j: usize = 0;
    while j < n
        invariant
            n <= a@.len(),
            n <= b@.len(),
            0 <= j <= n,
            forall|k: int| 0 <= k < j ==> a@[k] == b@[k],
        decreases n - j,
    {
        if a.get_char(j) != b.get_char(j) {
            proof {
                assert(a@.take(n as int)[j as int] != b@.take(n as int)[j as int]);
            }
            return false;
        }
        j += 1;
    }
    proof {
        assert(a@.take(n as int) =~= b@.take(n as int));
    }
    true
}

/// Compute the depth of `p` relative to `root` (see [`rel_depth`]).
pub fn rel_depth_str(root: &str, p: &str) -> (r: Option<usize>)
    ensures
        (match r {
            Some(d) => rel_depth(root@, p@) == Some(d as int),
            None => rel_depth(root@, p@) is None,
        }),
{
    let rl = trimmed_len(root);
    let pt = trimmed_len(p);
    proof {
        assert(trim_slashes(root@).len() == rl as int);
        assert(trim_slashes(p@).len() == pt as int);
    }
    if pt == rl && prefix_eq(p, root, rl) {
        proof {
            assert(trim_slashes(p@) =~= trim_slashes(root@));
        }
        Some(0)
    } else if pt > rl && pt - rl > 1 && prefix_eq(p, root, rl) && p.get_char(rl) == '/' {
        let ghost pn = trim_slashes(p@);
        let ghost rn = trim_slashes(root@);
        proof {
            assert(pn.take(rl as int) =~= p@.take(rl as int));
            assert(pn.take(rl as int) == rn);
            assert(pn[rl as int] == p@[rl as int]);
            assert(pn != rn) by {
                assert(pn.len() != rn.len());
            }
        }
        let mut cnt: usize = 0;
        let mut j: usize = rl + 1;
        proof {
            assert(p@.subrange(rl + 1, j as int) =~= Seq::<char>::empty());
        }
        while j < pt
            invariant
                pt <= p@.len(),
                rl + 1 <= j <= pt,
                cnt == slash_count(p@.subrange(rl + 1, j as int)),
                cnt <= j - rl - 1,
            decreases pt - j,
        {
            proof {
                assert(p@.subrange(rl + 1, j + 1).drop_last() =~= p@.subrange(
                    rl + 1,
                    j as int,
                ));
                assert(p@.subrange(rl + 1, j + 1).last() == p@[j as int]);
            }
            if p.get_char(j) == '/' {
                cnt += 1;
            }
            j += 1;
        }
        proof {
            assert(p@.subrange(rl + 1, pt as int) =~= pn.skip(rl as int + 1));
        }
        Some(1 + cnt)
    } else {
        proof {
            let pn = trim_slashes(p@);
            let rn = trim_slashes(root@);
            if rl <= pt {
                assert(pn.take(rl as int) =~= p@.take(rl as int));
                if rl < pt {
                    assert(pn[rl as int] == p@[rl as int]);
                }
            } else {
                assert(pn.len() < rn.len());
            }
        }
        None
    }
}

} // verus!
