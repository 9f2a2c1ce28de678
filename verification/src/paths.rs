//! Canonical paths as byte strings.
//!
//! A canonical path is a normalized byte string that identifies one
//! filesystem entry: the root is `/`, every other path is the parent's
//! path joined with `/` and the entry's name. The engine only relies on
//! paths as identity keys plus the two derived views below: the last
//! component (the entry's display name) and the prefix before it.

use vstd::prelude::*;

verus! {

/// The byte `/`, the path separator.
pub const SLASH: u8 = 47;

/// Index of the last separator in `p`, or `-1` when `p` holds none.
pub open spec fn last_slash(p: Seq<u8>) -> int
    decreases p.len(),
{
    if p.len() == 0 {
        -1
    } else if p[p.len() - 1] == SLASH {
        p.len() - 1
    } else {
        last_slash(p.drop_last())
    }
}

/// The last component of `p`: the bytes after the last separator.
/// A path that ends in a separator (such as the root `/`) has no
/// component of its own and is displayed as `/`.
pub open spec fn spec_name_of(p: Seq<u8>) -> Seq<u8> {
    if p.len() > 0 && last_slash(p) == p.len() - 1 {
        seq![SLASH]
    } else if last_slash(p) < 0 {
        p
    } else {
        p.subrange(last_slash(p) + 1, p.len() as int)
    }
}

/// The parent of `p`: the bytes before the last separator, or the root
/// `/` when the last separator is the leading byte. A path without a
/// separator, and the root itself, have no parent.
pub open spec fn spec_parent_of(p: Seq<u8>) -> Option<Seq<u8>> {
    if p.len() <= 1 || last_slash(p) < 0 || last_slash(p) == p.len() - 1 {
        None
    } else if last_slash(p) == 0 {
        Some(seq![SLASH])
    } else {
        Some(p.subrange(0, last_slash(p)))
    }
}

/// No byte of `p` at an index in `[i, p.len())` is a separator.
pub open spec fn no_slash_from(p: Seq<u8>, i: int) -> bool {
    forall|j: int| i <= j < p.len() ==> p[j] != SLASH
}

proof fn lemma_last_slash_none(p: Seq<u8>)
    requires
        no_slash_from(p, 0),
    ensures
        last_slash(p) == -1,
    decreases p.len(),
{
    if p.len() > 0 {
        assert(no_slash_from(p.drop_last(), 0));
        lemma_last_slash_none(p.drop_last());
    }
}

proof fn lemma_last_slash_at(p: Seq<u8>, k: int)
    requires
        0 <= k < p.len(),
        p[k] == SLASH,
        no_slash_from(p, k + 1),
    ensures
        last_slash(p) == k,
    decreases p.len(),
{
    if k < p.len() - 1 {
        assert(p.drop_last()[k] == SLASH);
        assert(no_slash_from(p.drop_last(), k + 1));
        lemma_last_slash_at(p.drop_last(), k);
    }
}

/// Byte-for-byte equality of two byte strings.
pub fn bytes_eq(a: &Vec<u8>, b: &Vec<u8>) -> (r: bool)
    ensures
        r == (a@ == b@),
{
    if a.len() != b.len() {
        proof {
            assert(a@ != b@);
        }
        return false;
    }
    let n = a.len();
    let mut i: usize = 0;
    while i < n
        invariant
            0 <= i <= n,
            n == a@.len() == b@.len(),
            forall|j: int| 0 <= j < i ==> a@[j] == b@[j],
        decreases n - i,
    {
        if a[i] != b[i] {
            proof {
                assert(a@[i as int] != b@[i as int]);
            }
            return false;
        }
        i = i + 1;
    }
    proof {
        assert(a@ =~= b@);
    }
    true
}

/// Index of the last separator of `p`, as `spec` `last_slash` gives it;
/// `None` stands for no separator.
pub fn find_last_slash(p: &Vec<u8>) -> (r: Option<usize>)
    ensures
        match r {
            Some(k) => k == last_slash(p@) && k < p@.len(),
            None => last_slash(p@) == -1,
        },
{
    let n = p.len();
    let mut i: usize = n;
    while i > 0
        invariant
            0 <= i <= n,
            n == p@.len(),
            no_slash_from(p@, i as int),
        decreases i,
    {
        i = i - 1;
        if p[i] == SLASH {
            proof {
                lemma_last_slash_at(p@, i as int);
            }
            return Some(i);
        }
    }
    proof {
        lemma_last_slash_none(p@);
    }
    None
}

/// The last component of `p`, as `spec_name_of` gives it.
pub fn name_of(p: &Vec<u8>) -> (r: Vec<u8>)
    ensures
        r@ == spec_name_of(p@),
{
    let n = p.len();
    match find_last_slash(p) {
        None => {
            let mut r: Vec<u8> = Vec::new();
            let mut i: usize = 0;
            while i < n
                invariant
                    0 <= i <= n,
                    n == p@.len(),
                    r@ == p@.subrange(0, i as int),
                decreases n - i,
            {
                r.push(p[i]);
                proof {
                    assert(r@ =~= p@.subrange(0, i + 1));
                }
                i = i + 1;
            }
            proof {
                assert(p@.subrange(0, n as int) =~= p@);
            }
            r
        },
        Some(k) => {
            if k == n - 1 {
                let mut r: Vec<u8> = Vec::new();
                r.push(SLASH);
                proof {
                    assert(r@ =~= seq![SLASH]);
                }
                r
            } else {
                let mut r: Vec<u8> = Vec::new();
                let mut i: usize = k + 1;
                while i < n
                    invariant
                        k + 1 <= i <= n,
                        n == p@.len(),
                        k == last_slash(p@),
                        r@ == p@.subrange(k + 1, i as int),
                    decreases n - i,
                {
                    r.push(p[i]);
                    proof {
                        assert(r@ =~= p@.subrange(k + 1, i + 1));
                    }
                    i = i + 1;
                }
                r
            }
        },
    }
}

/// The parent path of `p`, as `spec_parent_of` gives it.
pub fn parent_of(p: &Vec<u8>) -> (r: Option<Vec<u8>>)
    ensures
        match r {
            Some(q) => spec_parent_of(p@) == Some(q@),
            None => spec_parent_of(p@) is None,
        },
{
    let n = p.len();
    if n <= 1 {
        return None;
    }
    match find_last_slash(p) {
        None => None,
        Some(k) => {
            if k == n - 1 {
                None
            } else if k == 0 {
                let mut r: Vec<u8> = Vec::new();
                r.push(SLASH);
                proof {
                    assert(r@ =~= seq![SLASH]);
                }
                Some(r)
            } else {
                let mut r: Vec<u8> = Vec::new();
                let mut i: usize = 0;
                while i < k
                    invariant
                        0 <= i <= k < n,
                        n == p@.len(),
                        k == last_slash(p@),
                        r@ == p@.subrange(0, i as int),
                    decreases k - i,
                {
                    r.push(p[i]);
                    proof {
                        assert(r@ =~= p@.subrange(0, i + 1));
                    }
                    i = i + 1;
                }
                Some(r)
            }
        },
    }
}

} // verus!
