//! Small executable helpers over byte strings (`Vec<u8>` / `&[u8]`), with the
//! spec vocabulary the rest of the crate states its contracts in.
use vstd::prelude::*;

verus! {

/// The views of a sequence of byte vectors.
pub open spec fn seq_views(s: Seq<Vec<u8>>) -> Seq<Seq<u8>> {
    s.map_values(|v: Vec<u8>| v@)
}

/// Membership of a byte string among the views of a sequence of byte vectors.
pub open spec fn contains_view(s: Seq<Vec<u8>>, x: Seq<u8>) -> bool {
    exists|i: int| 0 <= i < s.len() && s[i]@ == x
}

/// `contains_view` agrees with membership in the view sequence.
pub proof fn lemma_contains_view_is_seq_views_contains(s: Seq<Vec<u8>>, x: Seq<u8>)
    ensures
        contains_view(s, x) <==> seq_views(s).contains(x),
{
    if contains_view(s, x) {
        let i = choose|i: int| 0 <= i < s.len() && s[i]@ == x;
        assert(seq_views(s)[i] == x);
    }
    if seq_views(s).contains(x) {
        let i = choose|i: int| 0 <= i < seq_views(s).len() && seq_views(s)[i] == x;
        assert(s[i]@ == x);
    }
}

/// Membership after dropping the last element: everything present was either
/// kept or was the dropped element.
pub proof fn lemma_contains_view_drop_last(s: Seq<Vec<u8>>, x: Seq<u8>)
    requires
        s.len() > 0,
    ensures
        contains_view(s, x) <==> (contains_view(s.drop_last(), x) || x == s.last()@),
{
    if contains_view(s, x) {
        let i = choose|i: int| 0 <= i < s.len() && s[i]@ == x;
        if i < s.len() - 1 {
            assert(s.drop_last()[i]@ == x);
        }
    }
    if contains_view(s.drop_last(), x) {
        let i = choose|i: int| 0 <= i < s.drop_last().len() && s.drop_last()[i]@ == x;
        assert(s[i]@ == x);
    }
    if x == s.last()@ {
        assert(s[s.len() - 1]@ == x);
    }
}

/// Membership after dropping the first element.
pub proof fn lemma_contains_view_drop_first(s: Seq<Vec<u8>>, x: Seq<u8>)
    requires
        s.len() > 0,
    ensures
        contains_view(s, x) <==> (contains_view(s.subrange(1, s.len() as int), x) || x == s[0]@),
{
    let rest = s.subrange(1, s.len() as int);
    if contains_view(s, x) {
        let i = choose|i: int| 0 <= i < s.len() && s[i]@ == x;
        if i > 0 {
            assert(rest[i - 1]@ == x);
        }
    }
    if contains_view(rest, x) {
        let i = choose|i: int| 0 <= i < rest.len() && rest[i]@ == x;
        assert(s[i + 1]@ == x);
    }
}

/// A view sequence whose last view is fresh among the earlier,
/// duplicate-free ones is duplicate-free as a whole.
pub proof fn lemma_no_duplicates_push(s: Seq<Vec<u8>>)
    requires
        s.len() > 0,
        seq_views(s.drop_last()).no_duplicates(),
        !contains_view(s.drop_last(), s.last()@),
    ensures
        seq_views(s).no_duplicates(),
{
    let sv = seq_views(s);
    let pre = s.drop_last();
    assert forall|i: int, j: int| 0 <= i < j < sv.len() implies sv[i] != sv[j] by {
        if j < s.len() - 1 {
            assert(seq_views(pre)[i] == pre[i]@);
            assert(seq_views(pre)[j] == pre[j]@);
            assert(pre[i] == s[i]);
            assert(pre[j] == s[j]);
        } else {
            assert(sv[j] == s.last()@);
            assert(pre[i] == s[i]);
            if pre[i]@ == s.last()@ {
                assert(contains_view(pre, s.last()@));
            }
        }
    }
}

/// Byte-for-byte equality of two byte strings.
pub fn bytes_eq(a: &[u8], b: &[u8]) -> (r: bool)
    ensures
        r == (a@ == b@),
{
    if a.len() != b.len() {
        return false;
    }
    let mut i: usize = 0;
    while i < a.len()
        invariant
            0 <= i <= a@.len(),
            a@.len() == b@.len(),
            forall|j: int| 0 <= j < i ==> a@[j] == b@[j],
        decreases a@.len() - i,
    {
        if a[i] != b[i] {
            return false;
        }
        i = i + 1;
    }
    proof {
        assert(a@ =~= b@);
    }
    true
}

/// A fresh vector holding the same bytes.
pub fn clone_bytes(v: &[u8]) -> (r: Vec<u8>)
    ensures
        r@ == v@,
{
    let mut r: Vec<u8> = Vec::new();
    let mut i: usize = 0;
    while i < v.len()
        invariant
            0 <= i <= v@.len(),
            r@ == v@.subrange(0, i as int),
        decreases v@.len() - i,
    {
        r.push(v[i]);
        proof {
            assert(v@.subrange(0, i as int).push(v@[i as int]) =~= v@.subrange(0, i + 1));
        }
        i = i + 1;
    }
    proof {
        assert(v@.subrange(0, v@.len() as int) =~= v@);
    }
    r
}

/// Appends the bytes of `src` to `dst`.
pub fn append_bytes(dst: &mut Vec<u8>, src: &[u8])
    ensures
        final(dst)@ == old(dst)@ + src@,
{
    let mut i: usize = 0;
    while i < src.len()
        invariant
            0 <= i <= src@.len(),
            dst@ == old(dst)@ + src@.subrange(0, i as int),
        decreases src@.len() - i,
    {
        dst.push(src[i]);
        proof {
            assert((old(dst)@ + src@.subrange(0, i as int)).push(src@[i as int]) =~= old(dst)@
                + src@.subrange(0, i + 1));
        }
        i = i + 1;
    }
    proof {
        assert(old(dst)@ + src@.subrange(0, src@.len() as int) =~= old(dst)@ + src@);
    }
}

/// The bytes of `v` in the index range `[a, b)`, as a fresh vector.
pub fn copy_range(v: &[u8], a: usize, b: usize) -> (r: Vec<u8>)
    requires
        a <= b <= v@.len(),
    ensures
        r@ == v@.subrange(a as int, b as int),
{
    let mut r: Vec<u8> = Vec::new();
    let mut i: usize = a;
    while i < b
        invariant
            a <= i <= b <= v@.len(),
            r@ == v@.subrange(a as int, i as int),
        decreases b - i,
    {
        r.push(v[i]);
        proof {
            assert(v@.subrange(a as int, i as int).push(v@[i as int]) =~= v@.subrange(
                a as int,
                i + 1,
            ));
        }
        i = i + 1;
    }
    r
}

/// Whether `x` occurs among the byte vectors of `list`.
pub fn contains_bytes(list: &Vec<Vec<u8>>, x: &[u8]) -> (r: bool)
    ensures
        r == contains_view(list@, x@),
{
    let mut i: usize = 0;
    while i < list.len()
        invariant
            0 <= i <= list@.len(),
            forall|j: int| 0 <= j < i ==> list@[j]@ != x@,
        decreases list@.len() - i,
    {
        if bytes_eq(list[i].as_slice(), x) {
            return true;
        }
        i = i + 1;
    }
    false
}

} // verus!
