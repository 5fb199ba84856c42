//! Byte strings and the splitting of paths into their named components.

use vstd::prelude::*;

verus! {

/// The path separator `/`.
pub const SEP: u8 = 0x2f;

/// The byte `.`.
pub const DOT: u8 = 0x2e;

/// The byte strings that a sequence of vectors holds.
pub open spec fn seqs(v: Seq<Vec<u8>>) -> Seq<Seq<u8>> {
    v.map_values(|x: Vec<u8>| x@)
}

/// A component that names something: neither empty, nor `.`, nor `..`.
pub open spec fn is_normal(c: Seq<u8>) -> bool {
    c.len() > 0 && c != seq![DOT] && c != seq![DOT, DOT]
}

/// `done` with `cur` appended where `cur` names something.
pub open spec fn push_normal(done: Seq<Seq<u8>>, cur: Seq<u8>) -> Seq<Seq<u8>> {
    if is_normal(cur) {
        done.push(cur)
    } else {
        done
    }
}

/// The first `n` bytes of `p` read as a path: the named components closed by
/// a separator so far, and the bytes after the last separator.
pub open spec fn split_prefix(p: Seq<u8>, n: nat) -> (Seq<Seq<u8>>, Seq<u8>)
    decreases n,
{
    if n == 0 || n > p.len() {
        (seq![], seq![])
    } else {
        let prev = split_prefix(p, (n - 1) as nat);
        if p[n - 1] == SEP {
            (push_normal(prev.0, prev.1), seq![])
        } else {
            (prev.0, prev.1.push(p[n - 1]))
        }
    }
}

/// The named components of path `p`, in order: separators, empty components,
/// `.` and `..` are left out.
pub open spec fn components(p: Seq<u8>) -> Seq<Seq<u8>> {
    let all = split_prefix(p, p.len());
    push_normal(all.0, all.1)
}

/// A copy of the bytes of `a`.
pub fn copy_bytes(a: &Vec<u8>) -> (r: Vec<u8>)
    ensures
        r@ == a@,
{
    let mut r: Vec<u8> = Vec::new();
    let mut i: usize = 0;
    while i < a.len()
        invariant
            i <= a@.len(),
            r@ == a@.take(i as int),
        decreases a@.len() - i,
    {
        r.push(a[i]);
        i += 1;
        assert(r@ =~= a@.take(i as int));
    }
    assert(a@.take(a@.len() as int) =~= a@);
    r
}

/// Whether two byte strings are equal.
pub fn bytes_eq(a: &Vec<u8>, b: &Vec<u8>) -> (r: bool)
    ensures
        r == (a@ == b@),
{
    if a.len() != b.len() {
        return false;
    }
    let mut i: usize = 0;
    while i < a.len()
        invariant
            a@.len() == b@.len(),
            i <= a@.len(),
            forall|k: int| 0 <= k < i ==> a@[k] == b@[k],
        decreases a@.len() - i,
    {
        if a[i] != b[i] {
            return false;
        }
        i += 1;
    }
    assert(a@ =~= b@);
    true
}

/// Whether `x` is one of the byte strings of `v`.
pub fn contains_bytes(v: &Vec<Vec<u8>>, x: &Vec<u8>) -> (r: bool)
    ensures
        r == seqs(v@).contains(x@),
{
    let mut i: usize = 0;
    while i < v.len()
        invariant
            i <= v@.len(),
            forall|k: int| 0 <= k < i ==> v@[k]@ != x@,
        decreases v@.len() - i,
    {
        if bytes_eq(&v[i], x) {
            assert(seqs(v@)[i as int] == x@);
            return true;
        }
        i += 1;
    }
    assert(!seqs(v@).contains(x@)) by {
        assert forall|k: int| 0 <= k < seqs(v@).len() implies seqs(v@)[k] != x@ by {
            assert(seqs(v@)[k] == v@[k]@);
        }
    }
    false
}

/// Whether every byte string of `a` is one of those of `b`.
pub fn is_subset(a: &Vec<Vec<u8>>, b: &Vec<Vec<u8>>) -> (r: bool)
    ensures
        r == seqs(a@).to_set().subset_of(seqs(b@).to_set()),
{
    let mut i: usize = 0;
    while i < a.len()
        invariant
            i <= a@.len(),
            forall|k: int| 0 <= k < i ==> seqs(b@).contains(#[trigger] seqs(a@)[k]),
        decreases a@.len() - i,
    {
        if !contains_bytes(b, &a[i]) {
            assert(seqs(a@)[i as int] == a@[i as int]@);
            assert(seqs(a@).to_set().contains(a@[i as int]@));
            return false;
        }
        assert(seqs(a@)[i as int] == a@[i as int]@);
        i += 1;
    }
    true
}

/// Whether `c` names something.
fn is_normal_exec(c: &Vec<u8>) -> (r: bool)
    ensures
        r == is_normal(c@),
{
    if c.len() == 0 {
        false
    } else if c.len() == 1 {
        if c[0] == DOT {
            assert(c@ =~= seq![DOT]);
            false
        } else {
            assert(c@ != seq![DOT] && c@ != seq![DOT, DOT]) by {
                assert(seq![DOT][0] == DOT);
            }
            true
        }
    } else if c.len() == 2 {
        if c[0] == DOT && c[1] == DOT {
            assert(c@ =~= seq![DOT, DOT]);
            false
        } else {
            assert(c@ != seq![DOT, DOT]) by {
                assert(seq![DOT, DOT][0] == DOT && seq![DOT, DOT][1] == DOT);
            }
            true
        }
    } else {
        true
    }
}

/// Splits path `p` into its named components.
pub fn components_of(p: &Vec<u8>) -> (r: Vec<Vec<u8>>)
    ensures
        seqs(r@) == components(p@),
{
    let mut done: Vec<Vec<u8>> = Vec::new();
    let mut cur: Vec<u8> = Vec::new();
    let mut i: usize = 0;
    while i < p.len()
        invariant
            i <= p@.len(),
            seqs(done@) == split_prefix(p@, i as nat).0,
            cur@ == split_prefix(p@, i as nat).1,
        decreases p@.len() - i,
    {
        let b = p[i];
        if b == SEP {
            if is_normal_exec(&cur) {
                let ghost before = done@;
                done.push(cur);
                assert(seqs(done@) =~= seqs(before).push(cur@));
            }
            cur = Vec::new();
            assert(cur@ =~= seq![]);
        } else {
            cur.push(b);
        }
        i += 1;
    }
    if is_normal_exec(&cur) {
        let ghost before = done@;
        done.push(cur);
        assert(seqs(done@) =~= seqs(before).push(cur@));
    }
    done
}

} // verus!
