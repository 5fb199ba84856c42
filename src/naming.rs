//! The suffix that tells apart two listed files of the same name: the
//! canonical path of each, percent-escaped so that it holds neither `/` nor
//! `~` and can be read back.

use vstd::prelude::*;
use crate::path::SEP;

verus! {

/// The byte `~`, which separates a file name from its suffix.
pub const TILDE: u8 = 0x7e;

/// The byte `%`, which starts an escape.
pub const PERCENT: u8 = 0x25;

/// A byte as it stands in a suffix: `%` as `%25`, `/` as `%2F`, `~` as
/// `%7E`, any other byte as itself.
pub open spec fn escape_byte(b: u8) -> Seq<u8> {
    if b == PERCENT {
        seq![PERCENT, 0x32u8, 0x35u8]
    } else if b == SEP {
        seq![PERCENT, 0x32u8, 0x46u8]
    } else if b == TILDE {
        seq![PERCENT, 0x37u8, 0x45u8]
    } else {
        seq![b]
    }
}

/// A path with each byte escaped.
pub open spec fn escaped(p: Seq<u8>) -> Seq<u8>
    decreases p.len(),
{
    if p.len() == 0 {
        seq![]
    } else {
        escape_byte(p[0]) + escaped(p.drop_first())
    }
}

/// The byte that the escape `%ab` stands for.
pub open spec fn unescape3(a: u8, b: u8) -> u8 {
    if a == 0x32 && b == 0x35 {
        PERCENT
    } else if a == 0x32 && b == 0x46 {
        SEP
    } else {
        TILDE
    }
}

/// Reads an escaped path back.
pub open spec fn unescaped(s: Seq<u8>) -> Seq<u8>
    decreases s.len(),
{
    if s.len() == 0 {
        seq![]
    } else if s[0] == PERCENT && s.len() >= 3 {
        seq![unescape3(s[1], s[2])] + unescaped(s.subrange(3, s.len() as int))
    } else {
        seq![s[0]] + unescaped(s.subrange(1, s.len() as int))
    }
}

/// `k` bytes `~`.
pub open spec fn pad(k: nat) -> Seq<u8> {
    Seq::new(k, |i: int| TILDE)
}

/// Escaping one more byte appends its escape.
pub proof fn lemma_escaped_push(p: Seq<u8>, b: u8)
    ensures
        escaped(p.push(b)) == escaped(p) + escape_byte(b),
    decreases p.len(),
{
    if p.len() == 0 {
        assert(p.push(b).drop_first() =~= seq![]);
        assert(escaped(p.push(b)) =~= escape_byte(b) + escaped(seq![]));
        assert(escaped(p) + escape_byte(b) =~= escape_byte(b));
    } else {
        assert(p.push(b).drop_first() =~= p.drop_first().push(b));
        lemma_escaped_push(p.drop_first(), b);
        assert(p.push(b)[0] == p[0]);
        assert(escaped(p.push(b)) =~= escaped(p) + escape_byte(b));
    }
}

/// An escaped path holds no `~`.
pub proof fn lemma_escaped_no_tilde(p: Seq<u8>)
    ensures
        forall|k: int| 0 <= k < escaped(p).len() ==> escaped(p)[k] != TILDE,
    decreases p.len(),
{
    if p.len() > 0 {
        lemma_escaped_no_tilde(p.drop_first());
        let e = escape_byte(p[0]);
        let r = escaped(p.drop_first());
        assert forall|k: int| 0 <= k < escaped(p).len() implies escaped(p)[k] != TILDE by {
            if k < e.len() {
                assert(escaped(p)[k] == e[k]);
            } else {
                assert(escaped(p)[k] == r[k - e.len()]);
            }
        }
    }
}

/// An escaped path reads back as itself.
pub proof fn lemma_unescape(p: Seq<u8>)
    ensures
        unescaped(escaped(p)) == p,
    decreases p.len(),
{
    if p.len() == 0 {
        assert(escaped(p) =~= seq![]);
    } else {
        let e = escape_byte(p[0]);
        let r = escaped(p.drop_first());
        let s = escaped(p);
        assert(s == e + r);
        lemma_unescape(p.drop_first());
        if e.len() == 3 {
            assert(s[0] == PERCENT && s[1] == e[1] && s[2] == e[2]);
            assert(s.subrange(3, s.len() as int) =~= r);
            assert(unescape3(s[1], s[2]) == p[0]);
        } else {
            assert(s[0] == p[0]);
            assert(s.subrange(1, s.len() as int) =~= r);
        }
        assert(unescaped(s) =~= p);
    }
}

/// A name padded with at least one `~` and followed by a suffix free of `~`
/// gives the suffix back: it is what follows the last `~`.
pub proof fn lemma_suffix_determined(
    n1: Seq<u8>,
    k1: nat,
    e1: Seq<u8>,
    n2: Seq<u8>,
    k2: nat,
    e2: Seq<u8>,
)
    requires
        k1 >= 1,
        k2 >= 1,
        forall|k: int| 0 <= k < e1.len() ==> e1[k] != TILDE,
        forall|k: int| 0 <= k < e2.len() ==> e2[k] != TILDE,
        n1 + pad(k1) + e1 == n2 + pad(k2) + e2,
    ensures
        e1 == e2,
{
    let s = n1 + pad(k1) + e1;
    let s2 = n2 + pad(k2) + e2;
    assert(s.len() == s2.len());
    if e1.len() < e2.len() {
        let x = s.len() - e1.len() - 1;
        assert(s[x] == pad(k1)[k1 - 1]);
        assert(s2[x] == e2[x - n2.len() - k2]);
    } else if e2.len() < e1.len() {
        let x = s.len() - e2.len() - 1;
        assert(s2[x] == pad(k2)[k2 - 1]);
        assert(s[x] == e1[x - n1.len() - k1]);
    } else {
        assert(e1 =~= s.subrange(s.len() - e1.len(), s.len() as int));
        assert(e2 =~= s2.subrange(s2.len() - e2.len(), s2.len() as int));
    }
}

/// Appends the escape of each byte of `p` to `r`.
pub fn append_escaped(r: &mut Vec<u8>, p: &Vec<u8>)
    ensures
        final(r)@ == old(r)@ + escaped(p@),
{
    let mut i: usize = 0;
    assert(escaped(p@.take(0)) =~= seq![]);
    assert(r@ =~= old(r)@ + escaped(p@.take(0)));
    while i < p.len()
        invariant
            i <= p@.len(),
            r@ == old(r)@ + escaped(p@.take(i as int)),
        decreases p@.len() - i,
    {
        let b = p[i];
        proof {
            assert(p@.take(i + 1) =~= p@.take(i as int).push(b));
            lemma_escaped_push(p@.take(i as int), b);
        }
        if b == PERCENT {
            r.push(PERCENT);
            r.push(0x32);
            r.push(0x35);
        } else if b == SEP {
            r.push(PERCENT);
            r.push(0x32);
            r.push(0x46);
        } else if b == TILDE {
            r.push(PERCENT);
            r.push(0x37);
            r.push(0x45);
        } else {
            r.push(b);
        }
        i += 1;
        assert(r@ =~= old(r)@ + escaped(p@.take(i as int)));
    }
    assert(p@.take(p@.len() as int) =~= p@);
}

} // verus!
