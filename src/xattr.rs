//! The read-only extended attributes that describe the filesystem itself.

use vstd::prelude::*;
use crate::path::bytes_eq;

verus! {

/// The name `tagfs.strategy`.
pub open spec fn strategy_name() -> Seq<u8> {
    seq![0x74u8, 0x61, 0x67, 0x66, 0x73, 0x2e, 0x73, 0x74, 0x72, 0x61, 0x74, 0x65, 0x67, 0x79]
}

/// The name `tagfs.depth`.
pub open spec fn depth_name() -> Seq<u8> {
    seq![0x74u8, 0x61, 0x67, 0x66, 0x73, 0x2e, 0x64, 0x65, 0x70, 0x74, 0x68]
}

/// The attributes, each a name and its fixed value: `tagfs.strategy` is
/// `0`, `tagfs.depth` is `1`.
pub open spec fn xattr_table() -> Seq<(Seq<u8>, Seq<u8>)> {
    seq![(strategy_name(), seq![0x30u8]), (depth_name(), seq![0x31u8])]
}

/// The names of the attributes, each followed by a zero byte.
pub open spec fn name_list() -> Seq<u8> {
    strategy_name() + seq![0u8] + depth_name() + seq![0u8]
}

/// The value of the attribute called `name`, if there is one.
pub open spec fn value_of(name: Seq<u8>) -> Option<Seq<u8>> {
    if name == xattr_table()[0].0 {
        Some(xattr_table()[0].1)
    } else if name == xattr_table()[1].0 {
        Some(xattr_table()[1].1)
    } else {
        None
    }
}

/// The answer to an attribute query: the size a buffer needs, when asked
/// with size zero, or the bytes themselves.
#[derive(Debug)]
pub enum XattrReply {
    Size(u32),
    Data(Vec<u8>),
}

/// The bytes of `tagfs.strategy`.
pub fn strategy_name_bytes() -> (r: Vec<u8>)
    ensures
        r@ == strategy_name(),
{
    let r = vec![0x74u8, 0x61, 0x67, 0x66, 0x73, 0x2e, 0x73, 0x74, 0x72, 0x61, 0x74, 0x65, 0x67, 0x79];
    assert(r@ =~= strategy_name());
    r
}

/// The bytes of `tagfs.depth`.
pub fn depth_name_bytes() -> (r: Vec<u8>)
    ensures
        r@ == depth_name(),
{
    let r = vec![0x74u8, 0x61, 0x67, 0x66, 0x73, 0x2e, 0x64, 0x65, 0x70, 0x74, 0x68];
    assert(r@ =~= depth_name());
    r
}

/// The names of the attributes, each followed by a zero byte.
pub fn name_list_bytes() -> (r: Vec<u8>)
    ensures
        r@ == name_list(),
{
    let mut r = strategy_name_bytes();
    r.push(0);
    let depth = depth_name_bytes();
    let mut i: usize = 0;
    while i < depth.len()
        invariant
            depth@ == depth_name(),
            i <= depth@.len(),
            r@ == strategy_name() + seq![0u8] + depth@.take(i as int),
        decreases depth@.len() - i,
    {
        r.push(depth[i]);
        i += 1;
        assert(r@ =~= strategy_name() + seq![0u8] + depth@.take(i as int));
    }
    r.push(0);
    assert(r@ =~= name_list());
    r
}

/// The value of the attribute called `name`, if there is one.
pub fn value_bytes(name: &Vec<u8>) -> (r: Option<Vec<u8>>)
    ensures
        match r {
            Some(v) => value_of(name@) == Some(v@),
            None => value_of(name@) is None,
        },
{
    if bytes_eq(name, &strategy_name_bytes()) {
        let v = vec![0x30u8];
        assert(v@ =~= seq![0x30u8]);
        Some(v)
    } else if bytes_eq(name, &depth_name_bytes()) {
        let v = vec![0x31u8];
        assert(v@ =~= seq![0x31u8]);
        Some(v)
    } else {
        None
    }
}

} // verus!
