//! The bank's channel lookup table: a `hashbrown` hash map from channel id to
//! the channel's position in the bank's FIFO storage.
//!
//! `hashbrown::HashMap` carries an allocator type parameter that Verus cannot
//! declare, so the map lives in a private field of an opaque struct and is
//! reached only through the trusted wrappers below, whose contracts speak of
//! the abstract contents [`index_view`].

use vstd::prelude::*;

verus! {

/// Lookup table from channel id to position, backed by a `hashbrown` map.
#[verifier::external_body]
pub struct ChannelIndex {
    inner: hashbrown::HashMap<u128, usize>,
}

/// The contents of a [`ChannelIndex`]: which position each id maps to.
pub uninterp spec fn index_view(m: ChannelIndex) -> Map<u128, usize>;

/// Relies on `hashbrown::HashMap::new`: creates an empty map.
#[verifier::external_body]
pub fn index_new() -> (r: ChannelIndex)
    ensures
        index_view(r) =~= Map::empty(),
{
    ChannelIndex { inner: hashbrown::HashMap::new() }
}

/// Relies on `hashbrown::HashMap::insert`: maps the key to the value,
/// replacing any previous value for that key.
#[verifier::external_body]
pub fn index_insert(m: &mut ChannelIndex, k: u128, v: usize)
    ensures
        index_view(*final(m)) == index_view(*old(m)).insert(k, v),
{
    m.inner.insert(k, v);
}

/// Relies on `hashbrown::HashMap::get`: returns the value the key maps to,
/// or `None` when the key is absent.
#[verifier::external_body]
pub fn index_get(m: &ChannelIndex, k: u128) -> (r: Option<usize>)
    ensures
        r == if index_view(*m).contains_key(k) {
            Some(index_view(*m)[k])
        } else {
            None::<usize>
        },
{
    m.inner.get(&k).copied()
}

/// Relies on `hashbrown::HashMap::remove`: deletes the key and returns the
/// value it mapped to, or `None` when the key was absent.
#[verifier::external_body]
pub fn index_remove(m: &mut ChannelIndex, k: u128) -> (r: Option<usize>)
    ensures
        index_view(*final(m)) == index_view(*old(m)).remove(k),
        r == if index_view(*old(m)).contains_key(k) {
            Some(index_view(*old(m))[k])
        } else {
            None::<usize>
        },
{
    m.inner.remove(&k)
}

/// Relies on `hashbrown::HashMap::clear`: removes every entry.
#[verifier::external_body]
pub fn index_clear(m: &mut ChannelIndex)
    ensures
        index_view(*final(m)) =~= Map::empty(),
{
    m.inner.clear();
}

} // verus!
