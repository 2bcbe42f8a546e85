//! Validator identities.

use vstd::prelude::*;

verus! {

/// The public key under which a validator submits and is scored.
///
/// Two keys name the same validator exactly when their bytes agree, which is
/// what `==` tests.
#[derive(Debug)]
pub struct PublicKey {
    pub data: Vec<u8>,
}

impl View for PublicKey {
    type V = Seq<u8>;

    open spec fn view(&self) -> Seq<u8> {
        self.data@
    }
}

impl DeepView for PublicKey {
    type V = Seq<u8>;

    open spec fn deep_view(&self) -> Seq<u8> {
        self@
    }
}

impl PublicKey {
    /// The key with the given bytes.
    pub fn new(data: Vec<u8>) -> (key: PublicKey)
        ensures
            key@ == data@,
    {
        PublicKey { data }
    }
}

impl PartialEq for PublicKey {
    fn eq(&self, other: &PublicKey) -> (same: bool) {
        let same = self.data == other.data;
        assert(same == (self.data@ =~= other.data@));
        same
    }
}

impl Eq for PublicKey {

}

impl vstd::std_specs::cmp::PartialEqSpecImpl for PublicKey {
    open spec fn obeys_eq_spec() -> bool {
        true
    }

    open spec fn eq_spec(&self, other: &PublicKey) -> bool {
        self@ == other@
    }
}

impl Clone for PublicKey {
    fn clone(&self) -> (copy: PublicKey)
        ensures
            copy@ == self@,
    {
        PublicKey { data: self.data.clone() }
    }
}

/// Whether `key` is among `keys`.
pub fn holds_key(keys: &Vec<PublicKey>, key: &PublicKey) -> (held: bool)
    ensures
        held == keys.deep_view().contains(key@),
{
    let mut i: usize = 0;
    while i < keys.len()
        invariant
            i <= keys.len(),
            forall|j: int| 0 <= j < i ==> keys.deep_view()[j] != key@,
        decreases keys.len() - i,
    {
        if keys[i] == *key {
            assert(keys.deep_view()[i as int] == key@);
            return true;
        }
        i = i + 1;
    }
    false
}

/// Adds copies of the keys in `more` to the end of `keys`.
pub fn append_keys(keys: &mut Vec<PublicKey>, more: &Vec<PublicKey>)
    ensures
        final(keys).deep_view() == old(keys).deep_view() + more.deep_view(),
{
    let mut i: usize = 0;
    while i < more.len()
        invariant
            i <= more.len(),
            keys.deep_view() == old(keys).deep_view() + more.deep_view().take(i as int),
        decreases more.len() - i,
    {
        let ghost before = keys.deep_view();
        keys.push(more[i].clone());
        assert(keys.deep_view() =~= before.push(more[i as int]@));
        assert(more.deep_view().take(i + 1) =~= more.deep_view().take(i as int).push(
            more[i as int]@,
        ));
        i = i + 1;
    }
    assert(more.deep_view().take(more.len() as int) =~= more.deep_view());
}

/// A copy of `keys`.
pub fn clone_keys(keys: &Vec<PublicKey>) -> (copy: Vec<PublicKey>)
    ensures
        copy.deep_view() == keys.deep_view(),
{
    let mut copy: Vec<PublicKey> = Vec::new();
    assert(copy.deep_view() =~= Seq::<Seq<u8>>::empty());
    append_keys(&mut copy, keys);
    assert(Seq::<Seq<u8>>::empty() + keys.deep_view() =~= keys.deep_view());
    copy
}

} // verus!
