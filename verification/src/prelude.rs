//! What most users of the library need, in one place.
pub use crate::chunk_grid::ArrayRegion;
pub use crate::data_type::DataType;
pub use crate::ndarr::NDArr;
pub use crate::node::array::Array;
pub use crate::node::array::ArrayMetadata;
pub use crate::node::array::ArrayMetadataBuilder;
pub use crate::node::group::Group;
pub use crate::node::group::GroupMetadata;
pub use crate::node::ReadableMetadata;
pub use crate::node::WriteableMetadata;
pub use crate::store::ListableStore;
pub use crate::store::NodeKey;
pub use crate::store::ReadableStore;
pub use crate::store::Store;
pub use crate::store::WriteableStore;
use crate::ZarrError;
use vstd::prelude::*;

verus! {

/// Why no node was made at the root of a store.
#[derive(Clone, Copy, Debug, PartialEq, Eq, Structural)]
pub enum RootError {
    /// The store holds the metadata of a node at its root already.
    NodeExists,
    /// The store failed, or the metadata breaks a rule.
    Failed(ZarrError),
}

/// The key of the metadata of the node at the root.
pub open spec fn root_meta_key() -> Seq<Seq<char>> {
    seq![crate::store::metadata_name_chars()]
}

/// Makes the group at the root of a store that has no node there, and
/// writes the document of its metadata. A store that has a node at its
/// root is left as it is.
pub fn create_root_group<S: WriteableStore>(
    store: &mut S,
    metadata: GroupMetadata,
    document: Vec<u8>,
) -> (r: Result<Group, RootError>)
    requires
        old(store).store_wf(),
    ensures
        final(store).store_wf(),
        r == Err::<Group, RootError>(RootError::NodeExists) ==> old(store).contents().contains_key(
            root_meta_key(),
        ) && final(store).contents() == old(store).contents(),
        r matches Ok(g) ==> {
            &&& !old(store).contents().contains_key(root_meta_key())
            &&& g.wf()
            &&& g.spec_key() == Seq::<Seq<char>>::empty()
            &&& final(store).contents() == old(store).contents().insert(root_meta_key(), document@)
        },
        r matches Ok(g) ==> g.meta() == metadata,
        r matches Err(RootError::Failed(e)) ==> e == ZarrError::StoreIo,
        r is Err ==> final(store).contents().remove(root_meta_key()) == old(store).contents().remove(
            root_meta_key(),
        ),
        !old(store).contents().contains_key(root_meta_key()) ==> r != Err::<Group, RootError>(
            RootError::NodeExists,
        ),
{
    let mut key = NodeKey::default();
    key.with_metadata();
    assert(key@ =~= root_meta_key());
    match store.has_key(&key) {
        Err(e) => {
            return Err(RootError::Failed(e));
        },
        Ok(true) => {
            return Err(RootError::NodeExists);
        },
        Ok(false) => {},
    }
    let g = Group::new(NodeKey::default(), metadata);
    proof {
        g.lemma_wf();
        assert(g.spec_meta_key() =~= root_meta_key());
    }
    match g.write_meta(store, document) {
        Ok(()) => Ok(g),
        Err(e) => Err(RootError::Failed(e)),
    }
}

/// Makes the array at the root of a store that has no node there, and
/// writes the document of its metadata. A store that has a node at its
/// root is left as it is, and so is every store where the metadata breaks
/// a rule.
pub fn create_root_array<S: WriteableStore>(
    store: &mut S,
    metadata: ArrayMetadata,
    document: Vec<u8>,
) -> (r: Result<Array, RootError>)
    requires
        old(store).store_wf(),
    ensures
        final(store).store_wf(),
        r == Err::<Array, RootError>(RootError::NodeExists) ==> old(store).contents().contains_key(
            root_meta_key(),
        ) && final(store).contents() == old(store).contents(),
        r matches Ok(a) ==> {
            &&& !old(store).contents().contains_key(root_meta_key())
            &&& metadata.valid()
            &&& a.wf()
            &&& a.spec_key() == Seq::<Seq<char>>::empty()
            &&& a.meta() == metadata
            &&& final(store).contents() == old(store).contents().insert(root_meta_key(), document@)
        },
        r matches Err(RootError::Failed(e)) ==> e == ZarrError::StoreIo || (e
            == ZarrError::InvalidMetadata && !metadata.valid() && final(store).contents() == old(store).contents()),
        r is Err ==> final(store).contents().remove(root_meta_key()) == old(store).contents().remove(
            root_meta_key(),
        ),
        !old(store).contents().contains_key(root_meta_key()) ==> r != Err::<Array, RootError>(
            RootError::NodeExists,
        ),
{
    let mut key = NodeKey::default();
    key.with_metadata();
    assert(key@ =~= root_meta_key());
    match store.has_key(&key) {
        Err(e) => {
            return Err(RootError::Failed(e));
        },
        Ok(true) => {
            return Err(RootError::NodeExists);
        },
        Ok(false) => {},
    }
    let a = match Array::new(NodeKey::default(), metadata) {
        Ok(a) => a,
        Err(e) => {
            return Err(RootError::Failed(e));
        },
    };
    proof {
        a.lemma_wf();
        assert(a.spec_meta_key() =~= root_meta_key());
    }
    match a.write_meta(store, document) {
        Ok(()) => Ok(a),
        Err(e) => Err(RootError::Failed(e)),
    }
}

} // verus!
