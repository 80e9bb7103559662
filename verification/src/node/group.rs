use crate::json::JsonObject;
use crate::json::JsonValue;
use crate::node::array::Array;
use crate::node::array::ArrayMetadata;
use crate::node::ReadableMetadata;
use crate::node::WriteableMetadata;
use crate::store::ListableStore;
use crate::store::NodeKey;
use crate::store::NodeName;
use crate::store::ReadableStore;
use crate::store::WriteableStore;
use crate::ZarrError;
use vstd::prelude::*;

verus! {

/// The metadata of a group.
#[derive(Debug)]
pub struct GroupMetadata {
    pub zarr_format: usize,
    pub attributes: JsonObject,
}

impl Default for GroupMetadata {
    /// The metadata of a group without attributes.
    fn default() -> (m: GroupMetadata)
        ensures
            m.zarr_format == crate::ZARR_FORMAT,
            m.attributes@.len() == 0,
    {
        GroupMetadata { zarr_format: crate::ZARR_FORMAT, attributes: Vec::new() }
    }
}

impl ReadableMetadata for GroupMetadata {
    open spec fn spec_attributes(&self) -> Seq<(String, JsonValue)> {
        self.attributes@
    }

    open spec fn spec_zarr_format(&self) -> usize {
        self.zarr_format
    }

    open spec fn spec_is_array(&self) -> bool {
        false
    }

    fn get_zarr_format(&self) -> (n: usize) {
        self.zarr_format
    }

    fn is_array(&self) -> (b: bool) {
        false
    }

    fn get_attributes(&self) -> (a: &JsonObject) {
        &self.attributes
    }

    fn has_attribute(&self, key: &str) -> (b: bool) {
        crate::json::has_key(&self.attributes, key)
    }

    fn get_attribute_value(&self, key: &str) -> (r: Option<&JsonValue>) {
        crate::json::get_value(&self.attributes, key)
    }
}

impl WriteableMetadata for GroupMetadata {
    open spec fn spec_attrs(&self) -> Seq<(String, JsonValue)> {
        self.attributes@
    }

    fn set_attribute(&mut self, key: &str, value: JsonValue) -> (r: Option<JsonValue>) {
        crate::json::insert_value(&mut self.attributes, key, value)
    }

    fn clear_attributes(&mut self) -> (n: usize) {
        let n = self.attributes.len();
        self.attributes.clear();
        n
    }

    fn remove_attribute(&mut self, key: &str) -> (r: Option<JsonValue>) {
        crate::json::remove_value(&mut self.attributes, key)
    }
}

/// A group: a node of the hierarchy that holds other nodes.
#[derive(Debug)]
pub struct Group {
    key: NodeKey,
    meta_key: NodeKey,
    metadata: GroupMetadata,
}

impl Group {
    pub closed spec fn spec_key(&self) -> Seq<Seq<char>> {
        self.key@
    }

    pub closed spec fn spec_meta_key(&self) -> Seq<Seq<char>> {
        self.meta_key@
    }

    pub closed spec fn wf(&self) -> bool {
        self.meta_key@ == self.key@.push(crate::store::metadata_name_chars())
    }

    /// The metadata of a group lies directly below the group's key.
    pub proof fn lemma_wf(&self)
        requires
            self.wf(),
        ensures
            self.spec_meta_key() == self.spec_key().push(crate::store::metadata_name_chars()),
    {
    }

    pub closed spec fn meta(&self) -> GroupMetadata {
        self.metadata
    }

    /// The group with the given key and metadata. Nothing is written.
    pub fn new(key: NodeKey, metadata: GroupMetadata) -> (g: Group)
        ensures
            g.wf(),
            g.spec_key() == key@,
            g.meta() == metadata,
    {
        let mut meta_key = key.clone();
        let _ = meta_key.with_metadata();
        Group { key, meta_key, metadata }
    }

    pub fn key(&self) -> (k: &NodeKey)
        ensures
            k@ == self.spec_key(),
    {
        &self.key
    }

    pub fn meta_key(&self) -> (k: &NodeKey)
        ensures
            k@ == self.spec_meta_key(),
    {
        &self.meta_key
    }

    pub fn metadata(&self) -> (m: &GroupMetadata)
        ensures
            *m == self.meta(),
    {
        &self.metadata
    }

    /// The key of the node with the given name in this group.
    pub fn child_key(&self, name: NodeName) -> (k: NodeKey)
        ensures
            k@ == self.spec_key().push(name@),
    {
        let mut key = self.key.clone();
        let _ = key.push(name);
        key
    }

    /// The key of the node at the given path below this group.
    pub fn descendant_key(&self, subkey: &NodeKey) -> (k: NodeKey)
        ensures
            k@ == self.spec_key() + subkey@,
    {
        let mut key = self.key.clone();
        let _ = key.extend(subkey.clone());
        key
    }

    /// The document of the group's metadata as the store holds it; an
    /// error where the store holds none.
    pub fn read_meta<S: ReadableStore>(&self, store: &S) -> (r: Result<Vec<u8>, ZarrError>)
        requires
            store.store_wf(),
        ensures
            r matches Ok(v) ==> store.contents().contains_key(self.spec_meta_key())
                && store.contents()[self.spec_meta_key()] == v@,
            r matches Err(e) ==> e == ZarrError::StoreIo || (e == ZarrError::NotFound
                && !store.contents().contains_key(self.spec_meta_key())),
    {
        read_document(store, &self.meta_key)
    }

    /// The group with the given key, for the metadata that was read from
    /// the store.
    pub fn from_store(key: NodeKey, metadata: GroupMetadata) -> (g: Group)
        ensures
            g.wf(),
            g.spec_key() == key@,
            g.meta() == metadata,
    {
        Group::new(key, metadata)
    }

    /// The document of the metadata of the group at the given path below
    /// this group; none where the store holds none.
    pub fn get_group<S: ReadableStore>(&self, store: &S, subkey: &NodeKey) -> (r: Result<
        Option<Vec<u8>>,
        ZarrError,
    >)
        requires
            store.store_wf(),
        ensures
            r matches Ok(Some(v)) ==> store.contents().contains_key(
                (self.spec_key() + subkey@).push(crate::store::metadata_name_chars()),
            ) && store.contents()[(self.spec_key() + subkey@).push(
                crate::store::metadata_name_chars(),
            )] == v@,
            r matches Ok(None) ==> !store.contents().contains_key(
                (self.spec_key() + subkey@).push(crate::store::metadata_name_chars()),
            ),
            r matches Err(e) ==> e == ZarrError::StoreIo,
    {
        let mut key = self.descendant_key(subkey);
        let _ = key.with_metadata();
        match read_document(store, &key) {
            Ok(v) => Ok(Some(v)),
            Err(ZarrError::NotFound) => Ok(None),
            Err(e) => Err(e),
        }
    }

    /// The document of the metadata of the array at the given path below
    /// this group; none where the store holds none.
    pub fn get_array<S: ReadableStore>(&self, store: &S, subkey: &NodeKey) -> (r: Result<
        Option<Vec<u8>>,
        ZarrError,
    >)
        requires
            store.store_wf(),
        ensures
            r matches Ok(Some(v)) ==> store.contents().contains_key(
                (self.spec_key() + subkey@).push(crate::store::metadata_name_chars()),
            ) && store.contents()[(self.spec_key() + subkey@).push(
                crate::store::metadata_name_chars(),
            )] == v@,
            r matches Ok(None) ==> !store.contents().contains_key(
                (self.spec_key() + subkey@).push(crate::store::metadata_name_chars()),
            ),
            r matches Err(e) ==> e == ZarrError::StoreIo,
    {
        self.get_group(store, subkey)
    }

    /// The keys directly below this group under which keys lie deeper:
    /// all of them, and perhaps others directly below this group that the
    /// store lists though nothing lies deeper.
    pub fn child_keys<S: ListableStore>(&self, store: &S) -> (r: Result<Vec<NodeKey>, ZarrError>)
        requires
            store.store_wf(),
        ensures
            r matches Ok(v) ==> forall|p: Seq<Seq<char>>| #[trigger]
                crate::store::keys_view(v@).contains(p) ==> crate::store::lies_below(
                    p,
                    self.spec_key(),
                ) && p.len() == self.spec_key().len() + 1,
            r matches Ok(v) ==> forall|p: Seq<Seq<char>>|
                crate::store::lies_below(p, self.spec_key()) && p.len() == self.spec_key().len()
                    + 1 && crate::store::holds_below(store.contents(), p)
                    ==> #[trigger] crate::store::keys_view(v@).contains(p),
            r matches Err(e) ==> e == ZarrError::StoreIo,
    {
        match store.list_dir(&self.key) {
            Ok((_, keys)) => Ok(keys),
            Err(e) => Err(e),
        }
    }

    /// Writes the document of the group's metadata.
    pub fn write_meta<S: WriteableStore>(&self, store: &mut S, document: Vec<u8>) -> (r: Result<
        (),
        ZarrError,
    >)
        requires
            old(store).store_wf(),
        ensures
            final(store).store_wf(),
            r is Ok ==> final(store).contents() == old(store).contents().insert(
                self.spec_meta_key(),
                document@,
            ),
            r matches Err(e) ==> e == ZarrError::StoreIo && final(store).contents().remove(
                self.spec_meta_key(),
            ) == old(store).contents().remove(self.spec_meta_key()),
    {
        store.set(&self.meta_key, document)
    }

    /// Makes a group with the given name in this group: takes everything
    /// out of the store that lies under the key of the new group, then
    /// writes the document of its metadata.
    pub fn create_group<S: WriteableStore>(&self, store: &mut S, name: NodeName, document: Vec<u8>) -> (r:
        Result<Group, ZarrError>)
        requires
            old(store).store_wf(),
        ensures
            final(store).store_wf(),
            r matches Ok(g) ==> g.wf() && g.spec_key() == self.spec_key().push(name@) && final(store).contents() == crate::store::without_prefix(
                old(store).contents(),
                self.spec_key().push(name@),
            ).insert(g.spec_meta_key(), document@),
            r matches Ok(g) ==> g.meta().zarr_format == crate::ZARR_FORMAT
                && g.meta().attributes@.len() == 0,
            r matches Err(e) ==> e == ZarrError::StoreIo && crate::store::without_prefix(
                final(store).contents(),
                self.spec_key().push(name@),
            ) == crate::store::without_prefix(old(store).contents(), self.spec_key().push(name@)),
    {
        let key = self.child_key(name);
        match store.erase_prefix(&key) {
            Ok(_) => {},
            Err(e) => {
                return Err(e);
            },
        }
        let ghost mid = store.contents();
        let g = Group::new(key, GroupMetadata::default());
        let r = g.write_meta(store, document);
        proof {
            g.lemma_wf();
            let k = g.spec_meta_key();
            let p = self.spec_key().push(name@);
            assert(k.take(p.len() as int) =~= p);
            crate::store::lemma_without_prefix_twice(old(store).contents(), p);
            if r is Err {
                crate::store::lemma_without_prefix(store.contents(), mid, k, p);
            }
        }
        match r {
            Ok(()) => Ok(g),
            Err(e) => Err(e),
        }
    }

    /// Makes an array with the given name in this group: takes everything
    /// out of the store that lies under the key of the new array, then
    /// writes the document of its metadata.
    pub fn create_array<S: WriteableStore>(
        &self,
        store: &mut S,
        name: NodeName,
        metadata: ArrayMetadata,
        document: Vec<u8>,
    ) -> (r: Result<Array, ZarrError>)
        requires
            old(store).store_wf(),
        ensures
            final(store).store_wf(),
            r matches Ok(a) ==> a.wf() && a.spec_key() == self.spec_key().push(name@) && final(store).contents() == crate::store::without_prefix(
                old(store).contents(),
                self.spec_key().push(name@),
            ).insert(a.spec_meta_key(), document@),
            r matches Ok(a) ==> a.meta() == metadata,
            !metadata.valid() ==> r == Err::<Array, ZarrError>(ZarrError::InvalidMetadata)
                && final(store).contents() == old(store).contents(),
            metadata.valid() ==> (r matches Err(e) ==> e == ZarrError::StoreIo),
            crate::store::without_prefix(final(store).contents(), self.spec_key().push(name@))
                == crate::store::without_prefix(old(store).contents(), self.spec_key().push(name@)),
    {
        let key = self.child_key(name);
        let arr = match Array::new(key.clone(), metadata) {
            Ok(a) => a,
            Err(e) => {
                return Err(e);
            },
        };
        match store.erase_prefix(&key) {
            Ok(_) => {},
            Err(e) => {
                return Err(e);
            },
        }
        let ghost mid = store.contents();
        let r = arr.write_meta(store, document);
        proof {
            arr.lemma_wf();
            let k = arr.spec_meta_key();
            let p = self.spec_key().push(name@);
            assert(k.take(p.len() as int) =~= p);
            crate::store::lemma_without_prefix_twice(old(store).contents(), p);
            assert(store.contents().remove(k) == mid.remove(k)) by {
                if r is Ok {
                    assert(mid.insert(k, document@).remove(k) =~= mid.remove(k));
                }
            }
            crate::store::lemma_without_prefix(store.contents(), mid, k, p);
        }
        match r {
            Ok(()) => Ok(arr),
            Err(e) => Err(e),
        }
    }

    /// Takes the group and everything below it out of the store.
    pub fn erase<S: WriteableStore>(self, store: &mut S) -> (r: Result<(), ZarrError>)
        requires
            old(store).store_wf(),
        ensures
            final(store).store_wf(),
            r is Ok ==> final(store).contents() == crate::store::without_prefix(
                old(store).contents(),
                self.spec_key(),
            ),
            r matches Err(e) ==> e == ZarrError::StoreIo && crate::store::without_prefix(
                final(store).contents(),
                self.spec_key(),
            ) == crate::store::without_prefix(old(store).contents(), self.spec_key()),
    {
        match store.erase_prefix(&self.key) {
            Ok(_) => Ok(()),
            Err(e) => Err(e),
        }
    }

    /// Takes the node with the given name and everything below it out of
    /// the store.
    pub fn erase_child<S: WriteableStore>(&self, store: &mut S, name: NodeName) -> (r: Result<
        bool,
        ZarrError,
    >)
        requires
            old(store).store_wf(),
        ensures
            final(store).store_wf(),
            r is Ok ==> final(store).contents() == crate::store::without_prefix(
                old(store).contents(),
                self.spec_key().push(name@),
            ),
            r matches Err(e) ==> e == ZarrError::StoreIo && crate::store::without_prefix(
                final(store).contents(),
                self.spec_key().push(name@),
            ) == crate::store::without_prefix(old(store).contents(), self.spec_key().push(name@)),
    {
        let key = self.child_key(name);
        store.erase_prefix(&key)
    }
}

/// The bytes under the key; an error where the store holds none.
pub fn read_document<S: ReadableStore>(store: &S, key: &NodeKey) -> (r: Result<Vec<u8>, ZarrError>)
    requires
        store.store_wf(),
    ensures
        r matches Ok(v) ==> store.contents().contains_key(key@) && store.contents()[key@] == v@,
        r matches Err(e) ==> e == ZarrError::StoreIo || (e == ZarrError::NotFound
            && !store.contents().contains_key(key@)),
{
    match store.get(key) {
        Ok(Some(v)) => Ok(v),
        Ok(None) => Err(ZarrError::NotFound),
        Err(e) => Err(e),
    }
}

} // verus!
