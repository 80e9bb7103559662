//! The nodes of a hierarchy: groups and arrays.

pub mod array;
pub mod group;

pub use array::Array;
pub use array::ArrayMetadata;
pub use array::ArrayMetadataBuilder;
pub use array::Extension;
pub use array::StorageTransformer;
pub use group::Group;
pub use group::GroupMetadata;

use crate::json::JsonValue;
use vstd::prelude::*;

pub use crate::json::JsonObject;

verus! {

/// Metadata that can be read.
pub trait ReadableMetadata {
    spec fn spec_attributes(&self) -> Seq<(String, JsonValue)>;

    /// Version of the storage format that the metadata names.
    spec fn spec_zarr_format(&self) -> usize;

    /// Whether the metadata is that of an array.
    spec fn spec_is_array(&self) -> bool;

    /// Version of the storage format.
    fn get_zarr_format(&self) -> (n: usize)
        ensures
            n == self.spec_zarr_format(),
    ;

    /// Whether the node is an array.
    fn is_array(&self) -> (b: bool)
        ensures
            b == self.spec_is_array(),
    ;

    /// The attributes of the node.
    fn get_attributes(&self) -> (a: &JsonObject)
        ensures
            a@ == self.spec_attributes(),
    ;

    /// Whether the node has an attribute with the given key.
    fn has_attribute(&self, key: &str) -> (b: bool)
        ensures
            b == (crate::json::spec_find_key(self.spec_attributes(), key@)
                < self.spec_attributes().len()),
    ;

    /// The value of the attribute with the given key, if there is one.
    fn get_attribute_value(&self, key: &str) -> (r: Option<&JsonValue>)
        ensures
            r matches Some(v) ==> crate::json::spec_find_key(self.spec_attributes(), key@)
                < self.spec_attributes().len() && *v == self.spec_attributes()[crate::json::spec_find_key(
                self.spec_attributes(),
                key@,
            )].1,
            r.is_none() ==> crate::json::spec_find_key(self.spec_attributes(), key@)
                == self.spec_attributes().len(),
    ;
}

/// Metadata whose attributes can be changed.
pub trait WriteableMetadata {
    spec fn spec_attrs(&self) -> Seq<(String, JsonValue)>;

    /// Gives the attribute with the given key the value and gives the
    /// value that it had, if any.
    fn set_attribute(&mut self, key: &str, value: JsonValue) -> (r: Option<JsonValue>)
        ensures
            crate::json::is_inserted(old(self).spec_attrs(), final(self).spec_attrs(), key@, value, r),
            r is Some <==> crate::json::spec_find_key(old(self).spec_attrs(), key@) < old(self).spec_attrs().len(),
            crate::json::spec_find_key(final(self).spec_attrs(), key@)
                < final(self).spec_attrs().len(),
            final(self).spec_attrs()[crate::json::spec_find_key(final(self).spec_attrs(), key@)].1
                == value,
    ;

    /// Takes all attributes away and says how many there were.
    fn clear_attributes(&mut self) -> (n: usize)
        ensures
            n == old(self).spec_attrs().len(),
            final(self).spec_attrs().len() == 0,
    ;

    /// Takes the attribute with the given key away and gives the value
    /// that it had, if any.
    fn remove_attribute(&mut self, key: &str) -> (r: Option<JsonValue>)
        ensures
            crate::json::is_removed(old(self).spec_attrs(), final(self).spec_attrs(), key@, r),
            r is Some <==> crate::json::spec_find_key(old(self).spec_attrs(), key@) < old(self).spec_attrs().len(),
            r is Some ==> final(self).spec_attrs() == old(self).spec_attrs().remove(
                crate::json::spec_find_key(old(self).spec_attrs(), key@),
            ),
            r.is_none() ==> final(self).spec_attrs() == old(self).spec_attrs(),
    ;
}

/// The metadata of a node.
#[derive(Debug)]
pub enum Metadata {
    Array(ArrayMetadata),
    Group(GroupMetadata),
}

impl Default for Metadata {
    /// The metadata of a group without attributes.
    fn default() -> (m: Metadata)
        ensures
            m is Group,
            m->Group_0.zarr_format == crate::ZARR_FORMAT,
            m->Group_0.attributes@.len() == 0,
    {
        Metadata::Group(GroupMetadata::default())
    }
}

impl Metadata {
    pub fn from_array(m: ArrayMetadata) -> (r: Metadata)
        ensures
            r == Metadata::Array(m),
    {
        Metadata::Array(m)
    }

    pub fn from_group(m: GroupMetadata) -> (r: Metadata)
        ensures
            r == Metadata::Group(m),
    {
        Metadata::Group(m)
    }
}

impl ReadableMetadata for Metadata {
    open spec fn spec_attributes(&self) -> Seq<(String, JsonValue)> {
        match self {
            Metadata::Array(m) => m.spec_attributes(),
            Metadata::Group(m) => m.spec_attributes(),
        }
    }

    open spec fn spec_zarr_format(&self) -> usize {
        match self {
            Metadata::Array(m) => m.zarr_format,
            Metadata::Group(m) => m.zarr_format,
        }
    }

    open spec fn spec_is_array(&self) -> bool {
        self is Array
    }

    fn get_zarr_format(&self) -> (n: usize) {
        match self {
            Metadata::Array(m) => m.get_zarr_format(),
            Metadata::Group(m) => m.get_zarr_format(),
        }
    }

    fn is_array(&self) -> (b: bool) {
        match self {
            Metadata::Array(_) => true,
            _ => false,
        }
    }

    fn get_attributes(&self) -> (a: &JsonObject) {
        match self {
            Metadata::Array(m) => m.get_attributes(),
            Metadata::Group(m) => m.get_attributes(),
        }
    }

    fn has_attribute(&self, key: &str) -> (b: bool) {
        crate::json::has_key(self.get_attributes(), key)
    }

    fn get_attribute_value(&self, key: &str) -> (r: Option<&JsonValue>) {
        crate::json::get_value(self.get_attributes(), key)
    }
}

impl WriteableMetadata for Metadata {
    open spec fn spec_attrs(&self) -> Seq<(String, JsonValue)> {
        match self {
            Metadata::Array(m) => m.spec_attrs(),
            Metadata::Group(m) => m.spec_attrs(),
        }
    }

    fn set_attribute(&mut self, key: &str, value: JsonValue) -> (r: Option<JsonValue>) {
        match self {
            Metadata::Array(m) => m.set_attribute(key, value),
            Metadata::Group(m) => m.set_attribute(key, value),
        }
    }

    fn clear_attributes(&mut self) -> (n: usize) {
        match self {
            Metadata::Array(m) => m.clear_attributes(),
            Metadata::Group(m) => m.clear_attributes(),
        }
    }

    fn remove_attribute(&mut self, key: &str) -> (r: Option<JsonValue>) {
        match self {
            Metadata::Array(m) => m.remove_attribute(key),
            Metadata::Group(m) => m.remove_attribute(key),
        }
    }
}

} // verus!
