//! What a store in a directory of a file system decides: which path a
//! key has, and which entries of a directory are keys.
use crate::store::keys_view;
use crate::store::spec_validate_name;
use crate::store::NodeKey;
use crate::store::NodeName;
use vstd::prelude::*;

verus! {

/// A store that keeps every value in a file below a directory. The names
/// of a key are the names of the directories on the way to the file.
#[derive(Debug)]
pub struct FileSystemStore {
    pub base_path: String,
}

/// An entry of a directory: its name, where the name is text, and
/// whether it is a file.
#[derive(Debug)]
pub struct DirEntry {
    pub name: Option<String>,
    pub is_file: bool,
}

/// Whether every name of a key obeys the rules for names. A path made of
/// such names leads nowhere but below the directory it starts from.
pub open spec fn names_valid(key: Seq<Seq<char>>) -> bool {
    forall|i: int| 0 <= i < key.len() ==> spec_validate_name(#[trigger] key[i]) is Ok
}

/// The texts of a list of path components.
pub open spec fn path_view(items: Seq<String>) -> Seq<Seq<char>> {
    Seq::new(items.len(), |i: int| items[i]@)
}

/// The key that an entry of the directory of `prefix` makes: none for an
/// entry whose name is no text or breaks the rules for names.
pub open spec fn entry_key(prefix: Seq<Seq<char>>, e: DirEntry) -> Option<Seq<Seq<char>>> {
    match e.name {
        Some(n) => if spec_validate_name(n@) is Ok {
            Some(prefix.push(n@))
        } else {
            None
        },
        None => None,
    }
}

/// The keys that the entries of the directory of `prefix` make, in their
/// order: those of the files, or those of the others.
pub open spec fn listed(prefix: Seq<Seq<char>>, entries: Seq<DirEntry>, files: bool) -> Seq<
    Seq<Seq<char>>,
>
    decreases entries.len(),
{
    if entries.len() == 0 {
        Seq::empty()
    } else {
        let rest = listed(prefix, entries.drop_last(), files);
        match entry_key(prefix, entries.last()) {
            Some(k) => if entries.last().is_file == files {
                rest.push(k)
            } else {
                rest
            },
            None => rest,
        }
    }
}

impl FileSystemStore {
    /// The store in the given directory. The path is taken as it is.
    pub fn new_unchecked(path: String) -> (s: FileSystemStore)
        ensures
            s.base_path@ == path@,
    {
        FileSystemStore { base_path: path }
    }

    /// The directory of the store.
    pub fn base_path(&self) -> (p: &str)
        ensures
            p@ == self.base_path@,
    {
        self.base_path.as_str()
    }

    /// The components of the path of a key below the directory of the
    /// store: the names of the key. A key with a name that breaks the
    /// rules for names has no path: such a name could lead out of the
    /// directory.
    pub fn get_path(&self, key: &NodeKey) -> (r: Option<Vec<String>>)
        ensures
            r is Some <==> names_valid(key@),
            r matches Some(v) ==> path_view(v@) == key@,
    {
        let names = key.as_slice();
        let mut out: Vec<String> = Vec::new();
        let mut i: usize = 0;
        while i < names.len()
            invariant
                i <= names@.len(),
                names@ == key.0@,
                out@.len() == i,
                forall|j: int| 0 <= j < i ==> (#[trigger] out@[j])@ == key@[j],
                forall|j: int| 0 <= j < i ==> spec_validate_name(#[trigger] key@[j]) is Ok,
            decreases names@.len() - i,
        {
            if NodeName::validate(names[i].as_str()).is_err() {
                assert(spec_validate_name(key@[i as int]) is Err);
                return None;
            }
            out.push(names[i].to_string());
            i += 1;
        }
        assert(path_view(out@) =~= key@);
        Some(out)
    }

    /// The keys directly below `prefix` that the entries of its directory
    /// make: first those of the files, then those of the directories.
    /// Entries whose names are no text or break the rules for names are
    /// passed over.
    pub fn classify_entries(prefix: &NodeKey, entries: &[DirEntry]) -> (r: (
        Vec<NodeKey>,
        Vec<NodeKey>,
    ))
        ensures
            keys_view(r.0@) == listed(prefix@, entries@, true),
            keys_view(r.1@) == listed(prefix@, entries@, false),
    {
        let mut keys: Vec<NodeKey> = Vec::new();
        let mut prefixes: Vec<NodeKey> = Vec::new();
        let mut i: usize = 0;
        assert(entries@.take(0) =~= Seq::<DirEntry>::empty());
        assert(keys_view(keys@) =~= Seq::<Seq<Seq<char>>>::empty());
        assert(keys_view(prefixes@) =~= Seq::<Seq<Seq<char>>>::empty());
        while i < entries.len()
            invariant
                i <= entries@.len(),
                keys_view(keys@) == listed(prefix@, entries@.take(i as int), true),
                keys_view(prefixes@) == listed(prefix@, entries@.take(i as int), false),
            decreases entries@.len() - i,
        {
            proof {
                assert(entries@.take(i + 1).drop_last() =~= entries@.take(i as int));
                assert(entries@.take(i + 1).last() == entries@[i as int]);
            }
            let found = match &entries[i].name {
                Some(n) => match NodeName::from_str(n.as_str()) {
                    Ok(name) => Some(name),
                    Err(_) => None,
                },
                None => None,
            };
            match found {
                Some(name) => {
                    let mut key = prefix.clone();
                    let _ = key.push(name);
                    if entries[i].is_file {
                        let ghost before = keys@;
                        keys.push(key);
                        assert(keys_view(keys@) =~= keys_view(before).push(key@));
                    } else {
                        let ghost before = prefixes@;
                        prefixes.push(key);
                        assert(keys_view(prefixes@) =~= keys_view(before).push(key@));
                    }
                },
                None => {},
            }
            i += 1;
        }
        assert(entries@.take(entries@.len() as int) =~= entries@);
        (keys, prefixes)
    }
}

} // verus!
