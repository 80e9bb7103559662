//! Keys of nodes, and what a store of bytes under such keys has to offer.

pub mod filesystem;
pub mod hashmap;
pub mod http;

pub use hashmap::HashMapStore;

use crate::text::chars_equal;
use crate::text::chars_of;
use crate::text::string_from_chars;
use crate::RangeRequest;
use crate::ZarrError;
use vstd::prelude::*;

verus! {

/// Why a text is no name of a node.
#[derive(Clone, Copy, Debug, PartialEq, Eq, Structural)]
pub enum InvalidNodeName {
    /// The name is empty.
    Empty,
    /// The name holds a `/`.
    HasSlash,
    /// The name holds nothing but periods.
    IsPeriods,
    /// The name starts with `__`, which is set aside.
    ReservedPrefix,
}

/// Whether all characters are periods.
pub open spec fn all_periods(s: Seq<char>) -> bool {
    forall|i: int| 0 <= i < s.len() ==> s[i] == '.'
}

/// What the check of a name gives: a name is not empty, does not start
/// with `__`, holds no `/`, and does not consist of periods alone.
pub open spec fn spec_validate_name(s: Seq<char>) -> Result<(), InvalidNodeName> {
    if s.len() == 0 {
        Err(InvalidNodeName::Empty)
    } else if s.len() >= 2 && s[0] == '_' && s[1] == '_' {
        Err(InvalidNodeName::ReservedPrefix)
    } else if s.contains('/') {
        Err(InvalidNodeName::HasSlash)
    } else if all_periods(s) {
        Err(InvalidNodeName::IsPeriods)
    } else {
        Ok(())
    }
}

/// One component of the key of a node.
#[derive(Debug)]
pub struct NodeName(pub String);

impl View for NodeName {
    type V = Seq<char>;

    open spec fn view(&self) -> Seq<char> {
        self.0@
    }
}

impl Clone for NodeName {
    fn clone(&self) -> (r: NodeName)
        ensures
            r@ == self@,
    {
        NodeName(self.0.clone())
    }
}

impl NodeName {
    /// Whether the name obeys the rules for names.
    pub open spec fn wf(&self) -> bool {
        spec_validate_name(self@) is Ok
    }

    /// The name with the given text, where the text obeys the rules.
    pub fn new(s: String) -> (r: Result<NodeName, InvalidNodeName>)
        ensures
            r matches Ok(n) ==> n@ == s@ && n.wf(),
            r matches Err(e) ==> spec_validate_name(s@) == Err::<(), InvalidNodeName>(e),
    {
        match NodeName::validate(s.as_str()) {
            Ok(()) => Ok(NodeName::new_unchecked(s)),
            Err(e) => Err(e),
        }
    }

    /// Skips the check.
    pub fn new_unchecked(s: String) -> (n: NodeName)
        ensures
            n@ == s@,
    {
        NodeName(s)
    }

    /// The name with the given text, where the text obeys the rules.
    pub fn from_str(s: &str) -> (r: Result<NodeName, InvalidNodeName>)
        ensures
            r matches Ok(n) ==> n@ == s@ && n.wf(),
            r matches Err(e) ==> spec_validate_name(s@) == Err::<(), InvalidNodeName>(e),
    {
        let v = chars_of(s);
        NodeName::from_chars(v.as_slice())
    }

    /// The name with the given characters, where they obey the rules.
    pub fn from_chars(v: &[char]) -> (r: Result<NodeName, InvalidNodeName>)
        ensures
            r matches Ok(n) ==> n@ == v@ && n.wf(),
            r matches Err(e) ==> spec_validate_name(v@) == Err::<(), InvalidNodeName>(e),
    {
        match validate_name_chars(v) {
            Ok(()) => Ok(NodeName::new_unchecked(string_from_chars(v))),
            Err(e) => Err(e),
        }
    }

    /// Checks a text against the rules for names.
    pub fn validate(s: &str) -> (r: Result<(), InvalidNodeName>)
        ensures
            r == spec_validate_name(s@),
    {
        let v = chars_of(s);
        validate_name_chars(v.as_slice())
    }

    pub fn as_str(&self) -> (s: &str)
        ensures
            s@ == self@,
    {
        self.0.as_str()
    }

    /// The text of the name.
    pub fn to_string(&self) -> (s: String)
        ensures
            s@ == self@,
    {
        self.0.clone()
    }

    /// Whether both names have the same text.
    pub fn same(&self, other: &NodeName) -> (b: bool)
        ensures
            b == (self@ == other@),
    {
        self.0 == other.0
    }
}

/// Checks characters against the rules for names.
pub fn validate_name_chars(s: &[char]) -> (r: Result<(), InvalidNodeName>)
    ensures
        r == spec_validate_name(s@),
{
    let n = s.len();
    if n == 0 {
        return Err(InvalidNodeName::Empty);
    }
    if n >= 2 && s[0] == '_' && s[1] == '_' {
        return Err(InvalidNodeName::ReservedPrefix);
    }
    let mut is_periods = true;
    let mut i: usize = 0;
    while i < n
        invariant
            n == s@.len(),
            n > 0,
            !(n >= 2 && s@[0] == '_' && s@[1] == '_'),
            i <= n,
            !s@.take(i as int).contains('/'),
            is_periods == all_periods(s@.take(i as int)),
        decreases n - i,
    {
        let c = s[i];
        proof {
            let pre = s@.take(i as int);
            let cur = s@.take(i as int + 1);
            if all_periods(cur) {
                assert forall|j: int| 0 <= j < pre.len() implies pre[j] == '.' by {
                }
                assert(cur[i as int] == '.');
            }
            if cur.contains('/') && c != '/' {
                let j = choose|j: int| 0 <= j < cur.len() && cur[j] == '/';
            }
        }
        if c == '/' {
            return Err(InvalidNodeName::HasSlash);
        }
        if c != '.' {
            is_periods = false;
        }
        i += 1;
    }
    assert(s@.take(n as int) =~= s@);
    if is_periods {
        return Err(InvalidNodeName::IsPeriods);
    }
    Ok(())
}

/// The name of the document that describes a node.
pub fn metadata_name() -> (n: NodeName)
    ensures
        n@ == metadata_name_chars(),
        n.wf(),
{
    let v: Vec<char> = vec!['z', 'a', 'r', 'r', '.', 'j', 's', 'o', 'n'];
    proof {
        let s = metadata_name_chars();
        if s.contains('/') {
            let j = choose|j: int| 0 <= j < s.len() && s[j] == '/';
            assert(false);
        }
    }
    NodeName::new_unchecked(string_from_chars(v.as_slice()))
}

/// `zarr.json`
pub open spec fn metadata_name_chars() -> Seq<char> {
    seq!['z', 'a', 'r', 'r', '.', 'j', 's', 'o', 'n']
}

/// The texts of a list of names.
pub open spec fn names_view(names: Seq<NodeName>) -> Seq<Seq<char>> {
    Seq::new(names.len(), |i: int| names[i]@)
}

/// The key of a node: the names on the way from the root to the node. The
/// root has the key without names.
#[derive(Debug)]
pub struct NodeKey(pub Vec<NodeName>);

impl View for NodeKey {
    type V = Seq<Seq<char>>;

    open spec fn view(&self) -> Seq<Seq<char>> {
        names_view(self.0@)
    }
}

impl Default for NodeKey {
    fn default() -> (k: NodeKey)
        ensures
            k@.len() == 0,
    {
        NodeKey(Vec::new())
    }
}

impl Clone for NodeKey {
    fn clone(&self) -> (r: NodeKey)
        ensures
            r@ == self@,
    {
        let mut v: Vec<NodeName> = Vec::new();
        let mut i: usize = 0;
        while i < self.0.len()
            invariant
                i <= self.0@.len(),
                v@.len() == i,
                forall|j: int| 0 <= j < i ==> v@[j]@ == self.0@[j]@,
            decreases self.0@.len() - i,
        {
            v.push(self.0[i].clone());
            i += 1;
        }
        NodeKey(v)
    }
}

/// The names joined by `/`.
pub open spec fn join_names(names: Seq<Seq<char>>) -> Seq<char>
    decreases names.len(),
{
    if names.len() == 0 {
        Seq::empty()
    } else if names.len() == 1 {
        names[0]
    } else {
        join_names(names.drop_last()) + seq!['/'] + names.last()
    }
}

/// Number of leading names that both keys share.
pub open spec fn common_len(a: Seq<Seq<char>>, b: Seq<Seq<char>>) -> nat
    decreases a.len(),
{
    if a.len() == 0 || b.len() == 0 || a[0] != b[0] {
        0
    } else {
        1 + common_len(a.drop_first(), b.drop_first())
    }
}

/// Whether `a` starts with all the names of `b`.
pub open spec fn key_starts_with(a: Seq<Seq<char>>, b: Seq<Seq<char>>) -> bool {
    a.len() >= b.len() && a.take(b.len() as int) == b
}

/// What following a relative path from `key` gives: `.` stays, `..` goes
/// to the parent, anything else must be a name and goes to that child.
/// Going above the root gives nothing.
pub open spec fn spec_relative(key: Seq<Seq<char>>, items: Seq<Seq<char>>, i: int) -> Result<
    Option<Seq<Seq<char>>>,
    InvalidNodeName,
>
    decreases items.len() - i,
{
    if i < 0 || i >= items.len() {
        Ok(Some(key))
    } else if items[i] == seq!['.'] {
        spec_relative(key, items, i + 1)
    } else if items[i] == seq!['.', '.'] {
        if key.len() == 0 {
            Ok(None)
        } else {
            spec_relative(key.drop_last(), items, i + 1)
        }
    } else {
        match spec_validate_name(items[i]) {
            Err(e) => Err(e),
            Ok(()) => spec_relative(key.push(items[i]), items, i + 1),
        }
    }
}

/// Position of the first `/` of a text; its length where there is none.
pub open spec fn first_slash(s: Seq<char>) -> nat
    decreases s.len(),
{
    if s.len() == 0 || s[0] == '/' {
        0
    } else {
        1 + first_slash(s.drop_first())
    }
}

/// The first `/` stands where a `/` stands behind characters that are
/// none.
pub proof fn lemma_first_slash(s: Seq<char>, p: int)
    requires
        0 <= p <= s.len(),
        forall|j: int| 0 <= j < p ==> s[j] != '/',
        p < s.len() ==> s[p] == '/',
    ensures
        first_slash(s) == p,
    decreases p,
{
    if p > 0 {
        let t = s.drop_first();
        assert forall|j: int| 0 <= j < p - 1 implies t[j] != '/' by {
        }
        if p < s.len() {
        }
        lemma_first_slash(t, p - 1);
    }
}

/// The pieces between the `/` of a text.
pub open spec fn split_slash(s: Seq<char>) -> Seq<Seq<char>>
    decreases s.len(),
{
    if first_slash(s) >= s.len() {
        seq![s]
    } else {
        seq![s.take(first_slash(s) as int)] + split_slash(s.skip(first_slash(s) as int + 1))
    }
}

impl NodeKey {
    /// Whether every name of the key obeys the rules for names.
    pub open spec fn wf(&self) -> bool {
        forall|i: int| 0 <= i < self.0@.len() ==> (#[trigger] self.0@[i]).wf()
    }

    /// The key made of the given names.
    pub fn from_names(names: Vec<NodeName>) -> (k: NodeKey)
        ensures
            k@ == names_view(names@),
            k.0 == names,
    {
        NodeKey(names)
    }

    /// Adds a name at the end and gives the new number of names.
    pub fn push(&mut self, name: NodeName) -> (n: usize)
        ensures
            final(self)@ == old(self)@.push(name@),
            final(self).0@ == old(self).0@.push(name),
            n == final(self)@.len(),
    {
        self.0.push(name);
        self.0.len()
    }

    /// Adds all names of `other` at the end and gives the new number of
    /// names.
    pub fn extend(&mut self, other: NodeKey) -> (n: usize)
        ensures
            final(self)@ == old(self)@ + other@,
            n == final(self)@.len(),
    {
        let mut i: usize = 0;
        while i < other.0.len()
            invariant
                i <= other.0@.len(),
                self@ == old(self)@ + other@.take(i as int),
            decreases other.0@.len() - i,
        {
            let _ = self.push(other.0[i].clone());
            i += 1;
        }
        self.0.len()
    }

    pub fn len(&self) -> (n: usize)
        ensures
            n == self@.len(),
    {
        self.0.len()
    }

    /// Takes the last name off; nothing at the root.
    pub fn pop(&mut self) -> (r: Option<NodeName>)
        ensures
            old(self)@.len() == 0 ==> r.is_none() && final(self)@ == old(self)@,
            old(self)@.len() > 0 ==> r is Some && r->Some_0@ == old(self)@.last() && final(self)@
                == old(self)@.drop_last(),
    {
        let r = self.0.pop();
        assert(names_view(self.0@) =~= if old(self)@.len() == 0 {
            old(self)@
        } else {
            old(self)@.drop_last()
        });
        r
    }

    /// The longest key with which both keys start.
    pub fn common_root(&self, other: &NodeKey) -> (r: NodeKey)
        ensures
            r@ == self@.take(common_len(self@, other@) as int),
            common_len(self@, other@) <= self@.len(),
    {
        let mut out: Vec<NodeName> = Vec::new();
        let mut i: usize = 0;
        let mut go = true;
        proof {
            assert(self@.skip(0) =~= self@);
            assert(other@.skip(0) =~= other@);
        }
        while go && i < self.0.len() && i < other.0.len()
            invariant
                i <= self@.len(),
                i <= other@.len(),
                out@.len() == i,
                forall|j: int| 0 <= j < i ==> out@[j]@ == self@[j],
                common_len(self@, other@) == i + common_len(
                    self@.skip(i as int),
                    other@.skip(i as int),
                ),
                !go ==> i < self@.len() && i < other@.len() && self@[i as int] != other@[i as int],
            decreases self@.len() - i + (if go { 1int } else { 0int }),
        {
            proof {
                let a = self@.skip(i as int);
                let b = other@.skip(i as int);
                assert(a.drop_first() =~= self@.skip(i as int + 1));
                assert(b.drop_first() =~= other@.skip(i as int + 1));
            }
            if !self.0[i].same(&other.0[i]) {
                go = false;
            } else {
                out.push(self.0[i].clone());
                i += 1;
            }
        }
        proof {
            let a = self@.skip(i as int);
            let b = other@.skip(i as int);
            if i < self@.len() && i < other@.len() {
            }
        }
        NodeKey(out)
    }

    /// Whether this key starts with all the names of `other`.
    pub fn starts_with(&self, other: &NodeKey) -> (b: bool)
        ensures
            b == key_starts_with(self@, other@),
    {
        if self.0.len() < other.0.len() {
            return false;
        }
        let mut i: usize = 0;
        while i < other.0.len()
            invariant
                other@.len() <= self@.len(),
                i <= other@.len(),
                forall|j: int| 0 <= j < i ==> self@[j] == other@[j],
            decreases other@.len() - i,
        {
            if !self.0[i].same(&other.0[i]) {
                assert(self@.take(other@.len() as int)[i as int] != other@[i as int]);
                return false;
            }
            i += 1;
        }
        assert(self@.take(other@.len() as int) =~= other@);
        true
    }

    /// Whether `other` lies below this key: it starts with this key and is
    /// longer.
    pub fn is_ancestor_of(&self, other: &NodeKey) -> (b: bool)
        ensures
            b == (other@.len() > self@.len() && key_starts_with(other@, self@)),
    {
        other.0.len() > self.0.len() && other.starts_with(self)
    }

    /// The key at the end of a relative path from this key.
    pub fn relative(&self, items: &[&str]) -> (r: Result<Option<NodeKey>, InvalidNodeName>)
        ensures
            r matches Ok(Some(k)) ==> spec_relative(self@, strs_view(items@), 0) == Ok::<
                Option<Seq<Seq<char>>>,
                InvalidNodeName,
            >(Some(k@)),
            r matches Ok(None) ==> spec_relative(self@, strs_view(items@), 0) == Ok::<
                Option<Seq<Seq<char>>>,
                InvalidNodeName,
            >(None),
            r matches Err(e) ==> spec_relative(self@, strs_view(items@), 0) == Err::<
                Option<Seq<Seq<char>>>,
                InvalidNodeName,
            >(e),
    {
        let mut new = self.clone();
        let mut i: usize = 0;
        while i < items.len()
            invariant
                i <= items@.len(),
                spec_relative(self@, strs_view(items@), 0) == spec_relative(
                    new@,
                    strs_view(items@),
                    i as int,
                ),
            decreases items@.len() - i,
        {
            let item = chars_of(items[i]);
            let dot: Vec<char> = vec!['.'];
            let dotdot: Vec<char> = vec!['.', '.'];
            assert(dot@ =~= seq!['.']);
            if chars_equal(item.as_slice(), dot.as_slice()) {
            } else if chars_equal(item.as_slice(), dotdot.as_slice()) {
                if new.pop().is_none() {
                    return Ok(None);
                }
            } else {
                match NodeName::from_chars(item.as_slice()) {
                    Ok(n) => {
                        let _ = new.push(n);
                    },
                    Err(e) => {
                        return Err(e);
                    },
                }
            }
            i += 1;
        }
        Ok(Some(new))
    }

    pub fn is_root(&self) -> (b: bool)
        ensures
            b == (self@.len() == 0),
    {
        self.0.len() == 0
    }

    /// Adds the name of the metadata document and gives the new number of
    /// names.
    pub fn with_metadata(&mut self) -> (n: usize)
        ensures
            final(self)@ == old(self)@.push(metadata_name_chars()),
            n == final(self)@.len(),
    {
        self.push(metadata_name())
    }

    pub fn as_slice(&self) -> (s: &[NodeName])
        ensures
            s@ == self.0@,
    {
        self.0.as_slice()
    }

    /// The names joined by `/`.
    pub fn encode(&self) -> (s: String)
        ensures
            s@ == join_names(self@),
    {
        let mut out: Vec<char> = Vec::new();
        let mut i: usize = 0;
        while i < self.0.len()
            invariant
                i <= self@.len(),
                out@ == join_names(self@.take(i as int)),
            decreases self@.len() - i,
        {
            let name = chars_of(self.0[i].as_str());
            proof {
                let cur = self@.take(i as int + 1);
                assert(cur.drop_last() =~= self@.take(i as int));
                if i == 0 {
                }
            }
            if i > 0 {
                out.push('/');
            }
            let ghost mid = out@;
            let mut j: usize = 0;
            while j < name.len()
                invariant
                    j <= name@.len(),
                    out@ == mid + name@.take(j as int),
                decreases name@.len() - j,
            {
                out.push(name[j]);
                j += 1;
            }
            proof {
                if i > 0 {
                }
            }
            i += 1;
        }
        assert(self@.take(self@.len() as int) =~= self@);
        string_from_chars(out.as_slice())
    }

    /// The names joined by `/`, with a `/` at the end.
    pub fn encode_prefix(&self) -> (s: String)
        ensures
            s@ == join_names(self@).push('/'),
    {
        let e = self.encode();
        let mut v = chars_of(e.as_str());
        v.push('/');
        string_from_chars(v.as_slice())
    }

    /// The text of the key: its names joined by `/`.
    pub fn to_string(&self) -> (s: String)
        ensures
            s@ == join_names(self@),
    {
        self.encode()
    }

    /// The key whose names are the pieces between the `/` of the text,
    /// where all of them obey the rules for names.
    pub fn from_str(s: &str) -> (r: Result<NodeKey, InvalidNodeName>)
        ensures
            r matches Ok(k) ==> k@ == split_slash(s@) && k.wf(),
            r matches Err(e) ==> exists|i: int|
                0 <= i < split_slash(s@).len() && spec_validate_name(
                    #[trigger] split_slash(s@)[i],
                ) == Err::<(), InvalidNodeName>(e) && forall|j: int|
                    0 <= j < i ==> spec_validate_name(#[trigger] split_slash(s@)[j]) is Ok,
    {
        let chars = chars_of(s);
        let n = chars.len();
        let mut k = NodeKey(Vec::new());
        let mut start: usize = 0;
        let mut i: usize = 0;
        let mut piece: Vec<char> = Vec::new();
        // the names found so far, followed by the pieces of what is left,
        // are the pieces of the text
        proof {
            assert(chars@.skip(0) =~= chars@);
        }
        while i < n
            invariant
                n == chars@.len(),
                chars@ == s@,
                start <= i <= n,
                k.wf(),
                piece@ == chars@.subrange(start as int, i as int),
                !piece@.contains('/'),
                split_slash(s@) == k@ + split_slash(chars@.skip(start as int)),
            decreases n - i,
        {
            let c = chars[i];
            if c == '/' {
                proof {
                    let rest = chars@.skip(start as int);
                    let p = i - start;
                    assert forall|j: int| 0 <= j < p implies rest[j] != '/' by {
                    }
                    lemma_first_slash(rest, p);
                    assert(rest.take(p) =~= piece@);
                    assert(rest.skip(p + 1) =~= chars@.skip(i as int + 1));
                }
                match NodeName::from_chars(piece.as_slice()) {
                    Ok(name) => {
                        let ghost before = k@;
                        let _ = k.push(name);
                        assert(before.push(piece@) + split_slash(chars@.skip(i as int + 1))
                            =~= before + (seq![piece@] + split_slash(chars@.skip(i as int + 1))));
                    },
                    Err(e) => {
                        proof {
                            let all = split_slash(s@);
                            let at = k@.len() as int;
                            assert(all[at] == piece@);
                            assert forall|j: int| 0 <= j < at implies spec_validate_name(
                                #[trigger] all[j],
                            ) is Ok by {
                            }
                        }
                        return Err(e);
                    },
                }
                piece = Vec::new();
                start = i + 1;
            } else {
                piece.push(c);
                proof {
                    if piece@.contains('/') {
                        let j = choose|j: int| 0 <= j < piece@.len() && piece@[j] == '/';
                        if j < piece@.len() - 1 {
                        }
                    }
                }
            }
            i += 1;
        }
        proof {
            let rest = chars@.skip(start as int);
            assert forall|j: int| 0 <= j < rest.len() implies rest[j] != '/' by {
            }
            lemma_first_slash(rest, rest.len() as int);
        }
        match NodeName::from_chars(piece.as_slice()) {
            Ok(name) => {
                let ghost before = k@;
                let _ = k.push(name);
                Ok(k)
            },
            Err(e) => {
                proof {
                    let all = split_slash(s@);
                    let at = k@.len() as int;
                    assert(all[at] == piece@);
                    assert forall|j: int| 0 <= j < at implies spec_validate_name(
                        #[trigger] all[j],
                    ) is Ok by {
                    }
                }
                Err(e)
            },
        }
    }
}

/// The characters of a list of texts.
pub open spec fn strs_view(items: Seq<&str>) -> Seq<Seq<char>> {
    Seq::new(items.len(), |i: int| items[i]@)
}

/// The texts of a list of keys.
pub open spec fn keys_view(keys: Seq<NodeKey>) -> Seq<Seq<Seq<char>>> {
    Seq::new(keys.len(), |i: int| keys[i]@)
}

/// Whether `k` lies below `prefix`: it starts with it and is longer.
pub open spec fn lies_below(k: Seq<Seq<char>>, prefix: Seq<Seq<char>>) -> bool {
    k.len() > prefix.len() && key_starts_with(k, prefix)
}

/// The keys that lie below `prefix`, in their order.
pub open spec fn keys_below(keys: Seq<Seq<Seq<char>>>, prefix: Seq<Seq<char>>) -> Seq<
    Seq<Seq<char>>,
>
    decreases keys.len(),
{
    if keys.len() == 0 {
        keys
    } else if lies_below(keys.last(), prefix) {
        keys_below(keys.drop_last(), prefix).push(keys.last())
    } else {
        keys_below(keys.drop_last(), prefix)
    }
}

/// The keys that lie directly below `prefix`, in their order.
pub open spec fn children_of(keys: Seq<Seq<Seq<char>>>, prefix: Seq<Seq<char>>) -> Seq<
    Seq<Seq<char>>,
>
    decreases keys.len(),
{
    if keys.len() == 0 {
        keys
    } else if lies_below(keys.last(), prefix) && keys.last().len() == prefix.len() + 1 {
        children_of(keys.drop_last(), prefix).push(keys.last())
    } else {
        children_of(keys.drop_last(), prefix)
    }
}

/// The keys directly below `prefix` under which keys lie deeper: each
/// once, in the order in which they first occur.
pub open spec fn child_prefixes_of(keys: Seq<Seq<Seq<char>>>, prefix: Seq<Seq<char>>) -> Seq<
    Seq<Seq<char>>,
>
    decreases keys.len(),
{
    if keys.len() == 0 {
        keys
    } else {
        let before = child_prefixes_of(keys.drop_last(), prefix);
        let k = keys.last();
        if lies_below(k, prefix) && k.len() > prefix.len() + 1 && !before.contains(
            k.take(prefix.len() as int + 1),
        ) {
            before.push(k.take(prefix.len() as int + 1))
        } else {
            before
        }
    }
}

/// Whether one of the keys lies below `p`.
pub open spec fn deeper_in(keys: Seq<Seq<Seq<char>>>, p: Seq<Seq<char>>) -> bool {
    exists|i: int| 0 <= i < keys.len() && lies_below(#[trigger] keys[i], p)
}

/// Whether the store holds a key below `p`.
pub open spec fn holds_below(contents: Map<Seq<Seq<char>>, Seq<u8>>, p: Seq<Seq<char>>) -> bool {
    exists|k: Seq<Seq<char>>| contents.contains_key(k) && #[trigger] lies_below(k, p)
}

/// Whether the key lies below one of the keys that are still to be
/// listed.
pub open spec fn pending(to_visit: Seq<Seq<Seq<char>>>, k: Seq<Seq<char>>) -> bool {
    exists|m: int| 0 <= m < to_visit.len() && lies_below(k, #[trigger] to_visit[m])
}

/// A store of bytes under keys.
pub trait Store {
    /// The bytes under every key that the store holds.
    spec fn contents(&self) -> Map<Seq<Seq<char>>, Seq<u8>>;

    /// What the store keeps true of itself.
    spec fn store_wf(&self) -> bool;
}

/// A store that can be read.
pub trait ReadableStore: Store {
    /// The bytes under the key; none where the store holds no such key.
    fn get(&self, key: &NodeKey) -> (r: Result<Option<Vec<u8>>, ZarrError>)
        requires
            self.store_wf(),
        ensures
            r matches Ok(Some(v)) ==> self.contents().contains_key(key@) && self.contents()[key@]
                == v@,
            r matches Ok(None) ==> !self.contents().contains_key(key@),
            r matches Err(e) ==> e == ZarrError::StoreIo,
    ;

    /// Whether the store holds the key.
    fn has_key(&self, key: &NodeKey) -> (r: Result<bool, ZarrError>)
        requires
            self.store_wf(),
        ensures
            r matches Ok(b) ==> b == self.contents().contains_key(key@),
            r matches Err(e) ==> e == ZarrError::StoreIo,
    ;

    /// A part of the bytes under each of the keys; none where the store
    /// holds no such key.
    fn get_partial_values(&self, key_ranges: &[(NodeKey, RangeRequest)]) -> (r: Result<
        Vec<Option<Vec<u8>>>,
        ZarrError,
    >)
        requires
            self.store_wf(),
        ensures
            r matches Ok(v) ==> v@.len() == key_ranges@.len() && forall|i: int|
                0 <= i < v@.len() ==> partial_of(
                    self.contents(),
                    key_ranges@[i].0@,
                    key_ranges@[i].1,
                    #[trigger] v@[i],
                ),
            r matches Err(e) ==> e == ZarrError::StoreIo,
    ;
}

/// Whether `got` is the part `range` of the bytes under `key`: nothing
/// where the store holds no such key.
pub open spec fn partial_of(
    contents: Map<Seq<Seq<char>>, Seq<u8>>,
    key: Seq<Seq<char>>,
    range: RangeRequest,
    got: Option<Vec<u8>>,
) -> bool {
    if contents.contains_key(key) {
        got is Some && got->Some_0@ == range.spec_slice(contents[key])
    } else {
        got.is_none()
    }
}

/// Reads a part of the bytes under each of the keys, by reading all bytes
/// under each key and cutting the part out.
pub fn get_partial_values_by_get<S: ReadableStore>(
    store: &S,
    key_ranges: &[(NodeKey, RangeRequest)],
) -> (r: Result<Vec<Option<Vec<u8>>>, ZarrError>)
    requires
        store.store_wf(),
    ensures
        r matches Ok(v) ==> v@.len() == key_ranges@.len() && forall|i: int|
            0 <= i < v@.len() ==> partial_of(
                store.contents(),
                key_ranges@[i].0@,
                key_ranges@[i].1,
                #[trigger] v@[i],
            ),
        r matches Err(e) ==> e == ZarrError::StoreIo,
{
    let mut out: Vec<Option<Vec<u8>>> = Vec::new();
    let mut i: usize = 0;
    while i < key_ranges.len()
        invariant
            store.store_wf(),
            i <= key_ranges@.len(),
            out@.len() == i,
            forall|j: int|
                0 <= j < i ==> partial_of(
                    store.contents(),
                    key_ranges@[j].0@,
                    key_ranges@[j].1,
                    #[trigger] out@[j],
                ),
        decreases key_ranges@.len() - i,
    {
        let got = match store.get(&key_ranges[i].0) {
            Ok(g) => g,
            Err(e) => {
                return Err(e);
            },
        };
        let part = match got {
            Some(b) => Some(key_ranges[i].1.slice_bytes(b.as_slice())),
            None => None,
        };
        out.push(part);
        i += 1;
    }
    Ok(out)
}

/// A store whose keys can be listed.
pub trait ListableStore: Store {
    /// All keys of the store, each once.
    fn list(&self) -> (r: Result<Vec<NodeKey>, ZarrError>)
        requires
            self.store_wf(),
        ensures
            r matches Ok(v) ==> keys_view(v@).no_duplicates() && keys_view(v@).to_set()
                == self.contents().dom(),
            r matches Err(e) ==> e == ZarrError::StoreIo,
    ;

    /// The keys that lie below `key`, each once.
    fn list_prefix(&self, key: &NodeKey) -> (r: Result<Vec<NodeKey>, ZarrError>)
        requires
            self.store_wf(),
        ensures
            r matches Ok(v) ==> keys_view(v@).no_duplicates() && forall|k: Seq<Seq<char>>|
                #[trigger] keys_view(v@).contains(k) <==> self.contents().contains_key(k)
                    && lies_below(k, key@),
            r matches Err(e) ==> e == ZarrError::StoreIo,
    ;

    /// The keys that lie directly below `prefix`, and the keys directly
    /// below `prefix` under which keys lie deeper; each once.
    fn list_dir(&self, prefix: &NodeKey) -> (r: Result<(Vec<NodeKey>, Vec<NodeKey>), ZarrError>)
        requires
            self.store_wf(),
        ensures
            r matches Ok((keys, prefixes)) ==> {
                &&& forall|k: Seq<Seq<char>>| #[trigger]
                    keys_view(keys@).contains(k) <==> self.contents().contains_key(k)
                        && lies_below(k, prefix@) && k.len() == prefix@.len() + 1
                &&& forall|p: Seq<Seq<char>>| #[trigger]
                    keys_view(prefixes@).contains(p) ==> lies_below(p, prefix@) && p.len()
                        == prefix@.len() + 1
                &&& forall|p: Seq<Seq<char>>|
                    lies_below(p, prefix@) && p.len() == prefix@.len() + 1 && holds_below(
                        self.contents(),
                        p,
                    ) ==> #[trigger] keys_view(prefixes@).contains(p)
            },
            r matches Err(e) ==> e == ZarrError::StoreIo,
    ;
}

/// A store that can be written.
pub trait WriteableStore: ReadableStore + ListableStore {
    /// Puts the bytes under the key, in place of what stood there. Where
    /// this fails, what stands under other keys is as before.
    fn set(&mut self, key: &NodeKey, value: Vec<u8>) -> (r: Result<(), ZarrError>)
        requires
            old(self).store_wf(),
        ensures
            final(self).store_wf(),
            r is Ok ==> final(self).contents() == old(self).contents().insert(key@, value@),
            r matches Err(e) ==> e == ZarrError::StoreIo && final(self).contents().remove(key@)
                == old(self).contents().remove(key@),
    ;

    /// Takes the key out of the store. Where this fails, what stands under
    /// other keys is as before.
    fn erase(&mut self, key: &NodeKey) -> (r: Result<bool, ZarrError>)
        requires
            old(self).store_wf(),
        ensures
            final(self).store_wf(),
            r is Ok ==> final(self).contents() == old(self).contents().remove(key@),
            r matches Err(e) ==> e == ZarrError::StoreIo && final(self).contents().remove(key@)
                == old(self).contents().remove(key@),
    ;

    /// Takes all keys out of the store that start with `key_prefix`. Where
    /// this fails, what stands under other keys is as before.
    fn erase_prefix(&mut self, key_prefix: &NodeKey) -> (r: Result<bool, ZarrError>)
        requires
            old(self).store_wf(),
        ensures
            final(self).store_wf(),
            r is Ok ==> final(self).contents() == without_prefix(
                old(self).contents(),
                key_prefix@,
            ),
            r matches Err(e) ==> e == ZarrError::StoreIo && without_prefix(
                final(self).contents(),
                key_prefix@,
            ) == without_prefix(old(self).contents(), key_prefix@),
    ;
}

/// The store without the keys that start with `prefix`.
pub open spec fn without_prefix(contents: Map<Seq<Seq<char>>, Seq<u8>>, prefix: Seq<Seq<char>>) -> Map<
    Seq<Seq<char>>,
    Seq<u8>,
> {
    contents.restrict(Set::new(|k: Seq<Seq<char>>| !key_starts_with(k, prefix)))
}

/// Stores that differ at most under one key show the same once the keys
/// that start with a prefix of that key are left out.
pub proof fn lemma_without_prefix(
    a: Map<Seq<Seq<char>>, Seq<u8>>,
    b: Map<Seq<Seq<char>>, Seq<u8>>,
    k: Seq<Seq<char>>,
    prefix: Seq<Seq<char>>,
)
    requires
        key_starts_with(k, prefix),
        a.remove(k) == b.remove(k),
    ensures
        without_prefix(a, prefix) == without_prefix(b, prefix),
{
    let wa = without_prefix(a, prefix);
    let wb = without_prefix(b, prefix);
    let keep = Set::new(|x: Seq<Seq<char>>| !key_starts_with(x, prefix));
    assert forall|x: Seq<Seq<char>>| #[trigger]
        wa.dom().contains(x) == wb.dom().contains(x) && (wa.dom().contains(x) ==> wa[x]
            == wb[x]) by {
        assert(wa.dom().contains(x) == (a.dom().contains(x) && keep.contains(x)));
        assert(wb.dom().contains(x) == (b.dom().contains(x) && keep.contains(x)));
        if keep.contains(x) {
            assert(x != k);
            assert(a.remove(k).dom().contains(x) == a.dom().contains(x));
            assert(b.remove(k).dom().contains(x) == b.dom().contains(x));
            if a.dom().contains(x) {
                assert(a.remove(k)[x] == a[x]);
                assert(b.remove(k)[x] == b[x]);
            }
        }
    }
    assert(wa.dom() =~= wb.dom());
    assert(wa =~= wb);
}

/// Leaving the keys with a prefix out a second time changes nothing.
pub proof fn lemma_without_prefix_twice(a: Map<Seq<Seq<char>>, Seq<u8>>, prefix: Seq<Seq<char>>)
    ensures
        without_prefix(without_prefix(a, prefix), prefix) == without_prefix(a, prefix),
{
    assert(without_prefix(without_prefix(a, prefix), prefix) =~= without_prefix(a, prefix));
}

/// The keys among `all_keys` that lie below `prefix`.
pub fn list_prefix_from_all_keys(all_keys: Vec<NodeKey>, prefix: &NodeKey) -> (r: Vec<NodeKey>)
    ensures
        keys_view(r@) == keys_below(keys_view(all_keys@), prefix@),
{
    list_prefix_from_all_keys_ref(all_keys.as_slice(), prefix)
}

/// The keys among `all_keys` that lie below `prefix`.
pub fn list_prefix_from_all_keys_ref(all_keys: &[NodeKey], prefix: &NodeKey) -> (r: Vec<NodeKey>)
    ensures
        keys_view(r@) == keys_below(keys_view(all_keys@), prefix@),
{
    let mut out: Vec<NodeKey> = Vec::new();
    let ghost all = keys_view(all_keys@);
    let mut i: usize = 0;
    while i < all_keys.len()
        invariant
            i <= all_keys@.len(),
            all == keys_view(all_keys@),
            keys_view(out@) == keys_below(all.take(i as int), prefix@),
        decreases all_keys@.len() - i,
    {
        let k = &all_keys[i];
        proof {
            let cur = all.take(i as int + 1);
            assert(cur.drop_last() =~= all.take(i as int));
        }
        if prefix.is_ancestor_of(k) {
            let ghost prev = out@;
            let c = k.clone();
            out.push(c);
        }
        i += 1;
    }
    assert(all.take(all.len() as int) =~= all);
    out
}

/// The keys among `all_keys` that lie directly below `key`, and the keys
/// directly below `key` under which keys lie deeper.
pub fn list_dir_from_all_keys(all_keys: Vec<NodeKey>, key: &NodeKey) -> (r: (
    Vec<NodeKey>,
    Vec<NodeKey>,
))
    ensures
        keys_view(r.0@) == children_of(keys_view(all_keys@), key@),
        keys_view(r.1@) == child_prefixes_of(keys_view(all_keys@), key@),
{
    list_dir_from_all_keys_ref(all_keys.as_slice(), key)
}

/// The keys among `all_keys` that lie directly below `key`, and the keys
/// directly below `key` under which keys lie deeper.
pub fn list_dir_from_all_keys_ref(all_keys: &[NodeKey], key: &NodeKey) -> (r: (
    Vec<NodeKey>,
    Vec<NodeKey>,
))
    ensures
        keys_view(r.0@) == children_of(keys_view(all_keys@), key@),
        keys_view(r.1@) == child_prefixes_of(keys_view(all_keys@), key@),
{
    let mut keys: Vec<NodeKey> = Vec::new();
    let mut prefixes: Vec<NodeKey> = Vec::new();
    let ghost all = keys_view(all_keys@);
    let n = key.len();
    let mut i: usize = 0;
    while i < all_keys.len()
        invariant
            n == key@.len(),
            i <= all_keys@.len(),
            all == keys_view(all_keys@),
            keys_view(keys@) == children_of(all.take(i as int), key@),
            keys_view(prefixes@) == child_prefixes_of(all.take(i as int), key@),
        decreases all_keys@.len() - i,
    {
        let k = &all_keys[i];
        proof {
            let cur = all.take(i as int + 1);
            assert(cur.drop_last() =~= all.take(i as int));
        }
        if key.is_ancestor_of(k) {
            if k.len() == n + 1 {
                let ghost prev = keys@;
                keys.push(k.clone());
            } else {
                let child = key_take(k, n + 1);
                if !contains_key(prefixes.as_slice(), &child) {
                    let ghost prev = prefixes@;
                    prefixes.push(child);
                }
            }
        }
        i += 1;
    }
    assert(all.take(all.len() as int) =~= all);
    (keys, prefixes)
}

/// The first `n` names of a key.
pub fn key_take(k: &NodeKey, n: usize) -> (r: NodeKey)
    requires
        n <= k@.len(),
    ensures
        r@ == k@.take(n as int),
{
    let mut v: Vec<NodeName> = Vec::new();
    let mut i: usize = 0;
    while i < n
        invariant
            n <= k@.len(),
            i <= n,
            v@.len() == i,
            forall|j: int| 0 <= j < i ==> v@[j]@ == k@[j],
        decreases n - i,
    {
        v.push(k.0[i].clone());
        i += 1;
    }
    NodeKey(v)
}

/// Whether both keys have the same names.
pub fn keys_equal(a: &NodeKey, b: &NodeKey) -> (r: bool)
    ensures
        r == (a@ == b@),
{
    if a.len() != b.len() {
        return false;
    }
    let r = a.starts_with(b);
    proof {
        assert(a@.take(a@.len() as int) =~= a@);
    }
    r
}

/// Whether one of the keys has the names of `k`.
pub fn contains_key(keys: &[NodeKey], k: &NodeKey) -> (r: bool)
    ensures
        r == keys_view(keys@).contains(k@),
{
    let mut i: usize = 0;
    while i < keys.len()
        invariant
            i <= keys@.len(),
            forall|j: int| 0 <= j < i ==> keys_view(keys@)[j] != k@,
        decreases keys@.len() - i,
    {
        if keys_equal(&keys[i], k) {
            assert(keys_view(keys@)[i as int] == k@);
            return true;
        }
        i += 1;
    }
    false
}

/// The keys that lie directly below `key`, and the keys directly below
/// `key` under which keys lie deeper, from the keys below `key`.
pub fn list_dir_from_list_prefix<S: ListableStore>(store: &S, key: &NodeKey) -> (r: Result<
    (Vec<NodeKey>, Vec<NodeKey>),
    ZarrError,
>)
    requires
        store.store_wf(),
    ensures
        r matches Ok((keys, prefixes)) ==> {
            &&& forall|k: Seq<Seq<char>>| #[trigger]
                keys_view(keys@).contains(k) <==> store.contents().contains_key(k) && lies_below(
                    k,
                    key@,
                ) && k.len() == key@.len() + 1
            &&& forall|p: Seq<Seq<char>>| #[trigger]
                keys_view(prefixes@).contains(p) <==> lies_below(p, key@) && p.len() == key@.len()
                    + 1 && holds_below(store.contents(), p)
        },
        r matches Err(e) ==> e == ZarrError::StoreIo,
{
    match store.list_prefix(key) {
        Ok(all) => {
            let ghost av = keys_view(all@);
            proof {
                lemma_children_of(av, key@);
                lemma_child_prefixes_of(av, key@);
                assert forall|p: Seq<Seq<char>>| lies_below(p, key@) implies (deeper_in(av, p)
                    <==> holds_below(store.contents(), p)) by {
                    if deeper_in(av, p) {
                        let i = choose|i: int| 0 <= i < av.len() && lies_below(#[trigger] av[i], p);
                        assert(av.contains(av[i]));
                    }
                    if holds_below(store.contents(), p) {
                        let k = choose|k: Seq<Seq<char>>|
                            store.contents().contains_key(k) && #[trigger] lies_below(k, p);
                        lemma_below_below(k, p, key@);
                        assert(av.contains(k));
                        let i = choose|i: int| 0 <= i < av.len() && av[i] == k;
                    }
                }
            }
            Ok(list_dir_from_all_keys(all, key))
        },
        Err(e) => Err(e),
    }
}

/// All keys of the store, as the keys below the root.
pub fn list_from_list_prefix<S: ListableStore>(store: &S) -> (r: Result<Vec<NodeKey>, ZarrError>)
    requires
        store.store_wf(),
    ensures
        r matches Ok(v) ==> forall|k: Seq<Seq<char>>| #[trigger]
            keys_view(v@).contains(k) <==> store.contents().contains_key(k) && k.len() > 0,
        r matches Err(e) ==> e == ZarrError::StoreIo,
{
    let root = NodeKey::default();
    let r = store.list_prefix(&root);
    proof {
        assert forall|k: Seq<Seq<char>>| lies_below(k, root@) <==> k.len() > 0 by {
            assert(k.take(0) =~= root@);
        }
    }
    r
}

/// Appends copies of the keys.
pub fn extend_keys(dst: &mut Vec<NodeKey>, src: &[NodeKey])
    ensures
        keys_view(final(dst)@) == keys_view(old(dst)@) + keys_view(src@),
{
    let ghost start = keys_view(dst@);
    let mut i: usize = 0;
    assert(keys_view(src@).take(0) =~= Seq::<Seq<Seq<char>>>::empty());
    assert(start + Seq::<Seq<Seq<char>>>::empty() =~= start);
    while i < src.len()
        invariant
            i <= src@.len(),
            keys_view(dst@) == start + keys_view(src@).take(i as int),
        decreases src@.len() - i,
    {
        let ghost prev = dst@;
        let c = src[i].clone();
        dst.push(c);
        proof {
            assert(keys_view(src@)[i as int] == c@);
            assert(keys_view(dst@) =~= keys_view(prev).push(c@));
            assert(keys_view(src@).take(i + 1) =~= keys_view(src@).take(i as int).push(c@));
        }
        i += 1;
    }
    assert(keys_view(src@).take(src@.len() as int) =~= keys_view(src@));
}

/// One step of a walk over the keys below a key, after a key was listed:
/// the keys found directly below it are results, and the keys directly
/// below it under which keys lie deeper are still to be listed.
pub fn visit_listed(
    to_visit: &mut Vec<NodeKey>,
    result: &mut Vec<NodeKey>,
    keys: &[NodeKey],
    prefixes: &[NodeKey],
)
    ensures
        keys_view(final(result)@) == keys_view(old(result)@) + keys_view(keys@),
        keys_view(final(to_visit)@) == keys_view(old(to_visit)@) + keys_view(prefixes@),
{
    extend_keys(result, keys);
    extend_keys(to_visit, prefixes);
}

/// The keys below `key`, found by listing `key` and then every key
/// directly below it under which keys lie deeper, and so on. The store
/// says nothing of how deep its keys lie, so the walk is given a number of
/// listings that it may make: where it would need more, it gives nothing.
/// An error means that the store failed.
pub fn list_prefix_from_list_dir<S: ListableStore>(store: &S, key: &NodeKey, budget: usize) -> (r:
    Result<Option<Vec<NodeKey>>, ZarrError>)
    requires
        store.store_wf(),
    ensures
        r matches Ok(Some(v)) ==> forall|k: Seq<Seq<char>>| #[trigger]
            keys_view(v@).contains(k) <==> store.contents().contains_key(k) && lies_below(k, key@),
        budget == 0 ==> r matches Ok(None),
        r matches Err(e) ==> e == ZarrError::StoreIo,
{
    let mut to_visit: Vec<NodeKey> = Vec::new();
    to_visit.push(key.clone());
    let mut result: Vec<NodeKey> = Vec::new();
    let mut left: usize = budget;
    proof {
        assert(key@.take(key@.len() as int) =~= key@);
        assert forall|k: Seq<Seq<char>>| lies_below(k, key@) implies pending(
            keys_view(to_visit@),
            k,
        ) by {
            assert(keys_view(to_visit@)[0] == key@);
        }
    }
    while to_visit.len() > 0
        invariant
            store.store_wf(),
            left <= budget,
            budget == 0 ==> to_visit@.len() > 0,
            forall|j: int|
                0 <= j < to_visit@.len() ==> key_starts_with(#[trigger] to_visit@[j]@, key@),
            forall|k: Seq<Seq<char>>| #[trigger]
                keys_view(result@).contains(k) ==> store.contents().contains_key(k) && lies_below(
                    k,
                    key@,
                ),
            forall|k: Seq<Seq<char>>|
                store.contents().contains_key(k) && lies_below(k, key@) ==> #[trigger] keys_view(
                    result@,
                ).contains(k) || pending(keys_view(to_visit@), k),
        decreases left,
    {
        if left == 0 {
            return Ok(None);
        }
        left -= 1;
        let ghost tv_before = keys_view(to_visit@);
        let next = match to_visit.pop() {
            Some(n) => n,
            None => {
                return Ok(None);
            },
        };
        let ghost tv0 = keys_view(to_visit@);
        let ghost res0 = keys_view(result@);
        let (keys, prefixes) = match store.list_dir(&next) {
            Ok(d) => d,
            Err(e) => {
                return Err(e);
            },
        };
        visit_listed(&mut to_visit, &mut result, keys.as_slice(), prefixes.as_slice());
        proof {
            let kv = keys_view(keys@);
            let pv = keys_view(prefixes@);
            let res = keys_view(result@);
            let tv = keys_view(to_visit@);
            assert(res == res0 + kv);
            assert(tv == tv0 + pv);
            assert(tv.len() == to_visit@.len());
            assert forall|m: int| 0 <= m < to_visit@.len() implies key_starts_with(
                #[trigger] to_visit@[m]@,
                key@,
            ) by {
                assert(tv[m] == to_visit@[m]@);
                if m < tv0.len() {
                } else {
                    let p = pv[m - tv0.len()];
                    assert(pv.contains(p));
                    lemma_below_below(p, next@, key@);
                }
            }
            assert forall|k: Seq<Seq<char>>| #[trigger] res.contains(k) implies store.contents().contains_key(
                k,
            ) && lies_below(k, key@) by {
                let w = choose|w: int| 0 <= w < res.len() && res[w] == k;
                if w < res0.len() {
                    assert(res0.contains(k));
                } else {
                    assert(kv.contains(k));
                    lemma_below_below(k, next@, key@);
                }
            }
            assert forall|k: Seq<Seq<char>>|
                store.contents().contains_key(k) && lies_below(k, key@) implies #[trigger] res.contains(
                k,
            ) || pending(tv, k) by {
                if res0.contains(k) {
                    let w = choose|w: int| 0 <= w < res0.len() && res0[w] == k;
                    assert(res[w] == k);
                } else {
                    let m = choose|m: int|
                        0 <= m < tv_before.len() && lies_below(k, #[trigger] tv_before[m]);
                    if m < tv0.len() {
                        assert(lies_below(k, tv[m]));
                    } else {
                        let d = next@.len() as int;
                        if k.len() == d + 1 {
                            assert(kv.contains(k));
                            let w = choose|w: int| 0 <= w < kv.len() && kv[w] == k;
                            assert(res[res0.len() + w] == k);
                        } else {
                            let p = k.take(d + 1);
                            assert(p.take(d) =~= k.take(d));
                            assert(lies_below(k, p));
                            assert(pv.contains(p));
                            let w = choose|w: int| 0 <= w < pv.len() && pv[w] == p;
                            assert(lies_below(k, tv[tv0.len() + w]));
                        }
                    }
                }
            }
        }
    }
    proof {
        assert forall|k: Seq<Seq<char>>|
            store.contents().contains_key(k) && lies_below(k, key@) implies #[trigger] keys_view(
            result@,
        ).contains(k) by {
            if pending(keys_view(to_visit@), k) {
                assert(false);
            }
        }
    }
    Ok(Some(result))
}

/// What lies below a key that starts with `c` lies below `c`.
pub proof fn lemma_below_below(k: Seq<Seq<char>>, b: Seq<Seq<char>>, c: Seq<Seq<char>>)
    requires
        lies_below(k, b),
        key_starts_with(b, c),
    ensures
        lies_below(k, c),
        key_starts_with(k, c),
{
    assert(k.take(c.len() as int) =~= k.take(b.len() as int).take(c.len() as int));
}

/// The keys below `prefix` are the keys that lie below it; where no key
/// stands twice among the keys, none stands twice among them.
pub proof fn lemma_keys_below(keys: Seq<Seq<Seq<char>>>, prefix: Seq<Seq<char>>)
    ensures
        forall|k: Seq<Seq<char>>| #[trigger]
            keys_below(keys, prefix).contains(k) <==> keys.contains(k) && lies_below(k, prefix),
        keys.no_duplicates() ==> keys_below(keys, prefix).no_duplicates(),
    decreases keys.len(),
{
    if keys.len() > 0 {
        let pre = keys.drop_last();
        let last = keys.last();
        lemma_keys_below(pre, prefix);
        let b = keys_below(pre, prefix);
        let r = keys_below(keys, prefix);
        assert forall|k: Seq<Seq<char>>| #[trigger] r.contains(k) <==> keys.contains(k)
            && lies_below(k, prefix) by {
            if r.contains(k) {
                let j = choose|j: int| 0 <= j < r.len() && r[j] == k;
                if j < b.len() {
                    assert(b.contains(k));
                    let m = choose|m: int| 0 <= m < pre.len() && pre[m] == k;
                } else {
                }
            }
            if keys.contains(k) && lies_below(k, prefix) {
                let m = choose|m: int| 0 <= m < keys.len() && keys[m] == k;
                if m < pre.len() {
                    assert(pre[m] == k);
                    assert(b.contains(k));
                    let j = choose|j: int| 0 <= j < b.len() && b[j] == k;
                    assert(r[j] == k);
                } else {
                    assert(r[r.len() - 1] == k);
                }
            }
        }
        if keys.no_duplicates() {
            if lies_below(last, prefix) {
                assert forall|i: int, j: int| 0 <= i < r.len() && 0 <= j < r.len() && i != j implies r[i]
                    != r[j] by {
                    if i == r.len() - 1 && r[j] == last {
                        assert(b.contains(last));
                        let m = choose|m: int| 0 <= m < pre.len() && pre[m] == last;
                    }
                    if j == r.len() - 1 && r[i] == last {
                        assert(b.contains(last));
                        let m = choose|m: int| 0 <= m < pre.len() && pre[m] == last;
                    }
                    if i < b.len() && j < b.len() {
                    }
                }
            }
        }
    }
}

/// The keys directly below `prefix` are the keys that lie directly below
/// it.
pub proof fn lemma_children_of(keys: Seq<Seq<Seq<char>>>, prefix: Seq<Seq<char>>)
    ensures
        forall|k: Seq<Seq<char>>| #[trigger]
            children_of(keys, prefix).contains(k) <==> keys.contains(k) && lies_below(k, prefix)
                && k.len() == prefix.len() + 1,
    decreases keys.len(),
{
    if keys.len() > 0 {
        let pre = keys.drop_last();
        lemma_children_of(pre, prefix);
        let b = children_of(pre, prefix);
        let r = children_of(keys, prefix);
        assert forall|k: Seq<Seq<char>>| #[trigger] r.contains(k) <==> keys.contains(k)
            && lies_below(k, prefix) && k.len() == prefix.len() + 1 by {
            if r.contains(k) {
                let j = choose|j: int| 0 <= j < r.len() && r[j] == k;
                if j < b.len() {
                    assert(b.contains(k));
                    let m = choose|m: int| 0 <= m < pre.len() && pre[m] == k;
                } else {
                }
            }
            if keys.contains(k) && lies_below(k, prefix) && k.len() == prefix.len() + 1 {
                let m = choose|m: int| 0 <= m < keys.len() && keys[m] == k;
                if m < pre.len() {
                    assert(pre[m] == k);
                    assert(b.contains(k));
                    let j = choose|j: int| 0 <= j < b.len() && b[j] == k;
                    assert(r[j] == k);
                } else {
                    assert(r[r.len() - 1] == k);
                }
            }
        }
    }
}

/// Every key among the child prefixes lies directly below `prefix`.
pub proof fn lemma_child_prefixes_of(keys: Seq<Seq<Seq<char>>>, prefix: Seq<Seq<char>>)
    ensures
        forall|p: Seq<Seq<char>>| #[trigger]
            child_prefixes_of(keys, prefix).contains(p) <==> lies_below(p, prefix) && p.len()
                == prefix.len() + 1 && deeper_in(keys, p),
    decreases keys.len(),
{
    let r = child_prefixes_of(keys, prefix);
    let n = prefix.len() as int;
    if keys.len() > 0 {
        let pre = keys.drop_last();
        lemma_child_prefixes_of(pre, prefix);
        let b = child_prefixes_of(pre, prefix);
        let k = keys.last();
        assert forall|p: Seq<Seq<char>>| #[trigger] r.contains(p) implies lies_below(p, prefix)
            && p.len() == n + 1 && deeper_in(keys, p) by {
            let j = choose|j: int| 0 <= j < r.len() && r[j] == p;
            if j < b.len() {
                assert(b.contains(p));
                let i = choose|i: int| 0 <= i < pre.len() && lies_below(#[trigger] pre[i], p);
            } else {
                assert(p.take(n) =~= k.take(n));
            }
        }
        assert forall|p: Seq<Seq<char>>|
            lies_below(p, prefix) && p.len() == n + 1 && deeper_in(keys, p) implies #[trigger] r.contains(
            p,
        ) by {
            let i = choose|i: int| 0 <= i < keys.len() && lies_below(#[trigger] keys[i], p);
            if i < pre.len() {
                assert(pre[i] == keys[i]);
                assert(b.contains(p));
                let j = choose|j: int| 0 <= j < b.len() && b[j] == p;
                assert(r[j] == p);
            } else {
                lemma_below_below(k, p, prefix);
                if b.contains(p) {
                    let j = choose|j: int| 0 <= j < b.len() && b[j] == p;
                } else {
                    assert(r[r.len() - 1] == p);
                }
            }
        }
    } else {
        assert forall|p: Seq<Seq<char>>| !r.contains(p) && !deeper_in(keys, p) by {}
    }
}

} // verus!
