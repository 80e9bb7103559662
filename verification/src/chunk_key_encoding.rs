use crate::store::names_view;
use crate::store::NodeKey;
use crate::store::NodeName;
use crate::text::decimal;
use crate::text::decimal_chars;
use crate::text::string_from_chars;
use vstd::prelude::*;

verus! {

/// What stands between the numbers of a chunk key.
#[derive(Clone, Copy, Debug, PartialEq, Eq, Structural)]
pub enum Separator {
    Slash,
    Dot,
}

impl Separator {
    pub open spec fn spec_char(self) -> char {
        match self {
            Separator::Slash => '/',
            Separator::Dot => '.',
        }
    }

    /// The character of the separator.
    pub fn to_char(&self) -> (c: char)
        ensures
            c == self.spec_char(),
    {
        match self {
            Separator::Slash => '/',
            Separator::Dot => '.',
        }
    }

    /// The text of the separator.
    pub fn to_string(&self) -> (s: String)
        ensures
            s@ == seq![self.spec_char()],
    {
        let v: Vec<char> = vec![self.to_char()];
        string_from_chars(v.as_slice())
    }
}

/// The separator of the default encoding where none is configured.
pub fn slash() -> (s: Separator)
    ensures
        s == Separator::Slash,
{
    Separator::Slash
}

/// The separator of the older encoding where none is configured.
pub fn dot() -> (s: Separator)
    ensures
        s == Separator::Dot,
{
    Separator::Dot
}

/// The numbers of a coordinate, each in decimal.
pub open spec fn decimals(coord: Seq<u64>) -> Seq<Seq<char>> {
    Seq::new(coord.len(), |i: int| decimal(coord[i] as nat))
}

/// `head` followed by every text of `rest`, each behind a separator.
pub open spec fn join_behind(head: Seq<char>, rest: Seq<Seq<char>>, sep: char) -> Seq<char>
    decreases rest.len(),
{
    if rest.len() == 0 {
        head
    } else {
        join_behind(head, rest.drop_last(), sep) + seq![sep] + rest.last()
    }
}

/// The components of the key of a chunk in the default encoding: `c` and
/// the numbers of the coordinate, as components of their own with the
/// separator `/`, or joined into one component with the separator `.`.
pub open spec fn default_components(separator: Separator, coord: Seq<u64>) -> Seq<Seq<char>> {
    match separator {
        Separator::Slash => seq![seq!['c']] + decimals(coord),
        Separator::Dot => seq![join_behind(seq!['c'], decimals(coord), '.')],
    }
}

/// The components of the key of a chunk in the older encoding: the
/// numbers of the coordinate, as components of their own with the
/// separator `/`, or joined into one component with the separator `.`. A
/// coordinate without numbers gives the one component `0`.
pub open spec fn v2_components(separator: Separator, coord: Seq<u64>) -> Seq<Seq<char>> {
    if coord.len() == 0 {
        seq![seq!['0']]
    } else {
        match separator {
            Separator::Slash => decimals(coord),
            Separator::Dot => seq![
                join_behind(decimal(coord[0] as nat), decimals(coord).drop_first(), '.'),
            ],
        }
    }
}

/// Numbers joined behind a head with `.` can be told apart again: two
/// such texts of as many numbers are the same only where the heads and
/// the numbers are.
pub proof fn lemma_join_injective(h1: Seq<char>, h2: Seq<char>, r1: Seq<u64>, r2: Seq<u64>)
    requires
        r1.len() == r2.len(),
        join_behind(h1, decimals(r1), '.') == join_behind(h2, decimals(r2), '.'),
    ensures
        h1 == h2,
        r1 == r2,
    decreases r1.len(),
{
    if r1.len() == 0 {
    } else {
        let a = r1.last();
        let b = r2.last();
        let front1 = join_behind(h1, decimals(r1).drop_last(), '.');
        let front2 = join_behind(h2, decimals(r2).drop_last(), '.');
        let f1 = front1 + seq!['.'] + decimal(a as nat);
        let f2 = front2 + seq!['.'] + decimal(b as nat);
        crate::text::lemma_decimal_roundtrip(a as nat);
        crate::text::lemma_decimal_roundtrip(b as nat);
        let la = decimal(a as nat).len() as int;
        let lb = decimal(b as nat).len() as int;
        let n = f1.len() as int;
        if la < lb {
            assert(crate::text::digit_value(decimal(b as nat)[lb - la - 1]) is Some);
        }
        if lb < la {
            assert(crate::text::digit_value(decimal(a as nat)[la - lb - 1]) is Some);
        }
        assert(decimal(a as nat) =~= f1.subrange(n - la, n));
        assert(decimal(b as nat) =~= f2.subrange(n - lb, n));
        crate::text::lemma_decimal_injective(a as nat, b as nat);
        assert(front1 =~= f1.subrange(0, n - la - 1));
        assert(front2 =~= f2.subrange(0, n - lb - 1));
        assert(decimals(r1).drop_last() =~= decimals(r1.drop_last()));
        assert(decimals(r2).drop_last() =~= decimals(r2.drop_last()));
        lemma_join_injective(h1, h2, r1.drop_last(), r2.drop_last());
        assert(r2 =~= r2.drop_last().push(b));
    }
}

/// Coordinates with the same decimals are the same.
pub proof fn lemma_decimals_injective(c1: Seq<u64>, c2: Seq<u64>)
    requires
        decimals(c1) == decimals(c2),
    ensures
        c1 == c2,
{
    assert(decimals(c2).len() == c2.len());
    assert forall|i: int| 0 <= i < c1.len() implies c1[i] == c2[i] by {
        assert(decimals(c2)[i] == decimal(c2[i] as nat));
        crate::text::lemma_decimal_injective(c1[i] as nat, c2[i] as nat);
    }
}

/// No two chunks of one array share a key: coordinates of as many numbers
/// that give the same components are the same.
pub proof fn lemma_components_injective(enc: ChunkKeyEncoding, c1: Seq<u64>, c2: Seq<u64>)
    requires
        c1.len() == c2.len(),
        enc.spec_components(c1) == enc.spec_components(c2),
    ensures
        c1 == c2,
{
    if c1.len() == 0 {
    } else {
        match enc {
            ChunkKeyEncoding::Default(e) => {
                match e.separator {
                    Separator::Slash => {
                        let k1 = seq![seq!['c']] + decimals(c1);
                        let k2 = seq![seq!['c']] + decimals(c2);
                        assert(decimals(c1) =~= k1.subrange(1, k1.len() as int));
                        assert(decimals(c2) =~= k2.subrange(1, k2.len() as int));
                        lemma_decimals_injective(c1, c2);
                    },
                    Separator::Dot => {
                        let j1 = join_behind(seq!['c'], decimals(c1), '.');
                        let j2 = join_behind(seq!['c'], decimals(c2), '.');
                        assert(seq![j1][0] == seq![j2][0]);
                        lemma_join_injective(seq!['c'], seq!['c'], c1, c2);
                    },
                }
            },
            ChunkKeyEncoding::V2(e) => {
                match e.separator {
                    Separator::Slash => {
                        lemma_decimals_injective(c1, c2);
                    },
                    Separator::Dot => {
                        let h1 = decimal(c1[0] as nat);
                        let h2 = decimal(c2[0] as nat);
                        let j1 = join_behind(h1, decimals(c1).drop_first(), '.');
                        let j2 = join_behind(h2, decimals(c2).drop_first(), '.');
                        assert(seq![j1][0] == seq![j2][0]);
                        assert(decimals(c1).drop_first() =~= decimals(c1.drop_first()));
                        assert(decimals(c2).drop_first() =~= decimals(c2.drop_first()));
                        lemma_join_injective(h1, h2, c1.drop_first(), c2.drop_first());
                        crate::text::lemma_decimal_injective(c1[0] as nat, c2[0] as nat);
                        assert(c2 =~= seq![c2[0]] + c2.drop_first());
                    },
                }
            },
        }
    }
}

/// What says under which key a chunk is stored.
pub trait ChunkKeyEncoder {
    /// The components that the chunk with the given coordinate adds to the
    /// key of its array.
    spec fn spec_components(&self, coord: Seq<u64>) -> Seq<Seq<char>>;

    /// The components that the chunk with the given coordinate adds to the
    /// key of its array: several where the separator is `/`, one where it
    /// is `.`.
    fn components(&self, coord: &[u64]) -> (r: Vec<NodeName>)
        ensures
            names_view(r@) == self.spec_components(coord@),
    ;

    /// The key of the chunk with the given coordinate of the array with
    /// the key `node`.
    fn chunk_key(&self, node: &NodeKey, coord: &[u64]) -> (k: NodeKey)
        ensures
            k@ == node@ + self.spec_components(coord@),
    ;
}

/// Appends `sep` and the digits of `n` to `out`.
fn push_number(out: &mut Vec<char>, sep: char, n: u64)
    ensures
        final(out)@ == old(out)@ + seq![sep] + decimal(n as nat),
{
    out.push(sep);
    let d = decimal_chars(n);
    let ghost mid = out@;
    let mut j: usize = 0;
    while j < d.len()
        invariant
            j <= d@.len(),
            out@ == mid + d@.take(j as int),
        decreases d@.len() - j,
    {
        out.push(d[j]);
        j += 1;
    }
}

/// `head` followed by the numbers from position `from` on, each behind a
/// separator.
fn join_numbers(head: Vec<char>, coord: &[u64], from: usize, sep: char) -> (out: Vec<char>)
    requires
        from <= coord@.len(),
    ensures
        out@ == join_behind(head@, decimals(coord@).skip(from as int), sep),
{
    let mut out = head;
    let mut i: usize = from;
    let ghost rest = decimals(coord@).skip(from as int);
    while i < coord.len()
        invariant
            from <= i <= coord@.len(),
            rest == decimals(coord@).skip(from as int),
            out@ == join_behind(head@, rest.take(i - from), sep),
        decreases coord@.len() - i,
    {
        proof {
            let cur = rest.take(i - from + 1);
            assert(cur.drop_last() =~= rest.take(i - from));
        }
        push_number(&mut out, sep, coord[i]);
        i += 1;
    }
    assert(rest.take(rest.len() as int) =~= rest);
    out
}

/// The numbers of a coordinate, each as a name of its own.
fn number_names(out: &mut Vec<NodeName>, coord: &[u64])
    ensures
        names_view(final(out)@) == names_view(old(out)@) + decimals(coord@),
{
    let ghost before = names_view(out@);
    let mut i: usize = 0;
    while i < coord.len()
        invariant
            i <= coord@.len(),
            names_view(out@) == before + decimals(coord@).take(i as int),
        decreases coord@.len() - i,
    {
        let d = decimal_chars(coord[i]);
        let ghost prev = out@;
        let name = NodeName::new_unchecked(string_from_chars(d.as_slice()));
        out.push(name);
        proof {
            assert(names_view(out@) =~= names_view(prev).push(name@));
            assert(decimals(coord@).take(i as int + 1) =~= decimals(coord@).take(i as int).push(
                decimal(coord@[i as int] as nat),
            ));
        }
        i += 1;
    }
}

fn extend_key(node: &NodeKey, names: Vec<NodeName>) -> (k: NodeKey)
    ensures
        k@ == node@ + names_view(names@),
{
    let mut k = node.clone();
    let _ = k.extend(NodeKey::from_names(names));
    k
}

/// The default encoding of chunk keys.
#[derive(Clone, Copy, Debug, PartialEq, Eq, Structural)]
pub struct DefaultChunkKeyEncoding {
    pub separator: Separator,
}

impl Default for DefaultChunkKeyEncoding {
    fn default() -> (e: DefaultChunkKeyEncoding)
        ensures
            e.separator == Separator::Slash,
    {
        DefaultChunkKeyEncoding { separator: Separator::Slash }
    }
}

impl ChunkKeyEncoder for DefaultChunkKeyEncoding {
    open spec fn spec_components(&self, coord: Seq<u64>) -> Seq<Seq<char>> {
        default_components(self.separator, coord)
    }

    fn components(&self, coord: &[u64]) -> (r: Vec<NodeName>) {
        let mut out: Vec<NodeName> = Vec::new();
        let c: Vec<char> = vec!['c'];
        assert(c@ =~= seq!['c']);
        match self.separator {
            Separator::Slash => {
                let name = NodeName::new_unchecked(string_from_chars(c.as_slice()));
                out.push(name);
                number_names(&mut out, coord);
                assert(default_components(self.separator, coord@) == seq![seq!['c']] + decimals(
                    coord@,
                ));
                assert(self.spec_components(coord@) == default_components(
                    self.separator,
                    coord@,
                ));
            },
            Separator::Dot => {
                let joined = join_numbers(c, coord, 0, '.');
                assert(decimals(coord@).skip(0) =~= decimals(coord@));
                let name = NodeName::new_unchecked(string_from_chars(joined.as_slice()));
                out.push(name);
            },
        }
        out
    }

    fn chunk_key(&self, node: &NodeKey, coord: &[u64]) -> (k: NodeKey) {
        extend_key(node, self.components(coord))
    }
}

/// The older encoding of chunk keys.
#[derive(Clone, Copy, Debug, PartialEq, Eq, Structural)]
pub struct V2ChunkKeyEncoding {
    pub separator: Separator,
}

impl Default for V2ChunkKeyEncoding {
    fn default() -> (e: V2ChunkKeyEncoding)
        ensures
            e.separator == Separator::Dot,
    {
        V2ChunkKeyEncoding { separator: Separator::Dot }
    }
}

impl ChunkKeyEncoder for V2ChunkKeyEncoding {
    open spec fn spec_components(&self, coord: Seq<u64>) -> Seq<Seq<char>> {
        v2_components(self.separator, coord)
    }

    fn components(&self, coord: &[u64]) -> (r: Vec<NodeName>) {
        let mut out: Vec<NodeName> = Vec::new();
        if coord.len() == 0 {
            let z: Vec<char> = vec!['0'];
            let name = NodeName::new_unchecked(string_from_chars(z.as_slice()));
            out.push(name);
            assert(names_view(out@)[0] == seq!['0']);
            return out;
        }
        match self.separator {
            Separator::Slash => {
                number_names(&mut out, coord);
            },
            Separator::Dot => {
                let first = decimal_chars(coord[0]);
                let joined = join_numbers(first, coord, 1, '.');
                let name = NodeName::new_unchecked(string_from_chars(joined.as_slice()));
                assert(name@ == join_behind(
                    decimal(coord@[0] as nat),
                    decimals(coord@).drop_first(),
                    '.',
                ));
                out.push(name);
            },
        }
        assert(self.spec_components(coord@) == v2_components(self.separator, coord@));
        out
    }

    fn chunk_key(&self, node: &NodeKey, coord: &[u64]) -> (k: NodeKey) {
        extend_key(node, self.components(coord))
    }
}

/// The encodings of chunk keys.
#[derive(Clone, Copy, Debug, PartialEq, Eq, Structural)]
pub enum ChunkKeyEncoding {
    Default(DefaultChunkKeyEncoding),
    V2(V2ChunkKeyEncoding),
}

impl Default for ChunkKeyEncoding {
    fn default() -> (e: ChunkKeyEncoding)
        ensures
            e == ChunkKeyEncoding::Default((DefaultChunkKeyEncoding { separator: Separator::Slash })),
    {
        ChunkKeyEncoding::Default(DefaultChunkKeyEncoding { separator: Separator::Slash })
    }
}

impl ChunkKeyEncoder for ChunkKeyEncoding {
    open spec fn spec_components(&self, coord: Seq<u64>) -> Seq<Seq<char>> {
        match self {
            ChunkKeyEncoding::Default(e) => default_components(e.separator, coord),
            ChunkKeyEncoding::V2(e) => v2_components(e.separator, coord),
        }
    }

    fn components(&self, coord: &[u64]) -> (r: Vec<NodeName>) {
        match self {
            ChunkKeyEncoding::Default(e) => e.components(coord),
            ChunkKeyEncoding::V2(e) => e.components(coord),
        }
    }

    fn chunk_key(&self, node: &NodeKey, coord: &[u64]) -> (k: NodeKey) {
        extend_key(node, self.components(coord))
    }
}

} // verus!

