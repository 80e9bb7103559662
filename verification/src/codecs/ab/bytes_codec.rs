use crate::codecs::ArrayRepr;
use crate::data_type::DataType;
use crate::data_type::NBytes;
use crate::ndarr::ArrayModel;
use crate::ndarr::ElemBuf;
use crate::ndarr::NDArr;
use crate::ZarrError;
use vstd::prelude::*;

verus! {

/// Order of the bytes of a number.
#[derive(Clone, Copy, Debug, PartialEq, Eq, Structural)]
pub enum Endian {
    Big,
    Little,
}

/// Byte order of network protocols.
pub const NETWORK_ENDIAN: Endian = Endian::Big;

/// Byte order that this format uses where none is configured.
pub const ZARR_ENDIAN: Endian = Endian::Little;

impl Default for Endian {
    fn default() -> (e: Endian)
        ensures
            e == Endian::Little,
    {
        Endian::Little
    }
}

/// `u16::from_ne_bytes`: the number that the two bytes spell in the byte
/// order of this machine, which is one of the two possible orders.
#[verifier::external_body]
fn u16_from_native_bytes(b0: u8, b1: u8) -> (x: u16)
    ensures
        x == b0 + 256 * b1 || x == 256 * b0 + b1,
{
    u16::from_ne_bytes([b0, b1])
}

/// Byte order of the machine that runs this code.
pub fn native_endian() -> (e: Endian) {
    endian_of_probe(u16_from_native_bytes(1, 0))
}

/// The byte order of a machine on which the bytes 1 and 0 spell the
/// number `probe`: with the lowest byte first they spell 1.
pub fn endian_of_probe(probe: u16) -> (e: Endian)
    ensures
        probe == 1 ==> e == Endian::Little,
        probe != 1 ==> e == Endian::Big,
{
    if probe == 1 {
        Endian::Little
    } else {
        Endian::Big
    }
}

/// The codec that writes the elements of an array one after another, each in
/// the configured byte order.
#[derive(Clone, Copy, Debug, PartialEq, Eq, Structural)]
pub struct BytesCodec {
    pub endian: Option<Endian>,
}

impl Default for BytesCodec {
    fn default() -> (c: BytesCodec)
        ensures
            c.endian == Some(Endian::Little),
    {
        BytesCodec { endian: Some(Endian::Little) }
    }
}

impl BytesCodec {
    pub fn new(endian: Option<Endian>) -> (c: BytesCodec)
        ensures
            c.endian == endian,
    {
        BytesCodec { endian }
    }

    pub fn new_big() -> (c: BytesCodec)
        ensures
            c.endian == Some(Endian::Big),
    {
        BytesCodec::new(Some(Endian::Big))
    }

    pub fn new_little() -> (c: BytesCodec)
        ensures
            c.endian == Some(Endian::Little),
    {
        BytesCodec::new(Some(Endian::Little))
    }

    /// A codec in the byte order of this machine.
    pub fn new_native() -> (c: BytesCodec)
        ensures
            c.endian is Some,
    {
        BytesCodec::new(Some(native_endian()))
    }

    /// A codec without a byte order, for types of one byte and raw types.
    pub fn new_single_byte() -> (c: BytesCodec)
        ensures
            c.endian.is_none(),
    {
        BytesCodec::new(None)
    }

    /// The configured byte order.
    pub fn endian(&self) -> (e: Option<Endian>)
        ensures
            e == self.endian,
    {
        self.endian
    }

    /// This codec fixes no number of axes.
    /// The byte order to use for a data type: the configured one, or any
    /// for a type of single bytes; an error where the type needs an order
    /// and none is configured.
    pub fn valid_endian(&self, data_type: &DataType) -> (r: Result<
        Endian,
        crate::data_type::EndianError,
    >)
        ensures
            r == crate::data_type::spec_valid_endian(data_type.spec_has_endianness(), self.endian),
    {
        data_type.valid_endian(self.endian)
    }

    pub fn maybe_ndim(&self) -> (n: Option<usize>)
        ensures
            n.is_none(),
    {
        None
    }
}

/// Where byte `t` of a string of words of `w` bytes comes from when the
/// bytes of every word are reversed.
pub open spec fn swap_pos(t: int, w: nat) -> int {
    if w == 0 || t < 0 {
        t
    } else {
        (t / (w as int)) * w + (w - 1 - t % (w as int))
    }
}

/// The bytes with the bytes of every word of `w` bytes reversed.
pub open spec fn swap_words(bytes: Seq<u8>, w: nat) -> Seq<u8> {
    Seq::new(bytes.len(), |t: int| bytes[swap_pos(t, w)])
}

/// Reversing within words stays within the bytes, and undoes itself.
pub proof fn lemma_swap_pos(t: int, w: nat, len: nat)
    requires
        w > 0,
        0 <= t < len,
        len % w == 0,
    ensures
        0 <= swap_pos(t, w) < len,
        swap_pos(swap_pos(t, w), w) == t,
{
    let wi = w as int;
    let q = t / wi;
    let r = t % wi;
    let n = (len as int) / wi;
    vstd::arithmetic::div_mod::lemma_fundamental_div_mod(t, wi);
    vstd::arithmetic::div_mod::lemma_fundamental_div_mod(len as int, wi);
    vstd::arithmetic::div_mod::lemma_mod_bound(t, wi);
    vstd::arithmetic::div_mod::lemma_div_pos_is_pos(t, wi);
    assert(wi * q == q * wi) by (nonlinear_arith);
    assert(wi * n == n * wi) by (nonlinear_arith);
    assert(q < n) by (nonlinear_arith)
        requires
            t < n * wi,
            t == q * wi + r,
            r >= 0,
            wi > 0,
    ;
    assert((q + 1) * wi <= n * wi) by (nonlinear_arith)
        requires
            q + 1 <= n,
            wi > 0,
    ;
    assert((q + 1) * wi == q * wi + wi) by (nonlinear_arith);
    let s = q * wi + (wi - 1 - r);
    vstd::arithmetic::div_mod::lemma_fundamental_div_mod_converse(s, wi, q, wi - 1 - r);
}

pub proof fn lemma_swap_involution(bytes: Seq<u8>, w: nat)
    requires
        w > 0,
        bytes.len() % w == 0,
    ensures
        swap_words(swap_words(bytes, w), w) == bytes,
        swap_words(bytes, w).len() == bytes.len(),
{
    let once = swap_words(bytes, w);
    let twice = swap_words(once, w);
    assert forall|t: int| 0 <= t < bytes.len() implies twice[t] == bytes[t] by {
        lemma_swap_pos(t, w, bytes.len());
        lemma_swap_pos(swap_pos(t, w), w, bytes.len());
    }
    assert(twice =~= bytes);
}

/// Every element is a whole number of words.
pub proof fn lemma_words_fit(data_type: DataType, n: nat)
    requires
        data_type.spec_nbytes() > 0,
    ensures
        data_type.spec_word_bytes() > 0,
        (n * data_type.spec_nbytes()) % data_type.spec_word_bytes() == 0,
{
    let es = data_type.spec_nbytes();
    let w = data_type.spec_word_bytes();
    let c: nat = if data_type is Complex {
        2
    } else if data_type is Raw {
        es
    } else {
        1
    };
    assert(es == c * w);
    assert(n * es == (n * c) * w) by (nonlinear_arith)
        requires
            es == c * w,
    ;
    ElemBuf::lemma_count(w, n * c);
}

/// Reverses the bytes of every word of `w` bytes.
pub fn swap_bytes(bytes: &[u8], w: usize) -> (out: Vec<u8>)
    requires
        w > 0,
        bytes@.len() % (w as nat) == 0,
    ensures
        out@ == swap_words(bytes@, w as nat),
{
    let n = bytes.len();
    let mut out: Vec<u8> = Vec::new();
    let mut t: usize = 0;
    while t < n
        invariant
            w > 0,
            n == bytes@.len(),
            bytes@.len() % (w as nat) == 0,
            t <= n,
            out@.len() == t,
            forall|u: int| 0 <= u < t ==> out@[u] == bytes@[swap_pos(u, w as nat)],
        decreases n - t,
    {
        proof {
            lemma_swap_pos(t as int, w as nat, n as nat);
            vstd::arithmetic::div_mod::lemma_fundamental_div_mod(t as int, w as int);
            vstd::arithmetic::div_mod::lemma_mod_bound(t as int, w as int);
            vstd::arithmetic::div_mod::lemma_div_pos_is_pos(t as int, w as int);
            assert((w as int) * (t as int / (w as int)) == (t as int / (w as int)) * (w as int))
                by (nonlinear_arith);
        }
        let q: usize = t / w;
        let r: usize = t % w;
        out.push(bytes[q * w + (w - 1 - r)]);
        t += 1;
    }
    assert(out@ =~= swap_words(bytes@, w as nat));
    out
}

impl BytesCodec {
    /// The bytes that stand for the array: its elements one after another,
    /// every number with its bytes in the configured order.
    pub open spec fn spec_encode(&self, m: ArrayModel) -> Result<Seq<u8>, ZarrError> {
        match crate::data_type::spec_valid_endian(m.data_type.spec_has_endianness(), self.endian) {
            Err(_) => Err(ZarrError::DecodeFailure),
            Ok(e) => Ok(
                if e == Endian::Big {
                    swap_words(m.bytes, m.data_type.spec_word_bytes())
                } else {
                    m.bytes
                },
            ),
        }
    }

    /// The array of the given shape and type for which the bytes stand.
    pub open spec fn spec_decode(&self, bytes: Seq<u8>, shape: Seq<u64>, data_type: DataType) -> Result<
        ArrayModel,
        ZarrError,
    > {
        match crate::data_type::spec_valid_endian(data_type.spec_has_endianness(), self.endian) {
            Err(_) => Err(ZarrError::DecodeFailure),
            Ok(e) => if data_type.spec_nbytes() == 0 || bytes.len() != crate::coord::product(shape)
                * data_type.spec_nbytes() {
                Err(ZarrError::DecodeFailure)
            } else {
                Ok(
                    ArrayModel {
                        shape,
                        data_type,
                        bytes: if e == Endian::Big {
                            swap_words(bytes, data_type.spec_word_bytes())
                        } else {
                            bytes
                        },
                    },
                )
            },
        }
    }

    /// What was encoded decodes to the array.
    pub proof fn lemma_roundtrip(&self, m: ArrayModel)
        requires
            m.wf(),
            self.spec_encode(m) is Ok,
        ensures
            self.spec_decode(self.spec_encode(m)->Ok_0, m.shape, m.data_type) == Ok::<
                ArrayModel,
                ZarrError,
            >(m),
    {
        lemma_words_fit(m.data_type, crate::coord::product(m.shape));
        lemma_swap_involution(m.bytes, m.data_type.spec_word_bytes());
    }

    /// Writes the elements of the array one after another, every number
    /// with its bytes in the configured order. Fails where the type needs
    /// a byte order and none is configured.
    pub fn encode(&self, decoded: &NDArr) -> (r: Result<Vec<u8>, ZarrError>)
        requires
            decoded.wf(),
        ensures
            r matches Ok(v) ==> self.spec_encode(decoded@) == Ok::<Seq<u8>, ZarrError>(v@),
            r matches Err(e) ==> self.spec_encode(decoded@) == Err::<Seq<u8>, ZarrError>(e),
    {
        let endian = match decoded.data_type.valid_endian(self.endian) {
            Ok(e) => e,
            Err(_) => {
                return Err(ZarrError::DecodeFailure);
            },
        };
        match endian {
            Endian::Little => Ok(decoded.elems.bytes.clone()),
            Endian::Big => {
                proof {
                    decoded.lemma_view();
                    lemma_words_fit(decoded.data_type, crate::coord::product(decoded.shape@));
                }
                Ok(swap_bytes(decoded.elems.bytes.as_slice(), decoded.data_type.word_bytes()))
            },
        }
    }

    /// Reads as many elements as the shape has cells. Fails where the type
    /// needs a byte order and none is configured, and where the bytes are
    /// not exactly the bytes of so many elements.
    pub fn decode(&self, bytes: Vec<u8>, decoded_repr: &ArrayRepr) -> (r: Result<NDArr, ZarrError>)
        ensures
            r matches Ok(a) ==> a.wf() && self.spec_decode(
                bytes@,
                decoded_repr.shape@,
                decoded_repr.data_type,
            ) == Ok::<ArrayModel, ZarrError>(a@),
            r matches Err(e) ==> self.spec_decode(
                bytes@,
                decoded_repr.shape@,
                decoded_repr.data_type,
            ) == Err::<ArrayModel, ZarrError>(e),
    {
        let data_type = decoded_repr.data_type;
        let endian = match data_type.valid_endian(self.endian) {
            Ok(e) => e,
            Err(_) => {
                return Err(ZarrError::DecodeFailure);
            },
        };
        let arr = match NDArr::from_bytes(decoded_repr.shape.as_slice(), data_type, bytes) {
            Some(a) => a,
            None => {
                return Err(ZarrError::DecodeFailure);
            },
        };
        match endian {
            Endian::Little => Ok(arr),
            Endian::Big => {
                proof {
                    arr.lemma_view();
                    lemma_words_fit(data_type, crate::coord::product(arr.shape@));
                    lemma_swap_involution(arr.elems.bytes@, data_type.spec_word_bytes());
                }
                let swapped = swap_bytes(arr.elems.bytes.as_slice(), data_type.word_bytes());
                match NDArr::from_bytes(decoded_repr.shape.as_slice(), data_type, swapped) {
                    Some(a) => Ok(a),
                    None => Err(ZarrError::DecodeFailure),
                }
            },
        }
    }

    /// Number of bytes of the encoded chunk, where it can be counted.
    pub fn compute_encoded_size(&self, decoded_repr: &ArrayRepr) -> (r: Option<usize>)
        ensures
            r matches Some(n) ==> n == crate::coord::product(decoded_repr.shape@)
                * decoded_repr.data_type.spec_nbytes(),
            r.is_none() ==> crate::coord::product(decoded_repr.shape@)
                * decoded_repr.data_type.spec_nbytes() > usize::MAX,
    {
        let es: usize = decoded_repr.data_type.nbytes();
        if es == 0 {
            assert(crate::coord::product(decoded_repr.shape@) * 0 == 0);
            return Some(0);
        }
        match crate::coord::checked_numel(decoded_repr.shape.as_slice()) {
            None => {
                proof {
                    let p = crate::coord::product(decoded_repr.shape@);
                    assert(p * (es as nat) >= p) by (nonlinear_arith)
                        requires
                            es >= 1,
                    ;
                }
                None
            },
            Some(n) => n.checked_mul(es),
        }
    }
}

} // verus!
