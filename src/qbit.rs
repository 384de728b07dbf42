use vstd::prelude::*;
use crate::error::CodecError;
use crate::seqs::{all_len, chunks, flatten, lemma_chunks_of_flatten, lemma_flatten_len, lemma_flatten_push};

verus! {

/// The declared scalar type of a QBit column, which fixes its bit-depth.
#[derive(Clone, Copy, Debug, PartialEq, Eq, Structural)]
pub enum ScalarType {
    BFloat16,
    Float32,
    Float64,
}

impl ScalarType {
    pub open spec fn bits(self) -> nat {
        match self {
            ScalarType::BFloat16 => 16,
            ScalarType::Float32 => 32,
            ScalarType::Float64 => 64,
        }
    }

    /// The number of planes of a vector of this scalar type.
    pub fn bit_depth(&self) -> (r: usize)
        ensures
            r == self.bits(),
    {
        match self {
            ScalarType::BFloat16 => 16,
            ScalarType::Float32 => 32,
            ScalarType::Float64 => 64,
        }
    }
}

pub open spec fn planes_view(v: Seq<Vec<u8>>) -> Seq<Seq<u8>> {
    Seq::new(v.len(), |i: int| v[i]@)
}

/// `bits` planes, all of one positive length.
pub open spec fn same_shape(p: Seq<Seq<u8>>, bits: nat) -> bool {
    &&& p.len() == bits
    &&& bits > 0
    &&& p[0].len() > 0
    &&& all_len(p, p[0].len() as int)
}

pub open spec fn is_flag(b: u8) -> bool {
    b <= 1
}

/// The bytes of the first `i` planes, and of plane `i` before `j`, are flags.
pub open spec fn flags_before(p: Seq<Seq<u8>>, i: int, j: int) -> bool {
    &&& forall|a: int, x: int| 0 <= a < i && 0 <= x < p[a].len() ==> is_flag(#[trigger] p[a][x])
    &&& forall|x: int| 0 <= x < j ==> is_flag(#[trigger] p[i][x])
}

pub open spec fn all_flags(p: Seq<Seq<u8>>) -> bool {
    flags_before(p, p.len() as int, 0)
}

/// The byte at offset `j` of plane `i` is the first, by plane then offset,
/// that is not a flag.
pub open spec fn first_bad(p: Seq<Seq<u8>>, i: int, j: int) -> bool {
    &&& 0 <= i < p.len()
    &&& 0 <= j < p[i].len()
    &&& !is_flag(p[i][j])
    &&& flags_before(p, i, j)
}

/// Planes that a vector of bit-depth `bits` accepts.
pub open spec fn valid_planes(p: Seq<Seq<u8>>, bits: nat) -> bool {
    same_shape(p, bits) && all_flags(p)
}

/// What constructing a vector of bit-depth `bits` from the planes `p` gives.
pub open spec fn construction_outcome(
    p: Seq<Seq<u8>>,
    bits: nat,
    r: Result<Seq<Seq<u8>>, CodecError>,
) -> bool {
    match r {
        Ok(q) => valid_planes(p, bits) && q == p,
        Err(CodecError::Shape) => !same_shape(p, bits),
        Err(CodecError::Format { plane, offset }) => same_shape(p, bits) && first_bad(
            p,
            plane as int,
            offset as int,
        ),
        Err(_) => false,
    }
}

/// One quantized vector: `bits` planes of `dimension` bytes, each byte the
/// 0/1 value of one quantization bit of one coordinate.
#[derive(Clone, Debug)]
pub struct QBit {
    planes: Vec<Vec<u8>>,
}

pub open spec fn qbit_result_view(r: Result<QBit, CodecError>) -> Result<Seq<Seq<u8>>, CodecError> {
    match r {
        Ok(q) => Ok(q@),
        Err(e) => Err(e),
    }
}

/// The planes that `dimension`-byte pieces of `b` from `pos` on form.
pub open spec fn decode_window(b: Seq<u8>, pos: int, dimension: int, bits: nat) -> Seq<Seq<u8>> {
    chunks(b, pos, dimension, bits as int)
}

/// Encoded size of one vector.
pub open spec fn payload_len(dimension: int, bits: nat) -> int {
    dimension * bits
}

/// What reading a vector of `dimension` coordinates and the bit-depth of
/// `scalar` at `pos` of `b` gives: planes and the bytes read, or an error.
pub open spec fn decode_outcome(
    b: Seq<u8>,
    pos: int,
    dimension: int,
    scalar: ScalarType,
    r: Result<(Seq<Seq<u8>>, int), CodecError>,
) -> bool {
    if pos + payload_len(dimension, scalar.bits()) > b.len() {
        r == Err::<(Seq<Seq<u8>>, int), CodecError>(CodecError::Truncated)
    } else {
        &&& construction_outcome(
            decode_window(b, pos, dimension, scalar.bits()),
            scalar.bits(),
            match r {
                Ok((q, _)) => Ok(q),
                Err(e) => Err(e),
            },
        )
        &&& r is Ok ==> r.unwrap().1 == payload_len(dimension, scalar.bits())
    }
}

pub open spec fn decoded_view(r: Result<(QBit, usize), CodecError>) -> Result<(Seq<Seq<u8>>, int), CodecError> {
    match r {
        Ok((q, n)) => Ok((q@, n as int)),
        Err(e) => Err(e),
    }
}

impl View for QBit {
    type V = Seq<Seq<u8>>;

    closed spec fn view(&self) -> Seq<Seq<u8>> {
        planes_view(self.planes@)
    }
}

impl QBit {
    pub open spec fn wf(&self) -> bool {
        valid_planes(self@, self@.len()) && (self@.len() == 16 || self@.len() == 32
            || self@.len() == 64)
    }

    pub open spec fn dim(&self) -> int {
        self@[0].len() as int
    }

    /// Builds a vector from its planes, checking them against the bit-depth of
    /// `scalar`: the plane count and lengths, then every byte.
    pub fn from_planes(planes: Vec<Vec<u8>>, scalar: ScalarType) -> (r: Result<QBit, CodecError>)
        ensures
            construction_outcome(planes_view(planes@), scalar.bits(), qbit_result_view(r)),
            r is Ok ==> r.unwrap().wf(),
    {
        let ghost p = planes_view(planes@);
        let bits = scalar.bit_depth();
        if planes.len() != bits {
            return Err(CodecError::Shape);
        }
        let dim = planes[0].len();
        if dim == 0 {
            return Err(CodecError::Shape);
        }
        let mut i: usize = 0;
        while i < bits
            invariant
                p == planes_view(planes@),
                planes@.len() == bits,
                i <= bits,
                dim == p[0].len(),
                forall|a: int| 0 <= a < i ==> (#[trigger] p[a]).len() == dim,
            decreases bits - i,
        {
            if planes[i].len() != dim {
                assert(p[i as int].len() != p[0].len());
                return Err(CodecError::Shape);
            }
            i = i + 1;
        }
        assert(same_shape(p, scalar.bits()));
        let mut i: usize = 0;
        while i < bits
            invariant
                p == planes_view(planes@),
                same_shape(p, bits as nat),
                bits == scalar.bits(),
                bits == p.len(),
                dim == p[0].len(),
                i <= bits,
                flags_before(p, i as int, 0),
            decreases bits - i,
        {
            let mut j: usize = 0;
            assert(p[i as int].len() == dim);
            while j < dim
                invariant
                    p == planes_view(planes@),
                    same_shape(p, bits as nat),
                    bits == scalar.bits(),
                    bits == p.len(),
                    dim == p[i as int].len(),
                    i < bits,
                    j <= dim,
                    flags_before(p, i as int, j as int),
                decreases dim - j,
            {
                if planes[i][j] > 1 {
                    assert(first_bad(p, i as int, j as int));
                    return Err(CodecError::Format { plane: i, offset: j });
                }
                j = j + 1;
            }
            assert(flags_before(p, i + 1, 0)) by {
                assert forall|a: int, x: int| 0 <= a < i + 1 && 0 <= x < p[a].len() implies is_flag(
                    #[trigger] p[a][x],
                ) by {
                    if a == i {
                        assert(is_flag(p[i as int][x]));
                    }
                }
            }
            i = i + 1;
        }
        let q = QBit { planes };
        assert(q@ == p);
        Ok(q)
    }

    /// The bit-depth: the number of planes.
    pub fn bit_depth(&self) -> (r: usize)
        requires
            self.wf(),
        ensures
            r == self@.len(),
    {
        self.planes.len()
    }

    /// The dimension: the length of every plane.
    pub fn dimension(&self) -> (r: usize)
        requires
            self.wf(),
        ensures
            r == self.dim(),
    {
        self.planes[0].len()
    }

    /// The planes, in ascending order.
    pub fn planes(&self) -> (r: &Vec<Vec<u8>>)
        ensures
            planes_view(r@) == self@,
    {
        &self.planes
    }

    /// The number of bytes that `encode` writes: dimension times bit-depth.
    pub fn encoded_len(&self) -> (r: usize)
        requires
            self.wf(),
            payload_len(self.dim(), self@.len()) <= usize::MAX,
        ensures
            r == flatten(self@).len(),
            r == payload_len(self.dim(), self@.len()),
    {
        proof {
            lemma_flatten_len(self@, self.dim());
            assert(self@.len() * self.dim() == self.dim() * self@.len()) by (nonlinear_arith);
        }
        self.planes[0].len() * self.planes.len()
    }

    /// Whether two vectors have the same planes, byte for byte.
    pub fn same_planes(&self, other: &QBit) -> (r: bool)
        ensures
            r == (self@ == other@),
    {
        if self.planes.len() != other.planes.len() {
            assert(self@.len() != other@.len());
            return false;
        }
        let mut i: usize = 0;
        while i < self.planes.len()
            invariant
                self.planes@.len() == other.planes@.len(),
                i <= self.planes@.len(),
                forall|k: int| 0 <= k < i ==> #[trigger] self@[k] == other@[k],
            decreases self.planes.len() - i,
        {
            let a = &self.planes[i];
            let b = &other.planes[i];
            if a.len() != b.len() {
                assert(self@[i as int].len() != other@[i as int].len());
                return false;
            }
            let mut j: usize = 0;
            while j < a.len()
                invariant
                    i < self.planes@.len(),
                    self.planes@.len() == other.planes@.len(),
                    a@ == self@[i as int],
                    b@ == other@[i as int],
                    forall|k: int| 0 <= k < i ==> #[trigger] self@[k] == other@[k],
                    a@.len() == b@.len(),
                    j <= a@.len(),
                    forall|x: int| 0 <= x < j ==> a@[x] == b@[x],
                decreases a.len() - j,
            {
                if a[j] != b[j] {
                    assert(self@[i as int][j as int] != other@[i as int][j as int]);
                    return false;
                }
                j = j + 1;
            }
            assert(self@[i as int] =~= other@[i as int]);
            i = i + 1;
        }
        assert(self@ =~= other@);
        true
    }

    /// Appends the planes in ascending order, with no length prefix.
    pub fn encode(&self, out: &mut Vec<u8>)
        ensures
            final(out)@ == old(out)@ + flatten(self@),
    {
        let ghost p = self@;
        let mut i: usize = 0;
        while i < self.planes.len()
            invariant
                p == self@,
                i <= p.len(),
                out@ == old(out)@ + flatten(p.subrange(0, i as int)),
            decreases self.planes.len() - i,
        {
            let plane = &self.planes[i];
            let ghost before = out@;
            let mut j: usize = 0;
            while j < plane.len()
                invariant
                    plane@ == p[i as int],
                    j <= plane@.len(),
                    out@ == before + plane@.subrange(0, j as int),
                decreases plane.len() - j,
            {
                out.push(plane[j]);
                assert(plane@.subrange(0, j + 1) =~= plane@.subrange(0, j as int).push(plane@[j as int]));
                j = j + 1;
            }
            proof {
                assert(plane@.subrange(0, j as int) =~= plane@);
                lemma_flatten_push(p.subrange(0, i as int), p[i as int]);
                assert(p.subrange(0, i as int).push(p[i as int]) =~= p.subrange(0, i + 1));
            }
            i = i + 1;
        }
        assert(p.subrange(0, i as int) =~= p);
    }

    /// Reads a vector of `dimension` coordinates and the bit-depth of `scalar`
    /// at `pos`; the second part of the result is the number of bytes read.
    pub fn decode(b: &[u8], pos: usize, dimension: usize, scalar: ScalarType) -> (r: Result<(QBit, usize), CodecError>)
        ensures
            decode_outcome(b@, pos as int, dimension as int, scalar, decoded_view(r)),
            r is Ok ==> r.unwrap().0.wf() && r.unwrap().1 == payload_len(dimension as int, scalar.bits()),
    {
        let bits = scalar.bit_depth();
        if pos > b.len() || dimension > (b.len() - pos) / bits {
            proof {
                if pos <= b@.len() {
                    let room = (b@.len() - pos) as int;
                    assert(dimension * bits > room) by (nonlinear_arith)
                        requires
                            dimension > room / (bits as int),
                            bits > 0,
                            room >= 0,
                    ;
                }
            }
            return Err(CodecError::Truncated);
        }
        proof {
            let room = (b@.len() - pos) as int;
            assert(dimension * bits <= room) by (nonlinear_arith)
                requires
                    dimension <= room / (bits as int),
                    bits > 0,
                    room >= 0,
            ;
        }
        let ghost w = decode_window(b@, pos as int, dimension as int, bits as nat);
        let len = b.len();
        let mut planes: Vec<Vec<u8>> = Vec::new();
        let mut i: usize = 0;
        while i < bits
            invariant
                len == b@.len(),
                pos + dimension * bits <= b@.len(),
                w == decode_window(b@, pos as int, dimension as int, bits as nat),
                i <= bits,
                planes_view(planes@) == w.subrange(0, i as int),
            decreases bits - i,
        {
            assert(i * dimension + dimension <= dimension * bits) by (nonlinear_arith)
                requires
                    i < bits,
            ;
            assert(i * dimension <= dimension * bits);
            let start: usize = pos + i * dimension;
            let mut plane: Vec<u8> = Vec::new();
            let mut j: usize = 0;
            while j < dimension
                invariant
                    len == b@.len(),
                    planes_view(planes@) == w.subrange(0, i as int),
                    start + dimension <= b@.len(),
                    j <= dimension,
                    plane@ == b@.subrange(start as int, start + j),
                decreases dimension - j,
            {
                plane.push(b[start + j]);
                assert(b@.subrange(start as int, start + j + 1) =~= b@.subrange(start as int, start + j).push(b@[start + j]));
                j = j + 1;
            }
            assert(plane@ =~= w[i as int]);
            let ghost prev = planes@;
            let ghost pv = plane@;
            assert(planes_view(prev).len() == prev.len());
            planes.push(plane);
            assert(planes@[i as int]@ == pv);
            assert forall|k: int| 0 <= k < i + 1 implies #[trigger] planes_view(planes@)[k] == w[k] by {
                if k < i {
                    assert(planes_view(prev)[k] == w.subrange(0, i as int)[k]);
                }
            }
            assert(planes_view(planes@) =~= w.subrange(0, i + 1));
            i = i + 1;
        }
        assert(planes_view(planes@) =~= w);
        match QBit::from_planes(planes, scalar) {
            Ok(q) => Ok((q, dimension * bits)),
            Err(e) => Err(e),
        }
    }
}

impl PartialEq for QBit {
    fn eq(&self, other: &QBit) -> (r: bool) {
        self.same_planes(other)
    }
}

impl vstd::std_specs::cmp::PartialEqSpecImpl for QBit {
    open spec fn obeys_eq_spec() -> bool {
        true
    }

    open spec fn eq_spec(&self, other: &QBit) -> bool {
        self@ == other@
    }
}

/// Encoding valid planes and decoding them with the same dimension and
/// bit-depth, wherever they stand in a buffer, gives the planes back and
/// reads exactly the encoded bytes.
pub proof fn lemma_qbit_round_trip(prefix: Seq<u8>, p: Seq<Seq<u8>>, suffix: Seq<u8>, scalar: ScalarType)
    requires
        valid_planes(p, scalar.bits()),
    ensures
        flatten(p).len() == payload_len(p[0].len() as int, scalar.bits()),
        decode_window(prefix + flatten(p) + suffix, prefix.len() as int, p[0].len() as int, scalar.bits()) == p,
        forall|r: Result<(Seq<Seq<u8>>, int), CodecError>|
            #[trigger] decode_outcome(
                prefix + flatten(p) + suffix,
                prefix.len() as int,
                p[0].len() as int,
                scalar,
                r,
            ) ==> r == Ok::<(Seq<Seq<u8>>, int), CodecError>((p, payload_len(p[0].len() as int, scalar.bits()))),
{
    let n = p[0].len() as int;
    lemma_chunks_of_flatten(prefix, p, suffix, n);
    assert(p.len() * n == n * scalar.bits()) by (nonlinear_arith)
        requires
            p.len() == scalar.bits(),
    ;
}

} // verus!
