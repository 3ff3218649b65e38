//! Big-endian wire formats of the pose graph messages.
//!
//! Integers and binary64 numbers are big-endian; a string is its length in bytes as
//! `u32`, then its UTF-8 bytes, without a terminator. Quaternions are in xyzw order.

use crate::ieee::F64Bits;
use vstd::prelude::*;
use vstd::string::StringExecFns;
use vstd::utf8::*;

verus! {

// ---- bytes ----

/// The four bytes of `v`, highest first.
pub open spec fn be_u32(v: u32) -> Seq<u8> {
    seq![
        (v / 0x100_0000) as u8,
        (v / 0x1_0000 % 0x100) as u8,
        (v / 0x100 % 0x100) as u8,
        (v % 0x100) as u8,
    ]
}

/// The eight bytes of `v`, highest first.
pub open spec fn be_u64(v: u64) -> Seq<u8> {
    be_u32((v / 0x1_0000_0000) as u32) + be_u32((v % 0x1_0000_0000) as u32)
}

/// The number whose four bytes, highest first, stand at `at`.
pub open spec fn u32_at(data: Seq<u8>, at: int) -> u32 {
    (data[at] * 0x100_0000 + data[at + 1] * 0x1_0000 + data[at + 2] * 0x100 + data[at + 3]) as u32
}

/// The number whose eight bytes, highest first, stand at `at`.
pub open spec fn u64_at(data: Seq<u8>, at: int) -> u64 {
    (u32_at(data, at) * 0x1_0000_0000 + u32_at(data, at + 4)) as u64
}

/// A string on the wire.
pub open spec fn str_bytes(s: Seq<char>) -> Seq<u8> {
    be_u32((encode_utf8(s).len() % 0x1_0000_0000) as u32) + encode_utf8(s)
}

/// Numbers on the wire, one after the other.
pub open spec fn f64s_bytes(values: Seq<F64Bits>) -> Seq<u8>
    decreases values.len(),
{
    if values.len() == 0 {
        Seq::empty()
    } else {
        f64s_bytes(values.drop_last()) + be_u64(values.last())
    }
}

/// Appends `v`.
pub fn write_u32_be(out: &mut Vec<u8>, v: u32)
    ensures
        final(out)@ == old(out)@ + be_u32(v),
{
    let ghost before = out@;
    out.push((v / 0x100_0000) as u8);
    out.push((v / 0x1_0000 % 0x100) as u8);
    out.push((v / 0x100 % 0x100) as u8);
    out.push((v % 0x100) as u8);
    assert(out@ =~= before + be_u32(v));
}

/// Appends `v`.
pub fn write_u64_be(out: &mut Vec<u8>, v: u64)
    ensures
        final(out)@ == old(out)@ + be_u64(v),
{
    let ghost before = out@;
    write_u32_be(out, (v / 0x1_0000_0000) as u32);
    write_u32_be(out, (v % 0x1_0000_0000) as u32);
    assert(out@ =~= before + be_u64(v));
}

/// Appends the number with the pattern `v`.
pub fn write_f64_be(out: &mut Vec<u8>, v: F64Bits)
    ensures
        final(out)@ == old(out)@ + be_u64(v),
{
    write_u64_be(out, v);
}

/// Appends the string `s`.
pub fn write_str(out: &mut Vec<u8>, s: &str)
    ensures
        final(out)@ == old(out)@ + str_bytes(s@),
{
    let ghost before = out@;
    let bytes = s.as_bytes();
    write_u32_be(out, (bytes.len() as u64 % 0x1_0000_0000) as u32);
    let ghost headed = out@;
    let mut i: usize = 0;
    while i < bytes.len()
        invariant
            i <= bytes.len(),
            bytes@ == encode_utf8(s@),
            out@ == headed + bytes@.take(i as int),
        decreases bytes.len() - i,
    {
        out.push(bytes[i]);
        i = i + 1;
        assert(out@ =~= headed + bytes@.take(i as int));
    }
    assert(out@ =~= before + str_bytes(s@));
}

fn write_f64s(out: &mut Vec<u8>, values: &[F64Bits])
    ensures
        final(out)@ == old(out)@ + f64s_bytes(values@),
{
    let ghost before = out@;
    let mut i: usize = 0;
    assert(values@.take(0) =~= Seq::empty());
    assert(out@ =~= before + f64s_bytes(values@.take(0)));
    while i < values.len()
        invariant
            i <= values.len(),
            out@ == before + f64s_bytes(values@.take(i as int)),
        decreases values.len() - i,
    {
        write_f64_be(out, values[i]);
        assert(values@.take(i + 1).drop_last() =~= values@.take(i as int));
        i = i + 1;
        assert(out@ =~= before + f64s_bytes(values@.take(i as int)));
    }
    assert(values@.take(i as int) =~= values@);
}

// ---- reading ----

/// Why a payload was refused, as a mathematical value.
pub enum DecodeFault {
    /// Fewer bytes are left than the next field takes.
    UnexpectedEof { needed: nat, available: nat },
    /// A string is not UTF-8; the text says where.
    InvalidUtf8 { detail: Seq<char> },
}

/// Why a payload was refused.
#[derive(Debug, PartialEq, Eq)]
pub enum DecodeError {
    /// Fewer bytes are left than the next field takes.
    UnexpectedEof { needed: usize, available: usize },
    /// A string is not UTF-8; the text says where.
    InvalidUtf8 { detail: String },
}

impl View for DecodeError {
    type V = DecodeFault;

    open spec fn view(&self) -> DecodeFault {
        match *self {
            DecodeError::UnexpectedEof { needed, available } => DecodeFault::UnexpectedEof {
                needed: needed as nat,
                available: available as nat,
            },
            DecodeError::InvalidUtf8 { detail } => DecodeFault::InvalidUtf8 { detail: detail@ },
        }
    }
}

impl DecodeError {
    /// What the error says.
    pub open spec fn text(&self) -> Seq<char> {
        match *self {
            DecodeError::UnexpectedEof { needed, available } => "need "@
                + crate::text::decimal_text(needed as nat) + " bytes, have "@
                + crate::text::decimal_text(available as nat),
            DecodeError::InvalidUtf8 { detail } => detail@,
        }
    }

    /// What the error says.
    pub fn message(&self) -> (out: String)
        ensures
            out@ == self.text(),
    {
        match self {
            DecodeError::UnexpectedEof { needed, available } => {
                let mut out = "need ".to_owned();
                out.append(crate::text::decimal(*needed as u64).as_str());
                out.append(" bytes, have ");
                out.append(crate::text::decimal(*available as u64).as_str());
                out
            },
            DecodeError::InvalidUtf8 { detail } => detail.clone(),
        }
    }
}

/// What is said of bytes that are not UTF-8.
pub uninterp spec fn utf8_error_text(bytes: Seq<u8>) -> Seq<char>;

/// `String::from_utf8`: the text that the bytes encode, exactly when they are UTF-8.
/// The text of the error is left to its name, `utf8_error_text`.
#[verifier::external_body]
fn utf8_text(bytes: Vec<u8>) -> (r: Result<String, String>)
    ensures
        match r {
            Ok(s) => valid_utf8(bytes@) && s@ == decode_utf8(bytes@),
            Err(e) => !valid_utf8(bytes@) && e@ == utf8_error_text(bytes@),
        },
{
    String::from_utf8(bytes).map_err(|e| e.to_string())
}

/// The `n` bytes from `at` on, where there are so many.
pub open spec fn bytes_at(data: Seq<u8>, at: int, n: int) -> Result<Seq<u8>, DecodeFault> {
    if data.len() - at < n {
        Err(
            DecodeFault::UnexpectedEof {
                needed: n as nat,
                available: (data.len() - at) as nat,
            },
        )
    } else {
        Ok(data.subrange(at, at + n))
    }
}

/// The number at `at`.
pub open spec fn f64_field(data: Seq<u8>, at: int) -> Result<F64Bits, DecodeFault> {
    match bytes_at(data, at, 8) {
        Err(e) => Err(e),
        Ok(_) => Ok(u64_at(data, at)),
    }
}

/// The `n` numbers from `at` on.
pub open spec fn f64_fields(data: Seq<u8>, at: int, n: nat) -> Result<Seq<F64Bits>, DecodeFault>
    decreases n,
{
    if n == 0 {
        Ok(Seq::empty())
    } else {
        match f64_fields(data, at, (n - 1) as nat) {
            Err(e) => Err(e),
            Ok(front) => match f64_field(data, at + 8 * (n - 1)) {
                Err(e) => Err(e),
                Ok(v) => Ok(front.push(v)),
            },
        }
    }
}

/// The string at `at`, with the position behind it.
pub open spec fn str_field(data: Seq<u8>, at: int) -> Result<(Seq<char>, int), DecodeFault> {
    match bytes_at(data, at, 4) {
        Err(e) => Err(e),
        Ok(_) => match bytes_at(data, at + 4, u32_at(data, at) as int) {
            Err(e) => Err(e),
            Ok(bytes) => if valid_utf8(bytes) {
                Ok((decode_utf8(bytes), at + 4 + u32_at(data, at)))
            } else {
                Err(DecodeFault::InvalidUtf8 { detail: utf8_error_text(bytes) })
            },
        },
    }
}

/// The string at `at`, or the empty one where not even a length is left.
pub open spec fn tail_field(data: Seq<u8>, at: int) -> Result<(Seq<char>, int), DecodeFault> {
    if data.len() - at < 4 {
        Ok((Seq::empty(), at))
    } else {
        str_field(data, at)
    }
}

/// Reads a payload from front to back.
pub struct Reader<'a> {
    pub buf: &'a [u8],
    pub off: usize,
}

impl<'a> Reader<'a> {
    /// The position is in the payload or just behind it.
    pub open spec fn wf(&self) -> bool {
        self.off <= self.buf@.len()
    }

    /// A reader at the front of `buf`.
    pub fn new(buf: &'a [u8]) -> (r: Self)
        ensures
            r.wf(),
            r.buf@ == buf@,
            r.off == 0,
    {
        Reader { buf, off: 0 }
    }

    /// How many bytes are left.
    pub fn remaining(&self) -> (n: usize)
        requires
            self.wf(),
        ensures
            n == self.buf@.len() - self.off,
    {
        self.buf.len() - self.off
    }

    /// The next `n` bytes.
    pub fn take(&mut self, n: usize) -> (r: Result<Vec<u8>, DecodeError>)
        requires
            old(self).wf(),
        ensures
            final(self).wf(),
            final(self).buf == old(self).buf,
            match r {
                Ok(bytes) => bytes_at(old(self).buf@, old(self).off as int, n as int) == Ok::<
                    Seq<u8>,
                    DecodeFault,
                >(bytes@) && final(self).off == old(self).off + n,
                Err(e) => bytes_at(old(self).buf@, old(self).off as int, n as int) == Err::<
                    Seq<u8>,
                    DecodeFault,
                >(e@) && final(self).off == old(self).off,
            },
    {
        let available: usize = self.remaining();
        if available < n {
            return Err(DecodeError::UnexpectedEof { needed: n, available });
        }
        let end: usize = self.buf.len() - available + n;
        let bytes = vstd::slice::slice_to_vec(
            vstd::slice::slice_subrange(self.buf, self.off, end),
        );
        self.off = end;
        Ok(bytes)
    }

    /// The next number, as a bit pattern.
    pub fn f64_bits(&mut self) -> (r: Result<F64Bits, DecodeError>)
        requires
            old(self).wf(),
        ensures
            final(self).wf(),
            final(self).buf == old(self).buf,
            match r {
                Ok(v) => f64_field(old(self).buf@, old(self).off as int) == Ok::<
                    F64Bits,
                    DecodeFault,
                >(v) && final(self).off == old(self).off + 8,
                Err(e) => f64_field(old(self).buf@, old(self).off as int) == Err::<
                    F64Bits,
                    DecodeFault,
                >(e@),
            },
    {
        let ghost data = self.buf@;
        let ghost at = self.off as int;
        match self.take(8) {
            Err(e) => Err(e),
            Ok(b) => {
                let high: u64 = b[0] as u64 * 0x100_0000 + b[1] as u64 * 0x1_0000 + b[2] as u64
                    * 0x100 + b[3] as u64;
                let low: u64 = b[4] as u64 * 0x100_0000 + b[5] as u64 * 0x1_0000 + b[6] as u64
                    * 0x100 + b[7] as u64;
                assert(forall|k: int| 0 <= k < 8 ==> b@[k] == #[trigger] data[at + k]);
                assert(high == u32_at(data, at));
                assert(low == u32_at(data, at + 4));
                Ok(high * 0x1_0000_0000 + low)
            },
        }
    }

    /// The next 32-bit integer.
    pub fn u32(&mut self) -> (r: Result<u32, DecodeError>)
        requires
            old(self).wf(),
        ensures
            final(self).wf(),
            final(self).buf == old(self).buf,
            match r {
                Ok(v) => bytes_at(old(self).buf@, old(self).off as int, 4) is Ok && v == u32_at(
                    old(self).buf@,
                    old(self).off as int,
                ) && final(self).off == old(self).off + 4,
                Err(e) => bytes_at(old(self).buf@, old(self).off as int, 4) == Err::<
                    Seq<u8>,
                    DecodeFault,
                >(e@),
            },
    {
        let ghost data = self.buf@;
        let ghost at = self.off as int;
        match self.take(4) {
            Err(e) => Err(e),
            Ok(b) => {
                assert(forall|k: int| 0 <= k < 4 ==> b@[k] == #[trigger] data[at + k]);
                Ok(
                    b[0] as u32 * 0x100_0000 + b[1] as u32 * 0x1_0000 + b[2] as u32 * 0x100
                        + b[3] as u32,
                )
            },
        }
    }

    /// The next string.
    pub fn string(&mut self) -> (r: Result<String, DecodeError>)
        requires
            old(self).wf(),
        ensures
            final(self).wf(),
            final(self).buf == old(self).buf,
            match r {
                Ok(s) => str_field(old(self).buf@, old(self).off as int) == Ok::<
                    (Seq<char>, int),
                    DecodeFault,
                >((s@, final(self).off as int)),
                Err(e) => str_field(old(self).buf@, old(self).off as int) == Err::<
                    (Seq<char>, int),
                    DecodeFault,
                >(e@),
            },
    {
        let len: u32 = match self.u32() {
            Err(e) => return Err(e),
            Ok(len) => len,
        };
        let bytes = match self.take(len as usize) {
            Err(e) => return Err(e),
            Ok(bytes) => bytes,
        };
        match utf8_text(bytes) {
            Ok(s) => Ok(s),
            Err(detail) => Err(DecodeError::InvalidUtf8 { detail }),
        }
    }

    /// The next string of the tail: the empty one where not even a length is left.
    fn tail(&mut self) -> (r: Result<String, DecodeError>)
        requires
            old(self).wf(),
        ensures
            final(self).wf(),
            final(self).buf == old(self).buf,
            match r {
                Ok(s) => tail_field(old(self).buf@, old(self).off as int) == Ok::<
                    (Seq<char>, int),
                    DecodeFault,
                >((s@, final(self).off as int)),
                Err(e) => tail_field(old(self).buf@, old(self).off as int) == Err::<
                    (Seq<char>, int),
                    DecodeFault,
                >(e@),
            },
    {
        if self.remaining() < 4 {
            return Ok(String::new());
        }
        self.string()
    }
}

// ---- poses and nodes ----

/// A pose block: time, frame, position xyz, orientation xyzw.
#[derive(Debug, PartialEq, Eq, Default)]
pub struct PoseStamped {
    pub ts: F64Bits,
    pub frame_id: String,
    /// x, y, z
    pub position: [F64Bits; 3],
    /// x, y, z, w
    pub orientation: [F64Bits; 4],
}

/// A pose block on the wire: `f64 ts, str frame_id, 3 f64 position, 4 f64 orientation`.
pub open spec fn pose_layout(
    ts: F64Bits,
    frame_id: Seq<char>,
    position: Seq<F64Bits>,
    orientation: Seq<F64Bits>,
) -> Seq<u8> {
    be_u64(ts) + str_bytes(frame_id) + f64s_bytes(position) + f64s_bytes(orientation)
}

impl PoseStamped {
    /// The pose block on the wire.
    pub open spec fn layout(&self) -> Seq<u8> {
        pose_layout(self.ts, self.frame_id@, self.position@, self.orientation@)
    }

    fn write(&self, out: &mut Vec<u8>)
        ensures
            final(out)@ == old(out)@ + self.layout(),
    {
        let ghost before = out@;
        write_f64_be(out, self.ts);
        write_str(out, self.frame_id.as_str());
        write_f64s(out, self.position.as_slice());
        write_f64s(out, self.orientation.as_slice());
        assert(out@ =~= before + self.layout());
    }
}

/// A node of the pose graph.
#[derive(Debug, PartialEq, Eq, Default)]
pub struct Node3D {
    pub pose: PoseStamped,
    pub id: u64,
    pub metadata_id: u64,
}

impl Node3D {
    /// `pose, u64 id, u64 metadata_id`.
    pub open spec fn layout(&self) -> Seq<u8> {
        self.pose.layout() + be_u64(self.id) + be_u64(self.metadata_id)
    }

    fn write(&self, out: &mut Vec<u8>)
        ensures
            final(out)@ == old(out)@ + self.layout(),
    {
        let ghost before = out@;
        self.pose.write(out);
        write_u64_be(out, self.id);
        write_u64_be(out, self.metadata_id);
        assert(out@ =~= before + self.layout());
    }
}

/// The nodes on the wire, one after the other.
pub open spec fn nodes_layout(nodes: Seq<Node3D>) -> Seq<u8>
    decreases nodes.len(),
{
    if nodes.len() == 0 {
        Seq::empty()
    } else {
        nodes_layout(nodes.drop_last()) + nodes.last().layout()
    }
}

fn write_nodes(out: &mut Vec<u8>, nodes: &[Node3D])
    ensures
        final(out)@ == old(out)@ + nodes_layout(nodes@),
{
    let ghost before = out@;
    let mut i: usize = 0;
    assert(nodes@.take(0) =~= Seq::empty());
    assert(out@ =~= before + nodes_layout(nodes@.take(0)));
    while i < nodes.len()
        invariant
            i <= nodes.len(),
            out@ == before + nodes_layout(nodes@.take(i as int)),
        decreases nodes.len() - i,
    {
        nodes[i].write(out);
        assert(nodes@.take(i + 1).drop_last() =~= nodes@.take(i as int));
        i = i + 1;
        assert(out@ =~= before + nodes_layout(nodes@.take(i as int)));
    }
    assert(nodes@.take(i as int) =~= nodes@);
}

// ---- Graph3D ----

/// An edge of the pose graph.
#[derive(Debug, PartialEq, Eq, Default)]
pub struct Edge {
    pub start_id: u64,
    pub end_id: u64,
    pub timestamp: F64Bits,
    pub metadata_id: u64,
}

impl Edge {
    /// `u64 start_id, u64 end_id, f64 timestamp, u64 metadata_id`.
    pub open spec fn layout(&self) -> Seq<u8> {
        be_u64(self.start_id) + be_u64(self.end_id) + be_u64(self.timestamp) + be_u64(
            self.metadata_id,
        )
    }

    fn write(&self, out: &mut Vec<u8>)
        ensures
            final(out)@ == old(out)@ + self.layout(),
    {
        let ghost before = out@;
        write_u64_be(out, self.start_id);
        write_u64_be(out, self.end_id);
        write_f64_be(out, self.timestamp);
        write_u64_be(out, self.metadata_id);
        assert(out@ =~= before + self.layout());
    }
}

/// The edges on the wire, one after the other.
pub open spec fn edges_layout(edges: Seq<Edge>) -> Seq<u8>
    decreases edges.len(),
{
    if edges.len() == 0 {
        Seq::empty()
    } else {
        edges_layout(edges.drop_last()) + edges.last().layout()
    }
}

/// A pose graph.
#[derive(Debug, PartialEq, Eq, Default)]
pub struct Graph3D {
    pub ts: F64Bits,
    pub nodes: Vec<Node3D>,
    pub edges: Vec<Edge>,
}

impl Graph3D {
    /// `u64 edge_count, u64 node_count, f64 ts, nodes[], edges[]`.
    pub open spec fn layout(&self) -> Seq<u8> {
        be_u64(self.edges@.len() as u64) + be_u64(self.nodes@.len() as u64) + be_u64(self.ts)
            + nodes_layout(self.nodes@) + edges_layout(self.edges@)
    }

    /// The graph on the wire.
    pub fn encode(&self) -> (out: Vec<u8>)
        ensures
            out@ == self.layout(),
    {
        let mut out: Vec<u8> = Vec::new();
        write_u64_be(&mut out, self.edges.len() as u64);
        write_u64_be(&mut out, self.nodes.len() as u64);
        write_f64_be(&mut out, self.ts);
        write_nodes(&mut out, &self.nodes);
        let ghost before = out@;
        let mut i: usize = 0;
        assert(self.edges@.take(0) =~= Seq::empty());
        assert(out@ =~= before + edges_layout(self.edges@.take(0)));
        while i < self.edges.len()
            invariant
                i <= self.edges.len(),
                out@ == before + edges_layout(self.edges@.take(i as int)),
            decreases self.edges.len() - i,
        {
            self.edges[i].write(&mut out);
            assert(self.edges@.take(i + 1).drop_last() =~= self.edges@.take(i as int));
            i = i + 1;
            assert(out@ =~= before + edges_layout(self.edges@.take(i as int)));
        }
        assert(self.edges@.take(i as int) =~= self.edges@);
        assert(out@ =~= self.layout());
        out
    }
}

// ---- GraphDelta3D ----

/// A rigid motion that is applied from the left: `post_pose = transform * node.pose`.
#[derive(Debug, PartialEq, Eq, Default)]
pub struct DeltaTransform {
    /// x, y, z
    pub translation: [F64Bits; 3],
    /// x, y, z, w
    pub rotation: [F64Bits; 4],
}

impl DeltaTransform {
    /// `3 f64 translation, 4 f64 rotation`.
    pub open spec fn layout(&self) -> Seq<u8> {
        f64s_bytes(self.translation@) + f64s_bytes(self.rotation@)
    }
}

/// The transforms on the wire, one after the other.
pub open spec fn transforms_layout(transforms: Seq<DeltaTransform>) -> Seq<u8>
    decreases transforms.len(),
{
    if transforms.len() == 0 {
        Seq::empty()
    } else {
        transforms_layout(transforms.drop_last()) + transforms.last().layout()
    }
}

/// A change of a pose graph: one transform for each node.
#[derive(Debug, PartialEq, Eq, Default)]
pub struct GraphDelta3D {
    pub ts: F64Bits,
    pub nodes: Vec<Node3D>,
    pub transforms: Vec<DeltaTransform>,
}

impl GraphDelta3D {
    /// `u64 node_count, f64 ts, nodes[], transforms[]`.
    pub open spec fn layout(&self) -> Seq<u8> {
        be_u64(self.nodes@.len() as u64) + be_u64(self.ts) + nodes_layout(self.nodes@)
            + transforms_layout(self.transforms@)
    }

    /// The change on the wire.
    pub fn encode(&self) -> (out: Vec<u8>)
        requires
            self.nodes@.len() == self.transforms@.len(),
        ensures
            out@ == self.layout(),
    {
        let mut out: Vec<u8> = Vec::new();
        write_u64_be(&mut out, self.nodes.len() as u64);
        write_f64_be(&mut out, self.ts);
        write_nodes(&mut out, &self.nodes);
        let ghost before = out@;
        let mut i: usize = 0;
        assert(self.transforms@.take(0) =~= Seq::empty());
        assert(out@ =~= before + transforms_layout(self.transforms@.take(0)));
        while i < self.transforms.len()
            invariant
                i <= self.transforms.len(),
                out@ == before + transforms_layout(self.transforms@.take(i as int)),
            decreases self.transforms.len() - i,
        {
            write_f64s(&mut out, self.transforms[i].translation.as_slice());
            write_f64s(&mut out, self.transforms[i].rotation.as_slice());
            assert(self.transforms@.take(i + 1).drop_last() =~= self.transforms@.take(i as int));
            i = i + 1;
            assert(out@ =~= before + transforms_layout(self.transforms@.take(i as int)));
        }
        assert(self.transforms@.take(i as int) =~= self.transforms@);
        assert(out@ =~= self.layout());
        out
    }
}

// ---- DeformationNode ----

/// The start value of the 64-bit FNV-1a hash.
pub const FNV_OFFSET_BASIS: u64 = 0xCBF2_9CE4_8422_2325;

/// The factor of the 64-bit FNV-1a hash.
pub const FNV_PRIME: u64 = 0x100_0000_01B3;

/// The 64-bit FNV-1a hash of the bytes.
pub open spec fn fnv1a(bytes: Seq<u8>) -> u64
    decreases bytes.len(),
{
    if bytes.len() == 0 {
        FNV_OFFSET_BASIS
    } else {
        (((fnv1a(bytes.drop_last()) ^ (bytes.last() as u64)) * FNV_PRIME)
            % 0x1_0000_0000_0000_0000) as u64
    }
}

/// The 64-bit FNV-1a hash of the text's UTF-8 bytes.
pub fn fnv1a_64(text: &str) -> (digest: u64)
    ensures
        digest == fnv1a(encode_utf8(text@)),
{
    let bytes = text.as_bytes();
    let mut digest: u64 = FNV_OFFSET_BASIS;
    let mut i: usize = 0;
    assert(bytes@.take(0) =~= Seq::empty());
    while i < bytes.len()
        invariant
            i <= bytes.len(),
            digest == fnv1a(bytes@.take(i as int)),
        decreases bytes.len() - i,
    {
        assert(bytes@.take(i + 1).drop_last() =~= bytes@.take(i as int));
        digest = (digest ^ (bytes[i] as u64)).wrapping_mul(FNV_PRIME);
        i = i + 1;
    }
    assert(bytes@.take(i as int) =~= bytes@);
    digest
}

/// The name under which a transform edge is hashed.
pub open spec fn edge_name(frame_from: Seq<char>, frame_to: Seq<char>) -> Seq<char> {
    frame_from + "|"@ + frame_to
}

/// The id of a transform edge: the hash of `frame_from|frame_to`.
pub fn tf_id_for(frame_from: &str, frame_to: &str) -> (id: u64)
    ensures
        id == fnv1a(encode_utf8(edge_name(frame_from@, frame_to@))),
{
    let mut name = frame_from.to_owned();
    name.append("|");
    name.append(frame_to);
    fnv1a_64(name.as_str())
}

/// A keyframe pose of the edge `tf_id`.
#[derive(Debug, PartialEq, Eq, Default)]
pub struct DeformationNode {
    pub id: u64,
    pub tf_id: u64,
    pub pose: PoseStamped,
}

impl DeformationNode {
    /// `u64 id, u64 tf_id, pose`.
    pub open spec fn layout(&self) -> Seq<u8> {
        be_u64(self.id) + be_u64(self.tf_id) + self.pose.layout()
    }

    /// The node on the wire.
    pub fn encode(&self) -> (out: Vec<u8>)
        ensures
            out@ == self.layout(),
    {
        let mut out: Vec<u8> = Vec::new();
        write_u64_be(&mut out, self.id);
        write_u64_be(&mut out, self.tf_id);
        self.pose.write(&mut out);
        assert(out@ =~= self.layout());
        out
    }
}

// ---- LocationConstraint ----

/// A location constraint as a mathematical value.
pub struct ConstraintValue {
    pub ts: F64Bits,
    pub to_id: Seq<char>,
    pub frame_id: Seq<char>,
    pub constraint_instance_id: Seq<char>,
    pub map_id: Seq<char>,
    pub kind: Seq<char>,
    pub position: Seq<F64Bits>,
    pub orientation: Seq<F64Bits>,
    pub covariance: Seq<F64Bits>,
}

/// A measured pose of a frame against a landmark.
#[derive(Debug, PartialEq, Eq)]
pub struct LocationConstraint {
    pub ts: F64Bits,
    pub to_id: String,
    pub frame_id: String,
    pub constraint_instance_id: String,
    pub map_id: String,
    pub kind: String,
    /// x, y, z
    pub position: [F64Bits; 3],
    /// x, y, z, w
    pub orientation: [F64Bits; 4],
    /// row-major 6x6, rotation before translation
    pub covariance: [F64Bits; 36],
}

impl View for LocationConstraint {
    type V = ConstraintValue;

    open spec fn view(&self) -> ConstraintValue {
        ConstraintValue {
            ts: self.ts,
            to_id: self.to_id@,
            frame_id: self.frame_id@,
            constraint_instance_id: self.constraint_instance_id@,
            map_id: self.map_id@,
            kind: self.kind@,
            position: self.position@,
            orientation: self.orientation@,
            covariance: self.covariance@,
        }
    }
}

/// What the tail behind position `at` makes of the constraint.
pub open spec fn with_tail(head: ConstraintValue, data: Seq<u8>, at: int) -> Result<
    ConstraintValue,
    DecodeFault,
> {
    match tail_field(data, at) {
        Err(e) => Err(e),
        Ok((map_id, next)) => match tail_field(data, next) {
            Err(e) => Err(e),
            Ok((kind, _)) => Ok(ConstraintValue { map_id, kind, ..head }),
        },
    }
}

/// The constraint that the payload holds: `f64 ts; str to_id, frame_id,
/// constraint_instance_id; 3 f64 position; 4 f64 orientation; 36 f64 covariance`, then
/// the tail `str map_id, kind`, which may be cut off before either of its lengths.
pub open spec fn decoded(data: Seq<u8>) -> Result<ConstraintValue, DecodeFault> {
    match f64_field(data, 0) {
        Err(e) => Err(e),
        Ok(ts) => match str_field(data, 8) {
            Err(e) => Err(e),
            Ok((to_id, a)) => match str_field(data, a) {
                Err(e) => Err(e),
                Ok((frame_id, b)) => match str_field(data, b) {
                    Err(e) => Err(e),
                    Ok((constraint_instance_id, c)) => match f64_fields(data, c, 43) {
                        Err(e) => Err(e),
                        Ok(numbers) => with_tail(
                            ConstraintValue {
                                ts,
                                to_id,
                                frame_id,
                                constraint_instance_id,
                                map_id: Seq::empty(),
                                kind: Seq::empty(),
                                position: numbers.subrange(0, 3),
                                orientation: numbers.subrange(3, 7),
                                covariance: numbers.subrange(7, 43),
                            },
                            data,
                            c + 344,
                        ),
                    },
                },
            },
        },
    }
}

impl LocationConstraint {
    /// Reads a constraint. A missing tail reads as empty strings; a length that
    /// promises more bytes than are left is an error.
    pub fn decode(data: &[u8]) -> (r: Result<Self, DecodeError>)
        ensures
            match r {
                Ok(c) => decoded(data@) == Ok::<ConstraintValue, DecodeFault>(c@),
                Err(e) => decoded(data@) == Err::<ConstraintValue, DecodeFault>(e@),
            },
    {
        let mut r = Reader::new(data);
        let ts: F64Bits = match r.f64_bits() {
            Err(e) => return Err(e),
            Ok(v) => v,
        };
        let to_id = match r.string() {
            Err(e) => return Err(e),
            Ok(s) => s,
        };
        let frame_id = match r.string() {
            Err(e) => return Err(e),
            Ok(s) => s,
        };
        let constraint_instance_id = match r.string() {
            Err(e) => return Err(e),
            Ok(s) => s,
        };
        let ghost start = r.off as int;
        let mut numbers: [F64Bits; 43] = [0; 43];
        let mut i: usize = 0;
        assert(numbers@.take(0) =~= Seq::empty());
        while i < 43
            invariant
                i <= 43,
                r.wf(),
                r.buf@ == data@,
                r.off == start + 8 * i,
                f64_fields(data@, start, i as nat) == Ok::<Seq<F64Bits>, DecodeFault>(
                    numbers@.take(i as int),
                ),
                decoded(data@) == (match f64_fields(data@, start, 43) {
                    Err(e) => Err::<ConstraintValue, DecodeFault>(e),
                    Ok(all) => with_tail(
                        ConstraintValue {
                            ts,
                            to_id: to_id@,
                            frame_id: frame_id@,
                            constraint_instance_id: constraint_instance_id@,
                            map_id: Seq::empty(),
                            kind: Seq::empty(),
                            position: all.subrange(0, 3),
                            orientation: all.subrange(3, 7),
                            covariance: all.subrange(7, 43),
                        },
                        data@,
                        start + 344,
                    ),
                }),
            decreases 43 - i,
        {
            match r.f64_bits() {
                Err(e) => {
                    proof {
                        lemma_first_fault(data@, start, i as nat, 43);
                    }
                    return Err(e);
                },
                Ok(v) => {
                    let ghost before = numbers@;
                    numbers[i] = v;
                    i = i + 1;
                    assert(numbers@.take(i as int) =~= before.take(i - 1).push(v));
                },
            }
        }
        assert(numbers@.take(43) =~= numbers@);
        let map_id = match r.tail() {
            Err(e) => return Err(e),
            Ok(s) => s,
        };
        let kind = match r.tail() {
            Err(e) => return Err(e),
            Ok(s) => s,
        };
        let position: [F64Bits; 3] = [numbers[0], numbers[1], numbers[2]];
        let orientation: [F64Bits; 4] = [numbers[3], numbers[4], numbers[5], numbers[6]];
        let mut covariance: [F64Bits; 36] = [0; 36];
        let mut k: usize = 0;
        while k < 36
            invariant
                k <= 36,
                forall|j: int| 0 <= j < k ==> #[trigger] covariance@[j] == numbers@[j + 7],
            decreases 36 - k,
        {
            covariance[k] = numbers[k + 7];
            k = k + 1;
        }
        assert(position@ =~= numbers@.subrange(0, 3));
        assert(orientation@ =~= numbers@.subrange(3, 7));
        assert(covariance@ =~= numbers@.subrange(7, 43));
        Ok(
            LocationConstraint {
                ts,
                to_id,
                frame_id,
                constraint_instance_id,
                map_id,
                kind,
                position,
                orientation,
                covariance,
            },
        )
    }
}

proof fn lemma_first_fault(data: Seq<u8>, at: int, n: nat, all: nat)
    requires
        n < all,
        f64_fields(data, at, n) is Ok,
        f64_field(data, at + 8 * n) is Err,
    ensures
        f64_fields(data, at, all) == Err::<Seq<F64Bits>, DecodeFault>(
            f64_field(data, at + 8 * n)->Err_0,
        ),
    decreases all,
{
    if n + 1 < all {
        lemma_first_fault(data, at, n, (all - 1) as nat);
    }
}

// ---- what reading gives back of what was written ----

/// `piece` stands in `data` from `at` on.
#[verifier::opaque]
spec fn piece_at(data: Seq<u8>, at: int, piece: Seq<u8>) -> bool {
    0 <= at && at + piece.len() <= data.len() && data.subrange(at, at + piece.len()) == piece
}

proof fn lemma_piece_in_front(data: Seq<u8>, at: int, a: Seq<u8>, b: Seq<u8>)
    requires
        piece_at(data, at, a + b),
    ensures
        piece_at(data, at, a),
        piece_at(data, at + a.len(), b),
{
    reveal(piece_at);
    let both = data.subrange(at, at + (a + b).len());
    assert(data.subrange(at, at + a.len()) =~= both.take(a.len() as int));
    assert(both.take(a.len() as int) =~= a);
    assert(data.subrange(at + a.len(), at + a.len() + b.len()) =~= both.skip(a.len() as int));
    assert(both.skip(a.len() as int) =~= b);
}

proof fn lemma_pieces_of_sum(a: Seq<u8>, b: Seq<u8>)
    ensures
        piece_at(a + b, 0, a),
        piece_at(a + b, a.len() as int, b),
{
    reveal(piece_at);
    assert((a + b).subrange(0, a.len() as int) =~= a);
    assert((a + b).subrange(a.len() as int, (a + b).len() as int) =~= b);
}

proof fn lemma_u32_at(data: Seq<u8>, at: int, v: u32)
    requires
        piece_at(data, at, be_u32(v)),
    ensures
        u32_at(data, at) == v,
        0 <= at <= data.len() - 4,
{
    reveal(piece_at);
    let piece = data.subrange(at, at + 4);
    assert(piece == be_u32(v));
    assert(data[at] == piece[0]);
    assert(data[at + 1] == piece[1]);
    assert(data[at + 2] == piece[2]);
    assert(data[at + 3] == piece[3]);
}

proof fn lemma_u64_at(data: Seq<u8>, at: int, v: u64)
    requires
        piece_at(data, at, be_u64(v)),
    ensures
        u64_at(data, at) == v,
        f64_field(data, at) == Ok::<F64Bits, DecodeFault>(v),
{
    reveal(piece_at);
    let high = be_u32((v / 0x1_0000_0000) as u32);
    let low = be_u32((v % 0x1_0000_0000) as u32);
    lemma_piece_in_front(data, at, high, low);
    lemma_u32_at(data, at, (v / 0x1_0000_0000) as u32);
    lemma_u32_at(data, at + 4, (v % 0x1_0000_0000) as u32);
}

/// A string whose bytes can be counted in 32 bits.
pub open spec fn fits(s: Seq<char>) -> bool {
    encode_utf8(s).len() < 0x1_0000_0000
}

proof fn lemma_str_at(data: Seq<u8>, at: int, s: Seq<char>)
    requires
        piece_at(data, at, str_bytes(s)),
        fits(s),
    ensures
        str_field(data, at) == Ok::<(Seq<char>, int), DecodeFault>((s, at + str_bytes(s).len())),
        at + str_bytes(s).len() <= data.len(),
{
    reveal(piece_at);
    let bytes = encode_utf8(s);
    lemma_piece_in_front(data, at, be_u32(bytes.len() as u32), bytes);
    lemma_u32_at(data, at, bytes.len() as u32);
    encode_utf8_valid_utf8(s);
    encode_utf8_decode_utf8(s);
}

proof fn lemma_f64s_len(values: Seq<F64Bits>)
    ensures
        f64s_bytes(values).len() == 8 * values.len(),
    decreases values.len(),
{
    if values.len() > 0 {
        lemma_f64s_len(values.drop_last());
    }
}

proof fn lemma_f64s_at(data: Seq<u8>, at: int, values: Seq<F64Bits>)
    requires
        piece_at(data, at, f64s_bytes(values)),
    ensures
        f64_fields(data, at, values.len()) == Ok::<Seq<F64Bits>, DecodeFault>(values),
    decreases values.len(),
{
    if values.len() > 0 {
        let front = values.drop_last();
        lemma_f64s_len(front);
        lemma_piece_in_front(data, at, f64s_bytes(front), be_u64(values.last()));
        lemma_f64s_at(data, at, front);
        lemma_u64_at(data, at + 8 * front.len(), values.last());
        assert(front.push(values.last()) =~= values);
    } else {
        assert(values =~= Seq::empty());
    }
}

impl ConstraintValue {
    /// Arrays of the right size, and strings whose lengths can be written down.
    pub open spec fn valid(&self) -> bool {
        &&& self.position.len() == 3
        &&& self.orientation.len() == 4
        &&& self.covariance.len() == 36
        &&& fits(self.to_id)
        &&& fits(self.frame_id)
        &&& fits(self.constraint_instance_id)
        &&& fits(self.map_id)
        &&& fits(self.kind)
    }

    /// All numbers of the constraint but its time.
    pub open spec fn numbers(&self) -> Seq<F64Bits> {
        self.position + self.orientation + self.covariance
    }

    /// The constraint on the wire, without the tail.
    pub open spec fn head_layout(&self) -> Seq<u8> {
        be_u64(self.ts) + (str_bytes(self.to_id) + (str_bytes(self.frame_id) + (str_bytes(
            self.constraint_instance_id,
        ) + f64s_bytes(self.numbers()))))
    }

    /// The constraint without its tail.
    pub open spec fn without_tail(self) -> ConstraintValue {
        ConstraintValue { map_id: Seq::empty(), kind: Seq::empty(), ..self }
    }
}

/// Where the strings of the constraint begin and the numbers behind them.
spec fn field_starts(c: ConstraintValue) -> (int, int, int) {
    let a = 8int + str_bytes(c.to_id).len();
    let b = a + str_bytes(c.frame_id).len();
    (a, b, b + str_bytes(c.constraint_instance_id).len())
}

#[verifier::spinoff_prover]
#[verifier::rlimit(50)]
proof fn lemma_head_fields(c: ConstraintValue, data: Seq<u8>)
    requires
        c.valid(),
        piece_at(data, 0, c.head_layout()),
    ensures
        f64_field(data, 0) == Ok::<F64Bits, DecodeFault>(c.ts),
        str_field(data, 8) == Ok::<(Seq<char>, int), DecodeFault>((c.to_id, field_starts(c).0)),
        str_field(data, field_starts(c).0) == Ok::<(Seq<char>, int), DecodeFault>(
            (c.frame_id, field_starts(c).1),
        ),
        str_field(data, field_starts(c).1) == Ok::<(Seq<char>, int), DecodeFault>(
            (c.constraint_instance_id, field_starts(c).2),
        ),
        f64_fields(data, field_starts(c).2, 43) == Ok::<Seq<F64Bits>, DecodeFault>(c.numbers()),
        c.head_layout().len() == field_starts(c).2 + 344,
{
    let numbers = f64s_bytes(c.numbers());
    let d = str_bytes(c.constraint_instance_id) + numbers;
    let f = str_bytes(c.frame_id) + d;
    let t = str_bytes(c.to_id) + f;
    let (a, b, e) = field_starts(c);
    lemma_piece_in_front(data, 0, be_u64(c.ts), t);
    lemma_u64_at(data, 0, c.ts);
    lemma_piece_in_front(data, 8, str_bytes(c.to_id), f);
    lemma_str_at(data, 8, c.to_id);
    lemma_piece_in_front(data, a, str_bytes(c.frame_id), d);
    lemma_str_at(data, a, c.frame_id);
    lemma_piece_in_front(data, b, str_bytes(c.constraint_instance_id), numbers);
    lemma_str_at(data, b, c.constraint_instance_id);
    assert(c.numbers().len() == 43);
    lemma_f64s_at(data, e, c.numbers());
    lemma_f64s_len(c.numbers());
}

#[verifier::spinoff_prover]
#[verifier::rlimit(50)]
proof fn lemma_decode_head(c: ConstraintValue, tail: Seq<u8>)
    requires
        c.valid(),
    ensures
        decoded(c.head_layout() + tail) == with_tail(
            c.without_tail(),
            c.head_layout() + tail,
            c.head_layout().len() as int,
        ),
{
    let data = c.head_layout() + tail;
    lemma_pieces_of_sum(c.head_layout(), tail);
    lemma_head_fields(c, data);
    let numbers = c.numbers();
    assert(numbers.subrange(0, 3) =~= c.position);
    assert(numbers.subrange(3, 7) =~= c.orientation);
    assert(numbers.subrange(7, 43) =~= c.covariance);
}

/// A constraint that was written down reads back as it was, whatever bytes follow it.
pub proof fn lemma_constraint_reads_back(c: ConstraintValue, rest: Seq<u8>)
    requires
        c.valid(),
    ensures
        decoded(c.head_layout() + (str_bytes(c.map_id) + (str_bytes(c.kind) + rest))) == Ok::<
            ConstraintValue,
            DecodeFault,
        >(c),
{
    let tail = str_bytes(c.map_id) + (str_bytes(c.kind) + rest);
    let data = c.head_layout() + tail;
    let at = c.head_layout().len() as int;
    lemma_decode_head(c, tail);
    lemma_pieces_of_sum(c.head_layout(), tail);
    lemma_piece_in_front(data, at, str_bytes(c.map_id), str_bytes(c.kind) + rest);
    lemma_str_at(data, at, c.map_id);
    lemma_piece_in_front(data, at + str_bytes(c.map_id).len(), str_bytes(c.kind), rest);
    lemma_str_at(data, at + str_bytes(c.map_id).len(), c.kind);
}

/// A constraint without its tail reads back with empty strings in the tail's place,
/// also where up to three stray bytes follow.
pub proof fn lemma_constraint_without_tail(c: ConstraintValue, stray: Seq<u8>)
    requires
        c.valid(),
        stray.len() < 4,
    ensures
        decoded(c.head_layout() + stray) == Ok::<ConstraintValue, DecodeFault>(c.without_tail()),
{
    lemma_decode_head(c, stray);
}

/// A tail that ends behind its first string reads back with an empty second one.
pub proof fn lemma_constraint_with_half_a_tail(c: ConstraintValue, stray: Seq<u8>)
    requires
        c.valid(),
        stray.len() < 4,
    ensures
        decoded(c.head_layout() + (str_bytes(c.map_id) + stray)) == Ok::<
            ConstraintValue,
            DecodeFault,
        >(ConstraintValue { kind: Seq::empty(), ..c }),
{
    let tail = str_bytes(c.map_id) + stray;
    let data = c.head_layout() + tail;
    let at = c.head_layout().len() as int;
    lemma_decode_head(c, tail);
    lemma_pieces_of_sum(c.head_layout(), tail);
    lemma_piece_in_front(data, at, str_bytes(c.map_id), stray);
    lemma_str_at(data, at, c.map_id);
}

/// A length in the tail that promises more bytes than are left is an error.
#[verifier::spinoff_prover]
#[verifier::rlimit(50)]
pub proof fn lemma_constraint_with_broken_tail(c: ConstraintValue, promised: u32, left: Seq<u8>)
    requires
        c.valid(),
        left.len() < promised,
    ensures
        decoded(c.head_layout() + (be_u32(promised) + left)) == Err::<ConstraintValue, DecodeFault>(
            DecodeFault::UnexpectedEof { needed: promised as nat, available: left.len() },
        ),
{
    let tail = be_u32(promised) + left;
    let data = c.head_layout() + tail;
    let at = c.head_layout().len() as int;
    lemma_decode_head(c, tail);
    lemma_pieces_of_sum(c.head_layout(), tail);
    lemma_piece_in_front(data, at, be_u32(promised), left);
    lemma_u32_at(data, at, promised);
}

/// The field cannot be read for want of bytes.
spec fn cut_off<T>(r: Result<T, DecodeFault>) -> bool {
    r matches Err(DecodeFault::UnexpectedEof { .. })
}

proof fn lemma_str_cut_off(data: Seq<u8>, at: int, s: Seq<char>)
    requires
        front_at(data, at, str_bytes(s)),
        fits(s),
    ensures
        cut_off(str_field(data, at)),
{
    let bytes = encode_utf8(s);
    let length = be_u32(bytes.len() as u32);
    assert(str_bytes(s) == length + bytes);
    lemma_front_of_sum(data, at, length, bytes);
    if data.len() - at >= 4 {
        lemma_u32_at(data, at, bytes.len() as u32);
    }
}

proof fn lemma_f64s_cut_off(data: Seq<u8>, at: int, n: nat)
    requires
        0 <= at <= data.len(),
        data.len() - at < 8 * n,
    ensures
        cut_off(f64_fields(data, at, n)),
    decreases n,
{
    if n > 0 {
        if data.len() - at < 8 * (n - 1) {
            lemma_f64s_cut_off(data, at, (n - 1) as nat);
        } else {
            lemma_f64s_not_cut(data, at, (n - 1) as nat);
        }
    }
}

proof fn lemma_f64s_not_cut(data: Seq<u8>, at: int, n: nat)
    requires
        0 <= at,
        data.len() - at >= 8 * n,
    ensures
        f64_fields(data, at, n) is Ok,
    decreases n,
{
    if n > 0 {
        lemma_f64s_not_cut(data, at, (n - 1) as nat);
    }
}

/// The part of `data` from `at` on is the front of `piece`, cut short.
#[verifier::opaque]
spec fn front_at(data: Seq<u8>, at: int, piece: Seq<u8>) -> bool {
    0 <= at <= data.len() && data.len() - at < piece.len() && data.subrange(at, data.len() as int)
        == piece.take(data.len() - at)
}

/// What is left of a sum that is cut short: a front of its first part, or that part and
/// a front of the rest.
proof fn lemma_front_of_sum(data: Seq<u8>, at: int, a: Seq<u8>, b: Seq<u8>)
    requires
        front_at(data, at, a + b),
    ensures
        data.len() - at < a.len() ==> front_at(data, at, a),
        data.len() - at >= a.len() ==> piece_at(data, at, a) && front_at(data, at + a.len(), b),
        0 <= at <= data.len(),
        data.len() - at < a.len() + b.len(),
{
    reveal(piece_at);
    reveal(front_at);
    let left = data.len() - at;
    let seen = data.subrange(at, data.len() as int);
    if left < a.len() {
        assert(seen =~= a.take(left));
    } else {
        assert(data.subrange(at, at + a.len()) =~= seen.take(a.len() as int));
        assert(seen.take(a.len() as int) =~= a);
        assert(data.subrange(at + a.len(), data.len() as int) =~= seen.skip(a.len() as int));
        assert(seen.skip(a.len() as int) =~= b.take(left - a.len()));
    }
}

/// A payload that is cut off anywhere before its tail is refused for want of bytes.
#[verifier::spinoff_prover]
#[verifier::rlimit(50)]
pub proof fn lemma_constraint_cut_off(c: ConstraintValue, n: int)
    requires
        c.valid(),
        0 <= n < c.head_layout().len(),
    ensures
        decoded(c.head_layout().take(n)) matches Err(DecodeFault::UnexpectedEof { .. }),
{
    let data = c.head_layout().take(n);
    let numbers = f64s_bytes(c.numbers());
    let d = str_bytes(c.constraint_instance_id) + numbers;
    let f = str_bytes(c.frame_id) + d;
    let t = str_bytes(c.to_id) + f;
    let a = 8int + str_bytes(c.to_id).len();
    let b = a + str_bytes(c.frame_id).len();
    let e = b + str_bytes(c.constraint_instance_id).len();
    lemma_f64s_len(c.numbers());
    assert(front_at(data, 0, c.head_layout())) by {
        reveal(front_at);
        assert(data.subrange(0, n) =~= c.head_layout().take(n));
    }
    lemma_front_of_sum(data, 0, be_u64(c.ts), t);
    if n >= 8 {
        lemma_u64_at(data, 0, c.ts);
        lemma_front_of_sum(data, 8, str_bytes(c.to_id), f);
        if n < a {
            lemma_str_cut_off(data, 8, c.to_id);
        } else {
            lemma_str_at(data, 8, c.to_id);
            lemma_front_of_sum(data, a, str_bytes(c.frame_id), d);
            if n < b {
                lemma_str_cut_off(data, a, c.frame_id);
            } else {
                lemma_str_at(data, a, c.frame_id);
                lemma_front_of_sum(data, b, str_bytes(c.constraint_instance_id), numbers);
                if n < e {
                    lemma_str_cut_off(data, b, c.constraint_instance_id);
                } else {
                    lemma_str_at(data, b, c.constraint_instance_id);
                    lemma_f64s_cut_off(data, e, 43);
                }
            }
        }
    }
}

/// A pose block that was written down reads back field by field.
#[verifier::spinoff_prover]
#[verifier::rlimit(50)]
pub proof fn lemma_pose_reads_back(pose: PoseStamped, rest: Seq<u8>)
    requires
        fits(pose.frame_id@),
    ensures
        f64_field(pose.layout() + rest, 0) == Ok::<F64Bits, DecodeFault>(pose.ts),
        str_field(pose.layout() + rest, 8) == Ok::<(Seq<char>, int), DecodeFault>(
            (pose.frame_id@, 8int + str_bytes(pose.frame_id@).len()),
        ),
        f64_fields(pose.layout() + rest, 8int + str_bytes(pose.frame_id@).len(), 3) == Ok::<
            Seq<F64Bits>,
            DecodeFault,
        >(pose.position@),
        f64_fields(pose.layout() + rest, 32int + str_bytes(pose.frame_id@).len(), 4) == Ok::<
            Seq<F64Bits>,
            DecodeFault,
        >(pose.orientation@),
        pose.layout().len() == 64 + str_bytes(pose.frame_id@).len(),
{
    let data = pose.layout() + rest;
    let name = str_bytes(pose.frame_id@);
    let head = be_u64(pose.ts) + name;
    let position = f64s_bytes(pose.position@);
    let orientation = f64s_bytes(pose.orientation@);
    lemma_f64s_len(pose.position@);
    lemma_f64s_len(pose.orientation@);
    lemma_pieces_of_sum(pose.layout(), rest);
    lemma_piece_in_front(data, 0, head + position, orientation);
    lemma_piece_in_front(data, 0, head, position);
    lemma_piece_in_front(data, 0, be_u64(pose.ts), name);
    lemma_u64_at(data, 0, pose.ts);
    lemma_str_at(data, 8, pose.frame_id@);
    lemma_f64s_at(data, 8int + name.len(), pose.position@);
    lemma_f64s_at(data, 32int + name.len(), pose.orientation@);
}

// ---- what the layouts are, over all values ----

/// The first byte of a number that is written weighs most, and each byte 256 times the one behind it.
#[verifier::spinoff_prover]
#[verifier::rlimit(50)]
pub proof fn lemma_first_byte_weighs_most(v: u64)
    ensures
        be_u64(v).len() == 8,
        v == be_u64(v)[0] * 0x100_0000_0000_0000 + be_u64(v)[1] * 0x1_0000_0000_0000 + be_u64(v)[2]
            * 0x100_0000_0000 + be_u64(v)[3] * 0x1_0000_0000 + be_u64(v)[4] * 0x100_0000 + be_u64(
            v,
        )[5] * 0x1_0000 + be_u64(v)[6] * 0x100 + be_u64(v)[7],
{
    let high = (v / 0x1_0000_0000) as u32;
    let low = (v % 0x1_0000_0000) as u32;
    lemma_first_of_four_weighs_most(high);
    lemma_first_of_four_weighs_most(low);
    let a = be_u32(high);
    let b = be_u32(low);
    assert(be_u64(v) == a + b);
    assert(v == high * 0x1_0000_0000 + low);
    assert((a + b)[0] == a[0] && (a + b)[1] == a[1] && (a + b)[2] == a[2] && (a + b)[3] == a[3]);
    assert((a + b)[4] == b[0] && (a + b)[5] == b[1] && (a + b)[6] == b[2] && (a + b)[7] == b[3]);
}

/// The same of a number of four bytes.
pub proof fn lemma_first_of_four_weighs_most(v: u32)
    ensures
        be_u32(v).len() == 4,
        v == be_u32(v)[0] * 0x100_0000 + be_u32(v)[1] * 0x1_0000 + be_u32(v)[2] * 0x100 + be_u32(
            v,
        )[3],
{
}

/// The first byte of a number that is read weighs most.
pub proof fn lemma_first_byte_read_weighs_most(data: Seq<u8>, at: int)
    ensures
        u32_at(data, at) == data[at] * 0x100_0000 + data[at + 1] * 0x1_0000 + data[at + 2] * 0x100
            + data[at + 3],
        u64_at(data, at) == u32_at(data, at) * 0x1_0000_0000 + u32_at(data, at + 4),
{
}

/// A digest starts from the offset basis, and each byte is mixed in before the product with the prime.
pub proof fn lemma_digest_mixes_each_byte(bytes: Seq<u8>, byte: u8)
    ensures
        fnv1a(Seq::empty()) == 0xcbf2_9ce4_8422_2325,
        fnv1a(bytes.push(byte)) == ((fnv1a(bytes) ^ (byte as u64)) * 0x100_0000_01b3)
            % 0x1_0000_0000_0000_0000,
{
    assert(bytes.push(byte).drop_last() =~= bytes);
}

/// Behind the pose of a node stand its number and that of its metadata, and nothing else.
#[verifier::spinoff_prover]
#[verifier::rlimit(50)]
pub proof fn lemma_node_reads_back(node: Node3D, rest: Seq<u8>)
    ensures
        ({
            let data = node.layout() + rest;
            let behind = node.pose.layout().len() as int;
            &&& node.layout().len() == behind + 16
            &&& data.take(behind) == node.pose.layout()
            &&& u64_at(data, behind) == node.id
            &&& u64_at(data, behind + 8) == node.metadata_id
        }),
{
    let data = node.layout() + rest;
    let pose = node.pose.layout();
    lemma_pieces_of_sum(node.layout(), rest);
    lemma_piece_in_front(data, 0, pose + be_u64(node.id), be_u64(node.metadata_id));
    lemma_piece_in_front(data, 0, pose, be_u64(node.id));
    lemma_u64_at(data, pose.len() as int, node.id);
    lemma_u64_at(data, pose.len() as int + 8, node.metadata_id);
    assert(data.take(pose.len() as int) =~= pose);
}

/// The nodes stand one behind the other, in their order.
#[verifier::spinoff_prover]
#[verifier::rlimit(50)]
pub proof fn lemma_nodes_stand_in_order(nodes: Seq<Node3D>)
    ensures
        nodes_layout(nodes) == nodes.map_values(|node: Node3D| node.layout()).flatten(),
    decreases nodes.len(),
{
    let layout = |node: Node3D| node.layout();
    let pieces = nodes.map_values(layout);
    if nodes.len() > 0 {
        lemma_nodes_stand_in_order(nodes.drop_last());
        let front = nodes.drop_last().map_values(layout);
        assert(pieces =~= front.push(layout(nodes.last())));
        front.lemma_flatten_push(layout(nodes.last()));
    } else {
        assert(pieces =~= Seq::empty());
    }
}

/// The edges stand one behind the other, thirty-two bytes each: where it starts, where it ends, its
/// time and the number of its metadata.
#[verifier::spinoff_prover]
#[verifier::rlimit(50)]
pub proof fn lemma_edge_reads_back(edges: Seq<Edge>, i: int, before: Seq<u8>, rest: Seq<u8>)
    requires
        0 <= i < edges.len(),
    ensures
        ({
            let data = before + edges_layout(edges) + rest;
            let at = before.len() + 32 * i;
            &&& edges_layout(edges).len() == 32 * edges.len()
            &&& u64_at(data, at) == edges[i].start_id
            &&& u64_at(data, at + 8) == edges[i].end_id
            &&& u64_at(data, at + 16) == edges[i].timestamp
            &&& u64_at(data, at + 24) == edges[i].metadata_id
        }),
    decreases edges.len(),
{
    let front = edges.drop_last();
    let last = edges.last();
    let data = before + edges_layout(edges) + rest;
    let tail = last.layout() + rest;
    assert(data =~= before + edges_layout(front) + tail);
    lemma_edges_len(edges);
    lemma_edges_len(front);
    if i < front.len() {
        lemma_edge_reads_back(front, i, before, tail);
    } else {
        lemma_one_edge_reads_back(last, before + edges_layout(front), rest);
    }
}

#[verifier::spinoff_prover]
#[verifier::rlimit(50)]
proof fn lemma_one_edge_reads_back(edge: Edge, head: Seq<u8>, rest: Seq<u8>)
    ensures
        ({
            let data = head + (edge.layout() + rest);
            let at = head.len() as int;
            &&& u64_at(data, at) == edge.start_id
            &&& u64_at(data, at + 8) == edge.end_id
            &&& u64_at(data, at + 16) == edge.timestamp
            &&& u64_at(data, at + 24) == edge.metadata_id
        }),
{
    let a = be_u64(edge.start_id);
    let b = be_u64(edge.end_id);
    let c = be_u64(edge.timestamp);
    let d = be_u64(edge.metadata_id);
    let data = head + (edge.layout() + rest);
    let at = head.len() as int;
    lemma_pieces_of_sum(head, edge.layout() + rest);
    lemma_piece_in_front(data, at, edge.layout(), rest);
    lemma_piece_in_front(data, at, a + b + c, d);
    lemma_piece_in_front(data, at, a + b, c);
    lemma_piece_in_front(data, at, a, b);
    assert(a.len() == 8 && b.len() == 8 && c.len() == 8);
    lemma_u64_at(data, at, edge.start_id);
    lemma_u64_at(data, at + 8, edge.end_id);
    lemma_u64_at(data, at + 16, edge.timestamp);
    lemma_u64_at(data, at + 24, edge.metadata_id);
}

proof fn lemma_edges_len(edges: Seq<Edge>)
    ensures
        edges_layout(edges).len() == 32 * edges.len(),
    decreases edges.len(),
{
    if edges.len() > 0 {
        lemma_edges_len(edges.drop_last());
    }
}

proof fn lemma_parts_behind(head: Seq<u8>, middle: Seq<u8>, tail: Seq<u8>)
    ensures
        (head + middle + tail).subrange(head.len() as int, head.len() as int + middle.len())
            == middle,
        (head + middle + tail).skip(head.len() as int + middle.len()) == tail,
{
    let all = head + middle + tail;
    assert(all.subrange(head.len() as int, head.len() as int + middle.len()) =~= middle);
    assert(all.skip(head.len() as int + middle.len()) =~= tail);
}

#[verifier::spinoff_prover]
#[verifier::rlimit(50)]
proof fn lemma_three_numbers_in_front(x: u64, y: u64, z: u64, rest: Seq<u8>)
    ensures
        ({
            let data = be_u64(x) + be_u64(y) + be_u64(z) + rest;
            &&& u64_at(data, 0) == x
            &&& u64_at(data, 8) == y
            &&& u64_at(data, 16) == z
            &&& (be_u64(x) + be_u64(y) + be_u64(z)).len() == 24
        }),
{
    let a = be_u64(x);
    let b = be_u64(y);
    let c = be_u64(z);
    let data = a + b + c + rest;
    lemma_pieces_of_sum(a + b + c, rest);
    lemma_piece_in_front(data, 0, a + b, c);
    lemma_piece_in_front(data, 0, a, b);
    assert(a.len() == 8 && b.len() == 8 && c.len() == 8);
    lemma_u64_at(data, 0, x);
    lemma_u64_at(data, 8, y);
    lemma_u64_at(data, 16, z);
}

#[verifier::spinoff_prover]
#[verifier::rlimit(50)]
proof fn lemma_two_numbers_in_front(x: u64, y: u64, rest: Seq<u8>)
    ensures
        ({
            let data = be_u64(x) + be_u64(y) + rest;
            &&& u64_at(data, 0) == x
            &&& u64_at(data, 8) == y
            &&& (be_u64(x) + be_u64(y)).len() == 16
        }),
{
    let a = be_u64(x);
    let b = be_u64(y);
    let data = a + b + rest;
    lemma_pieces_of_sum(a + b, rest);
    lemma_piece_in_front(data, 0, a, b);
    assert(a.len() == 8 && b.len() == 8);
    lemma_u64_at(data, 0, x);
    lemma_u64_at(data, 8, y);
}

/// A graph starts with the number of its edges, that of its nodes and its time; the nodes follow, and
/// behind them the edges.
#[verifier::spinoff_prover]
#[verifier::rlimit(50)]
pub proof fn lemma_graph_reads_back(graph: Graph3D)
    requires
        graph.edges@.len() <= u64::MAX,
        graph.nodes@.len() <= u64::MAX,
    ensures
        ({
            let data = graph.layout();
            let behind = 24 + nodes_layout(graph.nodes@).len() as int;
            &&& u64_at(data, 0) == graph.edges@.len()
            &&& u64_at(data, 8) == graph.nodes@.len()
            &&& u64_at(data, 16) == graph.ts
            &&& data.subrange(24, behind) == nodes_layout(graph.nodes@)
            &&& data.skip(behind) == edges_layout(graph.edges@)
        }),
{
    let data = graph.layout();
    let a = be_u64(graph.edges@.len() as u64);
    let b = be_u64(graph.nodes@.len() as u64);
    let c = be_u64(graph.ts);
    let nodes = nodes_layout(graph.nodes@);
    let edges = edges_layout(graph.edges@);
    lemma_three_numbers_in_front(
        graph.edges@.len() as u64,
        graph.nodes@.len() as u64,
        graph.ts,
        nodes + edges,
    );
    assert(data =~= a + b + c + (nodes + edges));
    lemma_parts_behind(a + b + c, nodes, edges);
}

/// A transform is read back, three numbers of translation and four of rotation.
#[verifier::spinoff_prover]
#[verifier::rlimit(50)]
pub proof fn lemma_transform_reads_back(transform: DeltaTransform, before: Seq<u8>, rest: Seq<u8>)
    ensures
        ({
            let data = before + transform.layout() + rest;
            let at = before.len() as int;
            &&& transform.layout().len() == 56
            &&& f64_fields(data, at, 3) == Ok::<Seq<F64Bits>, DecodeFault>(transform.translation@)
            &&& f64_fields(data, at + 24, 4) == Ok::<Seq<F64Bits>, DecodeFault>(transform.rotation@)
        }),
{
    let data = before + transform.layout() + rest;
    let at = before.len() as int;
    let a = f64s_bytes(transform.translation@);
    let b = f64s_bytes(transform.rotation@);
    lemma_f64s_len(transform.translation@);
    lemma_f64s_len(transform.rotation@);
    assert(data =~= before + (transform.layout() + rest));
    lemma_pieces_of_sum(before, transform.layout() + rest);
    lemma_piece_in_front(data, at, transform.layout(), rest);
    lemma_piece_in_front(data, at, a, b);
    lemma_f64s_at(data, at, transform.translation@);
    lemma_f64s_at(data, at + 24, transform.rotation@);
}

/// The transforms stand one behind the other, in their order.
#[verifier::spinoff_prover]
#[verifier::rlimit(50)]
pub proof fn lemma_transforms_stand_in_order(transforms: Seq<DeltaTransform>)
    ensures
        transforms_layout(transforms) == transforms.map_values(
            |transform: DeltaTransform| transform.layout(),
        ).flatten(),
    decreases transforms.len(),
{
    let layout = |transform: DeltaTransform| transform.layout();
    let pieces = transforms.map_values(layout);
    if transforms.len() > 0 {
        lemma_transforms_stand_in_order(transforms.drop_last());
        let front = transforms.drop_last().map_values(layout);
        assert(pieces =~= front.push(layout(transforms.last())));
        front.lemma_flatten_push(layout(transforms.last()));
    } else {
        assert(pieces =~= Seq::empty());
    }
}

/// A set of corrections starts with the number of its nodes and its time; the nodes follow, and behind
/// them the transforms.
#[verifier::spinoff_prover]
#[verifier::rlimit(50)]
pub proof fn lemma_corrections_read_back(deltas: GraphDelta3D)
    requires
        deltas.nodes@.len() <= u64::MAX,
    ensures
        ({
            let data = deltas.layout();
            let behind = 16 + nodes_layout(deltas.nodes@).len() as int;
            &&& u64_at(data, 0) == deltas.nodes@.len()
            &&& u64_at(data, 8) == deltas.ts
            &&& data.subrange(16, behind) == nodes_layout(deltas.nodes@)
            &&& data.skip(behind) == transforms_layout(deltas.transforms@)
        }),
{
    let data = deltas.layout();
    let a = be_u64(deltas.nodes@.len() as u64);
    let b = be_u64(deltas.ts);
    let nodes = nodes_layout(deltas.nodes@);
    let transforms = transforms_layout(deltas.transforms@);
    lemma_two_numbers_in_front(deltas.nodes@.len() as u64, deltas.ts, nodes + transforms);
    assert(data =~= a + b + (nodes + transforms));
    lemma_parts_behind(a + b, nodes, transforms);
}

/// A node of a deformation starts with its number and that of its edge; its pose follows.
#[verifier::spinoff_prover]
#[verifier::rlimit(50)]
pub proof fn lemma_deformation_node_reads_back(node: DeformationNode)
    ensures
        u64_at(node.layout(), 0) == node.id,
        u64_at(node.layout(), 8) == node.tf_id,
        node.layout().skip(16) == node.pose.layout(),
{
    let data = node.layout();
    let a = be_u64(node.id);
    let b = be_u64(node.tf_id);
    lemma_two_numbers_in_front(node.id, node.tf_id, node.pose.layout());
    assert(data == a + b + node.pose.layout());
    assert(data.skip(16) =~= node.pose.layout());
}

} // verus!
