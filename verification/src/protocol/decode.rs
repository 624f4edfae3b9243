use crate::graph::types::{Edge, Graph, Node};
use crate::protocol::format::{
    le16_at, le32_at, read_u16_le, read_u32_le, spec_parse_header, DecodeError, Flags, Header,
    HEADER_SIZE,
};
use vstd::prelude::*;

verus! {

/// What `str::from_utf8` yields on these bytes: `Some` of the decoded text
/// exactly when the bytes are valid UTF-8, `None` otherwise.
pub uninterp spec fn utf8_decode(bytes: Seq<u8>) -> Option<Seq<char>>;

/// Relies on `std::str::from_utf8`: accepts exactly the valid UTF-8 byte
/// strings, and its result is a function of the bytes alone.
#[verifier::external_body]
fn utf8_to_string(bytes: &[u8]) -> (r: Option<String>)
    ensures
        r is Some <==> utf8_decode(bytes@) is Some,
        r matches Some(s) ==> Some(s@) == utf8_decode(bytes@),
{
    match std::str::from_utf8(bytes) {
        Ok(s) => Some(s.to_string()),
        Err(_) => None,
    }
}

/// The `count` consecutive little-endian u32 values starting at offset `o`.
pub open spec fn u32s_at(s: Seq<u8>, o: int, count: int) -> Seq<u32> {
    Seq::new(count as nat, |i: int| le32_at(s, o + 4 * i))
}

/// The `count` consecutive little-endian u16 values starting at offset `o`.
pub open spec fn u16s_at(s: Seq<u8>, o: int, count: int) -> Seq<u16> {
    Seq::new(count as nat, |i: int| le16_at(s, o + 2 * i))
}

/// The labels cut out of `blob` by the offset table, from entry `i` on. Each
/// label runs from its own offset to the next offset (the last to the blob's
/// end); a backwards or overlong pair is `OutOfRange`, bytes that are not
/// UTF-8 are `InvalidText`, and the leftmost failure wins.
pub open spec fn labels_from(blob: Seq<u8>, offs: Seq<u32>, i: int) -> Result<
    Seq<Seq<char>>,
    DecodeError,
>
    decreases offs.len() - i,
{
    if 0 <= i < offs.len() {
        let start = offs[i] as int;
        let end = if i + 1 < offs.len() {
            offs[i + 1] as int
        } else {
            blob.len() as int
        };
        if !(start <= end && end <= blob.len()) {
            Err(DecodeError::OutOfRange)
        } else {
            match utf8_decode(blob.subrange(start, end)) {
                Option::None => Err(DecodeError::InvalidText),
                Option::Some(cs) => match labels_from(blob, offs, i + 1) {
                    Ok(rest) => Ok(seq![cs] + rest),
                    Err(e) => Err(e),
                },
            }
        }
    } else {
        Ok(Seq::empty())
    }
}

/// `prefix` glued onto a pending tail result.
pub open spec fn label_combine(
    prefix: Seq<Seq<char>>,
    r: Result<Seq<Seq<char>>, DecodeError>,
) -> Result<Seq<Seq<char>>, DecodeError> {
    match r {
        Ok(rest) => Ok(prefix + rest),
        Err(e) => Err(e),
    }
}

/// What decoding a string table for `count` nodes at offset `o` yields: the
/// label texts and the offset just past the table, or the first failure.
pub open spec fn spec_string_table(s: Seq<u8>, o: int, count: int) -> Result<
    (Seq<Seq<char>>, int),
    DecodeError,
> {
    if o + 4 > s.len() {
        Err(DecodeError::TruncatedBuffer)
    } else {
        let total = le32_at(s, o) as int;
        if o + 4 + 4 * count > s.len() {
            Err(DecodeError::TruncatedBuffer)
        } else {
            let offs = u32s_at(s, o + 4, count);
            if o + 4 + 4 * count + total > s.len() {
                Err(DecodeError::TruncatedBuffer)
            } else {
                let blob = s.subrange(o + 4 + 4 * count, o + 4 + 4 * count + total);
                match labels_from(blob, offs, 0) {
                    Ok(labels) => Ok((labels, o + 4 + 4 * count + total)),
                    Err(e) => Err(e),
                }
            }
        }
    }
}

/// Everything a well-formed buffer decodes to, as parallel columns:
/// node ids, label texts, score bit patterns, degrees, and edges.
pub open spec fn spec_payload(s: Seq<u8>, base: int, n: int, e: int, labels: Seq<Seq<char>>)
    -> Result<(Seq<u32>, Seq<Seq<char>>, Seq<u32>, Seq<u16>, Seq<Edge>), DecodeError> {
    if base + 10 * n + 8 * e > s.len() {
        Err(DecodeError::TruncatedBuffer)
    } else {
        Ok(
            (
                u32s_at(s, base, n),
                labels,
                u32s_at(s, base + 4 * n, n),
                u16s_at(s, base + 8 * n, n),
                Seq::new(
                    e as nat,
                    |j: int|
                        Edge {
                            source: le32_at(s, base + 10 * n + 4 * j),
                            target: le32_at(s, base + 10 * n + 4 * e + 4 * j),
                        },
                ),
            ),
        )
    }
}

/// The whole wire format: header, optional string table, node columns, edge
/// columns, with the stage order fixing which failure is reported.
pub open spec fn spec_decode(s: Seq<u8>) -> Result<
    (Seq<u32>, Seq<Seq<char>>, Seq<u32>, Seq<u16>, Seq<Edge>),
    DecodeError,
> {
    match spec_parse_header(s) {
        Err(e) => Err(e),
        Ok(h) => {
            let n = h.node_count as int;
            let ecnt = h.edge_count as int;
            if h.flags & Flags::HasLabels.spec_mask() != 0 {
                match spec_string_table(s, HEADER_SIZE as int, n) {
                    Err(e) => Err(e),
                    Ok(pair) => spec_payload(s, pair.1, n, ecnt, pair.0),
                }
            } else {
                spec_payload(
                    s,
                    HEADER_SIZE as int,
                    n,
                    ecnt,
                    Seq::new(n as nat, |i: int| Seq::<char>::empty()),
                )
            }
        },
    }
}

/// A cursor over a borrowed byte buffer; never reads past the end and never
/// retains the buffer beyond its own lifetime.
pub struct Decoder<'a> {
    data: &'a [u8],
    offset: usize,
}

impl<'a> Decoder<'a> {
    pub closed spec fn spec_data(self) -> Seq<u8> {
        self.data@
    }

    pub closed spec fn spec_offset(self) -> int {
        self.offset as int
    }

    /// The cursor never sits past the end of the buffer.
    pub open spec fn wf(self) -> bool {
        self.spec_offset() <= self.spec_data().len()
    }

    pub fn new(data: &'a [u8]) -> (d: Decoder<'a>)
        ensures
            d.wf(),
            d.spec_data() == data@,
            d.spec_offset() == 0,
    {
        Decoder { data, offset: 0 }
    }

    pub fn read_u32(&mut self) -> (r: Result<u32, DecodeError>)
        requires
            old(self).wf(),
        ensures
            final(self).wf(),
            final(self).spec_data() == old(self).spec_data(),
            if old(self).spec_offset() + 4 <= old(self).spec_data().len() {
                r == Ok::<u32, DecodeError>(le32_at(old(self).spec_data(), old(self).spec_offset()))
                    && final(self).spec_offset() == old(self).spec_offset() + 4
            } else {
                r == Err::<u32, DecodeError>(DecodeError::TruncatedBuffer) && final(self).spec_offset()
                    == old(self).spec_offset()
            },
    {
        if self.data.len() - self.offset < 4 {
            return Err(DecodeError::TruncatedBuffer);
        }
        let v = read_u32_le(self.data, self.offset);
        self.offset = self.offset + 4;
        Ok(v)
    }

    pub fn read_u16(&mut self) -> (r: Result<u16, DecodeError>)
        requires
            old(self).wf(),
        ensures
            final(self).wf(),
            final(self).spec_data() == old(self).spec_data(),
            if old(self).spec_offset() + 2 <= old(self).spec_data().len() {
                r == Ok::<u16, DecodeError>(le16_at(old(self).spec_data(), old(self).spec_offset()))
                    && final(self).spec_offset() == old(self).spec_offset() + 2
            } else {
                r == Err::<u16, DecodeError>(DecodeError::TruncatedBuffer) && final(self).spec_offset()
                    == old(self).spec_offset()
            },
    {
        if self.data.len() - self.offset < 2 {
            return Err(DecodeError::TruncatedBuffer);
        }
        let v = read_u16_le(self.data, self.offset);
        self.offset = self.offset + 2;
        Ok(v)
    }

    /// Copies the next `len` bytes out of the buffer.
    pub fn read_bytes(&mut self, len: usize) -> (r: Result<Vec<u8>, DecodeError>)
        requires
            old(self).wf(),
        ensures
            final(self).wf(),
            final(self).spec_data() == old(self).spec_data(),
            if old(self).spec_offset() + len <= old(self).spec_data().len() {
                r matches Ok(v) && v@ == old(self).spec_data().subrange(
                    old(self).spec_offset(),
                    old(self).spec_offset() + len,
                ) && final(self).spec_offset() == old(self).spec_offset() + len
            } else {
                r == Err::<Vec<u8>, DecodeError>(DecodeError::TruncatedBuffer)
                    && final(self).spec_offset() == old(self).spec_offset()
            },
    {
        if self.data.len() - self.offset < len {
            return Err(DecodeError::TruncatedBuffer);
        }
        let mut v: Vec<u8> = Vec::new();
        let mut k: usize = 0;
        while k < len
            invariant
                self == old(self),
                self.data@.len() <= usize::MAX,
                self.offset + len <= self.data@.len(),
                k <= len,
                v@ == self.data@.subrange(self.offset as int, self.offset + k),
            decreases len - k,
        {
            v.push(self.data[self.offset + k]);
            proof {
                assert(self.data@.subrange(self.offset as int, self.offset + k + 1) =~= self.data@
                    .subrange(self.offset as int, self.offset + k).push(
                    self.data@[self.offset + k],
                ));
            }
            k += 1;
        }
        self.offset = self.offset + len;
        Ok(v)
    }

    pub fn read_u32_array(&mut self, count: usize) -> (r: Result<Vec<u32>, DecodeError>)
        requires
            old(self).wf(),
        ensures
            final(self).wf(),
            final(self).spec_data() == old(self).spec_data(),
            if old(self).spec_offset() + 4 * count <= old(self).spec_data().len() {
                r matches Ok(v) && v@ == u32s_at(
                    old(self).spec_data(),
                    old(self).spec_offset(),
                    count as int,
                ) && final(self).spec_offset() == old(self).spec_offset() + 4 * count
            } else {
                r == Err::<Vec<u32>, DecodeError>(DecodeError::TruncatedBuffer)
            },
    {
        let mut v: Vec<u32> = Vec::new();
        let mut k: usize = 0;
        while k < count
            invariant
                self.wf(),
                self.spec_data() == old(self).spec_data(),
                k <= count,
                self.spec_offset() == old(self).spec_offset() + 4 * k,
                old(self).spec_offset() + 4 * k <= old(self).spec_data().len(),
                v@ =~= u32s_at(old(self).spec_data(), old(self).spec_offset(), k as int),
            decreases count - k,
        {
            match self.read_u32() {
                Ok(x) => {
                    v.push(x);
                    proof {
                        assert(v@ =~= u32s_at(
                            old(self).spec_data(),
                            old(self).spec_offset(),
                            k + 1,
                        ));
                    }
                },
                Err(e) => {
                    return Err(e);
                },
            }
            k += 1;
        }
        Ok(v)
    }

    pub fn read_u16_array(&mut self, count: usize) -> (r: Result<Vec<u16>, DecodeError>)
        requires
            old(self).wf(),
        ensures
            final(self).wf(),
            final(self).spec_data() == old(self).spec_data(),
            if old(self).spec_offset() + 2 * count <= old(self).spec_data().len() {
                r matches Ok(v) && v@ == u16s_at(
                    old(self).spec_data(),
                    old(self).spec_offset(),
                    count as int,
                ) && final(self).spec_offset() == old(self).spec_offset() + 2 * count
            } else {
                r == Err::<Vec<u16>, DecodeError>(DecodeError::TruncatedBuffer)
            },
    {
        let mut v: Vec<u16> = Vec::new();
        let mut k: usize = 0;
        while k < count
            invariant
                self.wf(),
                self.spec_data() == old(self).spec_data(),
                k <= count,
                self.spec_offset() == old(self).spec_offset() + 2 * k,
                old(self).spec_offset() + 2 * k <= old(self).spec_data().len(),
                v@ =~= u16s_at(old(self).spec_data(), old(self).spec_offset(), k as int),
            decreases count - k,
        {
            match self.read_u16() {
                Ok(x) => {
                    v.push(x);
                    proof {
                        assert(v@ =~= u16s_at(
                            old(self).spec_data(),
                            old(self).spec_offset(),
                            k + 1,
                        ));
                    }
                },
                Err(e) => {
                    return Err(e);
                },
            }
            k += 1;
        }
        Ok(v)
    }

    /// Decodes the length-prefixed string table: blob length, one offset per
    /// node, then the blob itself, cut into one label per node.
    pub fn decode_string_table(&mut self, count: usize) -> (r: Result<Vec<String>, DecodeError>)
        requires
            old(self).wf(),
        ensures
            final(self).wf(),
            final(self).spec_data() == old(self).spec_data(),
            match spec_string_table(old(self).spec_data(), old(self).spec_offset(), count as int) {
                Ok(pair) => r matches Ok(v) && v@.len() == count && v@.map_values(|s: String| s@)
                    == pair.0 && final(self).spec_offset() == pair.1,
                Err(e) => r == Err::<Vec<String>, DecodeError>(e),
            },
    {
        let total32 = match self.read_u32() {
            Ok(x) => x,
            Err(e) => {
                return Err(e);
            },
        };
        let total = total32 as usize;
        let offsets = match self.read_u32_array(count) {
            Ok(v) => v,
            Err(e) => {
                return Err(e);
            },
        };
        let blob = match self.read_bytes(total) {
            Ok(v) => v,
            Err(e) => {
                return Err(e);
            },
        };
        let mut labels: Vec<String> = Vec::new();
        let mut i: usize = 0;
        while i < count
            invariant
                self.wf(),
                self.spec_data() == old(self).spec_data(),
                count == offsets@.len(),
                total == blob@.len(),
                i <= count,
                labels@.len() == i,
                spec_string_table(
                    old(self).spec_data(),
                    old(self).spec_offset(),
                    count as int,
                ) == (match labels_from(blob@, offsets@, 0) {
                    Ok(l) => Ok::<(Seq<Seq<char>>, int), DecodeError>((l, self.spec_offset())),
                    Err(e) => Err(e),
                }),
                labels_from(blob@, offsets@, 0) == label_combine(
                    labels@.map_values(|s: String| s@),
                    labels_from(blob@, offsets@, i as int),
                ),
            decreases count - i,
        {
            let start32 = offsets[i];
            let start = start32 as usize;
            let end = if i + 1 < count {
                offsets[i + 1] as usize
            } else {
                total
            };
            if !(start <= end && end <= total) {
                proof {
                    assert(labels_from(blob@, offsets@, i as int) == Err::<
                        Seq<Seq<char>>,
                        DecodeError,
                    >(DecodeError::OutOfRange));
                }
                return Err(DecodeError::OutOfRange);
            }
            let piece = vstd::slice::slice_subrange(blob.as_slice(), start, end);
            match utf8_to_string(piece) {
                Option::Some(s) => {
                    proof {
                        let ghost prefix = labels@.map_values(|t: String| t@);
                        assert(labels_from(blob@, offsets@, i as int) == match labels_from(
                            blob@,
                            offsets@,
                            i + 1,
                        ) {
                            Ok(rest) => Ok::<_, DecodeError>(seq![s@] + rest),
                            Err(e) => Err(e),
                        });
                        assert(labels@.push(s).map_values(|t: String| t@) =~= prefix.push(s@));
                        if labels_from(blob@, offsets@, i + 1) is Ok {
                            let rest = labels_from(blob@, offsets@, i + 1)->Ok_0;
                            assert(prefix + (seq![s@] + rest) =~= prefix.push(s@) + rest);
                        }
                    }
                    labels.push(s);
                },
                Option::None => {
                    proof {
                        assert(labels_from(blob@, offsets@, i as int) == Err::<
                            Seq<Seq<char>>,
                            DecodeError,
                        >(DecodeError::InvalidText));
                    }
                    return Err(DecodeError::InvalidText);
                },
            }
            i += 1;
        }
        proof {
            assert(labels_from(blob@, offsets@, count as int) == Ok::<Seq<Seq<char>>, DecodeError>(
                Seq::empty(),
            ));
            let ghost prefix = labels@.map_values(|t: String| t@);
            assert(prefix + Seq::<Seq<char>>::empty() =~= prefix);
        }
        Ok(labels)
    }

    /// Decodes the node columns: ids, score bit patterns, degrees.
    pub fn decode_node_data(&mut self, count: usize) -> (r: Result<
        (Vec<u32>, Vec<u32>, Vec<u16>),
        DecodeError,
    >)
        requires
            old(self).wf(),
        ensures
            final(self).wf(),
            final(self).spec_data() == old(self).spec_data(),
            if old(self).spec_offset() + 10 * count <= old(self).spec_data().len() {
                r matches Ok(t) && t.0@ == u32s_at(
                    old(self).spec_data(),
                    old(self).spec_offset(),
                    count as int,
                ) && t.1@ == u32s_at(
                    old(self).spec_data(),
                    old(self).spec_offset() + 4 * count,
                    count as int,
                ) && t.2@ == u16s_at(
                    old(self).spec_data(),
                    old(self).spec_offset() + 8 * count,
                    count as int,
                ) && final(self).spec_offset() == old(self).spec_offset() + 10 * count
            } else {
                r matches Err(e) && e == DecodeError::TruncatedBuffer
            },
    {
        let ids = match self.read_u32_array(count) {
            Ok(v) => v,
            Err(e) => {
                return Err(e);
            },
        };
        let scores = match self.read_u32_array(count) {
            Ok(v) => v,
            Err(e) => {
                return Err(e);
            },
        };
        let degrees = match self.read_u16_array(count) {
            Ok(v) => v,
            Err(e) => {
                return Err(e);
            },
        };
        Ok((ids, scores, degrees))
    }

    /// Decodes the edge columns: sources, then targets.
    pub fn decode_edge_data(&mut self, count: usize) -> (r: Result<
        (Vec<u32>, Vec<u32>),
        DecodeError,
    >)
        requires
            old(self).wf(),
        ensures
            final(self).wf(),
            final(self).spec_data() == old(self).spec_data(),
            if old(self).spec_offset() + 8 * count <= old(self).spec_data().len() {
                r matches Ok(t) && t.0@ == u32s_at(
                    old(self).spec_data(),
                    old(self).spec_offset(),
                    count as int,
                ) && t.1@ == u32s_at(
                    old(self).spec_data(),
                    old(self).spec_offset() + 4 * count,
                    count as int,
                ) && final(self).spec_offset() == old(self).spec_offset() + 8 * count
            } else {
                r matches Err(e) && e == DecodeError::TruncatedBuffer
            },
    {
        let sources = match self.read_u32_array(count) {
            Ok(v) => v,
            Err(e) => {
                return Err(e);
            },
        };
        let targets = match self.read_u32_array(count) {
            Ok(v) => v,
            Err(e) => {
                return Err(e);
            },
        };
        Ok((sources, targets))
    }

    /// Decodes the whole buffer into a graph, or reports the first failure;
    /// no partial graph is ever returned.
    #[verifier::rlimit(100)]
    pub fn decode_graph(&mut self) -> (r: Result<Graph, DecodeError>)
        requires
            old(self).wf(),
        ensures
            final(self).wf(),
            match spec_decode(old(self).spec_data()) {
                Err(e) => r matches Err(e2) && e2 == e,
                Ok(parts) => r matches Ok(g) && g.wf() && g.edges_seq() == parts.4
                    && g.nodes_seq().len() == parts.0.len() && forall|i: int|
                    0 <= i < parts.0.len() ==> {
                        let node = #[trigger] g.nodes_seq()[i];
                        &&& node.id == parts.0[i]
                        &&& node.label@ == parts.1[i]
                        &&& node.pagerank_bits == parts.2[i]
                        &&& node.degree == parts.3[i]
                        &&& node.x_bits == 0
                        &&& node.y_bits == 0
                    },
            },
    {
        let ghost s = old(self).spec_data();
        let header = match Header::parse(self.data) {
            Ok(h) => h,
            Err(e) => {
                return Err(e);
            },
        };
        proof {
            assert(spec_parse_header(s) == Ok::<Header, DecodeError>(header));
        }
        self.offset = HEADER_SIZE;
        let n = header.node_count as usize;
        let ecnt = header.edge_count as usize;
        let labels: Vec<String> = if header.has_flag(Flags::HasLabels) {
            match self.decode_string_table(n) {
                Ok(v) => v,
                Err(e) => {
                    return Err(e);
                },
            }
        } else {
            let mut v: Vec<String> = Vec::new();
            let mut k: usize = 0;
            while k < n
                invariant
                    k <= n,
                    v@.len() == k,
                    forall|j: int| 0 <= j < k ==> #[trigger] v@[j]@ == Seq::<char>::empty(),
                decreases n - k,
            {
                v.push(String::new());
                k += 1;
            }
            v
        };
        let ghost labelseq = labels@.map_values(|t: String| t@);
        let ghost base = self.spec_offset();
        proof {
            if header.flags & Flags::HasLabels.spec_mask() == 0 {
                assert(labelseq =~= Seq::new(n as nat, |i: int| Seq::<char>::empty()));
            }
            assert(spec_decode(s) == spec_payload(s, base, n as int, ecnt as int, labelseq));
        }
        let (ids, score_bits, degrees) = match self.decode_node_data(n) {
            Ok(t) => t,
            Err(e) => {
                proof {
                    assert(spec_payload(s, base, n as int, ecnt as int, labelseq) == Err::<
                        (Seq<u32>, Seq<Seq<char>>, Seq<u32>, Seq<u16>, Seq<Edge>),
                        DecodeError,
                    >(DecodeError::TruncatedBuffer));
                }
                return Err(e);
            },
        };
        let (sources, targets) = match self.decode_edge_data(ecnt) {
            Ok(t) => t,
            Err(e) => {
                proof {
                    assert(spec_payload(s, base, n as int, ecnt as int, labelseq) == Err::<
                        (Seq<u32>, Seq<Seq<char>>, Seq<u32>, Seq<u16>, Seq<Edge>),
                        DecodeError,
                    >(DecodeError::TruncatedBuffer));
                }
                return Err(e);
            },
        };
        proof {
            let parts = spec_payload(s, base, n as int, ecnt as int, labelseq)->Ok_0;
            assert(parts.0 == ids@);
            assert(parts.1 == labelseq);
            assert(parts.2 == score_bits@);
            assert(parts.3 == degrees@);
            assert forall|j: int| 0 <= j < ecnt implies #[trigger] parts.4[j] == (Edge {
                source: sources@[j],
                target: targets@[j],
            }) by {}
        }
        let mut nodes: Vec<Node> = Vec::new();
        let mut i: usize = 0;
        while i < n
            invariant
                n == ids@.len(),
                n == labels@.len(),
                n == score_bits@.len(),
                n == degrees@.len(),
                i <= n,
                nodes@.len() == i,
                forall|k: int|
                    0 <= k < i ==> {
                        let node = #[trigger] nodes@[k];
                        &&& node.id == ids@[k]
                        &&& node.label@ == labels@[k]@
                        &&& node.pagerank_bits == score_bits@[k]
                        &&& node.degree == degrees@[k]
                        &&& node.x_bits == 0
                        &&& node.y_bits == 0
                    },
            decreases n - i,
        {
            nodes.push(
                Node {
                    id: ids[i],
                    label: labels[i].clone(),
                    pagerank_bits: score_bits[i],
                    degree: degrees[i],
                    x_bits: 0,
                    y_bits: 0,
                },
            );
            i += 1;
        }
        let mut edges: Vec<Edge> = Vec::new();
        let mut j: usize = 0;
        while j < ecnt
            invariant
                ecnt == sources@.len(),
                ecnt == targets@.len(),
                j <= ecnt,
                edges@.len() == j,
                forall|k: int|
                    0 <= k < j ==> #[trigger] edges@[k] == (Edge {
                        source: sources@[k],
                        target: targets@[k],
                    }),
            decreases ecnt - j,
        {
            edges.push(Edge { source: sources[j], target: targets[j] });
            j += 1;
        }
        let graph = Graph::new(nodes, edges);
        proof {
            let s = old(self).spec_data();
            let parts = spec_decode(s)->Ok_0;
            assert(graph.edges_seq() =~= parts.4);
            assert(graph.nodes_seq().len() == parts.0.len());
        }
        Ok(graph)
    }
}

} // verus!
