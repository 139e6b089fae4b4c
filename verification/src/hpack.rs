//! The HPACK context: the decoder state machine that turns a header block
//! into a header list while driving the dynamic table, and the matching
//! encoder. The decoder dispatches on the top bits of each representation's
//! first octet (RFC 7541 Section 6).

use vstd::prelude::*;

use crate::dyn_table::DynamicTable;
use crate::dyn_table::TableEntry;

verus! {

use crate::HpackError;
use crate::int_dec;
use crate::int_enc;
use crate::lemma_int_dec_bounds;
use vstd::arithmetic::power2::pow2;
use vstd::arithmetic::power2::lemma2_to64;
use crate::dyn_table::EntryModel;
use crate::dyn_table::entry_size;
use crate::dyn_table::total_size;
use crate::dyn_table::evict_to;
use crate::dyn_table::spec_table_add;
use crate::static_table::spec_static_entry;
use crate::static_table::static_entry;

/// The indexing directive of a header field: whether its representation was,
/// or is to be, entered into the dynamic table.
///
/// * `Indexed` — stored in the dynamic table (an indexed field or a literal
///   with incremental indexing).
/// * `NotIndexed` — this representation is not stored on this hop.
/// * `NeverIndexed` — this representation must not be stored on any hop.
#[derive(Clone, Copy, Debug, PartialEq, Eq, Structural)]
pub enum Directive {
    Indexed,
    NotIndexed,
    NeverIndexed,
}

/// A decoded or to-be-encoded header field: a name and a value of opaque
/// octets, with its indexing directive.
#[derive(Debug, Clone, PartialEq, Eq)]
pub struct Header {
    pub name: Vec<u8>,
    pub value: Vec<u8>,
    pub directive: Directive,
}

/// The mathematical shadow of a `Header`.
#[verifier::ext_equal]
pub ghost struct HeaderModel {
    pub name: Seq<u8>,
    pub value: Seq<u8>,
    pub directive: Directive,
}

impl View for Header {
    type V = HeaderModel;

    open spec fn view(&self) -> HeaderModel {
        HeaderModel { name: self.name@, value: self.value@, directive: self.directive }
    }
}

/// The mathematical shadow of an `Hpack` context: the dynamic table's entries
/// newest first, its operative capacity, and the protocol-negotiated ceiling
/// a size update may not exceed.
#[verifier::ext_equal]
pub ghost struct CtxModel {
    pub entries: Seq<EntryModel>,
    pub capacity: int,
    pub max_capacity: int,
}

/// Looks up the combined index space: index zero is never a table reference,
/// `1..=61` is the static table, and from 63 on the dynamic table holds the
/// entries, most recent first. Index 62 sits between the two ranges and
/// references no slot.
pub open spec fn spec_lookup(entries: Seq<EntryModel>, i: nat) -> Result<EntryModel, HpackError> {
    if i == 0 {
        Err(HpackError::InvalidIndex)
    } else if i <= 61 {
        Ok(spec_static_entry(i as int))
    } else if 63 <= i && i - 63 < entries.len() {
        Ok(entries[i - 63])
    } else {
        Err(HpackError::InvalidIndex)
    }
}

/// Decodes a string literal at `pos`: the length as a prefix-7 integer whose
/// top bit is the Huffman flag, then that many octets, kept as raw octets. A
/// set Huffman flag is rejected with `InvalidHuffman`: the Huffman transform
/// is an external collaborator this core does not embed.
pub open spec fn spec_str_dec(s: Seq<u8>, pos: int) -> Result<(Seq<u8>, int), HpackError> {
    if pos < 0 || pos >= s.len() {
        Err(HpackError::Truncated)
    } else if s[pos] >= 128 {
        Err(HpackError::InvalidHuffman)
    } else {
        match int_dec(s, pos, 7) {
            Err(e) => Err(e),
            Ok((len, p)) => if p + len > s.len() {
                Err(HpackError::Truncated)
            } else {
                Ok((s.subrange(p, p + len), p + len))
            },
        }
    }
}

/// Whatever the string decoder returns with success lies past the start
/// position, within the input, and is no longer than the 32-bit maximum.
pub proof fn lemma_str_dec_bounds(s: Seq<u8>, pos: int)
    ensures
        spec_str_dec(s, pos) matches Ok(vp) ==> pos < vp.1 <= s.len() && vp.0.len() <= u32::MAX,
{
    if 0 <= pos < s.len() && s[pos] < 128 {
        lemma_int_dec_bounds(s, pos, 7);
    }
}

/// Resolves the name and value of a literal representation whose index was
/// read with an `n`-bit prefix: index zero introduces a new name string
/// followed by the value string; a non-zero index names an entry of the
/// combined index space, followed by the value string.
pub open spec fn spec_lit_fields(s: Seq<u8>, pos: int, entries: Seq<EntryModel>, n: nat) -> Result<
    (EntryModel, int),
    HpackError,
> {
    match int_dec(s, pos, n) {
        Err(e) => Err(e),
        Ok((i, p)) => if i == 0 {
            match spec_str_dec(s, p) {
                Err(e) => Err(e),
                Ok((nm, p2)) => match spec_str_dec(s, p2) {
                    Err(e) => Err(e),
                    Ok((v, p3)) => Ok((EntryModel { name: nm, value: v }, p3)),
                },
            }
        } else {
            match spec_lookup(entries, i) {
                Err(e) => Err(e),
                Ok(ent) => match spec_str_dec(s, p) {
                    Err(e) => Err(e),
                    Ok((v, p2)) => Ok((EntryModel { name: ent.name, value: v }, p2)),
                },
            }
        },
    }
}

/// Whatever the literal-field parser returns with success lies past the start
/// position and within the input.
pub proof fn lemma_lit_fields_bounds(s: Seq<u8>, pos: int, entries: Seq<EntryModel>, n: nat)
    requires
        1 <= n <= 8,
    ensures
        spec_lit_fields(s, pos, entries, n) matches Ok(vp) ==> pos < vp.1 <= s.len(),
{
    lemma_int_dec_bounds(s, pos, n);
    match int_dec(s, pos, n) {
        Ok((i, p)) => {
            lemma_str_dec_bounds(s, p);
            if i == 0 {
                match spec_str_dec(s, p) {
                    Ok((nm, p2)) => {
                        lemma_str_dec_bounds(s, p2);
                    },
                    Err(_) => {},
                }
            }
        },
        Err(_) => {},
    }
}

/// A decoded header prepended to the outcome of decoding the rest of the
/// block; an error stands as it is.
pub open spec fn prepend_header(
    r: (Result<Seq<HeaderModel>, HpackError>, CtxModel),
    h: HeaderModel,
) -> (Result<Seq<HeaderModel>, HpackError>, CtxModel) {
    match r.0 {
        Ok(rest) => (Ok(seq![h] + rest), r.1),
        Err(e) => (Err(e), r.1),
    }
}

/// The decoder state machine over a header block, from position `pos` with
/// context `ctx`: `updates` counts the dynamic-table size updates already
/// consumed and `body` whether a non-size-update representation has been
/// seen. Returns the decoded header list, or the error on which the block is
/// rejected, together with the context as the decoder leaves it.
///
/// The representations dispatch on the top bits of the first octet:
/// `1xxxxxxx` an indexed field, `01xxxxxx` a literal with incremental
/// indexing, `001xxxxx` a size update, `0001xxxx` a literal never indexed and
/// `0000xxxx` a literal without indexing. At most two size updates are
/// accepted, only ahead of the body (RFC 7541 Section 4.2), and none may
/// exceed the negotiated maximum capacity.
pub open spec fn spec_read(s: Seq<u8>, pos: int, ctx: CtxModel, updates: int, body: bool) -> (
    Result<Seq<HeaderModel>, HpackError>,
    CtxModel,
)
    decreases s.len() - pos,
{
    if pos < 0 || pos >= s.len() {
        (Ok(Seq::empty()), ctx)
    } else {
        let b = s[pos];
        if b >= 128 {
            match int_dec(s, pos, 7) {
                Err(e) => (Err(e), ctx),
                Ok((i, p)) => {
                    proof {
                        lemma_int_dec_bounds(s, pos, 7);
                    }
                    match spec_lookup(ctx.entries, i) {
                        Err(e) => (Err(e), ctx),
                        Ok(ent) => prepend_header(
                            spec_read(s, p, ctx, updates, true),
                            HeaderModel {
                                name: ent.name,
                                value: ent.value,
                                directive: Directive::Indexed,
                            },
                        ),
                    }
                },
            }
        } else if b >= 64 {
            match spec_lit_fields(s, pos, ctx.entries, 6) {
                Err(e) => (Err(e), ctx),
                Ok((ent, p)) => {
                    proof {
                        lemma_lit_fields_bounds(s, pos, ctx.entries, 6);
                    }
                    let ctx2 = CtxModel {
                        entries: spec_table_add(ctx.entries, ctx.capacity, ent),
                        ..ctx
                    };
                    prepend_header(
                        spec_read(s, p, ctx2, updates, true),
                        HeaderModel {
                            name: ent.name,
                            value: ent.value,
                            directive: Directive::Indexed,
                        },
                    )
                },
            }
        } else if b >= 32 {
            if body || updates >= 2 {
                (Err(HpackError::CompressionError), ctx)
            } else {
                match int_dec(s, pos, 5) {
                    Err(e) => (Err(e), ctx),
                    Ok((sz, p)) => {
                        proof {
                            lemma_int_dec_bounds(s, pos, 5);
                        }
                        if sz > ctx.max_capacity {
                            (Err(HpackError::CompressionError), ctx)
                        } else {
                            let ctx2 = CtxModel {
                                entries: evict_to(ctx.entries, sz as int),
                                capacity: sz as int,
                                ..ctx
                            };
                            spec_read(s, p, ctx2, updates + 1, body)
                        }
                    },
                }
            }
        } else if b >= 16 {
            match spec_lit_fields(s, pos, ctx.entries, 4) {
                Err(e) => (Err(e), ctx),
                Ok((ent, p)) => {
                    proof {
                        lemma_lit_fields_bounds(s, pos, ctx.entries, 4);
                    }
                    prepend_header(
                        spec_read(s, p, ctx, updates, true),
                        HeaderModel {
                            name: ent.name,
                            value: ent.value,
                            directive: Directive::NeverIndexed,
                        },
                    )
                },
            }
        } else {
            match spec_lit_fields(s, pos, ctx.entries, 4) {
                Err(e) => (Err(e), ctx),
                Ok((ent, p)) => {
                    proof {
                        lemma_lit_fields_bounds(s, pos, ctx.entries, 4);
                    }
                    prepend_header(
                        spec_read(s, p, ctx, updates, true),
                        HeaderModel {
                            name: ent.name,
                            value: ent.value,
                            directive: Directive::NotIndexed,
                        },
                    )
                },
            }
        }
    }
}

/// Decoding one whole header block from its first octet, in a context that
/// has seen no size update yet.
pub open spec fn spec_read_block(s: Seq<u8>, ctx: CtxModel) -> (
    Result<Seq<HeaderModel>, HpackError>,
    CtxModel,
) {
    spec_read(s, 0, ctx, 0, false)
}

/// A byte-for-byte copy of an octet vector.
fn clone_bytes(v: &Vec<u8>) -> (r: Vec<u8>)
    ensures
        r@ == v@,
{
    let mut out: Vec<u8> = Vec::new();
    let mut j: usize = 0;
    while j < v.len()
        invariant
            j <= v@.len(),
            out@ == v@.subrange(0, j as int),
        decreases v@.len() - j,
    {
        out.push(v[j]);
        proof {
            assert(v@.subrange(0, j + 1) =~= v@.subrange(0, j as int) + seq![v@[j as int]]);
        }
        j = j + 1;
    }
    proof {
        assert(v@.subrange(0, v@.len() as int) =~= v@);
    }
    out
}

/// A copy of a table entry.
fn clone_entry(e: &TableEntry) -> (r: TableEntry)
    ensures
        r@ == e@,
{
    TableEntry { name: clone_bytes(&e.name), value: clone_bytes(&e.value) }
}

/// Reads a string literal at `pos`: length octet under the Huffman flag, then
/// the octets, kept raw. A set Huffman flag is rejected with
/// `InvalidHuffman`.
fn get_string(stream: &Vec<u8>, pos: usize) -> (r: Result<(Vec<u8>, usize), HpackError>)
    requires
        pos <= stream@.len(),
    ensures
        match spec_str_dec(stream@, pos as int) {
            Ok(vp) => r matches Ok(p) && p.0@ == vp.0 && p.1 as int == vp.1 && pos < p.1
                <= stream@.len(),
            Err(e) => r == Err::<(Vec<u8>, usize), HpackError>(e),
        },
{
    if pos >= stream.len() {
        return Err(HpackError::Truncated);
    }
    if stream[pos] >= 128 {
        return Err(HpackError::InvalidHuffman);
    }
    match crate::decode_int_at(stream, pos, 7) {
        Err(e) => Err(e),
        Ok((len, p)) => {
            if (len as usize) > stream.len() - p {
                return Err(HpackError::Truncated);
            }
            let end = p + len as usize;
            let mut out: Vec<u8> = Vec::new();
            let mut j = p;
            while j < end
                invariant
                    p <= j <= end,
                    end <= stream@.len(),
                    out@ == stream@.subrange(p as int, j as int),
                decreases end - j,
            {
                out.push(stream[j]);
                proof {
                    assert(stream@.subrange(p as int, j + 1) =~= stream@.subrange(
                        p as int,
                        j as int,
                    ) + seq![stream@[j as int]]);
                }
                j = j + 1;
            }
            Ok((out, end))
        },
    }
}

/// An HPACK encoding or decoding context: the dynamic table together with the
/// protocol-negotiated ceiling on its capacity.
pub struct Hpack {
    dynamic_table: DynamicTable,
    max_capacity: usize,
}

impl View for Hpack {
    type V = CtxModel;

    closed spec fn view(&self) -> CtxModel {
        CtxModel {
            entries: self.dynamic_table@.entries,
            capacity: self.dynamic_table@.capacity,
            max_capacity: self.max_capacity as int,
        }
    }
}

impl Hpack {
    /// The dynamic table's accounting is accurate: constructors establish
    /// this and every operation preserves it.
    pub closed spec fn wf(&self) -> bool {
        self.dynamic_table.wf()
    }

    /// Builds a context with an empty dynamic table of the given capacity.
    /// Until `set_max_capacity` lowers it, the negotiated ceiling does not
    /// constrain size updates.
    pub fn new(dynamic_table_size: usize) -> (r: Hpack)
        ensures
            r.wf(),
            r@.entries == Seq::<EntryModel>::empty(),
            r@.capacity == dynamic_table_size as int,
            r@.max_capacity == usize::MAX as int,
    {
        Hpack { dynamic_table: DynamicTable::new(dynamic_table_size), max_capacity: usize::MAX }
    }

    /// Sets the protocol-negotiated ceiling that a dynamic-table size update
    /// may not exceed.
    pub fn set_max_capacity(&mut self, m: usize)
        ensures
            final(self).wf() == old(self).wf(),
            final(self)@ == (CtxModel { max_capacity: m as int, ..old(self)@ }),
    {
        self.max_capacity = m;
    }

    /// The operative capacity of the dynamic table in octets.
    pub fn current_capacity(&self) -> (r: usize)
        ensures
            r as int == self@.capacity,
    {
        self.dynamic_table.capacity()
    }

    /// The occupancy of the dynamic table in octets.
    pub fn occupancy(&self) -> (r: usize)
        requires
            self.wf(),
        ensures
            r as int == total_size(self@.entries),
    {
        self.dynamic_table.size()
    }

    /// A view of the dynamic table, for callers that inspect its entries.
    pub fn dynamic_table(&self) -> (r: &DynamicTable)
        ensures
            r@.entries == self@.entries,
            r@.capacity == self@.capacity,
            self.wf() ==> r.wf(),
    {
        &self.dynamic_table
    }

    /// Resolves index `i` of the combined index space to an entry: `1..=61`
    /// in the static table, 63 on in the dynamic table most recent first;
    /// zero and 62 reference no slot and yield `InvalidIndex`, as does an
    /// index past the dynamic table's end.
    fn get_static_entry_from_index(&self, i: u32) -> (r: Result<TableEntry, HpackError>)
        ensures
            match spec_lookup(self@.entries, i as nat) {
                Ok(e) => r matches Ok(t) && t@ == e,
                Err(err) => r == Err::<TableEntry, HpackError>(err),
            },
    {
        if i == 0 {
            Err(HpackError::InvalidIndex)
        } else if i <= 61 {
            Ok(static_entry(i))
        } else if i >= 63 {
            match self.dynamic_table.get((i - 63) as usize) {
                Some(e) => Ok(clone_entry(e)),
                None => Err(HpackError::InvalidIndex),
            }
        } else {
            Err(HpackError::InvalidIndex)
        }
    }

    /// Reads the fields of a literal representation whose index has an
    /// `n`-bit prefix: index zero introduces a new name string before the
    /// value string, a non-zero index names a combined-table entry.
    fn read_lit_fields(&self, stream: &Vec<u8>, pos: usize, n: u32) -> (r: Result<
        (TableEntry, usize),
        HpackError,
    >)
        requires
            1 <= n <= 8,
            pos <= stream@.len(),
        ensures
            match spec_lit_fields(stream@, pos as int, self@.entries, n as nat) {
                Ok(vp) => r matches Ok(tp) && tp.0@ == vp.0 && tp.1 as int == vp.1 && pos < tp.1
                    <= stream@.len(),
                Err(e) => r == Err::<(TableEntry, usize), HpackError>(e),
            },
    {
        match crate::decode_int_at(stream, pos, n) {
            Err(e) => Err(e),
            Ok((i, p)) => {
                if i == 0 {
                    match get_string(stream, p) {
                        Err(e) => Err(e),
                        Ok((name, p2)) => match get_string(stream, p2) {
                            Err(e) => Err(e),
                            Ok((value, p3)) => Ok((TableEntry { name, value }, p3)),
                        },
                    }
                } else {
                    match self.get_static_entry_from_index(i) {
                        Err(e) => Err(e),
                        Ok(ent) => match get_string(stream, p) {
                            Err(e) => Err(e),
                            Ok((value, p2)) => Ok(
                                (TableEntry { name: ent.name, value }, p2),
                            ),
                        },
                    }
                }
            },
        }
    }

    /// Processes an indexed header field (`1xxxxxxx`): the prefix-7 index is
    /// resolved against the combined index space. No side effect.
    fn process_indexed(&self, stream: &Vec<u8>, pos: usize) -> (r: Result<
        (Header, usize),
        HpackError,
    >)
        requires
            pos <= stream@.len(),
        ensures
            match int_dec(stream@, pos as int, 7) {
                Err(e) => r == Err::<(Header, usize), HpackError>(e),
                Ok(ip) => match spec_lookup(self@.entries, ip.0) {
                    Err(e) => r == Err::<(Header, usize), HpackError>(e),
                    Ok(ent) => r matches Ok(hp) && hp.0@ == (HeaderModel {
                        name: ent.name,
                        value: ent.value,
                        directive: Directive::Indexed,
                    }) && hp.1 as int == ip.1 && pos < hp.1 <= stream@.len(),
                },
            },
    {
        match crate::decode_int_at(stream, pos, 7) {
            Err(e) => Err(e),
            Ok((i, p)) => match self.get_static_entry_from_index(i) {
                Err(e) => Err(e),
                Ok(ent) => Ok(
                    (
                        Header { name: ent.name, value: ent.value, directive: Directive::Indexed },
                        p,
                    ),
                ),
            },
        }
    }

    /// Processes a literal with incremental indexing (`01xxxxxx`): resolves
    /// the fields and appends the entry to the dynamic table.
    fn process_indexed_literal(&mut self, stream: &Vec<u8>, pos: usize) -> (r: Result<
        (Header, usize),
        HpackError,
    >)
        requires
            old(self).wf(),
            pos <= stream@.len(),
        ensures
            final(self).wf(),
            final(self)@.max_capacity == old(self)@.max_capacity,
            final(self)@.capacity == old(self)@.capacity,
            match spec_lit_fields(stream@, pos as int, old(self)@.entries, 6) {
                Err(e) => r == Err::<(Header, usize), HpackError>(e) && final(self)@ == old(
                    self,
                )@,
                Ok(vp) => r matches Ok(hp) && hp.0@ == (HeaderModel {
                    name: vp.0.name,
                    value: vp.0.value,
                    directive: Directive::Indexed,
                }) && hp.1 as int == vp.1 && pos < hp.1 <= stream@.len() && final(self)@.entries
                    == spec_table_add(old(self)@.entries, old(self)@.capacity, vp.0),
            },
    {
        match self.read_lit_fields(stream, pos, 6) {
            Err(e) => Err(e),
            Ok((ent, p)) => {
                let stored = clone_entry(&ent);
                self.dynamic_table.add(stored);
                Ok(
                    (
                        Header { name: ent.name, value: ent.value, directive: Directive::Indexed },
                        p,
                    ),
                )
            },
        }
    }

    /// Processes a literal without indexing (`0000xxxx`). No side effect.
    fn process_non_indexed_literal(&self, stream: &Vec<u8>, pos: usize) -> (r: Result<
        (Header, usize),
        HpackError,
    >)
        requires
            pos <= stream@.len(),
        ensures
            match spec_lit_fields(stream@, pos as int, self@.entries, 4) {
                Err(e) => r == Err::<(Header, usize), HpackError>(e),
                Ok(vp) => r matches Ok(hp) && hp.0@ == (HeaderModel {
                    name: vp.0.name,
                    value: vp.0.value,
                    directive: Directive::NotIndexed,
                }) && hp.1 as int == vp.1 && pos < hp.1 <= stream@.len(),
            },
    {
        match self.read_lit_fields(stream, pos, 4) {
            Err(e) => Err(e),
            Ok((ent, p)) => Ok(
                (
                    Header { name: ent.name, value: ent.value, directive: Directive::NotIndexed },
                    p,
                ),
            ),
        }
    }

    /// Processes a literal never indexed (`0001xxxx`). No side effect; the
    /// directive marks that no hop may store the field.
    fn process_never_indexed_literal(&self, stream: &Vec<u8>, pos: usize) -> (r: Result<
        (Header, usize),
        HpackError,
    >)
        requires
            pos <= stream@.len(),
        ensures
            match spec_lit_fields(stream@, pos as int, self@.entries, 4) {
                Err(e) => r == Err::<(Header, usize), HpackError>(e),
                Ok(vp) => r matches Ok(hp) && hp.0@ == (HeaderModel {
                    name: vp.0.name,
                    value: vp.0.value,
                    directive: Directive::NeverIndexed,
                }) && hp.1 as int == vp.1 && pos < hp.1 <= stream@.len(),
            },
    {
        match self.read_lit_fields(stream, pos, 4) {
            Err(e) => Err(e),
            Ok((ent, p)) => Ok(
                (
                    Header { name: ent.name, value: ent.value, directive: Directive::NeverIndexed },
                    p,
                ),
            ),
        }
    }
}

/// A list of already-decoded headers prepended to the outcome of decoding the
/// rest of a block; an error stands as it is.
pub open spec fn prepend_headers(
    hs: Seq<HeaderModel>,
    r: (Result<Seq<HeaderModel>, HpackError>, CtxModel),
) -> (Result<Seq<HeaderModel>, HpackError>, CtxModel) {
    match r.0 {
        Ok(rest) => (Ok(hs + rest), r.1),
        Err(e) => (Err(e), r.1),
    }
}

impl Hpack {
    /// Decodes one header block as per `spec_read_block`: the emitted header
    /// list in input order, or the first error, with the dynamic table as the
    /// block's side effects leave it. An error rejects the whole block; no
    /// partial header list is handed out.
    #[verifier::rlimit(60)]
    pub fn read_headers(&mut self, stream: Vec<u8>) -> (r: Result<Vec<Header>, HpackError>)
        requires
            old(self).wf(),
        ensures
            final(self).wf(),
            ({
                let (res, c2) = spec_read_block(stream@, old(self)@);
                final(self)@ == c2 && (match res {
                    Ok(hs) => r matches Ok(v) && v@.map_values(|h: Header| h@) == hs,
                    Err(e) => r == Err::<Vec<Header>, HpackError>(e),
                })
            }),
    {
        let ghost init_ctx = old(self)@;
        let mut headers: Vec<Header> = Vec::new();
        let mut pos: usize = 0;
        let mut updates: u32 = 0;
        let mut body_open = false;
        proof {
            assert(headers@.map_values(|h: Header| h@) =~= Seq::<HeaderModel>::empty());
            assert(spec_read_block(stream@, init_ctx) == prepend_headers(
                headers@.map_values(|h: Header| h@),
                spec_read(stream@, pos as int, self@, updates as int, body_open),
            )) by {
                let inner = spec_read(stream@, pos as int, self@, updates as int, body_open);
                match inner.0 {
                    Ok(rest) => {
                        assert(Seq::<HeaderModel>::empty() + rest =~= rest);
                    },
                    Err(_) => {},
                }
            }
        }
        while pos < stream.len()
            invariant
                self.wf(),
                init_ctx == old(self)@,
                pos <= stream@.len(),
                updates <= 2,
                spec_read_block(stream@, init_ctx) == prepend_headers(
                    headers@.map_values(|h: Header| h@),
                    spec_read(stream@, pos as int, self@, updates as int, body_open),
                ),
            decreases stream@.len() - pos,
        {
            let ghost prev = self@;
            let ghost ghs = headers@.map_values(|h: Header| h@);
            let ghost inner = spec_read(stream@, pos as int, self@, updates as int, body_open);
            let b = stream[pos];
            if b >= 128 {
                match self.process_indexed(&stream, pos) {
                    Err(e) => {
                        return Err(e);
                    },
                    Ok((hdr, p)) => {
                        proof {
                            let rest = spec_read(stream@, p as int, prev, updates as int, true);
                            assert(inner == prepend_header(rest, hdr@));
                            lemma_push_map(headers@, ghs, hdr);
                            match rest.0 {
                                Ok(tail) => {
                                    assert(ghs + (seq![hdr@] + tail) =~= (ghs + seq![hdr@])
                                        + tail);
                                },
                                Err(_) => {},
                            }
                        }
                        headers.push(hdr);
                        pos = p;
                        body_open = true;
                    },
                }
            } else if b >= 64 {
                match self.process_indexed_literal(&stream, pos) {
                    Err(e) => {
                        return Err(e);
                    },
                    Ok((hdr, p)) => {
                        proof {
                            let vp = spec_lit_fields(stream@, pos as int, prev.entries, 6)->Ok_0;
                            let ctx2 = CtxModel {
                                entries: spec_table_add(prev.entries, prev.capacity, vp.0),
                                ..prev
                            };
                            assert(self@ =~= ctx2);
                            let rest = spec_read(stream@, p as int, ctx2, updates as int, true);
                            assert(inner == prepend_header(rest, hdr@));
                            lemma_push_map(headers@, ghs, hdr);
                            match rest.0 {
                                Ok(tail) => {
                                    assert(ghs + (seq![hdr@] + tail) =~= (ghs + seq![hdr@])
                                        + tail);
                                },
                                Err(_) => {},
                            }
                        }
                        headers.push(hdr);
                        pos = p;
                        body_open = true;
                    },
                }
            } else if b >= 32 {
                if body_open || updates >= 2 {
                    return Err(HpackError::CompressionError);
                }
                match crate::decode_int_at(&stream, pos, 5) {
                    Err(e) => {
                        return Err(e);
                    },
                    Ok((sz, p)) => {
                        if (sz as usize) > self.max_capacity {
                            return Err(HpackError::CompressionError);
                        }
                        self.dynamic_table.set_size(sz as usize);
                        proof {
                            let ctx2 = CtxModel {
                                entries: evict_to(prev.entries, sz as int),
                                capacity: sz as int,
                                ..prev
                            };
                            assert(self@ =~= ctx2);
                            assert(inner == spec_read(
                                stream@,
                                p as int,
                                ctx2,
                                updates + 1,
                                body_open,
                            ));
                        }
                        updates = updates + 1;
                        pos = p;
                    },
                }
            } else if b >= 16 {
                match self.process_never_indexed_literal(&stream, pos) {
                    Err(e) => {
                        return Err(e);
                    },
                    Ok((hdr, p)) => {
                        proof {
                            let rest = spec_read(stream@, p as int, prev, updates as int, true);
                            assert(inner == prepend_header(rest, hdr@));
                            lemma_push_map(headers@, ghs, hdr);
                            match rest.0 {
                                Ok(tail) => {
                                    assert(ghs + (seq![hdr@] + tail) =~= (ghs + seq![hdr@])
                                        + tail);
                                },
                                Err(_) => {},
                            }
                        }
                        headers.push(hdr);
                        pos = p;
                        body_open = true;
                    },
                }
            } else {
                match self.process_non_indexed_literal(&stream, pos) {
                    Err(e) => {
                        return Err(e);
                    },
                    Ok((hdr, p)) => {
                        proof {
                            let rest = spec_read(stream@, p as int, prev, updates as int, true);
                            assert(inner == prepend_header(rest, hdr@));
                            lemma_push_map(headers@, ghs, hdr);
                            match rest.0 {
                                Ok(tail) => {
                                    assert(ghs + (seq![hdr@] + tail) =~= (ghs + seq![hdr@])
                                        + tail);
                                },
                                Err(_) => {},
                            }
                        }
                        headers.push(hdr);
                        pos = p;
                        body_open = true;
                    },
                }
            }
        }
        proof {
            let inner = spec_read(stream@, pos as int, self@, updates as int, body_open);
            assert(inner == (Ok::<Seq<HeaderModel>, HpackError>(Seq::<HeaderModel>::empty()), self@));
            assert(headers@.map_values(|h: Header| h@) + Seq::<HeaderModel>::empty()
                =~= headers@.map_values(|h: Header| h@));
        }
        Ok(headers)
    }
}

/// Pushing a header onto a vector extends the shadow list by its model.
proof fn lemma_push_map(hs: Seq<Header>, ghs: Seq<HeaderModel>, h: Header)
    requires
        ghs == hs.map_values(|x: Header| x@),
    ensures
        hs.push(h).map_values(|x: Header| x@) == ghs + seq![h@],
{
    assert(hs.push(h).map_values(|x: Header| x@) =~= ghs + seq![h@]);
}

/// The two strings of a literal representation the encoder emits: name and
/// value, each length-prefixed, Huffman flag clear.
pub open spec fn spec_lit_strings(h: HeaderModel) -> Seq<u8> {
    crate::spec_string_enc(h.name, false) + crate::spec_string_enc(h.value, false)
}

/// The representation the encoder emits for one header: always a literal
/// with a new name (index zero), under the flag octet its directive calls
/// for. A linear table-matching policy is left to callers that want denser
/// output; correctness does not depend on it.
pub open spec fn spec_encode_header(h: HeaderModel) -> Seq<u8> {
    match h.directive {
        Directive::Indexed => seq![64u8] + spec_lit_strings(h),
        Directive::NotIndexed => seq![0u8] + spec_lit_strings(h),
        Directive::NeverIndexed => seq![16u8] + spec_lit_strings(h),
    }
}

/// The encoder's output for a header list: the headers' representations in
/// order.
pub open spec fn spec_encode_block(hs: Seq<HeaderModel>) -> Seq<u8>
    decreases hs.len(),
{
    if hs.len() == 0 {
        Seq::empty()
    } else {
        spec_encode_header(hs[0]) + spec_encode_block(hs.drop_first())
    }
}

/// The table entry a header stands for.
pub open spec fn entry_of(h: HeaderModel) -> EntryModel {
    EntryModel { name: h.name, value: h.value }
}

/// The dynamic table after the encoder has emitted a header list: each
/// header with incremental-indexing semantics is added in order, as the
/// decoder on the other side will add it.
pub open spec fn spec_encode_adds(hs: Seq<HeaderModel>, entries: Seq<EntryModel>, cap: int) -> Seq<
    EntryModel,
>
    decreases hs.len(),
{
    if hs.len() == 0 {
        entries
    } else {
        let e2 = if hs[0].directive is Indexed {
            spec_table_add(entries, cap, entry_of(hs[0]))
        } else {
            entries
        };
        spec_encode_adds(hs.drop_first(), e2, cap)
    }
}

impl Hpack {
    /// Encodes a header list into one header block as per
    /// `spec_encode_block`, entering each incrementally-indexed header into
    /// the dynamic table. Name and value lengths are capped at the 32-bit
    /// maximum the integer codec accepts.
    pub fn encode_block(&mut self, headers: &Vec<Header>) -> (r: Vec<u8>)
        requires
            old(self).wf(),
            forall|k: int|
                0 <= k < headers@.len() ==> (#[trigger] headers@[k])@.name.len() <= u32::MAX
                    && headers@[k]@.value.len() <= u32::MAX,
        ensures
            final(self).wf(),
            r@ == spec_encode_block(headers@.map_values(|h: Header| h@)),
            final(self)@.capacity == old(self)@.capacity,
            final(self)@.max_capacity == old(self)@.max_capacity,
            final(self)@.entries == spec_encode_adds(
                headers@.map_values(|h: Header| h@),
                old(self)@.entries,
                old(self)@.capacity,
            ),
    {
        let ghost full = headers@.map_values(|h: Header| h@);
        let ghost init_entries = old(self)@.entries;
        let ghost cap = old(self)@.capacity;
        let mut out: Vec<u8> = Vec::new();
        let mut k: usize = 0;
        proof {
            assert(full.skip(0) =~= full);
        }
        while k < headers.len()
            invariant
                self.wf(),
                k <= headers@.len(),
                full == headers@.map_values(|h: Header| h@),
                self@.capacity == cap,
                self@.max_capacity == old(self)@.max_capacity,
                forall|j: int|
                    0 <= j < headers@.len() ==> (#[trigger] headers@[j])@.name.len() <= u32::MAX
                        && headers@[j]@.value.len() <= u32::MAX,
                spec_encode_block(full) == out@ + spec_encode_block(full.skip(k as int)),
                spec_encode_adds(full, init_entries, cap) == spec_encode_adds(
                    full.skip(k as int),
                    self@.entries,
                    cap,
                ),
            decreases headers@.len() - k,
        {
            let ghost prev = self@;
            let h = &headers[k];
            proof {
                assert(full.skip(k as int)[0] == full[k as int]);
                assert(full.skip(k as int).drop_first() =~= full.skip(k + 1));
                assert(full[k as int] == h@);
            }
            let base = match crate::new_literal(
                h.value.as_slice(),
                0,
                Some(h.name.as_slice()),
                false,
            ) {
                Ok(v) => v,
                Err(_) => {
                    proof {
                        assert(false);
                    }
                    Vec::new()
                },
            };
            proof {
                lemma2_to64();
                assert(base@ == crate::spec_literal_new_name(h.name@, h.value@, false));
                assert(base@[0] == 64);
                assert(base@.len() >= 1);
                assert((64 as u8 as nat) % pow2(6) == 0);
                assert(int_dec(base@, 0, 6) == Ok::<(nat, int), HpackError>((0, 1)));
                assert(int_enc(4, 0) =~= seq![0u8]);
                assert(int_enc(6, 0) =~= seq![0u8]);
                assert(base@.subrange(1, base@.len() as int) =~= spec_lit_strings(h@));
            }
            let mut bytes = match h.directive {
                Directive::Indexed => {
                    let stored = TableEntry {
                        name: clone_bytes(&h.name),
                        value: clone_bytes(&h.value),
                    };
                    self.dynamic_table.add(stored);
                    base
                },
                Directive::NotIndexed => crate::not_indexed(base),
                Directive::NeverIndexed => crate::never_indexed(base),
            };
            proof {
                assert(bytes@ =~= spec_encode_header(h@));
                assert(out@ + bytes@ + spec_encode_block(full.skip(k + 1)) =~= out@ + (bytes@
                    + spec_encode_block(full.skip(k + 1))));
                assert(spec_encode_block(full.skip(k as int)) == spec_encode_header(h@)
                    + spec_encode_block(full.skip(k + 1)));
            }
            out.append(&mut bytes);
            k = k + 1;
        }
        proof {
            assert(full.skip(full.len() as int) =~= Seq::<HeaderModel>::empty());
            assert(out@ + Seq::<u8>::empty() =~= out@);
        }
        out
    }
}

/// A string encoding with the Huffman flag clear, placed at `pos` in `s`,
/// decodes back to its octets, advancing the cursor just past it.
proof fn lemma_str_enc_decodes(s: Seq<u8>, pos: int, strv: Seq<u8>)
    requires
        0 <= pos,
        strv.len() <= u32::MAX,
        pos + crate::spec_string_enc(strv, false).len() <= s.len(),
        s.subrange(pos, pos + crate::spec_string_enc(strv, false).len() as int)
            == crate::spec_string_enc(strv, false),
    ensures
        spec_str_dec(s, pos) == Ok::<(Seq<u8>, int), HpackError>(
            (strv, pos + crate::spec_string_enc(strv, false).len()),
        ),
{
    lemma2_to64();
    let whole = crate::spec_string_enc(strv, false);
    let le = int_enc(7, strv.len());
    assert(whole == le + strv);
    assert forall|j: int| 0 <= j < whole.len() implies s[pos + j] == whole[j] by {
        assert(s.subrange(pos, pos + whole.len() as int)[j] == s[pos + j]);
    }
    assert(le.len() >= 1);
    assert(whole[0] == le[0]);
    assert(s[pos] == whole[0]);
    assert(le[0] < 128);
    assert(s.subrange(pos, pos + le.len() as int) =~= le);
    crate::lemma_int_dec_of_enc(s, pos, 7, strv.len());
    let p = pos + le.len();
    assert(int_dec(s, pos, 7) == Ok::<(nat, int), HpackError>((strv.len(), p)));
    assert(p + strv.len() <= s.len());
    assert(s.subrange(p, p + strv.len() as int) =~= strv) by {
        assert forall|j: int| 0 <= j < strv.len() implies s.subrange(
            p,
            p + strv.len() as int,
        )[j] == strv[j] by {
            assert(s[p + j] == whole[le.len() + j]);
        }
    }
}

/// Every header in the list has a name and value whose lengths fit the
/// integer codec's 32-bit bound.
pub open spec fn wf_lens(hs: Seq<HeaderModel>) -> bool {
    forall|k: int|
        0 <= k < hs.len() ==> (#[trigger] hs[k]).name.len() <= u32::MAX && hs[k].value.len()
            <= u32::MAX
}

/// An encoded header block standing as the whole remainder of `s` from `pos`
/// decodes back to exactly the list it encodes, whatever the context and the
/// size-update state: the encoder only emits literal representations with new
/// names, which reference no table entry.
#[verifier::rlimit(100)]
proof fn lemma_encode_block_decodes(
    s: Seq<u8>,
    pos: int,
    hs: Seq<HeaderModel>,
    ctx: CtxModel,
    updates: int,
    body: bool,
)
    requires
        0 <= pos <= s.len(),
        s.subrange(pos, s.len() as int) == spec_encode_block(hs),
        wf_lens(hs),
    ensures
        spec_read(s, pos, ctx, updates, body) == (
            Ok::<Seq<HeaderModel>, HpackError>(hs),
            CtxModel { entries: spec_encode_adds(hs, ctx.entries, ctx.capacity), ..ctx },
        ),
    decreases hs.len(),
{
    lemma2_to64();
    let block = s.subrange(pos, s.len() as int);
    if hs.len() == 0 {
        assert(spec_encode_block(hs) =~= Seq::<u8>::empty());
        assert(s.len() == pos);
        assert(hs =~= Seq::<HeaderModel>::empty());
        assert((CtxModel { entries: spec_encode_adds(hs, ctx.entries, ctx.capacity), ..ctx })
            =~= ctx);
    } else {
        let h = hs[0];
        let rest = hs.drop_first();
        assert(wf_lens(rest)) by {
            assert(forall|k: int| 0 <= k < rest.len() ==> rest[k] == hs[k + 1]);
        }
        let eh = spec_encode_header(h);
        let tail = spec_encode_block(rest);
        assert(block == eh + tail);
        assert forall|j: int| 0 <= j < block.len() implies s[pos + j] == block[j] by {
            assert(block[j] == s[pos + j]);
        }
        let ls = spec_lit_strings(h);
        let ne = crate::spec_string_enc(h.name, false);
        let ve = crate::spec_string_enc(h.value, false);
        assert(eh == seq![eh[0]] + ls) by {
            match h.directive {
                Directive::Indexed => {
                    assert(eh =~= seq![64u8] + ls);
                    assert(eh[0] == 64);
                },
                Directive::NotIndexed => {
                    assert(eh =~= seq![0u8] + ls);
                    assert(eh[0] == 0);
                },
                Directive::NeverIndexed => {
                    assert(eh =~= seq![16u8] + ls);
                    assert(eh[0] == 16);
                },
            }
            assert(eh =~= seq![eh[0]] + ls);
        }
        let p1 = pos + 1;
        let p2 = p1 + ne.len();
        let p3 = p2 + ve.len();
        assert(eh.len() == 1 + ne.len() + ve.len());
        assert(p3 <= s.len());
        assert(s[pos] == block[0]);
        assert(block[0] == eh[0]);
        assert forall|j: int| 0 <= j < ne.len() implies s[p1 + j] == ne[j] by {
            assert(s[pos + (1 + j)] == block[1 + j]);
            assert(block[1 + j] == eh[1 + j]);
            assert(eh[1 + j] == ls[j]);
            assert(ls[j] == ne[j]);
        }
        assert(s.subrange(p1, p1 + ne.len() as int) =~= ne);
        assert forall|j: int| 0 <= j < ve.len() implies s[p2 + j] == ve[j] by {
            assert(s[pos + (1 + ne.len() + j)] == block[1 + ne.len() + j]);
            assert(block[1 + ne.len() + j] == eh[1 + ne.len() + j]);
            assert(eh[1 + ne.len() + j] == ls[ne.len() + j]);
            assert(ls[ne.len() + j] == ve[j]);
        }
        assert(s.subrange(p2, p2 + ve.len() as int) =~= ve);
        assert(h.name.len() <= u32::MAX && h.value.len() <= u32::MAX);
        lemma_str_enc_decodes(s, p1, h.name);
        lemma_str_enc_decodes(s, p2, h.value);
        assert(spec_str_dec(s, p1) == Ok::<(Seq<u8>, int), HpackError>((h.name, p2)));
        assert(spec_str_dec(s, p2) == Ok::<(Seq<u8>, int), HpackError>((h.value, p3)));
        assert(s.subrange(p3, s.len() as int) =~= tail) by {
            assert forall|j: int| 0 <= j < tail.len() implies s.subrange(p3, s.len() as int)[j]
                == tail[j] by {
                assert(s.subrange(p3, s.len() as int)[j] == s[p3 + j]);
                assert(s[pos + (eh.len() + j)] == block[eh.len() + j]);
                assert(block[eh.len() + j] == tail[j]);
            }
        }
        let target = CtxModel {
            entries: spec_encode_adds(hs, ctx.entries, ctx.capacity),
            ..ctx
        };
        assert(seq![h] + rest =~= hs);
        match h.directive {
            Directive::Indexed => {
                let b = s[pos];
                assert(b == 64);
                assert((b as nat) % pow2(6) == 0);
                assert(int_dec(s, pos, 6) == Ok::<(nat, int), HpackError>((0, p1)));
                assert(spec_lit_fields(s, pos, ctx.entries, 6) == Ok::<
                    (EntryModel, int),
                    HpackError,
                >((entry_of(h), p3)));
                let ctx2 = CtxModel {
                    entries: spec_table_add(ctx.entries, ctx.capacity, entry_of(h)),
                    ..ctx
                };
                lemma_encode_block_decodes(s, p3, rest, ctx2, updates, true);
                let hm = HeaderModel {
                    name: entry_of(h).name,
                    value: entry_of(h).value,
                    directive: Directive::Indexed,
                };
                assert(hm =~= h);
                assert(spec_encode_adds(hs, ctx.entries, ctx.capacity) == spec_encode_adds(
                    rest,
                    ctx2.entries,
                    ctx.capacity,
                ));
                assert(spec_read(s, pos, ctx, updates, body) == prepend_header(
                    spec_read(s, p3, ctx2, updates, true),
                    hm,
                ));
                assert(spec_read(s, pos, ctx, updates, body).0 == Ok::<
                    Seq<HeaderModel>,
                    HpackError,
                >(hs));
                assert(spec_read(s, pos, ctx, updates, body).1 =~= target);
            },
            Directive::NotIndexed => {
                let b = s[pos];
                assert(b == 0);
                assert((b as nat) % pow2(4) == 0);
                assert(int_dec(s, pos, 4) == Ok::<(nat, int), HpackError>((0, p1)));
                assert(spec_lit_fields(s, pos, ctx.entries, 4) == Ok::<
                    (EntryModel, int),
                    HpackError,
                >((entry_of(h), p3)));
                lemma_encode_block_decodes(s, p3, rest, ctx, updates, true);
                let hm = HeaderModel {
                    name: entry_of(h).name,
                    value: entry_of(h).value,
                    directive: Directive::NotIndexed,
                };
                assert(hm =~= h);
                assert(spec_encode_adds(hs, ctx.entries, ctx.capacity) == spec_encode_adds(
                    rest,
                    ctx.entries,
                    ctx.capacity,
                ));
                assert(spec_read(s, pos, ctx, updates, body) == prepend_header(
                    spec_read(s, p3, ctx, updates, true),
                    hm,
                ));
                assert(spec_read(s, pos, ctx, updates, body).0 == Ok::<
                    Seq<HeaderModel>,
                    HpackError,
                >(hs));
                assert(spec_read(s, pos, ctx, updates, body).1 =~= target);
            },
            Directive::NeverIndexed => {
                let b = s[pos];
                assert(b == 16);
                assert((b as nat) % pow2(4) == 0);
                assert(int_dec(s, pos, 4) == Ok::<(nat, int), HpackError>((0, p1)));
                assert(spec_lit_fields(s, pos, ctx.entries, 4) == Ok::<
                    (EntryModel, int),
                    HpackError,
                >((entry_of(h), p3)));
                lemma_encode_block_decodes(s, p3, rest, ctx, updates, true);
                let hm = HeaderModel {
                    name: entry_of(h).name,
                    value: entry_of(h).value,
                    directive: Directive::NeverIndexed,
                };
                assert(hm =~= h);
                assert(spec_encode_adds(hs, ctx.entries, ctx.capacity) == spec_encode_adds(
                    rest,
                    ctx.entries,
                    ctx.capacity,
                ));
                assert(spec_read(s, pos, ctx, updates, body) == prepend_header(
                    spec_read(s, p3, ctx, updates, true),
                    hm,
                ));
                assert(spec_read(s, pos, ctx, updates, body).0 == Ok::<
                    Seq<HeaderModel>,
                    HpackError,
                >(hs));
                assert(spec_read(s, pos, ctx, updates, body).1 =~= target);
            },
        }
    }
}

/// Every entry of the table has a name and value whose lengths fit the
/// integer codec's 32-bit bound.
pub open spec fn wf_lens_entries(es: Seq<EntryModel>) -> bool {
    forall|k: int|
        0 <= k < es.len() ==> (#[trigger] es[k]).name.len() <= u32::MAX && es[k].value.len()
            <= u32::MAX
}

/// Eviction preserves the length bound: what survives was already there.
proof fn lemma_evict_wf_lens(es: Seq<EntryModel>, budget: int)
    requires
        wf_lens_entries(es),
    ensures
        wf_lens_entries(evict_to(es, budget)),
{
    crate::dyn_table::lemma_evict_to_prefix(es, budget);
    let kept = evict_to(es, budget);
    assert(forall|k: int| 0 <= k < kept.len() ==> kept[k] == es[k]);
}

/// Adding a bounded entry preserves the length bound.
proof fn lemma_add_wf_lens(es: Seq<EntryModel>, cap: int, e: EntryModel)
    requires
        wf_lens_entries(es),
        e.name.len() <= u32::MAX,
        e.value.len() <= u32::MAX,
    ensures
        wf_lens_entries(spec_table_add(es, cap, e)),
{
    if entry_size(e) > cap {
    } else {
        lemma_evict_wf_lens(es, cap - entry_size(e));
        let kept = evict_to(es, cap - entry_size(e));
        let added = seq![e] + kept;
        assert(forall|k: int| 1 <= k < added.len() ==> added[k] == kept[k - 1]);
        assert(added[0] == e);
    }
}

/// What a lookup returns is bounded: static entries are short and dynamic
/// entries carry the table's bound.
proof fn lemma_lookup_wf_lens(es: Seq<EntryModel>, i: nat)
    requires
        wf_lens_entries(es),
    ensures
        spec_lookup(es, i) matches Ok(e) ==> e.name.len() <= u32::MAX && e.value.len()
            <= u32::MAX,
{
    crate::static_table::lemma_static_entry_lens();
}

/// What the literal-field parser returns is bounded.
proof fn lemma_lit_fields_wf_lens(s: Seq<u8>, pos: int, es: Seq<EntryModel>, n: nat)
    requires
        1 <= n <= 8,
        wf_lens_entries(es),
    ensures
        spec_lit_fields(s, pos, es, n) matches Ok(vp) ==> vp.0.name.len() <= u32::MAX
            && vp.0.value.len() <= u32::MAX,
{
    match int_dec(s, pos, n) {
        Ok((i, p)) => {
            lemma_str_dec_bounds(s, p);
            if i == 0 {
                match spec_str_dec(s, p) {
                    Ok((nm, p2)) => {
                        lemma_str_dec_bounds(s, p2);
                    },
                    Err(_) => {},
                }
            } else {
                lemma_lookup_wf_lens(es, i);
            }
        },
        Err(_) => {},
    }
}

/// Whatever the decoder emits is bounded: every header of a decoded list,
/// and every entry of the table it leaves behind, has a name and value
/// within the integer codec's 32-bit bound, provided the table it started
/// from had that bound.
pub proof fn lemma_decode_wf_lens(s: Seq<u8>, pos: int, ctx: CtxModel, updates: int, body: bool)
    requires
        wf_lens_entries(ctx.entries),
    ensures
        (spec_read(s, pos, ctx, updates, body).0 matches Ok(hs) ==> wf_lens(hs)),
        wf_lens_entries(spec_read(s, pos, ctx, updates, body).1.entries),
    decreases s.len() - pos,
{
    if pos < 0 || pos >= s.len() {
        assert(spec_read(s, pos, ctx, updates, body).0 matches Ok(hs) ==> wf_lens(hs)) by {
            assert(wf_lens(Seq::<HeaderModel>::empty()));
        }
    } else {
        let b = s[pos];
        if b >= 128 {
            match int_dec(s, pos, 7) {
                Err(_) => {},
                Ok((i, p)) => {
                    lemma_int_dec_bounds(s, pos, 7);
                    match spec_lookup(ctx.entries, i) {
                        Err(_) => {},
                        Ok(ent) => {
                            lemma_lookup_wf_lens(ctx.entries, i);
                            lemma_decode_wf_lens(s, p, ctx, updates, true);
                            let hm = HeaderModel {
                                name: ent.name,
                                value: ent.value,
                                directive: Directive::Indexed,
                            };
                            lemma_prepend_wf(spec_read(s, p, ctx, updates, true), hm);
                        },
                    }
                },
            }
        } else if b >= 64 {
            match spec_lit_fields(s, pos, ctx.entries, 6) {
                Err(_) => {},
                Ok((ent, p)) => {
                    lemma_lit_fields_bounds(s, pos, ctx.entries, 6);
                    lemma_lit_fields_wf_lens(s, pos, ctx.entries, 6);
                    let ctx2 = CtxModel {
                        entries: spec_table_add(ctx.entries, ctx.capacity, ent),
                        ..ctx
                    };
                    lemma_add_wf_lens(ctx.entries, ctx.capacity, ent);
                    lemma_decode_wf_lens(s, p, ctx2, updates, true);
                    let hm = HeaderModel {
                        name: ent.name,
                        value: ent.value,
                        directive: Directive::Indexed,
                    };
                    lemma_prepend_wf(spec_read(s, p, ctx2, updates, true), hm);
                },
            }
        } else if b >= 32 {
            if body || updates >= 2 {
            } else {
                match int_dec(s, pos, 5) {
                    Err(_) => {},
                    Ok((sz, p)) => {
                        lemma_int_dec_bounds(s, pos, 5);
                        if sz > ctx.max_capacity {
                        } else {
                            let ctx2 = CtxModel {
                                entries: evict_to(ctx.entries, sz as int),
                                capacity: sz as int,
                                ..ctx
                            };
                            lemma_evict_wf_lens(ctx.entries, sz as int);
                            lemma_decode_wf_lens(s, p, ctx2, updates + 1, body);
                        }
                    },
                }
            }
        } else if b >= 16 {
            match spec_lit_fields(s, pos, ctx.entries, 4) {
                Err(_) => {},
                Ok((ent, p)) => {
                    lemma_lit_fields_bounds(s, pos, ctx.entries, 4);
                    lemma_lit_fields_wf_lens(s, pos, ctx.entries, 4);
                    lemma_decode_wf_lens(s, p, ctx, updates, true);
                    let hm = HeaderModel {
                        name: ent.name,
                        value: ent.value,
                        directive: Directive::NeverIndexed,
                    };
                    lemma_prepend_wf(spec_read(s, p, ctx, updates, true), hm);
                },
            }
        } else {
            match spec_lit_fields(s, pos, ctx.entries, 4) {
                Err(_) => {},
                Ok((ent, p)) => {
                    lemma_lit_fields_bounds(s, pos, ctx.entries, 4);
                    lemma_lit_fields_wf_lens(s, pos, ctx.entries, 4);
                    lemma_decode_wf_lens(s, p, ctx, updates, true);
                    let hm = HeaderModel {
                        name: ent.name,
                        value: ent.value,
                        directive: Directive::NotIndexed,
                    };
                    lemma_prepend_wf(spec_read(s, p, ctx, updates, true), hm);
                },
            }
        }
    }
}

/// Prepending a bounded header keeps a decoded list bounded.
proof fn lemma_prepend_wf(r: (Result<Seq<HeaderModel>, HpackError>, CtxModel), h: HeaderModel)
    requires
        r.0 matches Ok(hs) ==> wf_lens(hs),
        h.name.len() <= u32::MAX,
        h.value.len() <= u32::MAX,
    ensures
        prepend_header(r, h).0 matches Ok(hs) ==> wf_lens(hs),
{
    match r.0 {
        Ok(hs) => {
            let whole = seq![h] + hs;
            assert(forall|k: int| 1 <= k < whole.len() ==> whole[k] == hs[k - 1]);
            assert(whole[0] == h);
        },
        Err(_) => {},
    }
}

/// Law: a header block that decodes successfully round-trips. Re-encoding
/// the decoded list, with its directive tags, against a context with the
/// same capacity produces a block that decodes against that same context to
/// exactly the original list. The context's own entries only need the
/// codec's 32-bit length bound, which a fresh (empty) table has trivially.
pub proof fn lemma_block_round_trip(s: Seq<u8>, ctx: CtxModel)
    requires
        wf_lens_entries(ctx.entries),
        spec_read_block(s, ctx).0 is Ok,
    ensures
        ({
            let hs = spec_read_block(s, ctx).0->Ok_0;
            spec_read_block(spec_encode_block(hs), ctx).0 == Ok::<Seq<HeaderModel>, HpackError>(
                hs,
            )
        }),
{
    let hs = spec_read_block(s, ctx).0->Ok_0;
    lemma_decode_wf_lens(s, 0, ctx, 0, false);
    let enc = spec_encode_block(hs);
    assert(enc.subrange(0, enc.len() as int) =~= enc);
    lemma_encode_block_decodes(enc, 0, hs, ctx, 0, false);
}

} // verus!
