//! Layout of the pack container: a fixed header, the ID section, one
//! descriptor per resource and the resources' artifacts, all in manifest
//! order, with big-endian integers.
use vstd::prelude::*;
use vstd::string::StringSliceAdditionalSpecFns;
use vstd::utf8::encode_utf8;
use crate::resource::{CompressionType, PackError, Resource};

verus! {

/// Version number written in the header.
pub const FORMAT_VERSION: u16 = 1;

/// Size of the fixed header: magic, version, resource count, ID section length.
pub const HEADER_SIZE: u64 = 12;

/// Size of one descriptor: ID offset and length, flags, data offset and
/// length, uncompressed length.
pub const DESCRIPTOR_SIZE: u64 = 20;

/// Flag bit set in a descriptor whose artifact is LZ77-compressed.
pub const FLAG_LZ77_COMPRESSED: u16 = 1;

/// Largest value of a 16-bit field.
pub const MAX_U16: u64 = 0xffff;

/// Largest value of a 32-bit field.
pub const MAX_U32: u64 = 0xffff_ffff;

/// A resource ready to be packed.
#[derive(Clone, Debug)]
pub struct PackEntry {
    /// The manifest entry.
    pub resource: Resource,
    /// Size of the source file.
    pub uncompressed_length: u64,
    /// The generated artifact's bytes.
    pub artifact: Vec<u8>,
}

/// The descriptor of one resource in the pack.
#[derive(Clone, Copy, Debug, PartialEq, Eq, Structural)]
pub struct ResourceRecord {
    /// Where the resource's ID starts in the ID section.
    pub id_offset: u32,
    /// Length of the ID in bytes.
    pub id_length: u16,
    /// Bit 0 set iff the artifact is LZ77-compressed.
    pub flags: u16,
    /// Where the artifact starts in the pack.
    pub data_offset: u32,
    /// Size of the artifact.
    pub data_length: u32,
    /// Size of the source file.
    pub uncompressed_length: u32,
}

/// The bytes of an entry's ID.
pub open spec fn id_of(e: PackEntry) -> Seq<u8> {
    encode_utf8(e.resource.id@)
}

/// Total length of the IDs of the first `k` entries.
pub open spec fn ids_len(es: Seq<PackEntry>, k: int) -> int
    decreases k,
{
    if k <= 0 { 0 } else { ids_len(es, k - 1) + id_of(es[k - 1]).len() }
}

/// Total length of the artifacts of the first `k` entries.
pub open spec fn data_len(es: Seq<PackEntry>, k: int) -> int
    decreases k,
{
    if k <= 0 { 0 } else { data_len(es, k - 1) + es[k - 1].artifact@.len() }
}

/// Null bytes that bring a length of `n` to a multiple of four.
pub open spec fn pad4(n: int) -> int {
    (4 - n % 4) % 4
}

/// Length of the padded ID section.
pub open spec fn id_section_len(es: Seq<PackEntry>) -> int {
    ids_len(es, es.len() as int) + pad4(ids_len(es, es.len() as int))
}

/// Where the artifacts start: right after the descriptor table.
pub open spec fn data_start(es: Seq<PackEntry>) -> int {
    HEADER_SIZE + id_section_len(es) + DESCRIPTOR_SIZE * es.len()
}

/// Every count, length and offset of the pack fits its field.
pub open spec fn layout_fits(es: Seq<PackEntry>) -> bool {
    &&& es.len() <= MAX_U16
    &&& forall|i: int| 0 <= i < es.len() ==> id_of(#[trigger] es[i]).len() <= MAX_U16 && es[i].uncompressed_length <= MAX_U32
    &&& data_start(es) + data_len(es, es.len() as int) <= MAX_U32
}

/// The flags of an entry's descriptor.
pub open spec fn flags_of(e: PackEntry) -> u16 {
    if e.resource.compression == CompressionType::LZ77 { FLAG_LZ77_COMPRESSED } else { 0 }
}

/// The descriptor of entry `i`.
pub open spec fn record_spec(es: Seq<PackEntry>, i: int) -> ResourceRecord {
    ResourceRecord {
        id_offset: ids_len(es, i) as u32,
        id_length: id_of(es[i]).len() as u16,
        flags: flags_of(es[i]),
        data_offset: (data_start(es) + data_len(es, i)) as u32,
        data_length: es[i].artifact@.len() as u32,
        uncompressed_length: es[i].uncompressed_length as u32,
    }
}

/// The descriptors of all entries, in manifest order.
pub open spec fn records_spec(es: Seq<PackEntry>) -> Seq<ResourceRecord> {
    Seq::new(es.len(), |i: int| record_spec(es, i))
}

proof fn lemma_prefix_mono(es: Seq<PackEntry>, i: int, j: int)
    requires
        0 <= i <= j <= es.len(),
    ensures
        0 <= ids_len(es, i) <= ids_len(es, j),
        0 <= data_len(es, i) <= data_len(es, j),
    decreases j - i,
{
    if i < j {
        lemma_prefix_mono(es, i, j - 1);
    } else {
        lemma_prefix_mono_zero(es, i);
    }
}

proof fn lemma_prefix_mono_zero(es: Seq<PackEntry>, i: int)
    requires
        0 <= i <= es.len(),
    ensures
        0 <= ids_len(es, i),
        0 <= data_len(es, i),
    decreases i,
{
    if i > 0 {
        lemma_prefix_mono_zero(es, i - 1);
    }
}

/// The descriptors of the entries, or `LayoutOverflow` when some count,
/// length or offset does not fit its field.
pub fn build_records(entries: &Vec<PackEntry>) -> (r: Result<Vec<ResourceRecord>, PackError>)
    ensures
        match r {
            Ok(recs) => layout_fits(entries@) && recs@ == records_spec(entries@),
            Err(e) => !layout_fits(entries@) && e == PackError::LayoutOverflow,
        },
{
    let ghost es = entries@;
    let n = entries.len();
    if n as u64 > MAX_U16 {
        return Err(PackError::LayoutOverflow);
    }
    let mut total_ids: u64 = 0;
    let mut total_data: u64 = 0;
    let mut i: usize = 0;
    while i < n
        invariant
            es == entries@,
            n == es.len(),
            n <= MAX_U16,
            i <= n,
            total_ids == ids_len(es, i as int),
            total_data == data_len(es, i as int),
            total_ids <= MAX_U32,
            total_data <= MAX_U32,
            forall|j: int| 0 <= j < i ==> id_of(#[trigger] es[j]).len() <= MAX_U16 && es[j].uncompressed_length <= MAX_U32,
        decreases n - i,
    {
        let entry = &entries[i];
        let id_bytes = entry.resource.id.as_str().as_bytes();
        let id_length = id_bytes.len() as u64;
        assert(id_bytes@ == id_of(*entry));
        let artifact_length = entry.artifact.len() as u64;
        proof {
            lemma_prefix_mono(es, i + 1, n as int);
            lemma_prefix_mono_zero(es, 0);
        }
        if id_length > MAX_U16 || entry.uncompressed_length > MAX_U32 {
            assert(!layout_fits(es)) by {
                assert(id_of(es[i as int]).len() == id_length);
            }
            return Err(PackError::LayoutOverflow);
        }
        if id_length > MAX_U32 - total_ids || artifact_length > MAX_U32 - total_data {
            return Err(PackError::LayoutOverflow);
        }
        total_ids = total_ids + id_length;
        total_data = total_data + artifact_length;
        i += 1;
    }
    let padding: u64 = (4 - total_ids % 4) % 4;
    let start: u64 = HEADER_SIZE + total_ids + padding + DESCRIPTOR_SIZE * n as u64;
    assert(start == data_start(es));
    if start > MAX_U32 || total_data > MAX_U32 - start {
        return Err(PackError::LayoutOverflow);
    }
    let mut records: Vec<ResourceRecord> = Vec::new();
    let mut id_offset: u64 = 0;
    let mut data_offset: u64 = start;
    let mut i: usize = 0;
    while i < n
        invariant
            es == entries@,
            n == es.len(),
            layout_fits(es),
            start == data_start(es),
            i <= n,
            id_offset == ids_len(es, i as int),
            data_offset == start + data_len(es, i as int),
            records@ =~= Seq::new(i as nat, |j: int| record_spec(es, j)),
        decreases n - i,
    {
        let entry = &entries[i];
        proof {
            lemma_prefix_mono(es, i + 1, n as int);
            lemma_prefix_mono(es, 0, i as int);
        }
        assert(id_of(es[i as int]).len() <= MAX_U16);
        let id_bytes = entry.resource.id.as_str().as_bytes();
        let id_length = id_bytes.len() as u16;
        assert(id_bytes@ == id_of(*entry));
        let data_length = entry.artifact.len() as u32;
        let flags: u16 = match entry.resource.compression {
            CompressionType::LZ77 => FLAG_LZ77_COMPRESSED,
            CompressionType::NONE => 0,
        };
        let record = ResourceRecord {
            id_offset: id_offset as u32,
            id_length,
            flags,
            data_offset: data_offset as u32,
            data_length,
            uncompressed_length: entry.uncompressed_length as u32,
        };
        assert(record == record_spec(es, i as int));
        records.push(record);
        id_offset = id_offset + id_length as u64;
        data_offset = data_offset + data_length as u64;
        i += 1;
    }
    Ok(records)
}

/// A 16-bit value, most significant byte first.
pub open spec fn be16(v: u16) -> Seq<u8> {
    seq![(v / 256) as u8, (v % 256) as u8]
}

/// A 32-bit value, most significant byte first.
pub open spec fn be32(v: u32) -> Seq<u8> {
    seq![(v / 0x100_0000) as u8, ((v / 0x1_0000) % 256) as u8, ((v / 256) % 256) as u8, (v % 256) as u8]
}

/// The bytes of one descriptor.
pub open spec fn record_bytes(r: ResourceRecord) -> Seq<u8> {
    be32(r.id_offset) + be16(r.id_length) + be16(r.flags) + be32(r.data_offset) + be32(r.data_length)
        + be32(r.uncompressed_length)
}

/// The bytes of a descriptor table.
pub open spec fn table_bytes(rs: Seq<ResourceRecord>) -> Seq<u8>
    decreases rs.len(),
{
    if rs.len() == 0 {
        seq![]
    } else {
        table_bytes(rs.drop_last()) + record_bytes(rs.last())
    }
}

/// The IDs of the first `k` entries, one after another.
pub open spec fn ids_concat(es: Seq<PackEntry>, k: int) -> Seq<u8>
    decreases k,
{
    if k <= 0 { seq![] } else { ids_concat(es, k - 1) + id_of(es[k - 1]) }
}

/// The artifacts of the first `k` entries, one after another.
pub open spec fn data_concat(es: Seq<PackEntry>, k: int) -> Seq<u8>
    decreases k,
{
    if k <= 0 { seq![] } else { data_concat(es, k - 1) + es[k - 1].artifact@ }
}

/// The ID section: all IDs in manifest order, null-padded to a multiple of four.
pub open spec fn id_section_spec(es: Seq<PackEntry>) -> Seq<u8> {
    ids_concat(es, es.len() as int) + Seq::new(pad4(ids_len(es, es.len() as int)) as nat, |i: int| 0u8)
}

/// The fixed header: `smpr`, the format version, the resource count and the
/// length of the ID section.
pub open spec fn header_spec(es: Seq<PackEntry>) -> Seq<u8> {
    seq![0x73u8, 0x6du8, 0x70u8, 0x72u8] + be16(FORMAT_VERSION) + be16(es.len() as u16) + be32(
        id_section_len(es) as u32,
    )
}

/// The whole pack.
pub open spec fn pack_spec(es: Seq<PackEntry>) -> Seq<u8> {
    header_spec(es) + id_section_spec(es) + table_bytes(records_spec(es)) + data_concat(es, es.len() as int)
}

/// The sum of the data lengths of a descriptor table.
pub open spec fn sum_data_lengths(rs: Seq<ResourceRecord>) -> int
    decreases rs.len(),
{
    if rs.len() == 0 { 0 } else { sum_data_lengths(rs.drop_last()) + rs.last().data_length }
}

/// Appends `v` to `out`, most significant byte first.
fn push_u16_be(out: &mut Vec<u8>, v: u16)
    ensures
        final(out)@ == old(out)@ + be16(v),
{
    out.push((v / 256) as u8);
    out.push((v % 256) as u8);
    assert(final(out)@ =~= old(out)@ + be16(v));
}

/// Appends `v` to `out`, most significant byte first.
fn push_u32_be(out: &mut Vec<u8>, v: u32)
    ensures
        final(out)@ == old(out)@ + be32(v),
{
    out.push((v / 0x100_0000) as u8);
    out.push(((v / 0x1_0000) % 256) as u8);
    out.push(((v / 256) % 256) as u8);
    out.push((v % 256) as u8);
    assert(final(out)@ =~= old(out)@ + be32(v));
}

/// Appends the bytes of `b` to `out`.
fn push_bytes(out: &mut Vec<u8>, b: &[u8])
    ensures
        final(out)@ == old(out)@ + b@,
{
    let ghost start = out@;
    let mut i: usize = 0;
    while i < b.len()
        invariant
            i <= b@.len(),
            out@ == start + b@.subrange(0, i as int),
        decreases b@.len() - i,
    {
        out.push(b[i]);
        i += 1;
        assert(out@ =~= start + b@.subrange(0, i as int));
    }
    assert(b@.subrange(0, b@.len() as int) =~= b@);
}

impl ResourceRecord {
    /// Appends the twenty bytes of this descriptor to `out`.
    pub fn write_to_buffer(&self, out: &mut Vec<u8>)
        ensures
            final(out)@ == old(out)@ + record_bytes(*self),
    {
        push_u32_be(out, self.id_offset);
        push_u16_be(out, self.id_length);
        push_u16_be(out, self.flags);
        push_u32_be(out, self.data_offset);
        push_u32_be(out, self.data_length);
        push_u32_be(out, self.uncompressed_length);
        assert(final(out)@ =~= old(out)@ + record_bytes(*self));
    }
}

proof fn lemma_concat_lens(es: Seq<PackEntry>, k: int)
    requires
        0 <= k <= es.len(),
    ensures
        ids_concat(es, k).len() == ids_len(es, k),
        data_concat(es, k).len() == data_len(es, k),
    decreases k,
{
    if k > 0 {
        lemma_concat_lens(es, k - 1);
    }
}

proof fn lemma_table_len(rs: Seq<ResourceRecord>)
    ensures
        table_bytes(rs).len() == DESCRIPTOR_SIZE * rs.len(),
    decreases rs.len(),
{
    if rs.len() > 0 {
        lemma_table_len(rs.drop_last());
    }
}

/// The ID section of the entries.
pub fn build_id_section(entries: &Vec<PackEntry>) -> (r: Vec<u8>)
    ensures
        r@ == id_section_spec(entries@),
{
    let ghost es = entries@;
    let mut out: Vec<u8> = Vec::new();
    let mut i: usize = 0;
    while i < entries.len()
        invariant
            es == entries@,
            i <= es.len(),
            out@ == ids_concat(es, i as int),
        decreases es.len() - i,
    {
        let id_bytes = entries[i].resource.id.as_str().as_bytes();
        assert(id_bytes@ == id_of(es[i as int]));
        push_bytes(&mut out, id_bytes);
        i += 1;
    }
    proof {
        lemma_concat_lens(es, es.len() as int);
    }
    let ghost ids = out@;
    let padding: usize = (4 - out.len() % 4) % 4;
    let mut k: usize = 0;
    while k < padding
        invariant
            padding == pad4(ids.len() as int),
            k <= padding,
            out@ == ids + Seq::new(k as nat, |j: int| 0u8),
        decreases padding - k,
    {
        out.push(0);
        k += 1;
        assert(out@ =~= ids + Seq::new(k as nat, |j: int| 0u8));
    }
    out
}

/// The bytes of the pack holding the entries, in manifest order, or
/// `LayoutOverflow` when some count, length or offset does not fit its field.
pub fn assemble_pack(entries: &Vec<PackEntry>) -> (r: Result<Vec<u8>, PackError>)
    ensures
        match r {
            Ok(p) => layout_fits(entries@) && p@ == pack_spec(entries@),
            Err(e) => !layout_fits(entries@) && e == PackError::LayoutOverflow,
        },
{
    let ghost es = entries@;
    let records = match build_records(entries) {
        Ok(records) => records,
        Err(e) => return Err(e),
    };
    let ids = build_id_section(entries);
    proof {
        lemma_concat_lens(es, es.len() as int);
        lemma_prefix_mono_zero(es, es.len() as int);
    }
    let mut out: Vec<u8> = Vec::new();
    out.push(0x73);
    out.push(0x6d);
    out.push(0x70);
    out.push(0x72);
    push_u16_be(&mut out, FORMAT_VERSION);
    push_u16_be(&mut out, entries.len() as u16);
    push_u32_be(&mut out, ids.len() as u32);
    assert(out@ =~= header_spec(es));
    push_bytes(&mut out, ids.as_slice());
    let ghost prefix = out@;
    let mut i: usize = 0;
    while i < records.len()
        invariant
            records@ == records_spec(es),
            i <= records@.len(),
            out@ == prefix + table_bytes(records@.subrange(0, i as int)),
        decreases records@.len() - i,
    {
        let ghost before = out@;
        records[i].write_to_buffer(&mut out);
        assert(records@.subrange(0, i + 1).drop_last() =~= records@.subrange(0, i as int));
        i += 1;
        assert(out@ =~= prefix + table_bytes(records@.subrange(0, i as int)));
    }
    assert(records@.subrange(0, i as int) =~= records@);
    let ghost table_end = out@;
    let mut i: usize = 0;
    while i < entries.len()
        invariant
            es == entries@,
            i <= es.len(),
            out@ == table_end + data_concat(es, i as int),
        decreases es.len() - i,
    {
        push_bytes(&mut out, entries[i].artifact.as_slice());
        i += 1;
        assert(out@ =~= table_end + data_concat(es, i as int));
    }
    assert(out@ =~= pack_spec(es));
    Ok(out)
}

proof fn lemma_concat_prefix(es: Seq<PackEntry>, j: int, k: int)
    requires
        0 <= j <= k <= es.len(),
    ensures
        ids_concat(es, k).subrange(0, ids_len(es, j)) == ids_concat(es, j),
        data_concat(es, k).subrange(0, data_len(es, j)) == data_concat(es, j),
    decreases k - j,
{
    lemma_concat_lens(es, k);
    lemma_concat_lens(es, j);
    if j < k {
        lemma_concat_prefix(es, j, k - 1);
        lemma_concat_lens(es, k - 1);
        lemma_prefix_mono(es, j, k - 1);
        assert(ids_concat(es, k).subrange(0, ids_len(es, j)) =~= ids_concat(es, k - 1).subrange(0, ids_len(es, j)));
        assert(data_concat(es, k).subrange(0, data_len(es, j)) =~= data_concat(es, k - 1).subrange(0, data_len(es, j)));
    } else {
        assert(ids_concat(es, k).subrange(0, ids_len(es, j)) =~= ids_concat(es, j));
        assert(data_concat(es, k).subrange(0, data_len(es, j)) =~= data_concat(es, j));
    }
}

proof fn lemma_entry_slices(es: Seq<PackEntry>, i: int)
    requires
        0 <= i < es.len(),
    ensures
        ids_concat(es, es.len() as int).subrange(ids_len(es, i), ids_len(es, i + 1)) == id_of(es[i]),
        data_concat(es, es.len() as int).subrange(data_len(es, i), data_len(es, i + 1)) == es[i].artifact@,
{
    let n = es.len() as int;
    lemma_concat_prefix(es, i + 1, n);
    lemma_concat_lens(es, i);
    lemma_concat_lens(es, n);
    lemma_prefix_mono(es, i + 1, n);
    assert(ids_concat(es, n).subrange(ids_len(es, i), ids_len(es, i + 1)) =~= ids_concat(es, n).subrange(0, ids_len(es, i + 1)).subrange(ids_len(es, i), ids_len(es, i + 1)));
    assert(ids_concat(es, i + 1).subrange(ids_len(es, i), ids_len(es, i + 1)) =~= id_of(es[i]));
    assert(data_concat(es, n).subrange(data_len(es, i), data_len(es, i + 1)) =~= data_concat(es, n).subrange(0, data_len(es, i + 1)).subrange(data_len(es, i), data_len(es, i + 1)));
    assert(data_concat(es, i + 1).subrange(data_len(es, i), data_len(es, i + 1)) =~= es[i].artifact@);
}

proof fn lemma_sum_prefix(es: Seq<PackEntry>, k: int)
    requires
        layout_fits(es),
        0 <= k <= es.len(),
    ensures
        sum_data_lengths(records_spec(es).subrange(0, k)) == data_len(es, k),
    decreases k,
{
    let rs = records_spec(es).subrange(0, k);
    if k > 0 {
        assert(rs.drop_last() =~= records_spec(es).subrange(0, k - 1));
        lemma_sum_prefix(es, k - 1);
        lemma_prefix_mono(es, k, es.len() as int);
        lemma_prefix_mono_zero(es, k - 1);
    } else {
        assert(rs.len() == 0);
    }
}

proof fn lemma_record_fields(es: Seq<PackEntry>, i: int)
    requires
        layout_fits(es),
        0 <= i < es.len(),
    ensures
        records_spec(es)[i].id_offset == ids_len(es, i),
        records_spec(es)[i].id_offset + records_spec(es)[i].id_length == ids_len(es, i + 1),
        records_spec(es)[i].data_offset == data_start(es) + data_len(es, i),
        records_spec(es)[i].data_offset + records_spec(es)[i].data_length == data_start(es) + data_len(es, i + 1),
        data_start(es) + data_len(es, i + 1) <= MAX_U32,
{
    let n = es.len() as int;
    lemma_prefix_mono(es, i + 1, n);
    lemma_prefix_mono(es, 0, i);
    lemma_concat_lens(es, n);
}

proof fn lemma_id_offsets(es: Seq<PackEntry>)
    requires
        layout_fits(es),
    ensures
        ({
            let recs = records_spec(es);
            &&& recs.len() > 0 ==> recs[0].id_offset == 0
            &&& recs.len() > 0 ==> recs.last().id_offset + recs.last().id_length == ids_len(es, es.len() as int)
            &&& forall|i: int| 0 <= i < recs.len() - 1 ==> #[trigger] recs[i + 1].id_offset == recs[i].id_offset + recs[i].id_length
            &&& forall|i: int, j: int| 0 <= i < j < recs.len() ==> #[trigger] recs[i].id_offset + recs[i].id_length <= #[trigger] recs[j].id_offset
        }),
{
    let n = es.len() as int;
    let recs = records_spec(es);
    if n > 0 {
        lemma_record_fields(es, 0);
        lemma_record_fields(es, n - 1);
    }
    assert forall|i: int| 0 <= i < recs.len() - 1 implies #[trigger] recs[i + 1].id_offset == recs[i].id_offset + recs[i].id_length by {
        lemma_record_fields(es, i);
        lemma_record_fields(es, i + 1);
    }
    assert forall|i: int, j: int| 0 <= i < j < recs.len() implies #[trigger] recs[i].id_offset + recs[i].id_length <= #[trigger] recs[j].id_offset by {
        lemma_record_fields(es, i);
        lemma_record_fields(es, j);
        lemma_prefix_mono(es, i + 1, j);
    }
}

proof fn lemma_id_slices(es: Seq<PackEntry>)
    requires
        layout_fits(es),
    ensures
        forall|i: int| 0 <= i < es.len() ==> id_section_spec(es).subrange(#[trigger] records_spec(es)[i].id_offset as int, records_spec(es)[i].id_offset + records_spec(es)[i].id_length) == id_of(es[i]),
{
    let n = es.len() as int;
    let recs = records_spec(es);
    let ids = id_section_spec(es);
    assert forall|i: int| 0 <= i < n implies ids.subrange(#[trigger] recs[i].id_offset as int, recs[i].id_offset + recs[i].id_length) == id_of(es[i]) by {
        lemma_record_fields(es, i);
        lemma_entry_slices(es, i);
        lemma_prefix_mono(es, i + 1, n);
        lemma_concat_lens(es, n);
        assert(ids.subrange(ids_len(es, i), ids_len(es, i + 1)) =~= ids_concat(es, n).subrange(ids_len(es, i), ids_len(es, i + 1)));
    }
}

proof fn lemma_pack_len(es: Seq<PackEntry>)
    requires
        layout_fits(es),
    ensures
        (header_spec(es) + id_section_spec(es) + table_bytes(records_spec(es))).len() == data_start(es),
        pack_spec(es).len() == data_start(es) + data_len(es, es.len() as int),
{
    lemma_concat_lens(es, es.len() as int);
    lemma_table_len(records_spec(es));
    lemma_prefix_mono_zero(es, es.len() as int);
}

proof fn lemma_data_slices(es: Seq<PackEntry>)
    requires
        layout_fits(es),
    ensures
        forall|i: int| 0 <= i < es.len() ==> pack_spec(es).subrange(#[trigger] records_spec(es)[i].data_offset as int, records_spec(es)[i].data_offset + records_spec(es)[i].data_length) == es[i].artifact@,
{
    let n = es.len() as int;
    let recs = records_spec(es);
    let pack = pack_spec(es);
    lemma_pack_len(es);
    lemma_concat_lens(es, n);
    let head = header_spec(es) + id_section_spec(es) + table_bytes(recs);
    assert(pack == head + data_concat(es, n));
    assert forall|i: int| 0 <= i < n implies pack.subrange(#[trigger] recs[i].data_offset as int, recs[i].data_offset + recs[i].data_length) == es[i].artifact@ by {
        lemma_record_fields(es, i);
        lemma_entry_slices(es, i);
        lemma_prefix_mono(es, i + 1, n);
        lemma_prefix_mono(es, 0, i);
        assert(pack.subrange(data_start(es) + data_len(es, i), data_start(es) + data_len(es, i + 1)) =~= data_concat(es, n).subrange(data_len(es, i), data_len(es, i + 1)));
    }
}

/// In every pack that can be built, the data lengths of the descriptors add
/// up to the size of the data section; the ID slices of the descriptors
/// follow one another from the start of the ID section without overlap and
/// hold exactly the entries' IDs; and each descriptor's data slice of the
/// pack holds exactly its entry's artifact.
pub proof fn lemma_descriptor_integrity(es: Seq<PackEntry>)
    requires
        layout_fits(es),
    ensures
        ({
            let recs = records_spec(es);
            let pack = pack_spec(es);
            let ids = id_section_spec(es);
            &&& sum_data_lengths(recs) == pack.len() - data_start(es)
            &&& recs.len() > 0 ==> recs[0].id_offset == 0
            &&& recs.len() > 0 ==> recs.last().id_offset + recs.last().id_length == ids_len(es, es.len() as int)
            &&& forall|i: int| 0 <= i < recs.len() - 1 ==> #[trigger] recs[i + 1].id_offset == recs[i].id_offset + recs[i].id_length
            &&& forall|i: int, j: int| 0 <= i < j < recs.len() ==> #[trigger] recs[i].id_offset + recs[i].id_length <= #[trigger] recs[j].id_offset
            &&& forall|i: int| 0 <= i < recs.len() ==> ids.subrange(#[trigger] recs[i].id_offset as int, recs[i].id_offset + recs[i].id_length) == id_of(es[i])
            &&& forall|i: int| 0 <= i < recs.len() ==> pack.subrange(#[trigger] recs[i].data_offset as int, recs[i].data_offset + recs[i].data_length) == es[i].artifact@
        }),
{
    let n = es.len() as int;
    lemma_sum_prefix(es, n);
    assert(records_spec(es).subrange(0, n) =~= records_spec(es));
    lemma_pack_len(es);
    lemma_id_offsets(es);
    lemma_id_slices(es);
    lemma_data_slices(es);
}

} // verus!
