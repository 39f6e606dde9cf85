use vstd::prelude::*;

use crate::forest::{Directory, EntryNode};
use crate::text::{field_name, name16, name_fits};
use crate::wad::{WadDirectoryModel, WadEntryModel, WadError};
use crate::zlib::{level_num, zlib_deflate, ZlibCompressionLevel};

verus! {

/// The five signature bytes that open every container: "DFWAD" in ASCII.
pub open spec fn sig_bytes() -> Seq<u8> {
    seq![68u8, 70u8, 87u8, 65u8, 68u8]
}

/// `x` in two little-endian bytes.
pub open spec fn le16(x: int) -> Seq<u8> {
    seq![(x % 256) as u8, ((x / 256) % 256) as u8]
}

/// `x` in four little-endian bytes.
pub open spec fn le32(x: int) -> Seq<u8> {
    seq![
        (x % 256) as u8,
        ((x / 256) % 256) as u8,
        ((x / 65536) % 256) as u8,
        ((x / 16777216) % 256) as u8,
    ]
}

/// The number a two-byte little-endian field holds.
pub open spec fn le16_val(b: Seq<u8>) -> int {
    b[0] + 256 * b[1]
}

/// The number a four-byte little-endian field holds.
pub open spec fn le32_val(b: Seq<u8>) -> int {
    b[0] + 256 * b[1] + 65536 * b[2] + 16777216 * b[3]
}

/// The fixed eight-byte header: signature, version byte, record count.
pub open spec fn header_bytes(count: int) -> Seq<u8> {
    sig_bytes() + seq![1u8] + le16(count)
}

/// Reading back a two-byte little-endian field gives the number written.
pub proof fn lemma_le16_val(x: int)
    requires
        0 <= x < 65536,
    ensures
        le16_val(le16(x)) == x,
        le16(x).len() == 2,
{
}

/// Reading back a four-byte little-endian field gives the number written.
pub proof fn lemma_le32_val(x: int)
    requires
        0 <= x < 4294967296,
    ensures
        le32_val(le32(x)) == x,
        le32(x).len() == 4,
{
}

/// One entry-table record before layout: a directory marker, or a payload
/// record carrying its compressed blob.
pub enum RecModel {
    Marker { name: Seq<char> },
    Blob { name: Seq<char>, payload: Seq<u8>, comp: Seq<u8> },
}

impl RecModel {
    /// The name the record carries.
    pub open spec fn rec_name(self) -> Seq<char> {
        match self {
            RecModel::Marker { name } => name,
            RecModel::Blob { name, payload: _, comp: _ } => name,
        }
    }

    /// The compressed blob the record contributes to the data region.
    pub open spec fn rec_comp(self) -> Seq<u8> {
        match self {
            RecModel::Marker { name: _ } => Seq::empty(),
            RecModel::Blob { name: _, payload: _, comp } => comp,
        }
    }

    /// The uncompressed payload an entry record stands for.
    pub open spec fn rec_payload(self) -> Seq<u8> {
        match self {
            RecModel::Marker { name: _ } => Seq::empty(),
            RecModel::Blob { name: _, payload, comp: _ } => payload,
        }
    }

    /// Whether the record is a directory marker.
    pub open spec fn is_marker(self) -> bool {
        self is Marker
    }

    /// The record's 24 table bytes, its payload placed at `off`.
    pub open spec fn rec24(self, off: int) -> Seq<u8> {
        match self {
            RecModel::Marker { name } => name16(name) + le32(0) + le32(0),
            RecModel::Blob { name, payload: _, comp } => name16(name) + le32(off) + le32(
                comp.len() as int,
            ),
        }
    }
}

/// The uncompressed payload one node stores: a leaf's bytes, or the
/// complete encoding of a nested sub-forest.
pub open spec fn node_payload(n: EntryNode, level: ZlibCompressionLevel) -> Seq<u8>
    decreases n, 0nat, 0nat,
{
    match n {
        EntryNode::Entry { name: _, bytes } => bytes@,
        EntryNode::Nested { name: _, dirs } => wad_bytes(dirs@, level),
    }
}

/// The compressed blob one node stores.
pub open spec fn node_comp(n: EntryNode, level: ZlibCompressionLevel) -> Seq<u8>
    decreases n, 0nat, 1nat,
{
    zlib_deflate(node_payload(n, level), level_num(level))
}

/// The table records of a directory's nodes from index `i` on.
pub open spec fn node_recs_from(ns: Seq<EntryNode>, i: int, level: ZlibCompressionLevel) -> Seq<
    RecModel,
>
    decreases ns, ns.len() - i, 2nat,
{
    if i < 0 || i >= ns.len() {
        Seq::empty()
    } else {
        seq![
            RecModel::Blob {
                name: ns[i].node_name(),
                payload: node_payload(ns[i], level),
                comp: node_comp(ns[i], level),
            },
        ] + node_recs_from(ns, i + 1, level)
    }
}

/// The table records of one directory: its marker, then its entries.
pub open spec fn dir_recs(d: Directory, level: ZlibCompressionLevel) -> Seq<RecModel>
    decreases d, 0nat, 3nat,
{
    seq![RecModel::Marker { name: d.name@ }] + node_recs_from(d.entries@, 0, level)
}

/// The table records of the directories from index `i` on.
pub open spec fn dirs_recs_from(ds: Seq<Directory>, i: int, level: ZlibCompressionLevel) -> Seq<
    RecModel,
>
    decreases ds, ds.len() - i, 4nat,
{
    if i < 0 || i >= ds.len() {
        Seq::empty()
    } else {
        dir_recs(ds[i], level) + dirs_recs_from(ds, i + 1, level)
    }
}

/// The entry-table bytes of the records from index `i` on, the next
/// payload to be placed at `off`.
pub open spec fn table_from(rs: Seq<RecModel>, i: int, off: int) -> Seq<u8>
    decreases rs.len() - i,
{
    if i < 0 || i >= rs.len() {
        Seq::empty()
    } else {
        rs[i].rec24(off) + table_from(rs, i + 1, off + rs[i].rec_comp().len())
    }
}

/// The data-region bytes of the records from index `i` on.
pub open spec fn data_from(rs: Seq<RecModel>, i: int) -> Seq<u8>
    decreases rs.len() - i,
{
    if i < 0 || i >= rs.len() {
        Seq::empty()
    } else {
        rs[i].rec_comp() + data_from(rs, i + 1)
    }
}

/// The byte offset where the data region of a table of `count` records
/// begins: the header and the table stand before it.
pub open spec fn data_start(count: int) -> int {
    8 + 24 * count
}

/// The complete container byte stream for a forest of directories: header,
/// entry table, then each compressed payload in table order.
pub open spec fn wad_bytes(ds: Seq<Directory>, level: ZlibCompressionLevel) -> Seq<u8>
    decreases ds, ds.len() + 1, 5nat,
{
    let rs = dirs_recs_from(ds, 0, level);
    header_bytes(rs.len() as int) + table_from(rs, 0, data_start(rs.len() as int)) + data_from(
        rs,
        0,
    )
}

/// Every name in the forest, of directories and of nodes alike, fits the
/// 16-byte name field once encoded.
pub open spec fn node_names_fit(n: EntryNode) -> bool
    decreases n, 0nat, 0nat,
{
    match n {
        EntryNode::Entry { name, bytes: _ } => name_fits(name@),
        EntryNode::Nested { name, dirs } => name_fits(name@) && forest_names_fit(dirs@),
    }
}

/// Names of the nodes from index `i` on all fit.
pub open spec fn nodes_names_fit(ns: Seq<EntryNode>, i: int) -> bool
    decreases ns, ns.len() - i, 1nat,
{
    if i < 0 || i >= ns.len() {
        true
    } else {
        node_names_fit(ns[i]) && nodes_names_fit(ns, i + 1)
    }
}

/// Names of the directories from index `i` on, and of everything below
/// them, all fit.
pub open spec fn dirs_names_fit(ds: Seq<Directory>, i: int) -> bool
    decreases ds, ds.len() - i, 2nat,
{
    if i < 0 || i >= ds.len() {
        true
    } else {
        name_fits(ds[i].name@) && nodes_names_fit(ds[i].entries@, 0) && dirs_names_fit(ds, i + 1)
    }
}

/// Every name anywhere in the forest fits the name field.
pub open spec fn forest_names_fit(ds: Seq<Directory>) -> bool
    decreases ds, ds.len() + 1, 3nat,
{
    dirs_names_fit(ds, 0)
}

/// No directory anywhere below this node is empty.
pub open spec fn node_no_empty(n: EntryNode) -> bool
    decreases n, 0nat, 0nat,
{
    match n {
        EntryNode::Entry { name: _, bytes: _ } => true,
        EntryNode::Nested { name: _, dirs } => forest_no_empty(dirs@),
    }
}

/// No directory below any of the nodes from index `i` on is empty.
pub open spec fn nodes_no_empty(ns: Seq<EntryNode>, i: int) -> bool
    decreases ns, ns.len() - i, 1nat,
{
    if i < 0 || i >= ns.len() {
        true
    } else {
        node_no_empty(ns[i]) && nodes_no_empty(ns, i + 1)
    }
}

/// The directories from index `i` on each hold at least one entry, down to
/// any depth.
pub open spec fn dirs_no_empty(ds: Seq<Directory>, i: int) -> bool
    decreases ds, ds.len() - i, 2nat,
{
    if i < 0 || i >= ds.len() {
        true
    } else {
        ds[i].entries@.len() > 0 && nodes_no_empty(ds[i].entries@, 0) && dirs_no_empty(ds, i + 1)
    }
}

/// Every directory anywhere in the forest holds at least one entry.
pub open spec fn forest_no_empty(ds: Seq<Directory>) -> bool
    decreases ds, ds.len() + 1, 3nat,
{
    dirs_no_empty(ds, 0)
}

/// The record count and total size of this forest's own container fit the
/// header's count field and the table's offset fields.
pub open spec fn level_size_ok(ds: Seq<Directory>, level: ZlibCompressionLevel) -> bool {
    let rs = dirs_recs_from(ds, 0, level);
    rs.len() <= 65535 && data_start(rs.len() as int) + data_from(rs, 0).len() <= 4294967295
}

/// Sizes fit for the nested container below this node, if any.
pub open spec fn node_sizes_ok(n: EntryNode, level: ZlibCompressionLevel) -> bool
    decreases n, 0nat, 0nat,
{
    match n {
        EntryNode::Entry { name: _, bytes: _ } => true,
        EntryNode::Nested { name: _, dirs } => forest_sizes_ok(dirs@, level),
    }
}

/// Sizes fit below each of the nodes from index `i` on.
pub open spec fn nodes_sizes_ok(ns: Seq<EntryNode>, i: int, level: ZlibCompressionLevel) -> bool
    decreases ns, ns.len() - i, 1nat,
{
    if i < 0 || i >= ns.len() {
        true
    } else {
        node_sizes_ok(ns[i], level) && nodes_sizes_ok(ns, i + 1, level)
    }
}

/// Sizes fit below each of the directories from index `i` on.
pub open spec fn dirs_sizes_ok(ds: Seq<Directory>, i: int, level: ZlibCompressionLevel) -> bool
    decreases ds, ds.len() - i, 2nat,
{
    if i < 0 || i >= ds.len() {
        true
    } else {
        nodes_sizes_ok(ds[i].entries@, 0, level) && dirs_sizes_ok(ds, i + 1, level)
    }
}

/// This container and every nested container below it fit the format's
/// count and offset fields.
pub open spec fn forest_sizes_ok(ds: Seq<Directory>, level: ZlibCompressionLevel) -> bool
    decreases ds, ds.len() + 1, 3nat,
{
    dirs_sizes_ok(ds, 0, level) && level_size_ok(ds, level)
}

/// A forest the encoder accepts: every name fits, no directory is empty,
/// and every container involved fits the format's fixed-width fields.
pub open spec fn forest_ok(ds: Seq<Directory>, level: ZlibCompressionLevel) -> bool {
    forest_names_fit(ds) && forest_no_empty(ds) && forest_sizes_ok(ds, level)
}

/// The 24 bytes of record `i` of a container buffer.
pub open spec fn rec_slice(data: Seq<u8>, i: int) -> Seq<u8> {
    data.subrange(8 + 24 * i, 8 + 24 * i + 24)
}

/// The decoder's state machine over the record table from record `i` on:
/// `cur` and `ents` accumulate the open directory, `acc` the finished ones.
/// A marker flushes a nonempty accumulator and opens a new one; a record
/// with exactly one zero field is invalid; any other record joins the open
/// accumulator, an implicit unnamed one if none is open yet.  At the end
/// the open accumulator is flushed unconditionally.
pub open spec fn parse_recs(
    data: Seq<u8>,
    count: int,
    i: int,
    cur: Option<Seq<char>>,
    ents: Seq<WadEntryModel>,
    acc: Seq<WadDirectoryModel>,
) -> Result<Seq<WadDirectoryModel>, WadError>
    decreases count - i,
{
    if i >= count {
        Ok(
            match cur {
                Option::Some(n) => acc.push(WadDirectoryModel { dir: n, entries: ents }),
                Option::None => acc,
            },
        )
    } else {
        let r = rec_slice(data, i);
        let nm = field_name(r.subrange(0, 16));
        let off = le32_val(r.subrange(16, 20));
        let sz = le32_val(r.subrange(20, 24));
        if off == 0 && sz == 0 {
            let acc2 = match cur {
                Option::Some(n) => if ents.len() > 0 {
                    acc.push(WadDirectoryModel { dir: n, entries: ents })
                } else {
                    acc
                },
                Option::None => acc,
            };
            parse_recs(data, count, i + 1, Option::Some(nm), Seq::empty(), acc2)
        } else if off == 0 || sz == 0 {
            Err(WadError::InvalidEntry)
        } else {
            let cur2 = match cur {
                Option::Some(n) => Option::Some(n),
                Option::None => Option::Some(Seq::<char>::empty()),
            };
            let e = WadEntryModel { name: nm, offset: off as u32, size: sz as u32 };
            parse_recs(data, count, i + 1, cur2, ents.push(e), acc)
        }
    }
}

/// What decoding a container buffer yields: the header checks, then the
/// record state machine.
pub open spec fn parse_spec(data: Seq<u8>) -> Result<Seq<WadDirectoryModel>, WadError> {
    if data.len() < 8 {
        Err(WadError::Truncated)
    } else if data.subrange(0, 5) != sig_bytes() {
        Err(WadError::IncorrectSignature)
    } else if data[5] != 1u8 {
        Err(WadError::UnsupportedVersion)
    } else {
        let count = le16_val(data.subrange(6, 8));
        if data.len() < 8 + 24 * count {
            Err(WadError::Truncated)
        } else {
            parse_recs(data, count, 0, Option::None, Seq::empty(), Seq::empty())
        }
    }
}

/// The byte offset of record `k`'s payload when the payloads of records
/// `0..k` are laid out from `off0` on.
pub open spec fn rec_off(rs: Seq<RecModel>, k: int, off0: int) -> int
    decreases k,
{
    if k <= 0 {
        off0
    } else {
        rec_off(rs, k - 1, off0) + rs[k - 1].rec_comp().len()
    }
}

/// The offset after the last record's payload closes the data region: it
/// exceeds any earlier offset by the data bytes still to come.
pub proof fn lemma_rec_off_total(rs: Seq<RecModel>, i: int, off0: int)
    requires
        0 <= i <= rs.len(),
    ensures
        rec_off(rs, rs.len() as int, off0) == rec_off(rs, i, off0) + data_from(rs, i).len(),
    decreases rs.len() - i,
{
    if i == rs.len() {
        assert(data_from(rs, i).len() == 0);
    } else {
        lemma_rec_off_total(rs, i + 1, off0);
        assert(rec_off(rs, i + 1, off0) == rec_off(rs, i, off0) + rs[i].rec_comp().len());
    }
}

/// Facts the encoder learns from its compressor and text codec while it
/// serializes this node: the compressed blob is nonempty and decompresses
/// back to the payload, and a clean name survives the field round trip.
pub open spec fn node_enc_facts(n: EntryNode, level: ZlibCompressionLevel) -> bool
    decreases n, 0nat, 0nat,
{
    node_comp(n, level).len() >= 1 && crate::zlib::zlib_inflate(node_comp(n, level)) == Some(
        node_payload(n, level),
    ) && (crate::text::name_clean(n.node_name()) && name_fits(n.node_name()) ==> field_name(
        name16(n.node_name()),
    ) == n.node_name()) && match n {
        EntryNode::Entry { name: _, bytes: _ } => true,
        EntryNode::Nested { name: _, dirs } => forest_enc_facts(dirs@, level),
    }
}

/// The encoder's learned facts for the nodes from index `i` on.
pub open spec fn nodes_enc_facts(ns: Seq<EntryNode>, i: int, level: ZlibCompressionLevel) -> bool
    decreases ns, ns.len() - i, 1nat,
{
    if i < 0 || i >= ns.len() {
        true
    } else {
        node_enc_facts(ns[i], level) && nodes_enc_facts(ns, i + 1, level)
    }
}

/// The encoder's learned facts for the directories from index `i` on.
pub open spec fn dirs_enc_facts(ds: Seq<Directory>, i: int, level: ZlibCompressionLevel) -> bool
    decreases ds, ds.len() - i, 2nat,
{
    if i < 0 || i >= ds.len() {
        true
    } else {
        (crate::text::name_clean(ds[i].name@) && name_fits(ds[i].name@) ==> field_name(
            name16(ds[i].name@),
        ) == ds[i].name@) && nodes_enc_facts(ds[i].entries@, 0, level) && dirs_enc_facts(
            ds,
            i + 1,
            level,
        )
    }
}

/// Everything the encoder learns about compression and names while it
/// serializes the forest; the round-trip statement rests on these.
pub open spec fn forest_enc_facts(ds: Seq<Directory>, level: ZlibCompressionLevel) -> bool
    decreases ds, ds.len() + 1, 3nat,
{
    dirs_enc_facts(ds, 0, level)
}

/// A record list ready for layout: every name fits the field, and every
/// entry record's blob is a nonempty stream that decompresses back to the
/// payload it stands for.
pub open spec fn recs_wf(rs: Seq<RecModel>) -> bool {
    forall|i: int|
        0 <= i < rs.len() ==> {
            &&& name_fits((#[trigger] rs[i]).rec_name())
            &&& (!rs[i].is_marker() ==> rs[i].rec_comp().len() >= 1 && crate::zlib::zlib_inflate(
                rs[i].rec_comp(),
            ) == Some(rs[i].rec_payload()))
        }
}

/// The records of a well-formed, fully compressed node list are
/// well-formed.
#[verifier::rlimit(100)]
proof fn lemma_recs_wf_nodes(ns: Seq<EntryNode>, i: int, level: ZlibCompressionLevel)
    requires
        0 <= i,
        nodes_names_fit(ns, i),
        nodes_enc_facts(ns, i, level),
    ensures
        recs_wf(node_recs_from(ns, i, level)),
        node_recs_from(ns, i, level).len() == if i <= ns.len() {
            ns.len() - i
        } else {
            0
        },
    decreases ns.len() - i,
{
    if i < ns.len() {
        lemma_recs_wf_nodes(ns, i + 1, level);
        let rs = node_recs_from(ns, i, level);
        let tail = node_recs_from(ns, i + 1, level);
        let head = RecModel::Blob {
            name: ns[i].node_name(),
            payload: node_payload(ns[i], level),
            comp: node_comp(ns[i], level),
        };
        assert(rs == seq![head] + tail);
        assert(rs[0] == head);
        assert(node_names_fit(ns[i]));
        assert(node_enc_facts(ns[i], level));
        assert(name_fits(ns[i].node_name())) by {
            match ns[i] {
                EntryNode::Entry { name, bytes: _ } => {
                    assert(ns[i].node_name() == name@);
                },
                EntryNode::Nested { name, dirs: _ } => {
                    assert(ns[i].node_name() == name@);
                },
            }
        }
        assert forall|k: int| 0 <= k < rs.len() implies {
            &&& name_fits((#[trigger] rs[k]).rec_name())
            &&& (!rs[k].is_marker() ==> rs[k].rec_comp().len() >= 1 && crate::zlib::zlib_inflate(
                rs[k].rec_comp(),
            ) == Some(rs[k].rec_payload()))
        } by {
            if k > 0 {
                assert(rs[k] == tail[k - 1]);
            }
        }
    }
}

/// The records of a well-formed, fully compressed forest are well-formed.
#[verifier::rlimit(100)]
proof fn lemma_recs_wf_dirs(ds: Seq<Directory>, i: int, level: ZlibCompressionLevel)
    requires
        0 <= i,
        dirs_names_fit(ds, i),
        dirs_enc_facts(ds, i, level),
    ensures
        recs_wf(dirs_recs_from(ds, i, level)),
    decreases ds.len() - i,
{
    if i < ds.len() {
        lemma_recs_wf_dirs(ds, i + 1, level);
        lemma_recs_wf_nodes(ds[i].entries@, 0, level);
        let rs = dirs_recs_from(ds, i, level);
        let mid = node_recs_from(ds[i].entries@, 0, level);
        let tail = dirs_recs_from(ds, i + 1, level);
        let mk = RecModel::Marker { name: ds[i].name@ };
        assert(dir_recs(ds[i], level) == seq![mk] + mid);
        assert(rs == (seq![mk] + mid) + tail);
        assert(rs =~= seq![mk] + (mid + tail));
        assert forall|k: int| 0 <= k < rs.len() implies {
            &&& name_fits((#[trigger] rs[k]).rec_name())
            &&& (!rs[k].is_marker() ==> rs[k].rec_comp().len() >= 1 && crate::zlib::zlib_inflate(
                rs[k].rec_comp(),
            ) == Some(rs[k].rec_payload()))
        } by {
            if k == 0 {
                assert(rs[0] == mk);
            } else if k <= mid.len() {
                assert(rs[k] == (mid + tail)[k - 1]);
                assert(rs[k] == mid[k - 1]);
            } else {
                assert(rs[k] == (mid + tail)[k - 1]);
                assert(rs[k] == tail[k - 1 - mid.len()]);
            }
        }
    }
}

/// The entry table occupies exactly 24 bytes for each record.
proof fn lemma_table_len(rs: Seq<RecModel>, i: int, off: int)
    requires
        recs_wf(rs),
        0 <= i <= rs.len(),
    ensures
        table_from(rs, i, off).len() == 24 * (rs.len() - i),
    decreases rs.len() - i,
{
    if i < rs.len() {
        lemma_table_len(rs, i + 1, off + rs[i].rec_comp().len());
        assert(name16(rs[i].rec_name()).len() == 16);
        assert(rs[i].rec24(off).len() == 24);
    }
}

/// A payload offset grows by each preceding blob, so it never precedes
/// the data region's start.
proof fn lemma_rec_off_mono(rs: Seq<RecModel>, i: int, off0: int)
    requires
        0 <= i,
    ensures
        rec_off(rs, i, off0) >= off0,
    decreases i,
{
    if i > 0 {
        lemma_rec_off_mono(rs, i - 1, off0);
    }
}

/// A payload offset from base `a` is the offset from base zero, shifted.
proof fn lemma_rec_off_shift(rs: Seq<RecModel>, i: int, a: int)
    requires
        0 <= i,
    ensures
        rec_off(rs, i, a) == a + rec_off(rs, i, 0),
    decreases i,
{
    if i > 0 {
        lemma_rec_off_shift(rs, i - 1, a);
    }
}

/// The first record's 24 bytes open the table.
#[verifier::rlimit(100)]
proof fn lemma_table_slice_base(rs: Seq<RecModel>, i: int, off_i: int)
    requires
        recs_wf(rs),
        0 <= i < rs.len(),
    ensures
        table_from(rs, i, off_i).subrange(0, 24) == rs[i].rec24(off_i),
{
    let t = table_from(rs, i, off_i);
    let head = rs[i].rec24(off_i);
    assert(name16(rs[i].rec_name()).len() == 16);
    assert(head.len() == 24);
    assert(t.subrange(0, 24) =~= head);
}

/// Record `k`'s 24 bytes stand in the table at position `24 * k`, its
/// payload offset accumulated from the records before it.
#[verifier::rlimit(100)]
proof fn lemma_table_slice(rs: Seq<RecModel>, i: int, k: int, off0: int)
    requires
        recs_wf(rs),
        0 <= i <= k < rs.len(),
    ensures
        table_from(rs, i, rec_off(rs, i, off0)).subrange(24 * (k - i), 24 * (k - i) + 24) == rs[
            k
        ].rec24(rec_off(rs, k, off0)),
    decreases k - i,
{
    let off_i = rec_off(rs, i, off0);
    let t = table_from(rs, i, off_i);
    let head = rs[i].rec24(off_i);
    let tail = table_from(rs, i + 1, off_i + rs[i].rec_comp().len());
    assert(name16(rs[i].rec_name()).len() == 16);
    assert(head.len() == 24);
    assert(rec_off(rs, i + 1, off0) == off_i + rs[i].rec_comp().len());
    if i == k {
        lemma_table_slice_base(rs, i, off_i);
    } else {
        lemma_table_slice(rs, i + 1, k, off0);
        lemma_table_len(rs, i + 1, off_i + rs[i].rec_comp().len());
        assert(t.subrange(24 * (k - i), 24 * (k - i) + 24) =~= tail.subrange(
            24 * (k - i - 1),
            24 * (k - i - 1) + 24,
        ));
    }
}

/// Record `k`'s compressed blob stands in the data region at its own
/// offset.
#[verifier::rlimit(100)]
proof fn lemma_data_slice(rs: Seq<RecModel>, i: int, k: int)
    requires
        0 <= i <= k < rs.len(),
    ensures
        data_from(rs, i).subrange(
            rec_off(rs, k, 0) - rec_off(rs, i, 0),
            rec_off(rs, k, 0) - rec_off(rs, i, 0) + rs[k].rec_comp().len(),
        ) == rs[k].rec_comp(),
    decreases k - i,
{
    let d = data_from(rs, i);
    let head = rs[i].rec_comp();
    let tail = data_from(rs, i + 1);
    assert(rec_off(rs, i + 1, 0) == rec_off(rs, i, 0) + head.len());
    if i == k {
        assert(d.subrange(0, head.len() as int) =~= head);
    } else {
        lemma_data_slice(rs, i + 1, k);
        lemma_rec_off_mono(rs, i, 0);
        lemma_rec_off_shift(rs, k, rec_off(rs, i, 0));
        lemma_rec_off_shift(rs, k, rec_off(rs, i + 1, 0));
        lemma_rec_off_total(rs, i + 1, 0);
        lemma_rec_off_total(rs, k, 0);
        assert(rec_off(rs, k, 0) >= rec_off(rs, i + 1, 0)) by {
            lemma_rec_off_mono(rs, k - i - 1, 0);
            lemma_rec_off_shift_gen(rs, i + 1, k);
        }
        assert(d.subrange(
            rec_off(rs, k, 0) - rec_off(rs, i, 0),
            rec_off(rs, k, 0) - rec_off(rs, i, 0) + rs[k].rec_comp().len(),
        ) =~= tail.subrange(
            rec_off(rs, k, 0) - rec_off(rs, i + 1, 0),
            rec_off(rs, k, 0) - rec_off(rs, i + 1, 0) + rs[k].rec_comp().len(),
        ));
    }
}

/// Offsets accumulate: the offset of a later record counts every blob of
/// the records between.
proof fn lemma_rec_off_shift_gen(rs: Seq<RecModel>, i: int, k: int)
    requires
        0 <= i <= k,
    ensures
        rec_off(rs, k, 0) >= rec_off(rs, i, 0),
    decreases k - i,
{
    if i < k {
        lemma_rec_off_shift_gen(rs, i, k - 1);
    }
}

/// The decoder's state machine replayed over the model records: what
/// decoding an encoded table must reconstruct.
pub open spec fn recs_dirs(
    rs: Seq<RecModel>,
    i: int,
    off: int,
    cur: Option<Seq<char>>,
    ents: Seq<WadEntryModel>,
    acc: Seq<WadDirectoryModel>,
) -> Seq<WadDirectoryModel>
    decreases rs.len() - i,
{
    if i < 0 || i >= rs.len() {
        match cur {
            Option::Some(n) => acc.push(WadDirectoryModel { dir: n, entries: ents }),
            Option::None => acc,
        }
    } else {
        match rs[i] {
            RecModel::Marker { name } => {
                let acc2 = match cur {
                    Option::Some(n) => if ents.len() > 0 {
                        acc.push(WadDirectoryModel { dir: n, entries: ents })
                    } else {
                        acc
                    },
                    Option::None => acc,
                };
                recs_dirs(
                    rs,
                    i + 1,
                    off,
                    Option::Some(field_name(name16(name))),
                    Seq::empty(),
                    acc2,
                )
            },
            RecModel::Blob { name, payload: _, comp } => {
                let cur2 = match cur {
                    Option::Some(n) => Option::Some(n),
                    Option::None => Option::Some(Seq::<char>::empty()),
                };
                let e = WadEntryModel {
                    name: field_name(name16(name)),
                    offset: off as u32,
                    size: comp.len() as u32,
                };
                recs_dirs(rs, i + 1, off + comp.len(), cur2, ents.push(e), acc)
            },
        }
    }
}

/// The three fields of a record's 24 table bytes.
#[verifier::rlimit(100)]
proof fn lemma_rec24_fields(r: RecModel, off: int)
    requires
        name_fits(r.rec_name()),
    ensures
        r.rec24(off).subrange(0, 16) == name16(r.rec_name()),
        r.is_marker() ==> r.rec24(off).subrange(16, 20) == le32(0) && r.rec24(off).subrange(
            20,
            24,
        ) == le32(0),
        !r.is_marker() ==> r.rec24(off).subrange(16, 20) == le32(off) && r.rec24(off).subrange(
            20,
            24,
        ) == le32(r.rec_comp().len() as int),
{
    assert(name16(r.rec_name()).len() == 16);
    match r {
        RecModel::Marker { name } => {
            assert(r.rec24(off).subrange(0, 16) =~= name16(name));
            assert(r.rec24(off).subrange(16, 20) =~= le32(0));
            assert(r.rec24(off).subrange(20, 24) =~= le32(0));
        },
        RecModel::Blob { name, payload: _, comp } => {
            assert(r.rec24(off).subrange(0, 16) =~= name16(name));
            assert(r.rec24(off).subrange(16, 20) =~= le32(off));
            assert(r.rec24(off).subrange(20, 24) =~= le32(comp.len() as int));
        },
    }
}

/// Parsing the record table of an encoded container replays the state
/// machine over the model records.
#[verifier::rlimit(100)]
proof fn lemma_parse_matches_recs(
    data: Seq<u8>,
    rs: Seq<RecModel>,
    i: int,
    cur: Option<Seq<char>>,
    ents: Seq<WadEntryModel>,
    acc: Seq<WadDirectoryModel>,
)
    requires
        recs_wf(rs),
        rs.len() <= 65535,
        data_start(rs.len() as int) + data_from(rs, 0).len() <= 4294967295,
        0 <= i <= rs.len(),
        forall|k: int|
            0 <= k < rs.len() ==> rec_slice(data, k) == (#[trigger] rs[k]).rec24(
                rec_off(rs, k, data_start(rs.len() as int)),
            ),
    ensures
        parse_recs(data, rs.len() as int, i, cur, ents, acc) == Ok::<
            Seq<WadDirectoryModel>,
            WadError,
        >(recs_dirs(rs, i, rec_off(rs, i, data_start(rs.len() as int)), cur, ents, acc)),
    decreases rs.len() - i,
{
    let dstart = data_start(rs.len() as int);
    if i < rs.len() {
        let off_i = rec_off(rs, i, dstart);
        let r = rec_slice(data, i);
        assert(r == rs[i].rec24(off_i));
        assert(name16(rs[i].rec_name()).len() == 16);
        lemma_rec_off_mono(rs, i, dstart);
        lemma_rec_off_total(rs, i, dstart);
        lemma_rec_off_total(rs, 0, dstart);
        assert(off_i + data_from(rs, i).len() == dstart + data_from(rs, 0).len());
        assert(data_from(rs, i).len() >= rs[i].rec_comp().len());
        assert(0 <= off_i < 4294967296);
        assert(rs[i].rec_comp().len() < 4294967296);
        lemma_rec24_fields(rs[i], off_i);
        match rs[i] {
            RecModel::Marker { name } => {
                lemma_le32_val(0);
                lemma_parse_matches_recs(
                    data,
                    rs,
                    i + 1,
                    Option::Some(field_name(name16(name))),
                    Seq::empty(),
                    match cur {
                        Option::Some(n) => if ents.len() > 0 {
                            acc.push(WadDirectoryModel { dir: n, entries: ents })
                        } else {
                            acc
                        },
                        Option::None => acc,
                    },
                );
            },
            RecModel::Blob { name, payload: _, comp } => {
                lemma_le32_val(off_i);
                lemma_le32_val(comp.len() as int);
                assert(off_i >= 8);
                assert(comp.len() >= 1);
                let cur2 = match cur {
                    Option::Some(n) => Option::Some(n),
                    Option::None => Option::Some(Seq::<char>::empty()),
                };
                let e = WadEntryModel {
                    name: field_name(name16(name)),
                    offset: off_i as u32,
                    size: comp.len() as u32,
                };
                lemma_parse_matches_recs(data, rs, i + 1, cur2, ents.push(e), acc);
            },
        }
    }
}

/// The on-disk projections the decoder recovers for one directory's nodes
/// from index `j` on, their payloads laid out from `off` on.
pub open spec fn decoded_ents(
    ns: Seq<EntryNode>,
    j: int,
    off: int,
    level: ZlibCompressionLevel,
) -> Seq<WadEntryModel>
    decreases ns.len() - j,
{
    if j < 0 || j >= ns.len() {
        Seq::empty()
    } else {
        seq![
            WadEntryModel {
                name: field_name(name16(ns[j].node_name())),
                offset: off as u32,
                size: node_comp(ns[j], level).len() as u32,
            },
        ] + decoded_ents(ns, j + 1, off + node_comp(ns[j], level).len(), level)
    }
}

/// The bytes one directory's payloads occupy from node `j` on.
pub open spec fn ents_size(ns: Seq<EntryNode>, j: int, level: ZlibCompressionLevel) -> int
    decreases ns.len() - j,
{
    if j < 0 || j >= ns.len() {
        0
    } else {
        node_comp(ns[j], level).len() + ents_size(ns, j + 1, level)
    }
}

/// The on-disk projections the decoder recovers for the directories from
/// index `k` on: each name through the name-field round trip, each entry
/// with its own name, offset and compressed size, in encoding order.
pub open spec fn decoded_dirs(
    ds: Seq<Directory>,
    k: int,
    off: int,
    level: ZlibCompressionLevel,
) -> Seq<WadDirectoryModel>
    decreases ds.len() - k,
{
    if k < 0 || k >= ds.len() {
        Seq::empty()
    } else {
        seq![
            WadDirectoryModel {
                dir: field_name(name16(ds[k].name@)),
                entries: decoded_ents(ds[k].entries@, 0, off, level),
            },
        ] + decoded_dirs(ds, k + 1, off + ents_size(ds[k].entries@, 0, level), level)
    }
}

/// The record fold reads nothing before its index: equal suffixes fold
/// alike.
proof fn lemma_recs_dirs_shift(
    rs1: Seq<RecModel>,
    i1: int,
    rs2: Seq<RecModel>,
    i2: int,
    off: int,
    cur: Option<Seq<char>>,
    ents: Seq<WadEntryModel>,
    acc: Seq<WadDirectoryModel>,
)
    requires
        0 <= i1 <= rs1.len(),
        0 <= i2 <= rs2.len(),
        rs1.subrange(i1, rs1.len() as int) == rs2.subrange(i2, rs2.len() as int),
    ensures
        recs_dirs(rs1, i1, off, cur, ents, acc) == recs_dirs(rs2, i2, off, cur, ents, acc),
    decreases rs1.len() - i1,
{
    let s1 = rs1.subrange(i1, rs1.len() as int);
    let s2 = rs2.subrange(i2, rs2.len() as int);
    assert(s1.len() == rs1.len() - i1);
    assert(s2.len() == rs2.len() - i2);
    if i1 < rs1.len() {
        assert(rs1[i1] == s1[0]);
        assert(rs2[i2] == s2[0]);
        assert(rs1[i1] == rs2[i2]);
        assert(rs1.subrange(i1 + 1, rs1.len() as int) =~= s1.subrange(1, s1.len() as int));
        assert(rs2.subrange(i2 + 1, rs2.len() as int) =~= s2.subrange(1, s2.len() as int));
        assert(rs1.subrange(i1 + 1, rs1.len() as int) == rs2.subrange(i2 + 1, rs2.len() as int));
        match rs1[i1] {
            RecModel::Marker { name } => {
                let acc2 = match cur {
                    Option::Some(n) => if ents.len() > 0 {
                        acc.push(WadDirectoryModel { dir: n, entries: ents })
                    } else {
                        acc
                    },
                    Option::None => acc,
                };
                lemma_recs_dirs_shift(
                    rs1,
                    i1 + 1,
                    rs2,
                    i2 + 1,
                    off,
                    Option::Some(field_name(name16(name))),
                    Seq::empty(),
                    acc2,
                );
            },
            RecModel::Blob { name, payload: _, comp } => {
                let cur2 = match cur {
                    Option::Some(n) => Option::Some(n),
                    Option::None => Option::Some(Seq::<char>::empty()),
                };
                let e = WadEntryModel {
                    name: field_name(name16(name)),
                    offset: off as u32,
                    size: comp.len() as u32,
                };
                lemma_recs_dirs_shift(
                    rs1,
                    i1 + 1,
                    rs2,
                    i2 + 1,
                    off + comp.len(),
                    cur2,
                    ents.push(e),
                    acc,
                );
            },
        }
    }
}

/// Folding one directory's entry records appends their decoded
/// projections to the open accumulator and moves on.
proof fn lemma_fold_ents(
    ns: Seq<EntryNode>,
    j: int,
    rest: Seq<RecModel>,
    level: ZlibCompressionLevel,
    off: int,
    nm: Seq<char>,
    ents: Seq<WadEntryModel>,
    acc: Seq<WadDirectoryModel>,
)
    requires
        0 <= j <= ns.len(),
    ensures
        recs_dirs(node_recs_from(ns, j, level) + rest, 0, off, Option::Some(nm), ents, acc)
            == recs_dirs(
            rest,
            0,
            off + ents_size(ns, j, level),
            Option::Some(nm),
            ents + decoded_ents(ns, j, off, level),
            acc,
        ),
        decoded_ents(ns, j, off, level).len() == ns.len() - j,
    decreases ns.len() - j,
{
    if j == ns.len() {
        assert(node_recs_from(ns, j, level) + rest =~= rest);
        assert(ents + decoded_ents(ns, j, off, level) =~= ents);
    } else {
        let rs = node_recs_from(ns, j, level) + rest;
        let b = RecModel::Blob {
            name: ns[j].node_name(),
            payload: node_payload(ns[j], level),
            comp: node_comp(ns[j], level),
        };
        assert(node_recs_from(ns, j, level) == seq![b] + node_recs_from(ns, j + 1, level));
        assert(rs[0] == b);
        let e = WadEntryModel {
            name: field_name(name16(ns[j].node_name())),
            offset: off as u32,
            size: node_comp(ns[j], level).len() as u32,
        };
        let next = node_recs_from(ns, j + 1, level) + rest;
        assert(rs.subrange(1, rs.len() as int) =~= next.subrange(0, next.len() as int));
        lemma_recs_dirs_shift(
            rs,
            1,
            next,
            0,
            off + node_comp(ns[j], level).len(),
            Option::Some(nm),
            ents.push(e),
            acc,
        );
        lemma_fold_ents(
            ns,
            j + 1,
            rest,
            level,
            off + node_comp(ns[j], level).len(),
            nm,
            ents.push(e),
            acc,
        );
        assert(ents.push(e) + decoded_ents(ns, j + 1, off + node_comp(ns[j], level).len(), level)
            =~= ents + decoded_ents(ns, j, off, level));
    }
}

/// Folding the whole record table flushes each directory as the next
/// marker or the end of the table arrives, in encoding order.
proof fn lemma_fold_dirs(
    ds: Seq<Directory>,
    k: int,
    level: ZlibCompressionLevel,
    off: int,
    cur: Option<Seq<char>>,
    ents: Seq<WadEntryModel>,
    acc: Seq<WadDirectoryModel>,
)
    requires
        0 <= k <= ds.len(),
        dirs_no_empty(ds, k),
        cur is Some ==> ents.len() > 0,
    ensures
        recs_dirs(dirs_recs_from(ds, k, level), 0, off, cur, ents, acc) == (match cur {
            Option::Some(n) => acc.push(WadDirectoryModel { dir: n, entries: ents }),
            Option::None => acc,
        }) + decoded_dirs(ds, k, off, level),
    decreases ds.len() - k,
{
    let flushed = match cur {
        Option::Some(n) => acc.push(WadDirectoryModel { dir: n, entries: ents }),
        Option::None => acc,
    };
    if k == ds.len() {
        assert(flushed + decoded_dirs(ds, k, off, level) =~= flushed);
    } else {
        let ns = ds[k].entries@;
        let rs = dirs_recs_from(ds, k, level);
        let mk = RecModel::Marker { name: ds[k].name@ };
        let rest = dirs_recs_from(ds, k + 1, level);
        assert(dir_recs(ds[k], level) == seq![mk] + node_recs_from(ns, 0, level));
        assert(rs =~= seq![mk] + (node_recs_from(ns, 0, level) + rest));
        assert(rs[0] == mk);
        let dname = field_name(name16(ds[k].name@));
        let inner = node_recs_from(ns, 0, level) + rest;
        assert(rs.subrange(1, rs.len() as int) =~= inner.subrange(0, inner.len() as int));
        lemma_recs_dirs_shift(rs, 1, inner, 0, off, Option::Some(dname), Seq::empty(), flushed);
        lemma_fold_ents(ns, 0, rest, level, off, dname, Seq::empty(), flushed);
        assert(Seq::<WadEntryModel>::empty() + decoded_ents(ns, 0, off, level) =~= decoded_ents(
            ns,
            0,
            off,
            level,
        ));
        assert(decoded_ents(ns, 0, off, level).len() > 0);
        lemma_fold_dirs(
            ds,
            k + 1,
            level,
            off + ents_size(ns, 0, level),
            Option::Some(dname),
            decoded_ents(ns, 0, off, level),
            flushed,
        );
        assert(flushed.push(
            WadDirectoryModel { dir: dname, entries: decoded_ents(ns, 0, off, level) },
        ) + decoded_dirs(ds, k + 1, off + ents_size(ns, 0, level), level) =~= flushed
            + decoded_dirs(ds, k, off, level));
    }
}

/// The round trip, read structurally: decoding an encoded forest yields
/// one projection per directory, in order, its name through the
/// name-field round trip, and one record per entry, in order, sized and
/// placed where the encoder put its compressed payload.
pub proof fn lemma_wad_decodes_to_forest(ds: Seq<Directory>, level: ZlibCompressionLevel)
    requires
        forest_ok(ds, level),
        forest_enc_facts(ds, level),
    ensures
        ({
            let rs = dirs_recs_from(ds, 0, level);
            parse_spec(wad_bytes(ds, level)) == Ok::<Seq<WadDirectoryModel>, WadError>(
                decoded_dirs(ds, 0, data_start(rs.len() as int), level),
            )
        }),
{
    let rs = dirs_recs_from(ds, 0, level);
    let dstart = data_start(rs.len() as int);
    lemma_wad_round_trip(ds, level);
    lemma_fold_dirs(ds, 0, level, dstart, Option::None, Seq::empty(), Seq::empty());
    assert(Seq::<WadDirectoryModel>::empty() + decoded_dirs(ds, 0, dstart, level) =~= decoded_dirs(
        ds,
        0,
        dstart,
        level,
    ));
}

/// A record whose offset and size fields are both zero or both nonzero:
/// a proper marker or a proper payload descriptor.
pub open spec fn rec_zero_consistent(data: Seq<u8>, k: int) -> bool {
    let r = rec_slice(data, k);
    (le32_val(r.subrange(16, 20)) == 0) == (le32_val(r.subrange(20, 24)) == 0)
}

/// A decode that succeeds saw no record pairing a zero offset with a
/// nonzero size or the reverse: such a record stops it with an error.
pub proof fn lemma_parse_ok_zero_consistent(
    data: Seq<u8>,
    count: int,
    i: int,
    cur: Option<Seq<char>>,
    ents: Seq<WadEntryModel>,
    acc: Seq<WadDirectoryModel>,
)
    requires
        parse_recs(data, count, i, cur, ents, acc) is Ok,
    ensures
        forall|k: int| i <= k < count ==> rec_zero_consistent(data, k),
    decreases count - i,
{
    if i < count {
        let r = rec_slice(data, i);
        let off = le32_val(r.subrange(16, 20));
        let sz = le32_val(r.subrange(20, 24));
        if off == 0 && sz == 0 {
            let nm = field_name(r.subrange(0, 16));
            let acc2 = match cur {
                Option::Some(n) => if ents.len() > 0 {
                    acc.push(WadDirectoryModel { dir: n, entries: ents })
                } else {
                    acc
                },
                Option::None => acc,
            };
            lemma_parse_ok_zero_consistent(
                data,
                count,
                i + 1,
                Option::Some(nm),
                Seq::empty(),
                acc2,
            );
        } else {
            assert(!(off == 0 || sz == 0));
            let nm = field_name(r.subrange(0, 16));
            let cur2 = match cur {
                Option::Some(n) => Option::Some(n),
                Option::None => Option::Some(Seq::<char>::empty()),
            };
            let e = WadEntryModel { name: nm, offset: off as u32, size: sz as u32 };
            lemma_parse_ok_zero_consistent(data, count, i + 1, cur2, ents.push(e), acc);
        }
    }
}

/// The header fields and per-record table slices of an encoded container.
#[verifier::rlimit(100)]
proof fn lemma_wad_header_slices(ds: Seq<Directory>, level: ZlibCompressionLevel)
    requires
        recs_wf(dirs_recs_from(ds, 0, level)),
        dirs_recs_from(ds, 0, level).len() <= 65535,
    ensures
        ({
            let rs = dirs_recs_from(ds, 0, level);
            let w = wad_bytes(ds, level);
            let dstart = data_start(rs.len() as int);
            &&& w.len() == 8 + 24 * rs.len() + data_from(rs, 0).len()
            &&& w.subrange(0, 5) == sig_bytes()
            &&& w[5] == 1u8
            &&& le16_val(w.subrange(6, 8)) == rs.len() as int
            &&& forall|k: int|
                0 <= k < rs.len() ==> rec_slice(w, k) == (#[trigger] rs[k]).rec24(
                    rec_off(rs, k, dstart),
                )
        }),
{
    let rs = dirs_recs_from(ds, 0, level);
    let w = wad_bytes(ds, level);
    let dstart = data_start(rs.len() as int);
    let table = table_from(rs, 0, dstart);
    let dat = data_from(rs, 0);
    lemma_table_len(rs, 0, dstart);
    assert(header_bytes(rs.len() as int).len() == 8);
    assert(w == header_bytes(rs.len() as int) + table + dat);
    assert(w.len() == 8 + 24 * rs.len() + dat.len());
    assert(w.subrange(0, 5) =~= sig_bytes());
    assert(w[5] == 1u8);
    assert(w.subrange(6, 8) =~= le16(rs.len() as int));
    lemma_le16_val(rs.len() as int);
    assert forall|k: int| 0 <= k < rs.len() implies rec_slice(w, k) == (#[trigger] rs[k]).rec24(
        rec_off(rs, k, dstart),
    ) by {
        lemma_table_slice(rs, 0, k, dstart);
        assert(rec_off(rs, 0, dstart) == dstart);
        assert(rec_slice(w, k) =~= table.subrange(24 * k, 24 * k + 24));
    }
}

/// The round trip: decoding an encoded container replays the record state
/// machine exactly, and every entry record's slice of the stream
/// decompresses back to the payload it was built from.  Directory names
/// and entry names come back through the name-field round trip, in the
/// order they were encoded.
#[verifier::rlimit(100)]
pub proof fn lemma_wad_round_trip(ds: Seq<Directory>, level: ZlibCompressionLevel)
    requires
        forest_ok(ds, level),
        forest_enc_facts(ds, level),
    ensures
        ({
            let rs = dirs_recs_from(ds, 0, level);
            let w = wad_bytes(ds, level);
            let dstart = data_start(rs.len() as int);
            &&& parse_spec(w) == Ok::<Seq<WadDirectoryModel>, WadError>(
                recs_dirs(rs, 0, dstart, Option::None, Seq::empty(), Seq::empty()),
            )
            &&& forall|k: int|
                0 <= k < rs.len() && !(#[trigger] rs[k]).is_marker() ==> w.subrange(
                    rec_off(rs, k, dstart),
                    rec_off(rs, k, dstart) + rs[k].rec_comp().len(),
                ) == rs[k].rec_comp() && crate::zlib::zlib_inflate(rs[k].rec_comp()) == Some(
                    rs[k].rec_payload(),
                )
        }),
{
    let rs = dirs_recs_from(ds, 0, level);
    let w = wad_bytes(ds, level);
    let dstart = data_start(rs.len() as int);
    let table = table_from(rs, 0, dstart);
    let dat = data_from(rs, 0);
    lemma_recs_wf_dirs(ds, 0, level);
    lemma_wad_header_slices(ds, level);
    lemma_parse_matches_recs(w, rs, 0, Option::None, Seq::empty(), Seq::empty());
    assert(rec_off(rs, 0, dstart) == dstart);
    assert forall|k: int| 0 <= k < rs.len() && !(#[trigger] rs[k]).is_marker() implies w.subrange(
        rec_off(rs, k, dstart),
        rec_off(rs, k, dstart) + rs[k].rec_comp().len(),
    ) == rs[k].rec_comp() && crate::zlib::zlib_inflate(rs[k].rec_comp()) == Some(
        rs[k].rec_payload(),
    ) by {
        lemma_data_slice(rs, 0, k);
        lemma_rec_off_shift(rs, k, dstart);
        lemma_rec_off_mono(rs, k, 0);
        lemma_rec_off_total(rs, k, 0);
        lemma_rec_off_total(rs, 0, 0);
        assert(rec_off(rs, k, 0) + rs[k].rec_comp().len() <= dat.len());
        assert(w.subrange(rec_off(rs, k, dstart), rec_off(rs, k, dstart) + rs[
            k
        ].rec_comp().len()) =~= dat.subrange(
            rec_off(rs, k, 0),
            rec_off(rs, k, 0) + rs[k].rec_comp().len(),
        ));
    }
}

} // verus!
