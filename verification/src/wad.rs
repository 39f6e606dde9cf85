use vstd::prelude::*;

use crate::forest::{group_entries, grouped_matches, Directory, EntryNode, EntryType};
use crate::layout::{
    data_from, dir_recs, dirs_enc_facts, dirs_names_fit, dirs_no_empty, dirs_recs_from,
    dirs_sizes_ok, forest_enc_facts, forest_names_fit, forest_no_empty, forest_ok,
    forest_sizes_ok, header_bytes, le16_val, le32_val, lemma_rec_off_total, node_enc_facts,
    node_names_fit, node_no_empty, node_payload, node_recs_from, node_sizes_ok, nodes_enc_facts,
    nodes_names_fit, nodes_no_empty, nodes_sizes_ok, parse_recs, parse_spec, rec_off, rec_slice,
    sig_bytes, table_from, wad_bytes, RecModel,
};
use crate::text::{decode_name, encode_name, name16, name_fits};
use crate::zlib::{compress_zlib, decompress_zlib, zlib_inflate, ZlibCompressionLevel};

verus! {

broadcast use vstd::std_specs::vec::group_vec_axioms;

/// A failure of encoding or decoding; every kind is terminal for the
/// operation that raised it.
#[derive(Debug, Clone, Copy, PartialEq, Eq)]
pub enum WadError {
    /// The buffer does not begin with the container signature.
    IncorrectSignature,
    /// The version byte is not the single supported value.
    UnsupportedVersion,
    /// A record pairs a zero offset with a nonzero size or the reverse.
    InvalidEntry,
    /// A name's legacy-encoded form does not fit the fixed name field.
    StructNameTooLong,
    /// A directory holds no entries, which encoding rejects.
    EmptyDirectory,
    /// A payload is not a valid compressed stream.
    CorruptStream,
    /// The buffer is shorter than the header, table or payload demands.
    Truncated,
    /// The container would outgrow the format's offset or count fields.
    TooLarge,
}

/// The on-disk projection of one entry: its decoded name and where its
/// compressed payload lies in the container.
#[derive(Debug, Clone, PartialEq, Eq)]
pub struct WadEntry {
    pub name: String,
    pub offset: u32,
    pub size: u32,
}

/// The mathematical value a `WadEntry` stands for.
pub struct WadEntryModel {
    pub name: Seq<char>,
    pub offset: u32,
    pub size: u32,
}

impl View for WadEntry {
    type V = WadEntryModel;

    open spec fn view(&self) -> WadEntryModel {
        WadEntryModel { name: self.name@, offset: self.offset, size: self.size }
    }
}

impl WadEntry {
    /// Build an on-disk entry record from its parts.
    pub fn new(name: &str, size: u32, offset: u32) -> (r: WadEntry)
        ensures
            r@ == (WadEntryModel { name: name@, offset, size }),
    {
        WadEntry { name: name.to_owned(), size, offset }
    }
}

/// The on-disk projection of one directory: its decoded name and the entry
/// records that follow its marker.
#[derive(Debug, PartialEq, Eq)]
pub struct WadDirectory {
    pub dir: String,
    pub entries: Vec<WadEntry>,
}

/// The mathematical value a `WadDirectory` stands for.
pub struct WadDirectoryModel {
    pub dir: Seq<char>,
    pub entries: Seq<WadEntryModel>,
}

impl View for WadDirectory {
    type V = WadDirectoryModel;

    open spec fn view(&self) -> WadDirectoryModel {
        WadDirectoryModel {
            dir: self.dir@,
            entries: self.entries@.map_values(|e: WadEntry| e@),
        }
    }
}

impl WadDirectory {
    /// Build an on-disk directory from its parts.
    pub fn new(dir: &str, entries: Vec<WadEntry>) -> (r: WadDirectory)
        ensures
            r@.dir == dir@,
            r@.entries == entries@.map_values(|e: WadEntry| e@),
    {
        WadDirectory { dir: dir.to_owned(), entries }
    }
}

/// The ghost value of the decoder's optional open-directory name.
pub open spec fn opt_name_view(c: Option<String>) -> Option<Seq<char>> {
    match c {
        Option::Some(s) => Option::Some(s@),
        Option::None => Option::None,
    }
}

/// Whether a buffer opens like a container: the five signature bytes
/// followed by the supported version byte.  The extractor uses this sniff
/// to decide whether a decompressed payload is itself a container.
pub fn looks_like_container(data: &Vec<u8>) -> (r: bool)
    ensures
        r == (data@.len() >= 6 && data@.subrange(0, 5) == sig_bytes() && data@[5] == 1u8),
{
    if data.len() < 6 {
        return false;
    }
    let ok = data[0] == 68 && data[1] == 70 && data[2] == 87 && data[3] == 65 && data[4] == 68
        && data[5] == 1;
    proof {
        if ok {
            assert(data@.subrange(0, 5) =~= sig_bytes());
        } else {
            if data@.subrange(0, 5) == sig_bytes() {
                assert(data@[0] == sig_bytes()[0]);
                assert(data@[1] == sig_bytes()[1]);
                assert(data@[2] == sig_bytes()[2]);
                assert(data@[3] == sig_bytes()[3]);
                assert(data@[4] == sig_bytes()[4]);
            }
        }
    }
    ok
}

/// Decode the header and the entry table of a container buffer into its
/// on-disk directory projections; nothing is decompressed here.
pub fn parse_wad(data: &Vec<u8>) -> (r: Result<Vec<WadDirectory>, WadError>)
    ensures
        match r {
            Ok(v) => parse_spec(data@) == Ok::<Seq<WadDirectoryModel>, WadError>(
                v@.map_values(|wd: WadDirectory| wd@),
            ),
            Err(e) => parse_spec(data@) == Err::<Seq<WadDirectoryModel>, WadError>(e),
        },
        data@.len() < 8 ==> r == Err::<Vec<WadDirectory>, WadError>(WadError::Truncated),
        data@.len() >= 8 && data@.subrange(0, 5) != sig_bytes() ==> r == Err::<
            Vec<WadDirectory>,
            WadError,
        >(WadError::IncorrectSignature),
        data@.len() >= 8 && data@.subrange(0, 5) == sig_bytes() && data@[5] != 1u8 ==> r == Err::<
            Vec<WadDirectory>,
            WadError,
        >(WadError::UnsupportedVersion),
        r is Ok ==> forall|k: int|
            0 <= k < le16_val(data@.subrange(6, 8)) ==> crate::layout::rec_zero_consistent(
                data@,
                k,
            ),
{
    if data.len() < 8 {
        return Err(WadError::Truncated);
    }
    if !(data[0] == 68 && data[1] == 70 && data[2] == 87 && data[3] == 65 && data[4] == 68) {
        proof {
            if data@.subrange(0, 5) == sig_bytes() {
                assert(data@[0] == sig_bytes()[0]);
                assert(data@[1] == sig_bytes()[1]);
                assert(data@[2] == sig_bytes()[2]);
                assert(data@[3] == sig_bytes()[3]);
                assert(data@[4] == sig_bytes()[4]);
            }
        }
        return Err(WadError::IncorrectSignature);
    }
    proof {
        assert(data@.subrange(0, 5) =~= sig_bytes());
    }
    if data[5] != 1 {
        return Err(WadError::UnsupportedVersion);
    }
    let count: u16 = data[6] as u16 + 256 * (data[7] as u16);
    let count_usize: usize = count as usize;
    proof {
        assert(data@.subrange(6, 8)[0] == data@[6]);
        assert(data@.subrange(6, 8)[1] == data@[7]);
        assert(count_usize as int == le16_val(data@.subrange(6, 8)));
    }
    if data.len() < 8 + 24 * count_usize {
        return Err(WadError::Truncated);
    }
    let mut i: usize = 0;
    let mut cur: Option<String> = Option::None;
    let mut ents: Vec<WadEntry> = Vec::new();
    let mut acc: Vec<WadDirectory> = Vec::new();
    proof {
        assert(ents@.map_values(|e: WadEntry| e@) =~= Seq::<WadEntryModel>::empty());
        assert(acc@.map_values(|wd: WadDirectory| wd@) =~= Seq::<WadDirectoryModel>::empty());
    }
    while i < count_usize
        invariant
            8 + 24 * count_usize <= data@.len(),
            data@.len() <= usize::MAX,
            i <= count_usize,
            parse_spec(data@) == parse_recs(
                data@,
                count_usize as int,
                i as int,
                opt_name_view(cur),
                ents@.map_values(|e: WadEntry| e@),
                acc@.map_values(|wd: WadDirectory| wd@),
            ),
        decreases count_usize - i,
    {
        let ghost pre_step = parse_recs(
            data@,
            count_usize as int,
            i as int,
            opt_name_view(cur),
            ents@.map_values(|e: WadEntry| e@),
            acc@.map_values(|wd: WadDirectory| wd@),
        );
        let base: usize = 8 + 24 * i;
        let name_s = decode_name(vstd::slice::slice_subrange(data.as_slice(), base, base + 16));
        let off: u32 = data[base + 16] as u32 + 256 * (data[base + 17] as u32 + 256 * (data[base
            + 18] as u32 + 256 * (data[base + 19] as u32)));
        let sz: u32 = data[base + 20] as u32 + 256 * (data[base + 21] as u32 + 256 * (data[base
            + 22] as u32 + 256 * (data[base + 23] as u32)));
        proof {
            let rsl = rec_slice(data@, i as int);
            assert(rsl.subrange(0, 16) =~= data@.subrange(base as int, base as int + 16));
            assert(rsl.subrange(16, 20) =~= data@.subrange(base as int + 16, base as int + 20));
            assert(rsl.subrange(20, 24) =~= data@.subrange(base as int + 20, base as int + 24));
            assert(rsl.subrange(16, 20)[0] == data@[base as int + 16]);
            assert(rsl.subrange(16, 20)[1] == data@[base as int + 17]);
            assert(rsl.subrange(16, 20)[2] == data@[base as int + 18]);
            assert(rsl.subrange(16, 20)[3] == data@[base as int + 19]);
            assert(rsl.subrange(20, 24)[0] == data@[base as int + 20]);
            assert(rsl.subrange(20, 24)[1] == data@[base as int + 21]);
            assert(rsl.subrange(20, 24)[2] == data@[base as int + 22]);
            assert(rsl.subrange(20, 24)[3] == data@[base as int + 23]);
            assert(off as int == le32_val(rsl.subrange(16, 20)));
            assert(sz as int == le32_val(rsl.subrange(20, 24)));
            assert(name_s@ == crate::text::field_name(rsl.subrange(0, 16)));
        }
        if off == 0 && sz == 0 {
            let prev = cur;
            let prev_ents = ents;
            cur = Option::Some(name_s);
            ents = Vec::new();
            match prev {
                Option::Some(n) => {
                    if prev_ents.len() > 0 {
                        let ghost old_acc = acc@.map_values(|wd: WadDirectory| wd@);
                        let fin = WadDirectory { dir: n, entries: prev_ents };
                        acc.push(fin);
                        proof {
                            assert(acc@.map_values(|wd: WadDirectory| wd@) =~= old_acc.push(fin@));
                        }
                    }
                },
                Option::None => {},
            }
            proof {
                assert(ents@.map_values(|e: WadEntry| e@) =~= Seq::<WadEntryModel>::empty());
            }
        } else if off == 0 || sz == 0 {
            proof {
                assert(pre_step == Err::<Seq<WadDirectoryModel>, WadError>(WadError::InvalidEntry));
            }
            return Err(WadError::InvalidEntry);
        } else {
            if cur.is_none() {
                cur = Option::Some(String::new());
            }
            let ghost old_ents = ents@.map_values(|e: WadEntry| e@);
            let e = WadEntry { name: name_s, offset: off, size: sz };
            ents.push(e);
            proof {
                assert(ents@.map_values(|ee: WadEntry| ee@) =~= old_ents.push(e@));
            }
        }
        i = i + 1;
    }
    match cur {
        Option::Some(n) => {
            let ghost old_acc = acc@.map_values(|wd: WadDirectory| wd@);
            let fin = WadDirectory { dir: n, entries: ents };
            acc.push(fin);
            proof {
                assert(acc@.map_values(|wd: WadDirectory| wd@) =~= old_acc.push(fin@));
            }
        },
        Option::None => {},
    }
    proof {
        crate::layout::lemma_parse_ok_zero_consistent(
            data@,
            count_usize as int,
            0,
            Option::None,
            Seq::empty(),
            Seq::empty(),
        );
    }
    Ok(acc)
}

/// Whether a name's legacy-encoded form fits the fixed name field.
fn name_fits_exec(s: &str) -> (r: bool)
    ensures
        r == name_fits(s@),
{
    match encode_name(s) {
        Ok(_) => true,
        Err(_) => false,
    }
}

/// Walk the whole forest before anything is compressed: report a directory
/// with no entries, or a name whose encoded form exceeds the name field,
/// at any depth.
fn validate_forest(dirs: &Vec<Directory>) -> (r: Option<WadError>)
    ensures
        r is None <==> (forest_names_fit(dirs@) && forest_no_empty(dirs@)),
        r == Some(WadError::EmptyDirectory) ==> !forest_no_empty(dirs@),
        r == Some(WadError::StructNameTooLong) ==> !forest_names_fit(dirs@),
        r is Some ==> r == Some(WadError::EmptyDirectory) || r == Some(
            WadError::StructNameTooLong,
        ),
    decreases dirs@, 0nat,
{
    let ghost dsq = dirs@;
    let mut k: usize = 0;
    while k < dirs.len()
        invariant
            dsq == dirs@,
            k <= dsq.len(),
            forest_names_fit(dsq) <==> dirs_names_fit(dsq, k as int),
            forest_no_empty(dsq) <==> dirs_no_empty(dsq, k as int),
        decreases dsq.len() - k,
    {
        let d = &dirs[k];
        if d.entries.len() == 0 {
            return Some(WadError::EmptyDirectory);
        }
        if !name_fits_exec(d.name.as_str()) {
            return Some(WadError::StructNameTooLong);
        }
        let ghost ns = d.entries@;
        let mut j: usize = 0;
        while j < d.entries.len()
            invariant
                dsq == dirs@,
                k < dsq.len(),
                *d == dsq[k as int],
                ns == d.entries@,
                j <= ns.len(),
                forest_names_fit(dsq) <==> dirs_names_fit(dsq, k as int),
                forest_no_empty(dsq) <==> dirs_no_empty(dsq, k as int),
                nodes_names_fit(ns, 0) <==> nodes_names_fit(ns, j as int),
                nodes_no_empty(ns, 0) <==> nodes_no_empty(ns, j as int),
            decreases ns.len() - j,
        {
            let node = &d.entries[j];
            proof {
                assert(*node == ns[j as int]);
            }
            match node {
                EntryNode::Entry { name, bytes: _ } => {
                    if !name_fits_exec(name.as_str()) {
                        proof {
                            assert(!node_names_fit(ns[j as int]));
                            assert(!nodes_names_fit(ns, j as int));
                            assert(!dirs_names_fit(dsq, k as int));
                        }
                        return Some(WadError::StructNameTooLong);
                    }
                    proof {
                        assert(node_names_fit(ns[j as int]));
                        assert(node_no_empty(ns[j as int]));
                    }
                },
                EntryNode::Nested { name, dirs: sub } => {
                    if !name_fits_exec(name.as_str()) {
                        proof {
                            assert(!node_names_fit(ns[j as int]));
                            assert(!nodes_names_fit(ns, j as int));
                            assert(!dirs_names_fit(dsq, k as int));
                        }
                        return Some(WadError::StructNameTooLong);
                    }
                    proof {
                        assert(decreases_to!(dsq => dsq[k as int]));
                        assert(decreases_to!(dsq[k as int] => dsq[k as int].entries));
                        assert(decreases_to!(dsq[k as int].entries => dsq[k as int].entries@));
                        assert(decreases_to!(dsq[k as int].entries@ => ns[j as int]));
                        assert(ns[j as int]->Nested_dirs == *sub);
                        assert(decreases_to!(ns[j as int] => ns[j as int]->Nested_dirs));
                        assert(decreases_to!(*sub => sub@));
                    }
                    match validate_forest(sub) {
                        Some(e) => {
                            proof {
                                if e == WadError::EmptyDirectory {
                                    assert(!forest_no_empty(sub@));
                                    assert(!node_no_empty(ns[j as int]));
                                    assert(!nodes_no_empty(ns, j as int));
                                    assert(!dirs_no_empty(dsq, k as int));
                                } else {
                                    assert(e == WadError::StructNameTooLong);
                                    assert(!forest_names_fit(sub@));
                                    assert(!node_names_fit(ns[j as int]));
                                    assert(!nodes_names_fit(ns, j as int));
                                    assert(!dirs_names_fit(dsq, k as int));
                                }
                            }
                            return Some(e);
                        },
                        None => {},
                    }
                    proof {
                        assert(node_names_fit(ns[j as int]));
                        assert(node_no_empty(ns[j as int]));
                    }
                },
            }
            proof {
                assert(nodes_names_fit(ns, j as int) <==> nodes_names_fit(ns, j + 1));
                assert(nodes_no_empty(ns, j as int) <==> nodes_no_empty(ns, j + 1));
            }
            j = j + 1;
        }
        proof {
            assert(nodes_names_fit(ns, j as int));
            assert(nodes_no_empty(ns, j as int));
            assert(dirs_names_fit(dsq, k as int) <==> dirs_names_fit(dsq, k + 1));
            assert(dirs_no_empty(dsq, k as int) <==> dirs_no_empty(dsq, k + 1));
        }
        k = k + 1;
    }
    None
}

/// Append the bytes of `src` to `out`.
fn push_bytes(out: &mut Vec<u8>, src: &Vec<u8>)
    ensures
        final(out)@ == old(out)@ + src@,
{
    let mut j: usize = 0;
    proof {
        assert(out@ =~= old(out)@ + src@.subrange(0, 0));
    }
    while j < src.len()
        invariant
            j <= src@.len(),
            out@ == old(out)@ + src@.subrange(0, j as int),
        decreases src@.len() - j,
    {
        out.push(src[j]);
        proof {
            assert(out@ =~= old(out)@ + src@.subrange(0, j + 1));
        }
        j = j + 1;
    }
    proof {
        assert(src@.subrange(0, src@.len() as int) =~= src@);
    }
}

/// Append `x` as two little-endian bytes.
fn push_le16(out: &mut Vec<u8>, x: u16)
    ensures
        final(out)@ == old(out)@ + crate::layout::le16(x as int),
{
    out.push((x % 256) as u8);
    out.push(((x / 256) % 256) as u8);
    proof {
        assert(out@ =~= old(out)@ + crate::layout::le16(x as int));
    }
}

/// Append `x` as four little-endian bytes.
fn push_le32(out: &mut Vec<u8>, x: u32)
    ensures
        final(out)@ == old(out)@ + crate::layout::le32(x as int),
{
    out.push((x % 256) as u8);
    out.push(((x / 256) % 256) as u8);
    out.push(((x / 65536) % 256) as u8);
    out.push(((x / 16777216) % 256) as u8);
    proof {
        assert(out@ =~= old(out)@ + crate::layout::le32(x as int));
    }
}
/// The built prefix of the record table: name fields and optional blobs
/// agree with the model records.
pub open spec fn recs_built(
    names: Seq<Vec<u8>>,
    comps: Seq<Option<Vec<u8>>>,
    rs: Seq<RecModel>,
    upto: int,
) -> bool {
    forall|i: int|
        #![trigger names[i]]
        #![trigger comps[i]]
        0 <= i < upto ==> {
            &&& names[i]@ == name16(rs[i].rec_name())
            &&& name_fits(rs[i].rec_name())
            &&& match comps[i] {
                Option::Some(c) => !rs[i].is_marker() && c@ == rs[i].rec_comp() && c@.len() >= 1,
                Option::None => rs[i].is_marker(),
            }
        }
}

/// Serialize one node: its padded name field and its compressed payload,
/// the payload of a nested sub-forest being its own complete container.
#[verifier::loop_isolation(false)]
fn build_node(node: &EntryNode, level: ZlibCompressionLevel) -> (r: Result<
    (Vec<u8>, Vec<u8>),
    WadError,
>)
    requires
        node_names_fit(*node),
        node_no_empty(*node),
    ensures
        r matches Ok(p) ==> {
            &&& p.0@ == name16(node.node_name())
            &&& p.1@ == crate::layout::node_comp(*node, level)
            &&& p.1@.len() >= 1
            &&& node_enc_facts(*node, level)
            &&& node_sizes_ok(*node, level)
        },
        r matches Err(e) ==> e == WadError::TooLarge && !node_sizes_ok(*node, level),
    decreases *node, 2nat,
{
    match node {
        EntryNode::Entry { name, bytes } => {
            let en = match encode_name(name.as_str()) {
                Ok(v) => v,
                Err(_) => {
                    proof {
                        assert(false);
                    }
                    return Err(WadError::TooLarge);
                },
            };
            let comp = match compress_zlib(bytes.as_slice(), level) {
                Ok(c) => c,
                Err(_) => {
                    proof {
                        assert(false);
                    }
                    return Err(WadError::TooLarge);
                },
            };
            proof {
                assert(node_payload(*node, level) == bytes@);
                assert(node_enc_facts(*node, level));
            }
            Ok((en, comp))
        },
        EntryNode::Nested { name, dirs: sub } => {
            let en = match encode_name(name.as_str()) {
                Ok(v) => v,
                Err(_) => {
                    proof {
                        assert(false);
                    }
                    return Err(WadError::TooLarge);
                },
            };
            proof {
                assert((*node)->Nested_dirs == *sub);
                assert(decreases_to!(*node => (*node)->Nested_dirs));
                assert(decreases_to!(*sub => sub@));
            }
            let encoded = match encode_wad(sub, level) {
                Ok(b) => b,
                Err(e) => {
                    proof {
                        assert(e == WadError::TooLarge);
                        assert(!forest_sizes_ok(sub@, level));
                    }
                    return Err(WadError::TooLarge);
                },
            };
            let comp = match compress_zlib(encoded.as_slice(), level) {
                Ok(c) => c,
                Err(_) => {
                    proof {
                        assert(false);
                    }
                    return Err(WadError::TooLarge);
                },
            };
            proof {
                assert(node_payload(*node, level) == wad_bytes(sub@, level));
                assert(node_enc_facts(*node, level));
            }
            Ok((en, comp))
        },
    }
}

/// Serialize one directory's records: its marker name field, then each
/// node's name field and compressed payload, appended to the running
/// record lists.
#[verifier::rlimit(100)]
fn build_dir(
    d: &Directory,
    level: ZlibCompressionLevel,
    names: &mut Vec<Vec<u8>>,
    comps: &mut Vec<Option<Vec<u8>>>,
    Ghost(rs): Ghost<Seq<RecModel>>,
    Ghost(rest): Ghost<Seq<RecModel>>,
) -> (r: Result<(), WadError>)
    requires
        name_fits(d.name@),
        nodes_names_fit(d.entries@, 0),
        nodes_no_empty(d.entries@, 0),
        old(names)@.len() == old(comps)@.len(),
        old(names)@.len() <= rs.len(),
        rs.subrange(old(names)@.len() as int, rs.len() as int) == dir_recs(*d, level) + rest,
        recs_built(old(names)@, old(comps)@, rs, old(names)@.len() as int),
    ensures
        r matches Ok(u) ==> {
            &&& final(names)@.len() == old(names)@.len() + 1 + d.entries@.len()
            &&& final(comps)@.len() == final(names)@.len()
            &&& final(names)@.len() <= rs.len()
            &&& rs.subrange(final(names)@.len() as int, rs.len() as int) == rest
            &&& recs_built(final(names)@, final(comps)@, rs, final(names)@.len() as int)
            &&& (crate::text::name_clean(d.name@) && name_fits(d.name@)
                ==> crate::text::field_name(name16(d.name@)) == d.name@)
            &&& nodes_enc_facts(d.entries@, 0, level)
            &&& nodes_sizes_ok(d.entries@, 0, level)
        },
        r matches Err(e) ==> e == WadError::TooLarge && !nodes_sizes_ok(d.entries@, 0, level),
    decreases *d, 9nat,
{
    let ghost ns = d.entries@;
    let ghost lpre = names@.len() as int;
    proof {
        assert(dir_recs(*d, level) == seq![RecModel::Marker { name: d.name@ }] + node_recs_from(
            ns,
            0,
            level,
        ));
        assert(rs.subrange(lpre, rs.len() as int).len() == rs.len() - lpre);
        assert(dir_recs(*d, level).len() >= 1);
        assert(lpre < rs.len());
        assert(rs.subrange(lpre, rs.len() as int)[0] == rs[lpre]);
        assert((dir_recs(*d, level) + rest)[0] == RecModel::Marker { name: d.name@ });
        assert(rs[lpre] == RecModel::Marker { name: d.name@ });
    }
    let dn = match encode_name(d.name.as_str()) {
        Ok(v) => v,
        Err(_) => {
            proof {
                assert(false);
            }
            return Err(WadError::TooLarge);
        },
    };
    names.push(dn);
    comps.push(Option::None);
    let ghost dir_name_fact = crate::text::name_clean(d.name@) && name_fits(d.name@)
        ==> crate::text::field_name(name16(d.name@)) == d.name@;
    proof {
        let suf = rs.subrange(lpre, rs.len() as int);
        assert(suf =~= seq![RecModel::Marker { name: d.name@ }] + (node_recs_from(ns, 0, level)
            + rest));
        assert(rs.subrange(lpre + 1, rs.len() as int) =~= suf.subrange(1, suf.len() as int));
        assert(suf.subrange(1, suf.len() as int) =~= node_recs_from(ns, 0, level) + rest);
        assert(recs_built(names@, comps@, rs, lpre + 1));
    }
    let mut j: usize = 0;
    while j < d.entries.len()
        invariant
            ns == d.entries@,
            nodes_names_fit(ns, j as int),
            nodes_no_empty(ns, j as int),
            j <= ns.len(),
            names@.len() == comps@.len(),
            names@.len() <= rs.len(),
            names@.len() == lpre + 1 + j,
            rs.subrange(names@.len() as int, rs.len() as int) == node_recs_from(
                ns,
                j as int,
                level,
            ) + rest,
            recs_built(names@, comps@, rs, names@.len() as int),
            nodes_enc_facts(ns, j as int, level) ==> nodes_enc_facts(ns, 0, level),
            nodes_sizes_ok(ns, j as int, level) <==> nodes_sizes_ok(ns, 0, level),
            dir_name_fact,
        decreases ns.len() - j,
    {
        let ghost lcur = names@.len() as int;
        let node = &d.entries[j];
        proof {
            assert(*node == ns[j as int]);
            assert(node_recs_from(ns, j as int, level) == seq![
                RecModel::Blob {
                    name: ns[j as int].node_name(),
                    payload: node_payload(ns[j as int], level),
                    comp: crate::layout::node_comp(ns[j as int], level),
                },
            ] + node_recs_from(ns, j + 1, level));
            assert(rs.subrange(lcur, rs.len() as int).len() == rs.len() - lcur);
            assert(lcur < rs.len());
            assert(rs.subrange(lcur, rs.len() as int)[0] == rs[lcur]);
            assert(rs[lcur] == RecModel::Blob {
                name: ns[j as int].node_name(),
                payload: node_payload(ns[j as int], level),
                comp: crate::layout::node_comp(ns[j as int], level),
            });
            assert(decreases_to!(ns => ns[j as int]));
        }
        let p = match build_node(node, level) {
            Ok(p) => p,
            Err(e) => {
                proof {
                    assert(!nodes_sizes_ok(ns, j as int, level));
                }
                return Err(WadError::TooLarge);
            },
        };
        names.push(p.0);
        comps.push(Option::Some(p.1));
        proof {
            assert(node_names_fit(ns[j as int]));
            assert(name_fits(ns[j as int].node_name()));
            assert(rs[lcur].rec_name() == ns[j as int].node_name());
            assert(names@[lcur]@ == name16(rs[lcur].rec_name()));
            let suf = rs.subrange(lcur, rs.len() as int);
            assert(suf =~= seq![
                RecModel::Blob {
                    name: ns[j as int].node_name(),
                    payload: node_payload(ns[j as int], level),
                    comp: crate::layout::node_comp(ns[j as int], level),
                },
            ] + (node_recs_from(ns, j + 1, level) + rest));
            assert(rs.subrange(lcur + 1, rs.len() as int) =~= suf.subrange(1, suf.len() as int));
            assert(suf.subrange(1, suf.len() as int) =~= node_recs_from(ns, j + 1, level) + rest);
            assert(recs_built(names@, comps@, rs, lcur + 1));
            assert(nodes_enc_facts(ns, j as int, level) <== nodes_enc_facts(ns, j + 1, level));
            assert(nodes_sizes_ok(ns, j as int, level) <==> nodes_sizes_ok(ns, j + 1, level));
        }
        j = j + 1;
    }
    proof {
        assert(node_recs_from(ns, j as int, level) =~= Seq::<RecModel>::empty());
        assert(rs.subrange(names@.len() as int, rs.len() as int) =~= rest);
        assert(nodes_enc_facts(ns, j as int, level));
        assert(nodes_sizes_ok(ns, 0, level));
    }
    Ok(())
}

/// Walk the forest once, in table order, and produce for each record its
/// padded name field and, for entry records, its compressed payload;
/// nested sub-forests are serialized recursively along the way.
#[verifier::loop_isolation(false)]
#[verifier::rlimit(60)]
fn build_records(dirs: &Vec<Directory>, level: ZlibCompressionLevel) -> (r: Result<
    (Vec<Vec<u8>>, Vec<Option<Vec<u8>>>),
    WadError,
>)
    requires
        forest_names_fit(dirs@),
        forest_no_empty(dirs@),
    ensures
        r matches Ok(p) ==> {
            let rs = dirs_recs_from(dirs@, 0, level);
            &&& p.0@.len() == rs.len()
            &&& p.1@.len() == rs.len()
            &&& recs_built(p.0@, p.1@, rs, rs.len() as int)
            &&& forest_enc_facts(dirs@, level)
            &&& dirs_sizes_ok(dirs@, 0, level)
        },
        r matches Err(e) ==> e == WadError::TooLarge && !dirs_sizes_ok(dirs@, 0, level),
    decreases dirs@, 1nat,
{
    let ghost ds = dirs@;
    let ghost rs = dirs_recs_from(ds, 0, level);
    let mut names: Vec<Vec<u8>> = Vec::new();
    let mut comps: Vec<Option<Vec<u8>>> = Vec::new();
    let mut k: usize = 0;
    while k < dirs.len()
        invariant
            k <= ds.len(),
            names@.len() == comps@.len(),
            names@.len() <= rs.len(),
            rs.subrange(names@.len() as int, rs.len() as int) == dirs_recs_from(
                ds,
                k as int,
                level,
            ),
            recs_built(names@, comps@, rs, names@.len() as int),
            dirs_enc_facts(ds, k as int, level) ==> dirs_enc_facts(ds, 0, level),
            dirs_sizes_ok(ds, k as int, level) <==> dirs_sizes_ok(ds, 0, level),
            dirs_names_fit(ds, k as int),
            dirs_no_empty(ds, k as int),
        decreases ds.len() - k,
    {
        let d = &dirs[k];
        proof {
            assert(dirs_recs_from(ds, k as int, level) == dir_recs(ds[k as int], level)
                + dirs_recs_from(ds, k + 1, level));
            assert(decreases_to!(ds => ds[k as int]));
        }
        match build_dir(
            d,
            level,
            &mut names,
            &mut comps,
            Ghost(rs),
            Ghost(dirs_recs_from(ds, k + 1, level)),
        ) {
            Ok(_) => {},
            Err(e) => {
                proof {
                    assert(!dirs_sizes_ok(ds, k as int, level));
                }
                return Err(e);
            },
        }
        proof {
            assert(dirs_enc_facts(ds, k as int, level) <== dirs_enc_facts(ds, k + 1, level));
            assert(dirs_sizes_ok(ds, k as int, level) <==> dirs_sizes_ok(ds, k + 1, level));
        }
        k = k + 1;
    }
    proof {
        assert(dirs_recs_from(ds, k as int, level) =~= Seq::<RecModel>::empty());
        assert(names@.len() == rs.len());
        assert(dirs_enc_facts(ds, k as int, level));
        assert(dirs_sizes_ok(ds, k as int, level));
    }
    Ok((names, comps))
}

/// Add up the data region: the offset just past the last payload, or the
/// finding that it would not fit the table's 32-bit offset fields.
#[verifier::loop_isolation(false)]
fn scan_total(comps: &Vec<Option<Vec<u8>>>, dstart: usize, Ghost(rs): Ghost<Seq<RecModel>>) -> (r:
    Result<u64, WadError>)
    requires
        comps@.len() == rs.len(),
        rs.len() <= 65535,
        dstart == crate::layout::data_start(rs.len() as int),
        forall|i: int|
            0 <= i < rs.len() ==> match #[trigger] comps@[i] {
                Option::Some(c) => c@ == rs[i].rec_comp(),
                Option::None => rs[i].rec_comp().len() == 0,
            },
    ensures
        r matches Ok(t) ==> t == dstart + data_from(rs, 0).len() && t <= 0xFFFFFFFF,
        r is Err ==> r == Err::<u64, WadError>(WadError::TooLarge) && dstart + data_from(
            rs,
            0,
        ).len() > 0xFFFFFFFF,
{
    let count: usize = comps.len();
    let mut total: u64 = dstart as u64;
    let mut i: usize = 0;
    while i < count
        invariant
            i <= count,
            total == rec_off(rs, i as int, dstart as int),
            total <= 0xFFFFFFFF,
        decreases count - i,
    {
        match &comps[i] {
            Option::Some(c) => {
                let cl: u64 = c.len() as u64;
                if cl > 0xFFFFFFFFu64 - total {
                    proof {
                        lemma_rec_off_total(rs, i + 1, dstart as int);
                        assert(rec_off(rs, i + 1, dstart as int) == total + rs[
                            i as int
                        ].rec_comp().len());
                        lemma_rec_off_total(rs, 0, dstart as int);
                    }
                    return Err(WadError::TooLarge);
                }
                total = total + cl;
                proof {
                    assert(total == rec_off(rs, i + 1, dstart as int));
                }
            },
            Option::None => {
                proof {
                    assert(total == rec_off(rs, i + 1, dstart as int));
                }
            },
        }
        i = i + 1;
    }
    proof {
        lemma_rec_off_total(rs, 0, dstart as int);
    }
    Ok(total)
}

/// Write one table record: the name field, then either the payload's
/// offset and size or a marker's two zero words.
#[verifier::loop_isolation(false)]
fn write_record(
    out: &mut Vec<u8>,
    name: &Vec<u8>,
    comp: &Option<Vec<u8>>,
    off: u64,
    Ghost(r): Ghost<RecModel>,
)
    requires
        name@ == name16(r.rec_name()),
        match *comp {
            Option::Some(c) => !r.is_marker() && c@ == r.rec_comp() && c@.len()
                <= 0xFFFFFFFF,
            Option::None => r.is_marker(),
        },
        off <= 0xFFFFFFFF,
    ensures
        final(out)@ == old(out)@ + r.rec24(off as int),
{
    push_bytes(out, name);
    match comp {
        Option::Some(c) => {
            push_le32(out, off as u32);
            push_le32(out, c.len() as u32);
            proof {
                assert(r.rec24(off as int) == name16(r.rec_name()) + crate::layout::le32(
                    off as int,
                ) + crate::layout::le32(c@.len() as int));
                assert(out@ =~= old(out)@ + r.rec24(off as int));
            }
        },
        Option::None => {
            push_le32(out, 0u32);
            push_le32(out, 0u32);
            proof {
                assert(r.rec24(off as int) == name16(r.rec_name()) + crate::layout::le32(0)
                    + crate::layout::le32(0));
                assert(out@ =~= old(out)@ + r.rec24(off as int));
            }
        },
    }
}

/// Write the entry table: for each record its name field, then either the
/// payload's offset and size or a marker's two zero words.
#[verifier::rlimit(100)]
fn write_table(
    out: &mut Vec<u8>,
    names: &Vec<Vec<u8>>,
    comps: &Vec<Option<Vec<u8>>>,
    dstart: usize,
    Ghost(rs): Ghost<Seq<RecModel>>,
)
    requires
        names@.len() == rs.len(),
        comps@.len() == rs.len(),
        dstart == crate::layout::data_start(rs.len() as int),
        recs_built(names@, comps@, rs, rs.len() as int),
        dstart + data_from(rs, 0).len() <= 0xFFFFFFFF,
    ensures
        final(out)@ == old(out)@ + table_from(rs, 0, dstart as int),
{
    let count: usize = names.len();
    let mut off: u64 = dstart as u64;
    let mut i: usize = 0;

    while i < count
        invariant
            count == rs.len(),
            names@.len() == rs.len(),
            comps@.len() == rs.len(),
            dstart == crate::layout::data_start(rs.len() as int),
            recs_built(names@, comps@, rs, rs.len() as int),
            dstart + data_from(rs, 0).len() <= 0xFFFFFFFF,
            i <= count,
            off == rec_off(rs, i as int, dstart as int),
            off <= 0xFFFFFFFF,
            out@ + table_from(rs, i as int, off as int) == old(out)@ + table_from(
                rs,
                0,
                dstart as int,
            ),
        decreases count - i,
    {
        proof {
            lemma_rec_off_total(rs, 0, dstart as int);
            lemma_rec_off_total(rs, i as int, dstart as int);
            lemma_rec_off_total(rs, i + 1, dstart as int);
            assert(data_from(rs, i as int).len() >= rs[i as int].rec_comp().len());
        }
        let ghost out_pre = out@;
        let ghost off_pre = off as int;
        proof {
            assert(data_from(rs, i as int).len() <= 0xFFFFFFFF);
            assert(rs[i as int].rec_comp().len() <= 0xFFFFFFFF);
            assert(match comps@[i as int] {
                Option::Some(c) => !rs[i as int].is_marker() && c@ == rs[i as int].rec_comp(),
                Option::None => rs[i as int].is_marker(),
            });
        }
        write_record(out, &names[i], &comps[i], off, Ghost(rs[i as int]));
        match &comps[i] {
            Option::Some(c) => {
                off = off + c.len() as u64;
            },
            Option::None => {
                proof {
                    assert(rs[i as int].rec_comp() =~= Seq::<u8>::empty());
                }
            },
        }
        proof {
            assert(table_from(rs, i as int, off_pre) == rs[i as int].rec24(off_pre) + table_from(
                rs,
                i + 1,
                off_pre + rs[i as int].rec_comp().len(),
            ));
            assert(off == off_pre + rs[i as int].rec_comp().len());
            assert(out@ + table_from(rs, i + 1, off as int) =~= old(out)@ + table_from(
                rs,
                0,
                dstart as int,
            ));
        }
        i = i + 1;
    }
    proof {
        assert(table_from(rs, count as int, off as int) =~= Seq::<u8>::empty());
        assert(out@ =~= out@ + table_from(rs, count as int, off as int));
    }
}

/// Append each payload blob, in table order, to close the data region.
#[verifier::loop_isolation(false)]
fn write_data(out: &mut Vec<u8>, comps: &Vec<Option<Vec<u8>>>, Ghost(rs): Ghost<Seq<RecModel>>)
    requires
        comps@.len() == rs.len(),
        forall|i: int|
            0 <= i < rs.len() ==> match #[trigger] comps@[i] {
                Option::Some(c) => c@ == rs[i].rec_comp(),
                Option::None => rs[i].rec_comp().len() == 0,
            },
    ensures
        final(out)@ == old(out)@ + data_from(rs, 0),
{
    let count: usize = comps.len();
    let mut i: usize = 0;
    proof {
        assert(out@ =~= old(out)@ + data_from(rs, 0).subrange(0, 0));
    }
    while i < count
        invariant
            i <= count,
            out@ + data_from(rs, i as int) =~= old(out)@ + data_from(rs, 0),
        decreases count - i,
    {
        let ghost out_pre = out@;
        match &comps[i] {
            Option::Some(c) => {
                push_bytes(out, c);
                proof {
                    assert(rs[i as int].rec_comp() == c@);
                }
            },
            Option::None => {
                proof {
                    assert(rs[i as int].rec_comp() =~= Seq::<u8>::empty());
                }
            },
        }
        proof {
            assert(data_from(rs, i as int) == rs[i as int].rec_comp() + data_from(rs, i + 1));
            assert(out@ =~= out_pre + rs[i as int].rec_comp());
            assert(out@ + data_from(rs, i + 1) =~= old(out)@ + data_from(rs, 0));
        }
        i = i + 1;
    }
    proof {
        assert(data_from(rs, count as int) =~= Seq::<u8>::empty());
    }
}

/// Serialize a forest of directories into a complete container: the fixed
/// header, the entry table, then each compressed payload, all in one
/// forward pass with every offset known in closed form.
#[verifier::loop_isolation(false)]
#[verifier::rlimit(60)]
pub fn encode_wad(dirs: &Vec<Directory>, level: ZlibCompressionLevel) -> (r: Result<
    Vec<u8>,
    WadError,
>)
    ensures
        r is Ok <==> forest_ok(dirs@, level),
        r matches Ok(out) ==> out@ == wad_bytes(dirs@, level) && forest_enc_facts(dirs@, level),
        r matches Ok(out) ==> parse_spec(out@) == Ok::<Seq<WadDirectoryModel>, WadError>(
            crate::layout::decoded_dirs(
                dirs@,
                0,
                crate::layout::data_start(dirs_recs_from(dirs@, 0, level).len() as int),
                level,
            ),
        ),
        forest_names_fit(dirs@) && !forest_no_empty(dirs@) ==> r == Err::<Vec<u8>, WadError>(
            WadError::EmptyDirectory,
        ),
        forest_no_empty(dirs@) && !forest_names_fit(dirs@) ==> r == Err::<Vec<u8>, WadError>(
            WadError::StructNameTooLong,
        ),
        forest_names_fit(dirs@) && forest_no_empty(dirs@) && !forest_sizes_ok(dirs@, level) ==> r
            == Err::<Vec<u8>, WadError>(WadError::TooLarge),
        r matches Err(e) ==> {
            &&& (e == WadError::EmptyDirectory ==> !forest_no_empty(dirs@))
            &&& (e == WadError::StructNameTooLong ==> !forest_names_fit(dirs@))
            &&& (e == WadError::TooLarge ==> !forest_sizes_ok(dirs@, level))
            &&& (e == WadError::EmptyDirectory || e == WadError::StructNameTooLong || e
                == WadError::TooLarge)
        },
    decreases dirs@, 3nat,
{
    match validate_forest(dirs) {
        Some(e) => {
            return Err(e);
        },
        None => {},
    }
    let p = match build_records(dirs, level) {
        Ok(p) => p,
        Err(e) => {
            return Err(e);
        },
    };
    let names = p.0;
    let comps = p.1;
    let ghost ds = dirs@;
    let ghost rs = dirs_recs_from(ds, 0, level);
    let count: usize = names.len();
    if count > 65535 {
        proof {
            assert(!crate::layout::level_size_ok(ds, level));
        }
        return Err(WadError::TooLarge);
    }
    let dstart: usize = 8 + 24 * count;
    match scan_total(&comps, dstart, Ghost(rs)) {
        Ok(_) => {},
        Err(e) => {
            proof {
                assert(!crate::layout::level_size_ok(ds, level));
            }
            return Err(WadError::TooLarge);
        },
    }
    proof {
        assert(crate::layout::level_size_ok(ds, level));
        assert(forest_sizes_ok(ds, level));
    }
    let mut out: Vec<u8> = Vec::new();
    out.push(68);
    out.push(70);
    out.push(87);
    out.push(65);
    out.push(68);
    out.push(1);
    push_le16(&mut out, count as u16);
    proof {
        assert(out@ =~= header_bytes(count as int));
    }
    write_table(&mut out, &names, &comps, dstart, Ghost(rs));
    let ghost table_done = out@;
    write_data(&mut out, &comps, Ghost(rs));
    proof {
        assert(out@ =~= header_bytes(rs.len() as int) + table_from(
            rs,
            0,
            crate::layout::data_start(rs.len() as int),
        ) + data_from(rs, 0));
        assert(out@ =~= wad_bytes(ds, level));
        crate::layout::lemma_wad_decodes_to_forest(ds, level);
    }
    Ok(out)
}
/// Pack a flat walker forest at the chosen effort: group it by directory
/// tag in first-seen order, then encode the grouped forest.
pub fn create_wad(data: &Vec<EntryType>, level: ZlibCompressionLevel) -> (r: Result<
    Vec<u8>,
    WadError,
>)
    ensures
        exists|g: Seq<Directory>|
            #[trigger] grouped_matches(g, data@) && match r {
                Ok(out) => forest_ok(g, level) && out@ == wad_bytes(g, level) && forest_enc_facts(
                    g,
                    level,
                ),
                Err(e) => !forest_ok(g, level) && (e == WadError::EmptyDirectory || e
                    == WadError::StructNameTooLong || e == WadError::TooLarge),
            },
{
    let g = group_entries(data);
    let r = encode_wad(&g, level);
    proof {
        assert(grouped_matches(g@, data@) && match r {
            Ok(out) => forest_ok(g@, level) && out@ == wad_bytes(g@, level) && forest_enc_facts(
                g@,
                level,
            ),
            Err(e) => !forest_ok(g@, level) && (e == WadError::EmptyDirectory || e
                == WadError::StructNameTooLong || e == WadError::TooLarge),
        });
    }
    r
}

/// Pack a flat walker forest at the compressor's default effort.
pub fn create_wad2(data: &Vec<EntryType>) -> (r: Result<Vec<u8>, WadError>)
    ensures
        exists|g: Seq<Directory>|
            #[trigger] grouped_matches(g, data@) && match r {
                Ok(out) => forest_ok(g, ZlibCompressionLevel::Default) && out@ == wad_bytes(
                    g,
                    ZlibCompressionLevel::Default,
                ) && forest_enc_facts(g, ZlibCompressionLevel::Default),
                Err(e) => !forest_ok(g, ZlibCompressionLevel::Default) && (e
                    == WadError::EmptyDirectory || e == WadError::StructNameTooLong || e
                    == WadError::TooLarge),
            },
{
    create_wad(data, ZlibCompressionLevel::Default)
}

/// Slice an entry's compressed payload out of the container buffer and
/// decompress it; a buffer too short for the record is truncated, a
/// payload that is not a valid stream is corrupt.
pub fn read_entry(data: &Vec<u8>, entry: &WadEntry) -> (r: Result<Vec<u8>, WadError>)
    ensures
        entry.offset as int + entry.size as int > data@.len() ==> r == Err::<Vec<u8>, WadError>(
            WadError::Truncated,
        ),
        entry.offset as int + entry.size as int <= data@.len() ==> match r {
            Ok(v) => zlib_inflate(
                data@.subrange(
                    entry.offset as int,
                    entry.offset as int + entry.size as int,
                ),
            ) == Some(v@),
            Err(e) => e == WadError::CorruptStream && zlib_inflate(
                data@.subrange(
                    entry.offset as int,
                    entry.offset as int + entry.size as int,
                ),
            ) is None,
        },
{
    if (entry.offset as u64) + (entry.size as u64) > (data.len() as u64) {
        return Err(WadError::Truncated);
    }
    let off: usize = entry.offset as usize;
    let sz: usize = entry.size as usize;
    decompress_zlib(vstd::slice::slice_subrange(data.as_slice(), off, off + sz))
}

} // verus!
