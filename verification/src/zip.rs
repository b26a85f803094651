use vstd::prelude::*;

use vstd::bytes::{
    spec_u16_to_le_bytes, spec_u16_from_le_bytes, spec_u32_to_le_bytes, spec_u32_from_le_bytes,
    u16_to_le_bytes, u16_from_le_bytes, u32_to_le_bytes, u32_from_le_bytes,
    lemma_auto_spec_u16_to_from_le_bytes, lemma_auto_spec_u32_to_from_le_bytes,
};
use vstd::slice::{slice_subrange, slice_to_vec};

use crate::error::AppError;

verus! {

// ---------------------------------------------------------------------------
// CRC-32
// ---------------------------------------------------------------------------
/// The IEEE CRC-32 checksum of a byte sequence, as the archive format
/// records it for every entry; a pure function of the bytes.
pub uninterp spec fn crc32_of(data: Seq<u8>) -> u32;

/// Relies on `crc32fast::hash`: the IEEE CRC-32 of the bytes, depending on
/// the bytes alone.
#[verifier::external_body]
fn crc32(data: &[u8]) -> (r: u32)
    ensures
        r == crc32_of(data@),
{
    crc32fast::hash(data)
}

// ---------------------------------------------------------------------------
// Entries
// ---------------------------------------------------------------------------
/// One archive entry: a name (the path relative to the archived root) and
/// the entry's bytes, stored without compression.
#[derive(Debug)]
pub struct ZipEntry {
    pub name: Vec<u8>,
    pub data: Vec<u8>,
}

/// The mathematical image of a `ZipEntry`.
#[verifier::ext_equal]
pub struct ZipEntryView {
    pub name: Seq<u8>,
    pub data: Seq<u8>,
}

impl View for ZipEntry {
    type V = ZipEntryView;

    open spec fn view(&self) -> ZipEntryView {
        ZipEntryView { name: self.name@, data: self.data@ }
    }
}

impl DeepView for ZipEntry {
    type V = ZipEntryView;

    open spec fn deep_view(&self) -> ZipEntryView {
        self.view()
    }
}

/// An entry whose fields fit the format's 16- and 32-bit length fields.
pub open spec fn entry_ok(e: ZipEntryView) -> bool {
    e.name.len() <= 0xFFFF && e.data.len() <= 0xFFFFFFFF
}

pub open spec fn entries_ok(es: Seq<ZipEntryView>) -> bool {
    forall|i: int| 0 <= i < es.len() ==> entry_ok(#[trigger] es[i])
}

// ---------------------------------------------------------------------------
// The stored-entry archive layout
// ---------------------------------------------------------------------------
/// The four bytes announcing a local file header.
pub open spec fn local_sig() -> Seq<u8> {
    seq![0x50u8, 0x4bu8, 0x03u8, 0x04u8]
}

/// The four bytes announcing a central directory header.
pub open spec fn central_sig() -> Seq<u8> {
    seq![0x50u8, 0x4bu8, 0x01u8, 0x02u8]
}

/// The four bytes announcing the end-of-central-directory record.
pub open spec fn eocd_sig() -> Seq<u8> {
    seq![0x50u8, 0x4bu8, 0x05u8, 0x06u8]
}

/// The local file header of a stored entry: signature, version, no flags,
/// method 0, zeroed times, the data's checksum, the data length twice (the
/// entry is stored, not compressed), the name length and no extra field.
pub open spec fn spec_local_header(e: ZipEntryView) -> Seq<u8> {
    local_sig() + spec_u16_to_le_bytes(20u16) + spec_u16_to_le_bytes(0u16) + spec_u16_to_le_bytes(
        0u16,
    ) + spec_u16_to_le_bytes(0u16) + spec_u16_to_le_bytes(0u16) + spec_u32_to_le_bytes(
        crc32_of(e.data),
    ) + spec_u32_to_le_bytes(e.data.len() as u32) + spec_u32_to_le_bytes(e.data.len() as u32)
        + spec_u16_to_le_bytes(e.name.len() as u16) + spec_u16_to_le_bytes(0u16)
}

/// A whole local entry: its header, its name, its bytes.
pub open spec fn spec_local_chunk(e: ZipEntryView) -> Seq<u8> {
    spec_local_header(e) + e.name + e.data
}

/// The local entries of the archive, one after the other, never
/// overlapping.
pub open spec fn spec_locals(es: Seq<ZipEntryView>) -> Seq<u8>
    decreases es.len(),
{
    if es.len() == 0 {
        Seq::empty()
    } else {
        spec_local_chunk(es[0]) + spec_locals(es.skip(1))
    }
}

/// Where entry `i`'s local header starts.
pub open spec fn local_offset(es: Seq<ZipEntryView>, i: int) -> int {
    spec_locals(es.take(i)).len() as int
}

/// The central directory header of one entry, pointing back at its local
/// header.
pub open spec fn spec_central_entry(e: ZipEntryView, offset: u32) -> Seq<u8> {
    central_sig() + spec_u16_to_le_bytes(20u16) + spec_u16_to_le_bytes(20u16)
        + spec_u16_to_le_bytes(0u16) + spec_u16_to_le_bytes(0u16) + spec_u16_to_le_bytes(0u16)
        + spec_u16_to_le_bytes(0u16) + spec_u32_to_le_bytes(crc32_of(e.data))
        + spec_u32_to_le_bytes(e.data.len() as u32) + spec_u32_to_le_bytes(e.data.len() as u32)
        + spec_u16_to_le_bytes(e.name.len() as u16) + spec_u16_to_le_bytes(0u16)
        + spec_u16_to_le_bytes(0u16) + spec_u16_to_le_bytes(0u16) + spec_u16_to_le_bytes(0u16)
        + spec_u32_to_le_bytes(0u32) + spec_u32_to_le_bytes(offset) + e.name
}

/// The central directory headers of entries `i` onwards.
pub open spec fn spec_centrals_from(es: Seq<ZipEntryView>, i: int) -> Seq<u8>
    decreases es.len() - i,
{
    if i < 0 || i >= es.len() {
        Seq::empty()
    } else {
        spec_central_entry(es[i], local_offset(es, i) as u32) + spec_centrals_from(es, i + 1)
    }
}

/// The whole central directory.
pub open spec fn spec_central_dir(es: Seq<ZipEntryView>) -> Seq<u8> {
    spec_centrals_from(es, 0)
}

/// The end-of-central-directory record: single disk, the entry count twice,
/// the central directory's size and offset, no comment.
pub open spec fn spec_eocd(es: Seq<ZipEntryView>) -> Seq<u8> {
    eocd_sig() + spec_u16_to_le_bytes(0u16) + spec_u16_to_le_bytes(0u16) + spec_u16_to_le_bytes(
        es.len() as u16,
    ) + spec_u16_to_le_bytes(es.len() as u16) + spec_u32_to_le_bytes(
        spec_central_dir(es).len() as u32,
    ) + spec_u32_to_le_bytes(spec_locals(es).len() as u32) + spec_u16_to_le_bytes(0u16)
}

/// The complete archive byte stream for the given entries.
pub open spec fn spec_zip(es: Seq<ZipEntryView>) -> Seq<u8> {
    spec_locals(es) + spec_central_dir(es) + spec_eocd(es)
}

/// All the format's length fields fit: every entry is in bounds, the entry
/// count fits 16 bits, and every offset fits 32 bits.
pub open spec fn archive_ok(es: Seq<ZipEntryView>) -> bool {
    &&& entries_ok(es)
    &&& es.len() <= 0xFFFF
    &&& spec_locals(es).len() <= 0xFFFFFFFF
    &&& spec_central_dir(es).len() <= 0xFFFFFFFF
}

// ---------------------------------------------------------------------------
// Layout lemmas
// ---------------------------------------------------------------------------
pub proof fn lemma_locals_push(es: Seq<ZipEntryView>, e: ZipEntryView)
    ensures
        spec_locals(es.push(e)) == spec_locals(es) + spec_local_chunk(e),
    decreases es.len(),
{
    if es.len() == 0 {
        assert(es.push(e).skip(1) =~= Seq::<ZipEntryView>::empty());
        assert(es.push(e)[0] == e);
        assert(spec_locals(es.push(e).skip(1)) == Seq::<u8>::empty());
        assert(spec_locals(es) == Seq::<u8>::empty());
        assert(spec_locals(es.push(e)) =~= spec_locals(es) + spec_local_chunk(e));
    } else {
        assert(es.push(e).skip(1) =~= es.skip(1).push(e));
        assert(es.push(e)[0] == es[0]);
        lemma_locals_push(es.skip(1), e);
        assert(spec_locals(es.push(e)) == spec_local_chunk(es[0]) + spec_locals(
            es.skip(1).push(e),
        ));
        assert(spec_local_chunk(es[0]) + (spec_locals(es.skip(1)) + spec_local_chunk(e)) =~= (
        spec_local_chunk(es[0]) + spec_locals(es.skip(1))) + spec_local_chunk(e));
        assert(spec_locals(es.push(e)) =~= spec_locals(es) + spec_local_chunk(e));
    }
}

/// How long one local entry is on the wire.
pub proof fn lemma_local_chunk_len(e: ZipEntryView)
    ensures
        spec_local_chunk(e).len() == 30 + e.name.len() + e.data.len(),
        spec_central_entry(e, 0u32).len() == 46 + e.name.len(),
{
    lemma_auto_spec_u16_to_from_le_bytes();
    lemma_auto_spec_u32_to_from_le_bytes();
}

/// How long one central directory header is on the wire, whatever offset it
/// points at.
pub proof fn lemma_central_entry_len(e: ZipEntryView, offset: u32)
    ensures
        spec_central_entry(e, offset).len() == 46 + e.name.len(),
{
    lemma_auto_spec_u16_to_from_le_bytes();
    lemma_auto_spec_u32_to_from_le_bytes();
}

pub proof fn lemma_locals_concat(a: Seq<ZipEntryView>, b: Seq<ZipEntryView>)
    ensures
        spec_locals(a + b) == spec_locals(a) + spec_locals(b),
    decreases a.len(),
{
    if a.len() == 0 {
        assert(a + b =~= b);
        assert(spec_locals(a + b) =~= spec_locals(a) + spec_locals(b));
    } else {
        assert((a + b).skip(1) =~= a.skip(1) + b);
        assert((a + b)[0] == a[0]);
        lemma_locals_concat(a.skip(1), b);
        assert(spec_locals(a + b) =~= spec_locals(a) + spec_locals(b));
    }
}

/// A prefix of the entries fills a prefix of the local section.
pub proof fn lemma_locals_prefix_le(es: Seq<ZipEntryView>, i: int)
    requires
        0 <= i <= es.len(),
    ensures
        spec_locals(es.take(i)).len() <= spec_locals(es).len(),
{
    assert(es.take(i) + es.skip(i) =~= es);
    lemma_locals_concat(es.take(i), es.skip(i));
}

/// Offsets already assigned do not move when one more entry is appended.
pub proof fn lemma_centrals_from_push(es: Seq<ZipEntryView>, e: ZipEntryView, i: int)
    requires
        0 <= i <= es.len(),
    ensures
        spec_centrals_from(es.push(e), i) == spec_centrals_from(es, i) + spec_central_entry(
            e,
            spec_locals(es).len() as u32,
        ),
    decreases es.len() - i,
{
    let esp = es.push(e);
    if i == es.len() {
        assert(esp.take(i) =~= es);
        assert(spec_centrals_from(esp, i + 1) =~= Seq::<u8>::empty());
        assert(spec_centrals_from(es, i) =~= Seq::<u8>::empty());
        assert(spec_centrals_from(esp, i) =~= spec_centrals_from(es, i) + spec_central_entry(
            e,
            spec_locals(es).len() as u32,
        ));
    } else {
        assert(esp[i] == es[i]);
        assert(esp.take(i) =~= es.take(i));
        lemma_centrals_from_push(es, e, i + 1);
        assert(spec_centrals_from(esp, i) =~= spec_centrals_from(es, i) + spec_central_entry(
            e,
            spec_locals(es).len() as u32,
        ));
    }
}

pub proof fn lemma_central_push(es: Seq<ZipEntryView>, e: ZipEntryView)
    ensures
        spec_central_dir(es.push(e)) == spec_central_dir(es) + spec_central_entry(
            e,
            spec_locals(es).len() as u32,
        ),
{
    lemma_centrals_from_push(es, e, 0);
}

/// The central directory of a prefix is a prefix of the central directory.
pub proof fn lemma_central_prefix_le(es: Seq<ZipEntryView>, i: int)
    requires
        0 <= i <= es.len(),
    ensures
        spec_central_dir(es.take(i)).len() <= spec_central_dir(es).len(),
    decreases es.len() - i,
{
    if i == es.len() {
        assert(es.take(i) =~= es);
    } else {
        assert(es.take(i + 1) =~= es.take(i).push(es[i]));
        assert(es.take(i) =~= es.take(i + 1).take(i));
        lemma_central_push(es.take(i), es[i]);
        lemma_central_prefix_le(es, i + 1);
    }
}

// ---------------------------------------------------------------------------
// The streaming archiver
// ---------------------------------------------------------------------------
/// The producer side of the streaming archiver.
///
/// Entries are emitted one at a time: each call hands back the bytes of one
/// finished local entry for the consumer to drain, while the growing central
/// directory is held back until `finish`. Memory use is bounded by one entry
/// plus the directory, never by the archive.
pub struct ZipArchiver {
    pub offset: u64,
    pub count: u64,
    pub central: Vec<u8>,
    pub entries: Ghost<Seq<ZipEntryView>>,
}

impl ZipArchiver {
    /// The entries emitted so far.
    pub open spec fn entries(&self) -> Seq<ZipEntryView> {
        self.entries@
    }

    /// The archiver tracks the local section's length and the central
    /// directory bytes of everything emitted so far.
    pub open spec fn wf(&self) -> bool {
        &&& entries_ok(self.entries@)
        &&& self.offset == spec_locals(self.entries@).len()
        &&& self.count == self.entries@.len()
        &&& self.central@ == spec_central_dir(self.entries@)
        &&& self.offset <= 0xFFFFFFFF
        &&& self.central@.len() <= 0xFFFFFFFF
        &&& self.count <= 0xFFFF
    }

    /// An archiver with nothing written yet.
    pub fn new() -> (z: ZipArchiver)
        ensures
            z.wf(),
            z.entries() == Seq::<ZipEntryView>::empty(),
    {
        let z = ZipArchiver { offset: 0, count: 0, central: Vec::new(), entries: Ghost(Seq::empty()) };
        proof {
            assert(z.central@ =~= spec_central_dir(z.entries@));
        }
        z
    }

    /// Emit one stored entry: the returned bytes are the entry's local
    /// header, name and data, to be appended to the stream before the next
    /// entry begins.
    pub fn add_entry(&mut self, name: &Vec<u8>, data: &Vec<u8>) -> (out: Vec<u8>)
        requires
            old(self).wf(),
            name@.len() <= 0xFFFF,
            data@.len() <= 0xFFFFFFFF,
            old(self).offset + 30 + name@.len() + data@.len() <= 0xFFFFFFFF,
            old(self).central@.len() + 46 + name@.len() <= 0xFFFFFFFF,
            old(self).count + 1 <= 0xFFFF,
        ensures
            final(self).wf(),
            final(self).entries() == old(self).entries().push(
                ZipEntryView { name: name@, data: data@ },
            ),
            out@ == spec_local_chunk(ZipEntryView { name: name@, data: data@ }),
    {
        let ghost e = ZipEntryView { name: name@, data: data@ };
        let crc = crc32(data.as_slice());
        let dlen = data.len() as u32;
        let nlen = name.len() as u16;

        let mut out: Vec<u8> = Vec::new();
        out.push(0x50);
        out.push(0x4b);
        out.push(0x03);
        out.push(0x04);
        let mut piece = u16_to_le_bytes(20);
        out.append(&mut piece);
        let mut piece = u16_to_le_bytes(0);
        out.append(&mut piece);
        let mut piece = u16_to_le_bytes(0);
        out.append(&mut piece);
        let mut piece = u16_to_le_bytes(0);
        out.append(&mut piece);
        let mut piece = u16_to_le_bytes(0);
        out.append(&mut piece);
        let mut piece = u32_to_le_bytes(crc);
        out.append(&mut piece);
        let mut piece = u32_to_le_bytes(dlen);
        out.append(&mut piece);
        let mut piece = u32_to_le_bytes(dlen);
        out.append(&mut piece);
        let mut piece = u16_to_le_bytes(nlen);
        out.append(&mut piece);
        let mut piece = u16_to_le_bytes(0);
        out.append(&mut piece);
        let mut piece = slice_to_vec(name.as_slice());
        out.append(&mut piece);
        let mut piece = slice_to_vec(data.as_slice());
        out.append(&mut piece);
        proof {
            assert(out@ =~= spec_local_chunk(e));
        }

        let offset32 = self.offset as u32;
        let mut cd: Vec<u8> = Vec::new();
        cd.push(0x50);
        cd.push(0x4b);
        cd.push(0x01);
        cd.push(0x02);
        let mut piece = u16_to_le_bytes(20);
        cd.append(&mut piece);
        let mut piece = u16_to_le_bytes(20);
        cd.append(&mut piece);
        let mut piece = u16_to_le_bytes(0);
        cd.append(&mut piece);
        let mut piece = u16_to_le_bytes(0);
        cd.append(&mut piece);
        let mut piece = u16_to_le_bytes(0);
        cd.append(&mut piece);
        let mut piece = u16_to_le_bytes(0);
        cd.append(&mut piece);
        let mut piece = u32_to_le_bytes(crc);
        cd.append(&mut piece);
        let mut piece = u32_to_le_bytes(dlen);
        cd.append(&mut piece);
        let mut piece = u32_to_le_bytes(dlen);
        cd.append(&mut piece);
        let mut piece = u16_to_le_bytes(nlen);
        cd.append(&mut piece);
        let mut piece = u16_to_le_bytes(0);
        cd.append(&mut piece);
        let mut piece = u16_to_le_bytes(0);
        cd.append(&mut piece);
        let mut piece = u16_to_le_bytes(0);
        cd.append(&mut piece);
        let mut piece = u16_to_le_bytes(0);
        cd.append(&mut piece);
        let mut piece = u32_to_le_bytes(0);
        cd.append(&mut piece);
        let mut piece = u32_to_le_bytes(offset32);
        cd.append(&mut piece);
        let mut piece = slice_to_vec(name.as_slice());
        cd.append(&mut piece);
        proof {
            assert(cd@ =~= spec_central_entry(e, spec_locals(self.entries@).len() as u32));
        }

        let ghost prev = self.entries@;
        let ghost prev_central = self.central@;
        self.central.append(&mut cd);
        self.offset = self.offset + 30 + name.len() as u64 + data.len() as u64;
        self.count = self.count + 1;
        proof {
            self.entries@ = prev.push(e);
            lemma_locals_push(prev, e);
            lemma_central_push(prev, e);
            assert(self.central@ =~= spec_central_dir(self.entries@));
            assert(spec_locals(self.entries@).len() == spec_locals(prev).len()
                + spec_local_chunk(e).len());
        }
        out
    }

    /// Close the archive: emit the held-back central directory and the end
    /// record. Appended after the local entries, they complete the stream.
    pub fn finish(self) -> (out: Vec<u8>)
        requires
            self.wf(),
        ensures
            out@ == spec_central_dir(self.entries()) + spec_eocd(self.entries()),
    {
        let ghost es = self.entries@;
        let count16 = self.count as u16;
        let central_len = self.central.len() as u32;
        let offset32 = self.offset as u32;
        let mut out = self.central;
        let mut tail: Vec<u8> = Vec::new();
        tail.push(0x50);
        tail.push(0x4b);
        tail.push(0x05);
        tail.push(0x06);
        let mut piece = u16_to_le_bytes(0);
        tail.append(&mut piece);
        let mut piece = u16_to_le_bytes(0);
        tail.append(&mut piece);
        let mut piece = u16_to_le_bytes(count16);
        tail.append(&mut piece);
        let mut piece = u16_to_le_bytes(count16);
        tail.append(&mut piece);
        let mut piece = u32_to_le_bytes(central_len);
        tail.append(&mut piece);
        let mut piece = u32_to_le_bytes(offset32);
        tail.append(&mut piece);
        let mut piece = u16_to_le_bytes(0);
        tail.append(&mut piece);
        proof {
            assert(tail@ =~= spec_eocd(es));
        }
        out.append(&mut tail);
        proof {
            assert(out@ =~= spec_central_dir(es) + spec_eocd(es));
        }
        out
    }
}

/// The whole archive at once: every entry streamed through the archiver,
/// closed by the central directory and the end record.
pub fn zip_archive(entries: &Vec<ZipEntry>) -> (out: Vec<u8>)
    requires
        archive_ok(entries.deep_view()),
    ensures
        out@ == spec_zip(entries.deep_view()),
{
    let ghost all = entries.deep_view();
    let mut ar = ZipArchiver::new();
    let mut out: Vec<u8> = Vec::new();
    let mut i: usize = 0;
    proof {
        assert(all.take(0) =~= Seq::<ZipEntryView>::empty());
        assert(out@ =~= spec_locals(all.take(0)));
    }
    while i < entries.len()
        invariant
            all == entries.deep_view(),
            archive_ok(all),
            all.len() == entries@.len(),
            i <= all.len(),
            ar.wf(),
            ar.entries() == all.take(i as int),
            out@ == spec_locals(all.take(i as int)),
        decreases all.len() - i,
    {
        proof {
            assert(all.take(i + 1) =~= all.take(i as int).push(all[i as int]));
            lemma_locals_push(all.take(i as int), all[i as int]);
            lemma_central_push(all.take(i as int), all[i as int]);
            lemma_locals_prefix_le(all, i + 1);
            lemma_central_prefix_le(all, i + 1);
            assert(all.take(i + 1).take(i as int) =~= all.take(i as int));
            assert(entry_ok(all[i as int]));
            lemma_local_chunk_len(all[i as int]);
            lemma_central_entry_len(all[i as int], spec_locals(all.take(i as int)).len() as u32);
        }
        let entry = &entries[i];
        let mut chunk = ar.add_entry(&entry.name, &entry.data);
        out.append(&mut chunk);
        i += 1;
    }
    proof {
        assert(all.take(all.len() as int) =~= all);
    }
    let mut tail = ar.finish();
    out.append(&mut tail);
    out
}

// ---------------------------------------------------------------------------
// Extraction
// ---------------------------------------------------------------------------
/// What the streaming extractor reads from an archive byte stream: the
/// stored entries in order, ending at the central directory or at the end
/// record; `None` when the stream is not a well-formed stored-entry stream.
pub open spec fn spec_parse_locals(bytes: Seq<u8>) -> Option<Seq<ZipEntryView>>
    decreases bytes.len(),
{
    if bytes.len() >= 4 && (bytes.take(4) == central_sig() || bytes.take(4) == eocd_sig()) {
        Some(Seq::empty())
    } else if bytes.len() >= 30 && bytes.take(4) == local_sig() {
        let method = spec_u16_from_le_bytes(bytes.subrange(8, 10));
        let crc = spec_u32_from_le_bytes(bytes.subrange(14, 18));
        let csize = spec_u32_from_le_bytes(bytes.subrange(18, 22));
        let usz = spec_u32_from_le_bytes(bytes.subrange(22, 26));
        let nlen = spec_u16_from_le_bytes(bytes.subrange(26, 28));
        let xlen = spec_u16_from_le_bytes(bytes.subrange(28, 30));
        if method == 0 && xlen == 0 && usz == csize && 30 + nlen + csize <= bytes.len() {
            let name = bytes.subrange(30, 30 + nlen as int);
            let data = bytes.subrange(30 + nlen as int, 30 + nlen as int + csize as int);
            if crc == crc32_of(data) {
                match spec_parse_locals(bytes.skip(30 + nlen as int + csize as int)) {
                    Some(rest) => Some(seq![ZipEntryView { name, data }] + rest),
                    None => None,
                }
            } else {
                None
            }
        } else {
            None
        }
    } else {
        None
    }
}

/// Extraction inverts archiving: the entry stream written for any in-bounds
/// entries, followed by anything that opens like a central directory or an
/// end record, reads back as exactly those entries.
pub proof fn lemma_parse_locals_round_trip(es: Seq<ZipEntryView>, tail: Seq<u8>)
    requires
        entries_ok(es),
        tail.len() >= 4,
        tail.take(4) == central_sig() || tail.take(4) == eocd_sig(),
    ensures
        spec_parse_locals(spec_locals(es) + tail) == Some(es),
    decreases es.len(),
{
    lemma_auto_spec_u16_to_from_le_bytes();
    lemma_auto_spec_u32_to_from_le_bytes();
    if es.len() == 0 {
        assert(spec_locals(es) + tail =~= tail);
        assert(es =~= Seq::<ZipEntryView>::empty());
    } else {
        let e = es[0];
        let bytes = spec_locals(es) + tail;
        let rest_bytes = spec_locals(es.skip(1)) + tail;
        let nl = e.name.len() as int;
        let dl = e.data.len() as int;
        lemma_local_chunk_len(e);
        assert(spec_locals(es) == spec_local_chunk(e) + spec_locals(es.skip(1)));
        assert(bytes =~= spec_local_chunk(e) + rest_bytes);
        assert(bytes.len() >= 30 + nl + dl + 4);
        assert(bytes.take(4) =~= local_sig());
        assert(bytes[2] == 0x03u8);
        assert(bytes.take(4)[2] == 0x03u8);
        assert(central_sig()[2] == 0x01u8);
        assert(eocd_sig()[2] == 0x05u8);
        assert(bytes.take(4) != central_sig());
        assert(bytes.take(4) != eocd_sig());
        assert(bytes.subrange(8, 10) =~= spec_u16_to_le_bytes(0u16));
        assert(bytes.subrange(14, 18) =~= spec_u32_to_le_bytes(crc32_of(e.data)));
        assert(bytes.subrange(18, 22) =~= spec_u32_to_le_bytes(e.data.len() as u32));
        assert(bytes.subrange(22, 26) =~= spec_u32_to_le_bytes(e.data.len() as u32));
        assert(bytes.subrange(26, 28) =~= spec_u16_to_le_bytes(e.name.len() as u16));
        assert(bytes.subrange(28, 30) =~= spec_u16_to_le_bytes(0u16));
        assert(spec_u16_from_le_bytes(bytes.subrange(26, 28)) == e.name.len());
        assert(spec_u32_from_le_bytes(bytes.subrange(18, 22)) == e.data.len());
        assert(bytes.subrange(30, 30 + nl) =~= e.name);
        assert(bytes.subrange(30 + nl, 30 + nl + dl) =~= e.data);
        assert(bytes.skip(30 + nl + dl) =~= rest_bytes);
        lemma_parse_locals_round_trip(es.skip(1), tail);
        assert(seq![ZipEntryView { name: e.name, data: e.data }] + es.skip(1) =~= es);
    }
}

/// The archive round-trip law: extracting the archive written for any
/// in-bounds entries yields exactly those entries — the same count, names
/// and byte contents.
pub proof fn lemma_zip_round_trip(es: Seq<ZipEntryView>)
    requires
        archive_ok(es),
    ensures
        spec_parse_locals(spec_zip(es)) == Some(es),
{
    lemma_auto_spec_u16_to_from_le_bytes();
    lemma_auto_spec_u32_to_from_le_bytes();
    let tail = spec_central_dir(es) + spec_eocd(es);
    assert(spec_zip(es) =~= spec_locals(es) + tail);
    if es.len() == 0 {
        assert(spec_central_dir(es) == Seq::<u8>::empty());
        assert(tail =~= spec_eocd(es));
        assert(tail.take(4) =~= eocd_sig());
        lemma_parse_locals_round_trip(es, tail);
    } else {
        assert(spec_central_dir(es) == spec_central_entry(es[0], local_offset(es, 0) as u32)
            + spec_centrals_from(es, 1));
        assert(tail.take(4) =~= central_sig());
        lemma_parse_locals_round_trip(es, tail);
    }
}

/// Read the stored entries back out of an archive byte stream.
///
/// The extractor walks the local entries one by one, checking each entry's
/// framing and checksum, and stops at the central directory (or at the end
/// record of an empty archive). Anything else is a malformed stream and
/// fails with `ArchiveError`, never with partial results.
pub fn zip_extract(bytes: &Vec<u8>) -> (r: Result<Vec<ZipEntry>, AppError>)
    ensures
        (match r {
            Ok(v) => spec_parse_locals(bytes@) == Some(v.deep_view()),
            Err(e) => spec_parse_locals(bytes@) is None && e == AppError::ArchiveError,
        }),
{
    let ghost all = bytes@;
    let n: usize = bytes.len();
    let mut pos: usize = 0;
    let mut acc: Vec<ZipEntry> = Vec::new();
    proof {
        assert(all.skip(0) =~= all);
        assert(acc.deep_view() =~= Seq::<ZipEntryView>::empty());
    }
    loop
        invariant
            all == bytes@,
            n == all.len(),
            pos <= n,
            (match spec_parse_locals(all) {
                Some(v) => spec_parse_locals(all.skip(pos as int)) matches Some(rest) && v
                    == acc.deep_view() + rest,
                None => spec_parse_locals(all.skip(pos as int)) is None,
            }),
        decreases n - pos,
    {
        let ghost cur = all.skip(pos as int);
        if n - pos < 4 {
            return Err(AppError::ArchiveError);
        }
        let b0 = bytes[pos];
        let b1 = bytes[pos + 1];
        let b2 = bytes[pos + 2];
        let b3 = bytes[pos + 3];
        proof {
            assert(cur.take(4) =~= seq![
                all[pos as int],
                all[pos + 1],
                all[pos + 2],
                all[pos + 3],
            ]);
        }
        if b0 == 0x50 && b1 == 0x4b && ((b2 == 0x01 && b3 == 0x02) || (b2 == 0x05 && b3 == 0x06)) {
            proof {
                assert(cur.take(4) == central_sig() || cur.take(4) == eocd_sig());
                assert(acc.deep_view() + Seq::<ZipEntryView>::empty() =~= acc.deep_view());
            }
            return Ok(acc);
        }
        proof {
            assert(cur.take(4) != central_sig());
            assert(cur.take(4) != eocd_sig());
        }
        if !(b0 == 0x50 && b1 == 0x4b && b2 == 0x03 && b3 == 0x04) {
            proof {
                assert(cur.take(4) != local_sig());
            }
            return Err(AppError::ArchiveError);
        }
        proof {
            assert(cur.take(4) == local_sig());
        }
        if n - pos < 30 {
            return Err(AppError::ArchiveError);
        }
        let method = u16_from_le_bytes(slice_subrange(bytes.as_slice(), pos + 8, pos + 10));
        let crc_field = u32_from_le_bytes(slice_subrange(bytes.as_slice(), pos + 14, pos + 18));
        let csize = u32_from_le_bytes(slice_subrange(bytes.as_slice(), pos + 18, pos + 22));
        let usz = u32_from_le_bytes(slice_subrange(bytes.as_slice(), pos + 22, pos + 26));
        let nlen = u16_from_le_bytes(slice_subrange(bytes.as_slice(), pos + 26, pos + 28));
        let xlen = u16_from_le_bytes(slice_subrange(bytes.as_slice(), pos + 28, pos + 30));
        proof {
            assert(all.subrange(pos + 8, pos + 10) =~= cur.subrange(8, 10));
            assert(all.subrange(pos + 14, pos + 18) =~= cur.subrange(14, 18));
            assert(all.subrange(pos + 18, pos + 22) =~= cur.subrange(18, 22));
            assert(all.subrange(pos + 22, pos + 26) =~= cur.subrange(22, 26));
            assert(all.subrange(pos + 26, pos + 28) =~= cur.subrange(26, 28));
            assert(all.subrange(pos + 28, pos + 30) =~= cur.subrange(28, 30));
        }
        if !(method == 0 && xlen == 0 && usz == csize) {
            return Err(AppError::ArchiveError);
        }
        let need: u64 = 30u64 + nlen as u64 + csize as u64;
        if need > (n - pos) as u64 {
            return Err(AppError::ArchiveError);
        }
        let name_start = pos + 30;
        let name_end = name_start + nlen as usize;
        let data_end = name_end + csize as usize;
        let name = slice_to_vec(slice_subrange(bytes.as_slice(), name_start, name_end));
        let data = slice_to_vec(slice_subrange(bytes.as_slice(), name_end, data_end));
        let actual_crc = crc32(data.as_slice());
        proof {
            assert(cur.subrange(30, 30 + nlen as int) =~= all.subrange(
                name_start as int,
                name_end as int,
            ));
            assert(cur.subrange(30 + nlen as int, 30 + nlen as int + csize as int) =~= all.subrange(
                name_end as int,
                data_end as int,
            ));
        }
        if actual_crc != crc_field {
            return Err(AppError::ArchiveError);
        }
        proof {
            assert(cur.skip(30 + nlen as int + csize as int) =~= all.skip(data_end as int));
        }
        let ghost prev_acc = acc.deep_view();
        let ghost ev = ZipEntryView { name: name@, data: data@ };
        acc.push(ZipEntry { name, data });
        proof {
            assert(acc.deep_view() =~= prev_acc.push(ev));
            if spec_parse_locals(all) is Some {
                let rest = spec_parse_locals(cur).unwrap();
                assert(rest == seq![ev] + spec_parse_locals(all.skip(data_end as int)).unwrap());
                assert(prev_acc + rest =~= acc.deep_view() + spec_parse_locals(
                    all.skip(data_end as int),
                ).unwrap());
            }
        }
        pos = data_end;
    }
}

} // verus!
