//! The firmware NFIT table: the ACPI inventory of NVDIMMs.
//!
//! The table is a system-description-table header followed by a stream of
//! entries.  Each entry starts with a 4-byte header `{u16 type, u16
//! length}`; iteration advances by the length and stops when the remaining
//! bytes are exhausted.  Types 0 through 7 are recognized; every other type
//! is skipped, as is a recognized entry too short for its fixed fields.
//! All fields are little-endian at fixed byte offsets, read without any
//! alignment assumption.

use crate::bytes::{read_u16, read_u32, read_u64, spec_u16_at, spec_u32_at, spec_u64_at};
use vstd::prelude::*;

verus! {

/// Byte length of the system-description-table header plus the reserved
/// word that precedes the entry stream.
pub const NFIT_BODY_START: usize = 40;

/// The common 4-byte header of every NFIT entry.
#[derive(Clone, Copy, Debug, PartialEq, Eq, Structural)]
pub struct EntryHeader {
    pub entry_type: u16,
    pub length: u16,
}

/// A GUID as it stands in the table: one 32-bit part, two 16-bit parts,
/// and eight bytes.
#[derive(Clone, Copy, Debug, PartialEq, Eq)]
pub struct NfitGuid(pub u32, pub u16, pub u16, pub [u8; 8]);

/// System Physical Address Range structure: the physical interval a
/// persistent-memory region occupies.
#[derive(Clone, Copy, Debug, PartialEq, Eq)]
pub struct SpaRangeEntry {
    pub header: EntryHeader,
    pub index: u16,
    pub flags: u16,
    pub reserved: u32,
    pub proximity_domain: u32,
    pub address_range_type_guid: NfitGuid,
    pub system_physical_address_range_base: u64,
    pub system_physical_address_range_length: u64,
    pub address_range_memory_mapping_attributes: u64,
    /// Opaque platform cookie; zero when the entry does not carry one.
    pub spa_location_cookie: u64,
}

/// NVDIMM Region Mapping structure: one NVDIMM region and the SPA range it
/// maps to.
#[derive(Clone, Copy, Debug, PartialEq, Eq, Structural)]
pub struct NvdimmRegionMappingEntry {
    pub header: EntryHeader,
    pub nfit_device_handle: u32,
    pub nvdimm_physical_id: u16,
    pub nvdimm_region_id: u16,
    pub spa_range_index: u16,
    pub nvdimm_control_region_index: u16,
    pub nvdimm_region_size: u64,
    pub region_offset: u64,
    pub nvdimm_physical_address_region_base: u64,
    pub interleave_index: u16,
    pub interleave_ways: u16,
    pub nvdimm_state_flags: u16,
    pub reserved: u16,
}

/// Interleave structure.
#[derive(Clone, Debug, PartialEq, Eq)]
pub struct InterleaveEntry {
    pub header: EntryHeader,
    pub index: u16,
    pub reserved: u16,
    pub num_of_lines_described: u32,
    pub line_size: u32,
    pub line_offset: Vec<u32>,
}

/// SMBIOS Management Information structure.
#[derive(Clone, Copy, Debug, PartialEq, Eq, Structural)]
pub struct SmbiosManagementInfoEntry {
    pub header: EntryHeader,
    pub reserved: u32,
}

/// NVDIMM Control Region structure.
#[derive(Clone, Copy, Debug, PartialEq, Eq)]
pub struct NvdimmControlRegionEntry {
    pub header: EntryHeader,
    pub index: u16,
    pub vendor_id: u16,
    pub device_id: u16,
    pub revision_id: u16,
    pub subsystem_vendor_id: u16,
    pub subsystem_device_id: u16,
    pub subsystem_revision_id: u16,
    pub valid_fields: u8,
    pub manufacturing_location: u8,
    pub manufacturing_date: u16,
    pub reserved1: u16,
    pub serial_number: [u8; 4],
    pub region_format_interface_code: u16,
    pub num_of_block_control_windows: u16,
    pub block_control_window_size: u64,
    pub command_register_offset: u64,
    pub command_register_size: u64,
    pub status_register_offset: u64,
    pub status_register_size: u64,
    pub nvdimm_control_region_flag: u16,
}

/// NVDIMM Block Data Window Region structure.
#[derive(Clone, Copy, Debug, PartialEq, Eq, Structural)]
pub struct NvdimmBlockDataWindowRegionEntry {
    pub header: EntryHeader,
    pub nvdimm_control_region_index: u16,
    pub num_of_block_data_windows: u16,
    pub block_data_window_start_offset: u64,
    pub block_data_window_size: u64,
    pub block_accessible_memory_capacity: u64,
    pub block_accessible_memory_start_addr: u64,
}

/// Flush Hint Address structure: addresses a write to which forces
/// durability for one NVDIMM.
#[derive(Clone, Debug, PartialEq, Eq)]
pub struct FlushHintAddressEntry {
    pub header: EntryHeader,
    pub nfit_device_handle: u32,
    pub num_of_flush_hint_addresses: u16,
    pub flush_hint_addresses: Vec<u64>,
}

/// Platform Capabilities structure.
#[derive(Clone, Copy, Debug, PartialEq, Eq, Structural)]
pub struct PlatformCapabilitiesEntry {
    pub header: EntryHeader,
    pub highest_valid_cap_bit: u8,
    pub capabilities: u32,
    pub reserved2: u32,
}

/// One typed NFIT entry.
#[derive(Clone, Debug, PartialEq, Eq)]
pub enum NfitEntry {
    SpaRange(SpaRangeEntry),
    NvdimmRegionMapping(NvdimmRegionMappingEntry),
    Interleave(InterleaveEntry),
    SmbiosManagementInfo(SmbiosManagementInfoEntry),
    NvdimmControlRegion(NvdimmControlRegionEntry),
    NvdimmBlockDataWindowRegion(NvdimmBlockDataWindowRegionEntry),
    FlushHintAddress(FlushHintAddressEntry),
    PlatformCapabilities(PlatformCapabilitiesEntry),
}

/// The entry header at byte position `p`.
pub open spec fn spec_header_at(s: Seq<u8>, p: int) -> EntryHeader {
    EntryHeader {
        entry_type: spec_u16_at(s, p) as u16,
        length: spec_u16_at(s, p + 2) as u16,
    }
}

/// The GUID at byte position `p`.
pub open spec fn spec_guid_at(s: Seq<u8>, p: int) -> NfitGuid {
    NfitGuid(
        spec_u32_at(s, p) as u32,
        spec_u16_at(s, p + 4) as u16,
        spec_u16_at(s, p + 6) as u16,
        [
            s[p + 8],
            s[p + 9],
            s[p + 10],
            s[p + 11],
            s[p + 12],
            s[p + 13],
            s[p + 14],
            s[p + 15],
        ],
    )
}

/// The SPA-range entry at byte position `p`; the cookie only when the
/// entry is long enough to carry it.
pub open spec fn spec_spa_at(s: Seq<u8>, p: int, l: int) -> SpaRangeEntry {
    SpaRangeEntry {
        header: spec_header_at(s, p),
        index: spec_u16_at(s, p + 4) as u16,
        flags: spec_u16_at(s, p + 6) as u16,
        reserved: spec_u32_at(s, p + 8) as u32,
        proximity_domain: spec_u32_at(s, p + 12) as u32,
        address_range_type_guid: spec_guid_at(s, p + 16),
        system_physical_address_range_base: spec_u64_at(s, p + 32) as u64,
        system_physical_address_range_length: spec_u64_at(s, p + 40) as u64,
        address_range_memory_mapping_attributes: spec_u64_at(s, p + 48) as u64,
        spa_location_cookie: if l >= 64 {
            spec_u64_at(s, p + 56) as u64
        } else {
            0
        },
    }
}

/// The region-mapping entry at byte position `p`.
pub open spec fn spec_mapping_at(s: Seq<u8>, p: int) -> NvdimmRegionMappingEntry {
    NvdimmRegionMappingEntry {
        header: spec_header_at(s, p),
        nfit_device_handle: spec_u32_at(s, p + 4) as u32,
        nvdimm_physical_id: spec_u16_at(s, p + 8) as u16,
        nvdimm_region_id: spec_u16_at(s, p + 10) as u16,
        spa_range_index: spec_u16_at(s, p + 12) as u16,
        nvdimm_control_region_index: spec_u16_at(s, p + 14) as u16,
        nvdimm_region_size: spec_u64_at(s, p + 16) as u64,
        region_offset: spec_u64_at(s, p + 24) as u64,
        nvdimm_physical_address_region_base: spec_u64_at(s, p + 32) as u64,
        interleave_index: spec_u16_at(s, p + 40) as u16,
        interleave_ways: spec_u16_at(s, p + 42) as u16,
        nvdimm_state_flags: spec_u16_at(s, p + 44) as u16,
        reserved: spec_u16_at(s, p + 46) as u16,
    }
}

/// The flush-hint addresses of the entry at `p`: as many full 8-byte
/// addresses as both the declared count and the entry length allow.
pub open spec fn spec_flush_count(s: Seq<u8>, p: int, l: int) -> int {
    let declared = spec_u16_at(s, p + 8);
    let room = (l - 16) / 8;
    if declared <= room {
        declared
    } else {
        room
    }
}

/// The remaining spec constructors: entries without variable-length parts.
pub open spec fn spec_smbios_at(s: Seq<u8>, p: int) -> SmbiosManagementInfoEntry {
    SmbiosManagementInfoEntry {
        header: spec_header_at(s, p),
        reserved: spec_u32_at(s, p + 4) as u32,
    }
}

/// The control-region entry at byte position `p`.
pub open spec fn spec_control_at(s: Seq<u8>, p: int) -> NvdimmControlRegionEntry {
    NvdimmControlRegionEntry {
        header: spec_header_at(s, p),
        index: spec_u16_at(s, p + 4) as u16,
        vendor_id: spec_u16_at(s, p + 6) as u16,
        device_id: spec_u16_at(s, p + 8) as u16,
        revision_id: spec_u16_at(s, p + 10) as u16,
        subsystem_vendor_id: spec_u16_at(s, p + 12) as u16,
        subsystem_device_id: spec_u16_at(s, p + 14) as u16,
        subsystem_revision_id: spec_u16_at(s, p + 16) as u16,
        valid_fields: s[p + 18],
        manufacturing_location: s[p + 19],
        manufacturing_date: spec_u16_at(s, p + 20) as u16,
        reserved1: spec_u16_at(s, p + 22) as u16,
        serial_number: [s[p + 24], s[p + 25], s[p + 26], s[p + 27]],
        region_format_interface_code: spec_u16_at(s, p + 28) as u16,
        num_of_block_control_windows: spec_u16_at(s, p + 30) as u16,
        block_control_window_size: spec_u64_at(s, p + 32) as u64,
        command_register_offset: spec_u64_at(s, p + 40) as u64,
        command_register_size: spec_u64_at(s, p + 48) as u64,
        status_register_offset: spec_u64_at(s, p + 56) as u64,
        status_register_size: spec_u64_at(s, p + 64) as u64,
        nvdimm_control_region_flag: spec_u16_at(s, p + 72) as u16,
    }
}

/// The block-data-window entry at byte position `p`.
pub open spec fn spec_block_at(s: Seq<u8>, p: int) -> NvdimmBlockDataWindowRegionEntry {
    NvdimmBlockDataWindowRegionEntry {
        header: spec_header_at(s, p),
        nvdimm_control_region_index: spec_u16_at(s, p + 4) as u16,
        num_of_block_data_windows: spec_u16_at(s, p + 6) as u16,
        block_data_window_start_offset: spec_u64_at(s, p + 8) as u64,
        block_data_window_size: spec_u64_at(s, p + 16) as u64,
        block_accessible_memory_capacity: spec_u64_at(s, p + 24) as u64,
        block_accessible_memory_start_addr: spec_u64_at(s, p + 32) as u64,
    }
}

/// The platform-capabilities entry at byte position `p`.
pub open spec fn spec_caps_at(s: Seq<u8>, p: int) -> PlatformCapabilitiesEntry {
    PlatformCapabilitiesEntry {
        header: spec_header_at(s, p),
        highest_valid_cap_bit: s[p + 4],
        capabilities: spec_u32_at(s, p + 8) as u32,
        reserved2: spec_u32_at(s, p + 12) as u32,
    }
}

/// The interleave line offsets of the entry at `p`: as many full 4-byte
/// offsets as both the declared count and the entry length allow.
pub open spec fn spec_line_count(s: Seq<u8>, p: int, l: int) -> int {
    let declared = spec_u32_at(s, p + 8);
    let room = (l - 16) / 4;
    if declared <= room {
        declared
    } else {
        room
    }
}

/// The fixed byte length a recognized entry of this type needs.
pub open spec fn spec_min_len(t: int) -> int {
    if t == 0 {
        56
    } else if t == 1 {
        48
    } else if t == 2 {
        16
    } else if t == 3 {
        8
    } else if t == 4 {
        80
    } else if t == 5 {
        40
    } else if t == 6 {
        16
    } else if t == 7 {
        16
    } else {
        0
    }
}

/// Whether the entry of type `t` and length `l` is recognized.
pub open spec fn spec_recognized(t: int, l: int) -> bool {
    0 <= t <= 7 && l >= spec_min_len(t)
}

/// The byte positions `(position, length, type)` of the recognized entries
/// of the stream starting at `p` with `rem` remaining bytes.  Iteration
/// stops at a header whose length is shorter than the header itself or
/// longer than what remains.
pub open spec fn spec_entry_positions(s: Seq<u8>, p: int, rem: int) -> Seq<(int, int, int)>
    decreases rem,
{
    if rem < 4 || p < 0 || p + 4 > s.len() {
        Seq::empty()
    } else {
        let t = spec_u16_at(s, p);
        let l = spec_u16_at(s, p + 2);
        if l < 4 || l > rem || p + l > s.len() {
            Seq::empty()
        } else {
            let rest = spec_entry_positions(s, p + l, rem - l);
            if spec_recognized(t, l) {
                seq![(p, l, t)] + rest
            } else {
                rest
            }
        }
    }
}

/// The tag of a typed entry, matching the wire type.
pub open spec fn spec_entry_tag(e: NfitEntry) -> int {
    match e {
        NfitEntry::SpaRange(_) => 0,
        NfitEntry::NvdimmRegionMapping(_) => 1,
        NfitEntry::Interleave(_) => 2,
        NfitEntry::SmbiosManagementInfo(_) => 3,
        NfitEntry::NvdimmControlRegion(_) => 4,
        NfitEntry::NvdimmBlockDataWindowRegion(_) => 5,
        NfitEntry::FlushHintAddress(_) => 6,
        NfitEntry::PlatformCapabilities(_) => 7,
    }
}

/// The typed entry `e` spells exactly the bytes at `p` with length `l`.
pub open spec fn spec_entry_matches(e: NfitEntry, s: Seq<u8>, p: int, l: int) -> bool {
    match e {
        NfitEntry::SpaRange(x) => x == spec_spa_at(s, p, l),
        NfitEntry::NvdimmRegionMapping(x) => x == spec_mapping_at(s, p),
        NfitEntry::Interleave(x) => {
            &&& x.header == spec_header_at(s, p)
            &&& x.index == spec_u16_at(s, p + 4) as u16
            &&& x.reserved == spec_u16_at(s, p + 6) as u16
            &&& x.num_of_lines_described == spec_u32_at(s, p + 8) as u32
            &&& x.line_size == spec_u32_at(s, p + 12) as u32
            &&& x.line_offset@.len() == spec_line_count(s, p, l)
            &&& forall|y: int|
                0 <= y < x.line_offset@.len() ==> #[trigger] x.line_offset@[y] as int
                    == spec_u32_at(s, p + 16 + 4 * y)
        },
        NfitEntry::SmbiosManagementInfo(x) => x == spec_smbios_at(s, p),
        NfitEntry::NvdimmControlRegion(x) => x == spec_control_at(s, p),
        NfitEntry::NvdimmBlockDataWindowRegion(x) => x == spec_block_at(s, p),
        NfitEntry::FlushHintAddress(x) => {
            &&& x.header == spec_header_at(s, p)
            &&& x.nfit_device_handle == spec_u32_at(s, p + 4) as u32
            &&& x.num_of_flush_hint_addresses == spec_u16_at(s, p + 8) as u16
            &&& x.flush_hint_addresses@.len() == spec_flush_count(s, p, l)
            &&& forall|y: int|
                0 <= y < x.flush_hint_addresses@.len() ==> #[trigger] x.flush_hint_addresses@[
                y] as int == spec_u64_at(s, p + 16 + 8 * y)
        },
        NfitEntry::PlatformCapabilities(x) => x == spec_caps_at(s, p),
    }
}

/// `es` is exactly the recognized entry stream of an NFIT table with these
/// bytes: one typed entry per recognized position, in order.
pub open spec fn spec_entries_of(es: Seq<NfitEntry>, bytes: Seq<u8>) -> bool {
    let ps = spec_entry_positions(
        bytes,
        NFIT_BODY_START as int,
        bytes.len() - NFIT_BODY_START as int,
    );
    &&& es.len() == ps.len()
    &&& forall|t: int|
        0 <= t < ps.len() ==> spec_entry_matches(#[trigger] es[t], bytes, ps[t].0, ps[t].1)
            && spec_entry_tag(es[t]) == ps[t].2
}

/// The firmware NFIT table, as raw bytes.
pub struct Nfit {
    bytes: Vec<u8>,
}

impl Nfit {
    /// The raw table bytes.
    pub closed spec fn spec_bytes(self) -> Seq<u8> {
        self.bytes@
    }

    /// The table is long enough for its header, and its declared length is
    /// the byte count.
    pub open spec fn wf(self) -> bool {
        &&& self.spec_bytes().len() >= NFIT_BODY_START as int
        &&& spec_u32_at(self.spec_bytes(), 4) == self.spec_bytes().len()
    }

    /// Accepts raw bytes as an NFIT table: the declared length must equal
    /// the byte count and cover the header.
    pub fn new(bytes: Vec<u8>) -> (r: Option<Nfit>)
        ensures
            match r {
                Some(n) => n.wf() && n.spec_bytes() == bytes@,
                None => bytes@.len() < NFIT_BODY_START as int || spec_u32_at(bytes@, 4)
                    != bytes@.len(),
            },
    {
        if bytes.len() < NFIT_BODY_START {
            return None;
        }
        let declared = read_u32(&bytes, 4);
        if declared as usize != bytes.len() {
            return None;
        }
        Some(Nfit { bytes })
    }

    /// The raw table bytes.
    pub fn bytes(&self) -> (r: &Vec<u8>)
        ensures
            r@ == self.spec_bytes(),
    {
        &self.bytes
    }

    /// An iterator over the table's recognized entries.
    pub fn entries(&self) -> (r: NfitEntryIter)
        requires
            self.wf(),
        ensures
            r.pos as int == NFIT_BODY_START as int,
            r.rem as int == self.spec_bytes().len() - NFIT_BODY_START as int,
    {
        NfitEntryIter { pos: NFIT_BODY_START, rem: self.bytes.len() - NFIT_BODY_START }
    }

    /// All recognized entries of the table, in stream order.
    pub fn all_entries(&self) -> (r: Vec<NfitEntry>)
        requires
            self.wf(),
        ensures
            ({
                let ps = spec_entry_positions(
                    self.spec_bytes(),
                    NFIT_BODY_START as int,
                    self.spec_bytes().len() - NFIT_BODY_START as int,
                );
                &&& r@.len() == ps.len()
                &&& forall|t: int|
                    0 <= t < ps.len() ==> spec_entry_matches(
                        #[trigger] r@[t],
                        self.spec_bytes(),
                        ps[t].0,
                        ps[t].1,
                    ) && spec_entry_tag(r@[t]) == ps[t].2
            }),
    {
        let mut it = self.entries();
        let mut out: Vec<NfitEntry> = Vec::new();
        let ghost s = self.spec_bytes();
        let ghost ps = spec_entry_positions(
            s,
            NFIT_BODY_START as int,
            s.len() - NFIT_BODY_START as int,
        );
        loop
            invariant
                it.pos as int + it.rem as int <= s.len(),
                s == self.spec_bytes(),
                ps == spec_entry_positions(
                    s,
                    NFIT_BODY_START as int,
                    s.len() - NFIT_BODY_START as int,
                ),
                ps =~= spec_done(out@, ps) + spec_entry_positions(
                    s,
                    it.pos as int,
                    it.rem as int,
                ),
                out@.len() <= ps.len(),
                forall|t: int|
                    0 <= t < out@.len() ==> spec_entry_matches(
                        #[trigger] out@[t],
                        s,
                        ps[t].0,
                        ps[t].1,
                    ) && spec_entry_tag(out@[t]) == ps[t].2,
            ensures
                ps =~= spec_done(out@, ps),
                out@.len() <= ps.len(),
                forall|t: int|
                    0 <= t < out@.len() ==> spec_entry_matches(
                        #[trigger] out@[t],
                        s,
                        ps[t].0,
                        ps[t].1,
                    ) && spec_entry_tag(out@[t]) == ps[t].2,
            decreases it.rem,
        {
            let ghost pos0 = it.pos as int;
            let ghost rem0 = it.rem as int;
            let ghost psold = spec_entry_positions(s, pos0, rem0);
            let e = match it.next(self) {
                Some(e) => e,
                None => {
                    proof {
                        assert(psold.len() == 0);
                        assert(ps =~= spec_done(out@, ps) + psold);
                        assert(ps =~= spec_done(out@, ps));
                    }
                    break;
                },
            };
            let ghost outold = out@;
            proof {
                assert(psold.len() > 0);
                assert(outold.len() < ps.len());
                assert(ps[outold.len() as int] == psold[0]);
            }
            out.push(e);
            proof {
                assert(spec_done(out@, ps) =~= ps.subrange(0, outold.len() as int + 1));
                assert(ps =~= spec_done(out@, ps) + spec_entry_positions(
                    s,
                    it.pos as int,
                    it.rem as int,
                ));
                assert forall|t: int|
                    0 <= t < out@.len() implies spec_entry_matches(
                    #[trigger] out@[t],
                    s,
                    ps[t].0,
                    ps[t].1,
                ) && spec_entry_tag(out@[t]) == ps[t].2 by {
                    if t < outold.len() {
                        assert(out@[t] == outold[t]);
                    } else {
                        assert(out@[t] == e);
                        assert(ps[t] == psold[0]);
                    }
                }
            }
        }
        proof {
            assert(ps =~= spec_done(out@, ps));
            assert(out@.len() == ps.len());
        }
        out
    }
}

/// The first `done.len()` positions of `ps`.
pub open spec fn spec_done(done: Seq<NfitEntry>, ps: Seq<(int, int, int)>) -> Seq<(int, int, int)> {
    ps.subrange(0, if done.len() <= ps.len() {
        done.len() as int
    } else {
        ps.len() as int
    })
}

/// A cursor over the NFIT entry stream: the current byte position and how
/// many bytes remain.
pub struct NfitEntryIter {
    pub pos: usize,
    pub rem: usize,
}

impl NfitEntryIter {
    /// Parses and returns the next recognized entry, skipping entries of
    /// unknown type or insufficient length; returns `None` at the end of
    /// the stream or at a malformed header.
    pub fn next(&mut self, nfit: &Nfit) -> (r: Option<NfitEntry>)
        requires
            old(self).pos as int + old(self).rem as int <= nfit.spec_bytes().len(),
        ensures
            final(self).pos as int + final(self).rem as int <= nfit.spec_bytes().len(),
            final(self).rem <= old(self).rem,
            match r {
                Some(e) => {
                    let ps = spec_entry_positions(
                        nfit.spec_bytes(),
                        old(self).pos as int,
                        old(self).rem as int,
                    );
                    &&& ps.len() > 0
                    &&& spec_entry_matches(e, nfit.spec_bytes(), ps[0].0, ps[0].1)
                    &&& spec_entry_tag(e) == ps[0].2
                    &&& final(self).rem < old(self).rem
                    &&& spec_entry_positions(
                        nfit.spec_bytes(),
                        final(self).pos as int,
                        final(self).rem as int,
                    ) =~= ps.subrange(1, ps.len() as int)
                },
                None => spec_entry_positions(
                    nfit.spec_bytes(),
                    old(self).pos as int,
                    old(self).rem as int,
                ).len() == 0 && spec_entry_positions(
                    nfit.spec_bytes(),
                    final(self).pos as int,
                    final(self).rem as int,
                ).len() == 0,
            },
    {
        loop
            invariant
                self.pos + self.rem <= nfit.bytes.len(),
                self.rem <= old(self).rem,
                spec_entry_positions(
                    nfit.spec_bytes(),
                    self.pos as int,
                    self.rem as int,
                ) =~= spec_entry_positions(
                    nfit.spec_bytes(),
                    old(self).pos as int,
                    old(self).rem as int,
                ),
            decreases self.rem,
        {
            if self.rem < 4 {
                return None;
            }
            let s = &nfit.bytes;
            let p = self.pos;
            let t = read_u16(s, p);
            let l = read_u16(s, p + 2);
            let lu = l as usize;
            if lu < 4 || lu > self.rem {
                return None;
            }
            let ghost ps0 = spec_entry_positions(nfit.spec_bytes(), p as int, self.rem as int);
            let rem0 = self.rem;
            self.pos = p + lu;
            self.rem = rem0 - lu;
            proof {
                assert(spec_entry_positions(nfit.spec_bytes(), p as int, rem0 as int) == (
                if spec_recognized(t as int, l as int) {
                    seq![(p as int, l as int, t as int)] + spec_entry_positions(
                        nfit.spec_bytes(),
                        self.pos as int,
                        self.rem as int,
                    )
                } else {
                    spec_entry_positions(nfit.spec_bytes(), self.pos as int, self.rem as int)
                }));
            }
            let e = parse_entry(s, p, l, t);
            match e {
                Some(e) => {
                    proof {
                        assert(ps0[0] == (p as int, l as int, t as int));
                        assert(ps0.subrange(1, ps0.len() as int) =~= spec_entry_positions(
                            nfit.spec_bytes(),
                            self.pos as int,
                            self.rem as int,
                        ));
                    }
                    return Some(e);
                },
                None => {},
            }
        }
    }
}

/// Parses one recognized entry at `p` with declared length `l` and type
/// `t`; `None` when the type is unknown or the entry too short.
fn parse_entry(s: &Vec<u8>, p: usize, l: u16, t: u16) -> (r: Option<NfitEntry>)
    requires
        l >= 4,
        p + l <= s.len(),
        t as int == spec_u16_at(s@, p as int),
        l as int == spec_u16_at(s@, p as int + 2),
    ensures
        match r {
            Some(e) => spec_recognized(t as int, l as int) && spec_entry_matches(
                e,
                s@,
                p as int,
                l as int,
            ) && spec_entry_tag(e) == t as int,
            None => !spec_recognized(t as int, l as int),
        },
{
    if t == 0 && l >= 56 {
        let cookie = if l >= 64 {
            read_u64(s, p + 56)
        } else {
            0
        };
        Some(
            NfitEntry::SpaRange(
                SpaRangeEntry {
                    header: EntryHeader { entry_type: t, length: l },
                    index: read_u16(s, p + 4),
                    flags: read_u16(s, p + 6),
                    reserved: read_u32(s, p + 8),
                    proximity_domain: read_u32(s, p + 12),
                    address_range_type_guid: parse_guid(s, p + 16),
                    system_physical_address_range_base: read_u64(s, p + 32),
                    system_physical_address_range_length: read_u64(s, p + 40),
                    address_range_memory_mapping_attributes: read_u64(s, p + 48),
                    spa_location_cookie: cookie,
                },
            ),
        )
    } else if t == 1 && l >= 48 {
        Some(
            NfitEntry::NvdimmRegionMapping(
                NvdimmRegionMappingEntry {
                    header: EntryHeader { entry_type: t, length: l },
                    nfit_device_handle: read_u32(s, p + 4),
                    nvdimm_physical_id: read_u16(s, p + 8),
                    nvdimm_region_id: read_u16(s, p + 10),
                    spa_range_index: read_u16(s, p + 12),
                    nvdimm_control_region_index: read_u16(s, p + 14),
                    nvdimm_region_size: read_u64(s, p + 16),
                    region_offset: read_u64(s, p + 24),
                    nvdimm_physical_address_region_base: read_u64(s, p + 32),
                    interleave_index: read_u16(s, p + 40),
                    interleave_ways: read_u16(s, p + 42),
                    nvdimm_state_flags: read_u16(s, p + 44),
                    reserved: read_u16(s, p + 46),
                },
            ),
        )
    } else if t == 2 && l >= 16 {
        let declared = read_u32(s, p + 8);
        let room = ((l - 16) / 4) as u32;
        let count = if declared <= room {
            declared
        } else {
            room
        };
        let mut line_offset: Vec<u32> = Vec::new();
        let mut y: u32 = 0;
        while y < count
            invariant
                count as int == spec_line_count(s@, p as int, l as int),
                l >= 16,
                4 * count as int <= l - 16,
                p + l <= s.len(),
                0 <= y <= count,
                line_offset@.len() == y as int,
                forall|x: int|
                    0 <= x < y ==> #[trigger] line_offset@[x] as int == spec_u32_at(
                        s@,
                        p + 16 + 4 * x,
                    ),
            decreases count - y,
        {
            line_offset.push(read_u32(s, p + 16 + 4 * (y as usize)));
            y += 1;
        }
        Some(
            NfitEntry::Interleave(
                InterleaveEntry {
                    header: EntryHeader { entry_type: t, length: l },
                    index: read_u16(s, p + 4),
                    reserved: read_u16(s, p + 6),
                    num_of_lines_described: read_u32(s, p + 8),
                    line_size: read_u32(s, p + 12),
                    line_offset,
                },
            ),
        )
    } else if t == 3 && l >= 8 {
        Some(
            NfitEntry::SmbiosManagementInfo(
                SmbiosManagementInfoEntry {
                    header: EntryHeader { entry_type: t, length: l },
                    reserved: read_u32(s, p + 4),
                },
            ),
        )
    } else if t == 4 && l >= 80 {
        Some(
            NfitEntry::NvdimmControlRegion(
                NvdimmControlRegionEntry {
                    header: EntryHeader { entry_type: t, length: l },
                    index: read_u16(s, p + 4),
                    vendor_id: read_u16(s, p + 6),
                    device_id: read_u16(s, p + 8),
                    revision_id: read_u16(s, p + 10),
                    subsystem_vendor_id: read_u16(s, p + 12),
                    subsystem_device_id: read_u16(s, p + 14),
                    subsystem_revision_id: read_u16(s, p + 16),
                    valid_fields: s[p + 18],
                    manufacturing_location: s[p + 19],
                    manufacturing_date: read_u16(s, p + 20),
                    reserved1: read_u16(s, p + 22),
                    serial_number: [s[p + 24], s[p + 25], s[p + 26], s[p + 27]],
                    region_format_interface_code: read_u16(s, p + 28),
                    num_of_block_control_windows: read_u16(s, p + 30),
                    block_control_window_size: read_u64(s, p + 32),
                    command_register_offset: read_u64(s, p + 40),
                    command_register_size: read_u64(s, p + 48),
                    status_register_offset: read_u64(s, p + 56),
                    status_register_size: read_u64(s, p + 64),
                    nvdimm_control_region_flag: read_u16(s, p + 72),
                },
            ),
        )
    } else if t == 5 && l >= 40 {
        Some(
            NfitEntry::NvdimmBlockDataWindowRegion(
                NvdimmBlockDataWindowRegionEntry {
                    header: EntryHeader { entry_type: t, length: l },
                    nvdimm_control_region_index: read_u16(s, p + 4),
                    num_of_block_data_windows: read_u16(s, p + 6),
                    block_data_window_start_offset: read_u64(s, p + 8),
                    block_data_window_size: read_u64(s, p + 16),
                    block_accessible_memory_capacity: read_u64(s, p + 24),
                    block_accessible_memory_start_addr: read_u64(s, p + 32),
                },
            ),
        )
    } else if t == 6 && l >= 16 {
        let declared = read_u16(s, p + 8);
        let room = ((l - 16) / 8) as u16;
        let count = if declared <= room {
            declared
        } else {
            room
        };
        let mut flush_hint_addresses: Vec<u64> = Vec::new();
        let mut y: u16 = 0;
        while y < count
            invariant
                count as int == spec_flush_count(s@, p as int, l as int),
                l >= 16,
                8 * count as int <= l - 16,
                p + l <= s.len(),
                0 <= y <= count,
                flush_hint_addresses@.len() == y as int,
                forall|x: int|
                    0 <= x < y ==> #[trigger] flush_hint_addresses@[x] as int == spec_u64_at(
                        s@,
                        p + 16 + 8 * x,
                    ),
            decreases count - y,
        {
            flush_hint_addresses.push(read_u64(s, p + 16 + 8 * (y as usize)));
            y += 1;
        }
        Some(
            NfitEntry::FlushHintAddress(
                FlushHintAddressEntry {
                    header: EntryHeader { entry_type: t, length: l },
                    nfit_device_handle: read_u32(s, p + 4),
                    num_of_flush_hint_addresses: read_u16(s, p + 8),
                    flush_hint_addresses,
                },
            ),
        )
    } else if t == 7 && l >= 16 {
        Some(
            NfitEntry::PlatformCapabilities(
                PlatformCapabilitiesEntry {
                    header: EntryHeader { entry_type: t, length: l },
                    highest_valid_cap_bit: s[p + 4],
                    capabilities: read_u32(s, p + 8),
                    reserved2: read_u32(s, p + 12),
                },
            ),
        )
    } else {
        None
    }
}

/// Parses the GUID at byte position `p`.
fn parse_guid(s: &Vec<u8>, p: usize) -> (r: NfitGuid)
    requires
        p + 16 <= s.len(),
    ensures
        r == spec_guid_at(s@, p as int),
{
    NfitGuid(
        read_u32(s, p),
        read_u16(s, p + 4),
        read_u16(s, p + 6),
        [
            s[p + 8],
            s[p + 9],
            s[p + 10],
            s[p + 11],
            s[p + 12],
            s[p + 13],
            s[p + 14],
            s[p + 15],
        ],
    )
}

} // verus!
