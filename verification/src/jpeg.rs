//! Marker-segment parsing: walks the JFIF/JPEG container, fills tables
//! and headers, and drives the scan decode.

use vstd::prelude::*;

use crate::decoder::{
    max_h_upto, merge_frame_components, merge_scan_components, reorder_for_scan, zero_prevs,
    JPEGDecoder,
};
use crate::error::DecodeError;
use crate::huffman::{byte_sum, canonical_codes, expand_lengths, kraft_ok, Code, Table};

verus! {

/// Big-endian 16-bit read, as every length and dimension field in the
/// format is stored.
pub open spec fn u16_be(msb: u8, lsb: u8) -> int {
    msb as int * 256 + lsb as int
}

fn u8s_to_u16(msb: u8, lsb: u8) -> (r: u16)
    ensures
        r as int == u16_be(msb, lsb),
{
    (msb as u16) * 256 + (lsb as u16)
}

/// Density units of the APP0 segment; informational only, and an
/// unknown byte is tolerated rather than fatal.
#[derive(Debug, Clone, Copy, PartialEq, Eq, Structural)]
pub enum JFIFUnits {
    NoUnits,
    DotsPerInch,
    DotsPerCm,
    Unknown(u8),
}

impl JFIFUnits {
    pub fn from_u8(byte: u8) -> (r: JFIFUnits)
        ensures
            r == JFIFUnits::spec_from_u8(byte),
    {
        match byte {
            1 => JFIFUnits::NoUnits,
            2 => JFIFUnits::DotsPerInch,
            3 => JFIFUnits::DotsPerCm,
            _ => JFIFUnits::Unknown(byte),
        }
    }

    pub open spec fn spec_from_u8(byte: u8) -> JFIFUnits {
        if byte == 1 {
            JFIFUnits::NoUnits
        } else if byte == 2 {
            JFIFUnits::DotsPerInch
        } else if byte == 3 {
            JFIFUnits::DotsPerCm
        } else {
            JFIFUnits::Unknown(byte)
        }
    }
}

/// JFIF version of the APP0 segment; informational only.
#[allow(non_camel_case_types)]
#[derive(Debug, Clone, Copy, PartialEq, Eq, Structural)]
pub enum JFIFVersion {
    V1_01,
    V1_02,
    Unknown(u8, u8),
}

impl JFIFVersion {
    pub fn from_bytes(msb: u8, lsb: u8) -> (r: JFIFVersion)
        ensures
            r == JFIFVersion::spec_from_bytes(msb, lsb),
    {
        match (msb, lsb) {
            (1, 1) => JFIFVersion::V1_01,
            (1, 2) => JFIFVersion::V1_02,
            _ => JFIFVersion::Unknown(msb, lsb),
        }
    }

    pub open spec fn spec_from_bytes(msb: u8, lsb: u8) -> JFIFVersion {
        if msb == 1 && lsb == 1 {
            JFIFVersion::V1_01
        } else if msb == 1 && lsb == 2 {
            JFIFVersion::V1_02
        } else {
            JFIFVersion::Unknown(msb, lsb)
        }
    }
}

/// One component record of the frame header (SOF0).
#[derive(Debug, Clone, Copy, PartialEq, Eq, Structural)]
pub struct FrameComponentHeader {
    /// Component id.
    pub component_id: u8,
    /// Horizontal sampling factor relative to the frame's maximum.
    pub horizontal_sampling_factor: u8,
    /// Vertical sampling factor relative to the frame's maximum.
    pub vertical_sampling_factor: u8,
    /// Which quantization table this component uses.
    pub quantization_selector: u8,
}

/// The frame header (SOF0): dimensions, precision and the component
/// records. Created once from the SOF segment, read-only afterward.
#[derive(Debug, Clone)]
pub struct FrameHeader {
    /// Bits per sample; only 8 is supported.
    pub sample_precision: u8,
    /// Image height in lines.
    pub num_lines: u16,
    /// Image width in samples per line.
    pub samples_per_line: u16,
    /// Number of components in the frame.
    pub image_components: u8,
    /// One record per component.
    pub frame_components: Vec<FrameComponentHeader>,
}

/// One component record of the scan header (SOS): which Huffman tables
/// the component uses for this scan.
#[derive(Debug, Clone, Copy, PartialEq, Eq, Structural)]
pub struct ScanComponentHeader {
    /// Component id, bound to the frame component of the same id.
    pub component_id: u8,
    /// DC Huffman table id.
    pub dc_table_selector: u8,
    /// AC Huffman table id.
    pub ac_table_selector: u8,
}

/// The scan header (SOS).
#[derive(Debug, Clone)]
pub struct ScanHeader {
    /// Number of components in the scan.
    pub num_components: u8,
    /// One record per scan component, in scan order.
    pub scan_components: Vec<ScanComponentHeader>,
    /// Zero for sequential DCT.
    pub start_spectral_selection: u8,
    /// 63 for sequential DCT.
    pub end_spectral_selection: u8,
    /// Point-transform high nibble.
    pub successive_approximation_bit_pos_high: u8,
    /// Point-transform low nibble.
    pub successive_approximation_bit_pos_low: u8,
}

/// The closed set of markers this decoder recognizes.
#[derive(Debug, Clone, Copy, PartialEq, Eq, Structural)]
pub enum Marker {
    StartOfScan,
    DefineHuffmanTable,
    Comment,
    QuantizationTable,
    BaselineDCT,
    RestartIntervalDefinition,
    ApplicationSegment0,
    ApplicationSegment12,
    ApplicationSegment14,
    StartOfImage,
    EndOfImage,
}

/// The marker a 0xFF-introduced byte pair denotes, if any.
pub open spec fn spec_marker_of(second: u8) -> Option<Marker> {
    if second == 0xC0 {
        Some(Marker::BaselineDCT)
    } else if second == 0xC4 {
        Some(Marker::DefineHuffmanTable)
    } else if second == 0xD8 {
        Some(Marker::StartOfImage)
    } else if second == 0xD9 {
        Some(Marker::EndOfImage)
    } else if second == 0xDA {
        Some(Marker::StartOfScan)
    } else if second == 0xDB {
        Some(Marker::QuantizationTable)
    } else if second == 0xDD {
        Some(Marker::RestartIntervalDefinition)
    } else if second == 0xE0 {
        Some(Marker::ApplicationSegment0)
    } else if second == 0xEC {
        Some(Marker::ApplicationSegment12)
    } else if second == 0xEE {
        Some(Marker::ApplicationSegment14)
    } else if second == 0xFE {
        Some(Marker::Comment)
    } else {
        None
    }
}

fn bytes_to_marker(first: u8, second: u8) -> (r: Option<Marker>)
    ensures
        r == if first == 0xFF {
            spec_marker_of(second)
        } else {
            None::<Marker>
        },
{
    if first != 0xFF {
        return None;
    }
    match second {
        0xC0 => Some(Marker::BaselineDCT),
        0xC4 => Some(Marker::DefineHuffmanTable),
        0xD8 => Some(Marker::StartOfImage),
        0xD9 => Some(Marker::EndOfImage),
        0xDA => Some(Marker::StartOfScan),
        0xDB => Some(Marker::QuantizationTable),
        0xDD => Some(Marker::RestartIntervalDefinition),
        0xE0 => Some(Marker::ApplicationSegment0),
        0xEC => Some(Marker::ApplicationSegment12),
        0xEE => Some(Marker::ApplicationSegment14),
        0xFE => Some(Marker::Comment),
        _ => None,
    }
}

/// Everything the marker walk accumulates that a later scan can read:
/// the frame dimensions and component records, and the contents of the
/// four table slots per class.
pub struct WalkState {
    /// Image dimensions (width, height) from the frame header.
    pub dimensions: (u16, u16),
    /// The frame's component records, once a SOF0 segment was seen.
    pub frame: Option<Seq<FrameComponentHeader>>,
    /// DC Huffman table slots 0..=3, as canonical code lists.
    pub dc: Seq<Option<Seq<Code>>>,
    /// AC Huffman table slots 0..=3.
    pub ac: Seq<Option<Seq<Code>>>,
    /// Quantization table slots 0..=3, 64 zigzag-order bytes each.
    pub quant: Seq<Option<Seq<u8>>>,
}

/// The state before any segment was read.
pub open spec fn initial_walk_state() -> WalkState {
    WalkState {
        dimensions: (0u16, 0u16),
        frame: None,
        dc: Seq::new(4, |_j: int| None),
        ac: Seq::new(4, |_j: int| None),
        quant: Seq::new(4, |_j: int| None),
    }
}

/// The walk-relevant content of a parsed image.
pub open spec fn state_of(img: JPEGImage) -> WalkState {
    WalkState {
        dimensions: img.dimensions_spec(),
        frame: match img.frame_header_spec() {
            Some(fh) => Some(fh.frame_components@),
            None => None,
        },
        dc: Seq::new(
            4,
            |j: int|
                match img.dc_tables_spec()[j] {
                    Some(t) => Some(t.codes_spec()),
                    None => None,
                },
        ),
        ac: Seq::new(
            4,
            |j: int|
                match img.ac_tables_spec()[j] {
                    Some(t) => Some(t.codes_spec()),
                    None => None,
                },
        ),
        quant: Seq::new(
            4,
            |j: int|
                match img.quant_tables_spec()[j] {
                    Some(q) => Some(q@),
                    None => None,
                },
        ),
    }
}

/// How the marker walk ends: a fatal condition with its error kind, a
/// clean end of the buffer with the accumulated state, or the first
/// start-of-scan with the state before it, the scan's component records,
/// and the index where the entropy-coded data begins.
pub enum MarkerWalk {
    Fail(DecodeError),
    End(WalkState),
    Scan(WalkState, Seq<ScanComponentHeader>, int),
}

/// The component records of a SOF0 segment, three bytes each.
pub open spec fn sof_components(data: Seq<u8>, base: int, nc: int) -> Seq<FrameComponentHeader> {
    Seq::new(
        nc as nat,
        |c: int|
            FrameComponentHeader {
                component_id: data[base + 3 * c],
                horizontal_sampling_factor: data[base + 3 * c + 1] >> 4u8,
                vertical_sampling_factor: data[base + 3 * c + 1] & 0x0Fu8,
                quantization_selector: data[base + 3 * c + 2],
            },
    )
}

/// The component records of a SOS header, two bytes each.
pub open spec fn sos_components(data: Seq<u8>, base: int, nc: int) -> Seq<ScanComponentHeader> {
    Seq::new(
        nc as nat,
        |c: int|
            ScanComponentHeader {
                component_id: data[base + 2 * c],
                dc_table_selector: data[base + 2 * c + 1] >> 4u8,
                ac_table_selector: data[base + 2 * c + 1] & 0x0Fu8,
            },
    )
}

/// Walk the entries of a DQT segment: each is a precision/id byte and 64
/// coefficient bytes; only 8-bit precision and ids 0..=3 are accepted.
pub open spec fn dqt_walk(data: Seq<u8>, idx: int, end: int, st: WalkState) -> Result<
    WalkState,
    DecodeError,
>
    decreases end - idx,
{
    if idx >= end {
        Ok(st)
    } else {
        let pq = data[idx] >> 4u8;
        let id = data[idx] & 0x0Fu8;
        if pq != 0 {
            Err(DecodeError::UnsupportedFeature)
        } else if id >= 4 {
            Err(DecodeError::MalformedHeader)
        } else if end - idx < 65 {
            Err(DecodeError::MalformedHeader)
        } else {
            dqt_walk(
                data,
                idx + 65,
                end,
                WalkState {
                    quant: st.quant.update(id as int, Some(data.subrange(idx + 1, idx + 65))),
                    ..st
                },
            )
        }
    }
}

/// Walk the definitions of a DHT segment: each is a class/id byte, 16
/// size counts and the matching value bytes, installed as the canonical
/// code list of its slot; a histogram that over-fills the code space is
/// malformed.
pub open spec fn dht_walk(data: Seq<u8>, idx: int, end: int, st: WalkState) -> Result<
    WalkState,
    DecodeError,
>
    decreases end - idx,
{
    if idx >= end {
        Ok(st)
    } else {
        let cls = data[idx] >> 4u8;
        let dest = data[idx] & 0x0Fu8;
        if cls > 1 {
            Err(DecodeError::MalformedHeader)
        } else if dest >= 4 {
            Err(DecodeError::MalformedHeader)
        } else if end - idx < 17 {
            Err(DecodeError::MalformedHeader)
        } else {
            let counts = data.subrange(idx + 1, idx + 17);
            let ncodes = byte_sum(counts, 16);
            if ncodes > end - (idx + 17) {
                Err(DecodeError::MalformedHeader)
            } else {
                let values = data.subrange(idx + 17, idx + 17 + ncodes);
                let lens = expand_lengths(counts, 16);
                if !(values.len() == lens.len() && kraft_ok(lens)) {
                    Err(DecodeError::MalformedHeader)
                } else {
                    let codes = canonical_codes(counts, values);
                    let st2 = if cls == 0 {
                        WalkState { dc: st.dc.update(dest as int, Some(codes)), ..st }
                    } else {
                        WalkState { ac: st.ac.update(dest as int, Some(codes)), ..st }
                    };
                    dht_walk(data, idx + 17 + ncodes, end, st2)
                }
            }
        }
    }
}

/// The marker walk: the exact linear pass over marker segments that
/// parsing performs, from byte `i` in state `st`, up to the first
/// start-of-scan. SOI and EOI carry no length; every other recognized
/// segment is sliced by its declared big-endian length (which excludes
/// the two length bytes); a truncated or undersized segment, a duplicate
/// or non-8-bit frame header, or a scan before the frame header is
/// malformed; a restart-interval definition is unsupported; anything
/// else at a marker position is an unrecognized marker.
pub open spec fn marker_walk(data: Seq<u8>, i: int, st: WalkState) -> MarkerWalk
    decreases data.len() - i,
{
    if i >= data.len() {
        MarkerWalk::End(st)
    } else if i + 1 >= data.len() {
        MarkerWalk::Fail(DecodeError::MalformedHeader)
    } else if data[i] != 0xFF {
        MarkerWalk::Fail(DecodeError::UnrecognizedMarker)
    } else {
        match spec_marker_of(data[i + 1]) {
            None => MarkerWalk::Fail(DecodeError::UnrecognizedMarker),
            Some(m) => if m == Marker::StartOfImage || m == Marker::EndOfImage {
                marker_walk(data, i + 2, st)
            } else if data.len() - i < 4 {
                MarkerWalk::Fail(DecodeError::MalformedHeader)
            } else {
                let l = u16_be(data[i + 2], data[i + 3]);
                if l < 2 {
                    MarkerWalk::Fail(DecodeError::MalformedHeader)
                } else {
                    let dl = l - 2;
                    if dl > data.len() - (i + 4) {
                        MarkerWalk::Fail(DecodeError::MalformedHeader)
                    } else {
                        let body = i + 4;
                        let next = i + 4 + dl;
                        match m {
                            Marker::Comment => marker_walk(data, next, st),
                            Marker::QuantizationTable => match dqt_walk(
                                data,
                                body,
                                body + dl,
                                st,
                            ) {
                                Ok(st2) => marker_walk(data, next, st2),
                                Err(e) => MarkerWalk::Fail(e),
                            },
                            Marker::BaselineDCT => if st.frame is Some {
                                MarkerWalk::Fail(DecodeError::MalformedHeader)
                            } else if dl < 6 {
                                MarkerWalk::Fail(DecodeError::MalformedHeader)
                            } else if data[body] != 8 {
                                MarkerWalk::Fail(DecodeError::MalformedHeader)
                            } else {
                                let nl = u16_be(data[body + 1], data[body + 2]);
                                let spl = u16_be(data[body + 3], data[body + 4]);
                                let nc = data[body + 5] as int;
                                if dl < 6 + 3 * nc {
                                    MarkerWalk::Fail(DecodeError::MalformedHeader)
                                } else {
                                    marker_walk(
                                        data,
                                        next,
                                        WalkState {
                                            dimensions: (spl as u16, nl as u16),
                                            frame: Some(sof_components(data, body + 6, nc)),
                                            ..st
                                        },
                                    )
                                }
                            },
                            Marker::DefineHuffmanTable => match dht_walk(
                                data,
                                body,
                                body + dl,
                                st,
                            ) {
                                Ok(st2) => marker_walk(data, next, st2),
                                Err(e) => MarkerWalk::Fail(e),
                            },
                            Marker::StartOfScan => if dl < 4 {
                                MarkerWalk::Fail(DecodeError::MalformedHeader)
                            } else {
                                let nc = data[body] as int;
                                if dl < 1 + 2 * nc + 3 {
                                    MarkerWalk::Fail(DecodeError::MalformedHeader)
                                } else if st.frame is None {
                                    MarkerWalk::Fail(DecodeError::MalformedHeader)
                                } else {
                                    MarkerWalk::Scan(st, sos_components(data, body + 1, nc), next)
                                }
                            },
                            Marker::RestartIntervalDefinition => MarkerWalk::Fail(
                                DecodeError::UnsupportedFeature,
                            ),
                            Marker::ApplicationSegment0 => marker_walk(data, next, st),
                            Marker::ApplicationSegment12 => marker_walk(data, next, st),
                            Marker::ApplicationSegment14 => marker_walk(data, next, st),
                            Marker::StartOfImage => marker_walk(data, next, st),
                            Marker::EndOfImage => marker_walk(data, next, st),
                        }
                    }
                }
            },
        }
    }
}

/// The scan decoder that a walk state describes: its components bound by
/// id through the frame and scan headers, its dimensions and un-stuffed
/// entropy data, and each table slot filled exactly as the walk saw it.
/// Its scan outcome is a function of nothing else.
pub open spec fn scan_decoder_matches(
    d: JPEGDecoder,
    data: Seq<u8>,
    st: WalkState,
    scs: Seq<ScanComponentHeader>,
    es: int,
) -> bool {
    &&& d.component_fields_spec() == reorder_for_scan(
        merge_scan_components(
            merge_frame_components(
                Seq::empty(),
                st.frame->Some_0,
                st.frame->Some_0.len() as int,
            ),
            scs,
            scs.len() as int,
        ),
        scs,
    )
    &&& d.dimensions_spec() == ((st.dimensions.0 as usize, st.dimensions.1 as usize))
    &&& d.data_spec() == unstuff_from(data, es).0
    &&& d.wf()
    &&& forall|j: int| 0 <= j < 4 ==> ((#[trigger] d.dc_tables_spec()[j]) is Some) == (st.dc[j] is Some)
    &&& forall|j: int|
        0 <= j < 4 && st.dc[j] is Some ==> ((#[trigger] d.dc_tables_spec()[j])->Some_0).codes_spec()
            == st.dc[j]->Some_0
    &&& forall|j: int| 0 <= j < 4 ==> ((#[trigger] d.ac_tables_spec()[j]) is Some) == (st.ac[j] is Some)
    &&& forall|j: int|
        0 <= j < 4 && st.ac[j] is Some ==> ((#[trigger] d.ac_tables_spec()[j])->Some_0).codes_spec()
            == st.ac[j]->Some_0
    &&& forall|j: int|
        0 <= j < 4 ==> ((#[trigger] d.quant_tables_spec()[j]) is Some) == (st.quant[j] is Some)
    &&& forall|j: int|
        0 <= j < 4 && st.quant[j] is Some ==> (#[trigger] d.quant_tables_spec()[j])->Some_0@
            == st.quant[j]->Some_0
}

/// The iteration count of a decoder's scan: one per minimum coded unit
/// over the padded block grid.
pub open spec fn scan_iterations(d: JPEGDecoder) -> int {
    (d.num_blocks_x() / max_h_upto(
        d.component_fields_spec(),
        d.component_fields_spec().len() as int,
    )) * d.num_blocks_y()
}

/// A decoder witness for a completed scan, together with what the image
/// must then hold: the scan's configuration was acceptable and the
/// stored pixels are exactly the decoded ones.
pub open spec fn scan_witness_ok(
    d: JPEGDecoder,
    vecd: Seq<u8>,
    st: WalkState,
    scs: Seq<ScanComponentHeader>,
    es: int,
    img: JPEGImage,
) -> bool {
    &&& scan_decoder_matches(d, vecd, st, scs, es)
    &&& (d.component_fields_spec().len() == 1 || d.component_fields_spec().len() == 3)
    &&& d.sampling_ok()
    &&& d.tables_ok()
    &&& img.frame_header_spec() is Some
    &&& img.dimensions_spec() == st.dimensions
    &&& match d.scan_blocks(
        d.data_spec(),
        0,
        scan_iterations(d),
        zero_prevs(d.component_fields_spec().len()),
    ) {
        Some(t) => img.image_data_spec() matches Some(px) && px@ == d.decoded_pixels(t.0),
        None => false,
    }
}

/// A scan has been decoded into `img`, exactly as the walk describes.
pub open spec fn scanned_state_ok(vecd: Seq<u8>, img: JPEGImage) -> bool {
    match marker_walk(vecd, 0, initial_walk_state()) {
        MarkerWalk::Scan(st, scs, es) => exists|d: JPEGDecoder|
            #[trigger] scan_witness_ok(d, vecd, st, scs, es, img),
        _ => false,
    }
}

/// What the result of parsing owes to the first scan the walk found: the
/// configuration errors by kind, and on overall success the stored
/// pixels, exactly.
pub open spec fn scan_result_ok(
    d: JPEGDecoder,
    vecd: Seq<u8>,
    st: WalkState,
    scs: Seq<ScanComponentHeader>,
    es: int,
    r: Result<JPEGImage, DecodeError>,
) -> bool {
    let ncomp = d.component_fields_spec().len();
    let comp_ok = ncomp == 1 || ncomp == 3;
    &&& scan_decoder_matches(d, vecd, st, scs, es)
    &&& (!comp_ok ==> r == Err::<JPEGImage, DecodeError>(DecodeError::UnsupportedFeature))
    &&& (comp_ok && !d.sampling_ok() ==> r == Err::<JPEGImage, DecodeError>(
        DecodeError::UnsupportedFeature,
    ))
    &&& (comp_ok && d.sampling_ok() && !d.tables_ok() ==> r == Err::<JPEGImage, DecodeError>(
        DecodeError::MissingTable,
    ))
    &&& (r matches Ok(img) ==> img.dimensions_spec() == st.dimensions && match d.scan_blocks(
        d.data_spec(),
        0,
        scan_iterations(d),
        zero_prevs(ncomp),
    ) {
        Some(t) => img.image_data_spec() matches Some(px) && px@ == d.decoded_pixels(t.0),
        None => false,
    })
}

/// What parsing owes to the marker walk: a walk failure is returned with
/// its kind; a clean walk with no scan succeeds with exactly the walked
/// state and no pixels; a walk that reaches a scan constrains the result
/// through some decoder that matches the walked configuration.
pub open spec fn parse_matches_walk(vecd: Seq<u8>, r: Result<JPEGImage, DecodeError>) -> bool {
    match marker_walk(vecd, 0, initial_walk_state()) {
        MarkerWalk::Fail(e) => r == Err::<JPEGImage, DecodeError>(e),
        MarkerWalk::End(st) => r matches Ok(img) && state_of(img) == st
            && img.image_data_spec() is None,
        MarkerWalk::Scan(st, scs, es) => exists|d: JPEGDecoder|
            #[trigger] scan_result_ok(d, vecd, st, scs, es, r),
    }
}

proof fn lemma_scanned_err(vecd: Seq<u8>, img: JPEGImage, e: DecodeError)
    requires
        scanned_state_ok(vecd, img),
    ensures
        parse_matches_walk(vecd, Err::<JPEGImage, DecodeError>(e)),
{
    match marker_walk(vecd, 0, initial_walk_state()) {
        MarkerWalk::Scan(st, scs, es) => {
            let d = choose|d: JPEGDecoder| #[trigger] scan_witness_ok(d, vecd, st, scs, es, img);
            assert(scan_result_ok(d, vecd, st, scs, es, Err::<JPEGImage, DecodeError>(e)));
        },
        _ => {},
    }
}

proof fn lemma_scanned_ok(vecd: Seq<u8>, img: JPEGImage)
    requires
        scanned_state_ok(vecd, img),
    ensures
        parse_matches_walk(vecd, Ok::<JPEGImage, DecodeError>(img)),
{
    match marker_walk(vecd, 0, initial_walk_state()) {
        MarkerWalk::Scan(st, scs, es) => {
            let d = choose|d: JPEGDecoder| #[trigger] scan_witness_ok(d, vecd, st, scs, es, img);
            assert(scan_result_ok(d, vecd, st, scs, es, Ok::<JPEGImage, DecodeError>(img)));
        },
        _ => {},
    }
}

/// The entropy-coded region of `data` starting at `i`, with byte
/// stuffing normalized, together with the index of the byte that ends
/// the region. A `0xFF 0x00` pair collapses to a literal `0xFF`; a
/// `0xFF` followed by anything else introduces a marker and ends the
/// region; the region also ends at the end of `data`.
pub open spec fn unstuff_from(data: Seq<u8>, i: int) -> (Seq<u8>, int)
    decreases data.len() - i,
{
    if i < 0 || i >= data.len() {
        (Seq::empty(), data.len() as int)
    } else if data[i] == 0xFF && i + 1 < data.len() && data[i + 1] == 0x00 {
        let rest = unstuff_from(data, i + 2);
        (seq![0xFFu8] + rest.0, rest.1)
    } else if data[i] == 0xFF && i + 1 < data.len() {
        (Seq::empty(), i)
    } else {
        let rest = unstuff_from(data, i + 1);
        (seq![data[i]] + rest.0, rest.1)
    }
}

/// Byte-stuffing round trip: on a region that holds no `0xFF` at all,
/// un-stuffing is the identity and the region runs to the end of the
/// data.
pub proof fn lemma_unstuff_plain(data: Seq<u8>, i: int)
    requires
        0 <= i <= data.len(),
        forall|j: int| i <= j < data.len() ==> data[j] != 0xFF,
    ensures
        unstuff_from(data, i).0 =~= data.subrange(i, data.len() as int),
        unstuff_from(data, i).1 == data.len(),
    decreases data.len() - i,
{
    if i < data.len() {
        lemma_unstuff_plain(data, i + 1);
        assert(unstuff_from(data, i).0 =~= seq![data[i]] + data.subrange(
            i + 1,
            data.len() as int,
        ));
    }
}

/// Walk the entropy-coded data that follows a scan header: collapse each
/// stuffed `0xFF 0x00` pair to a literal `0xFF`, and stop at the first
/// true marker (or the end of the buffer). Returns the clean bytes and
/// the index where the region ended.
pub fn strip_entropy_data(data: &Vec<u8>, start: usize) -> (r: (Vec<u8>, usize))
    requires
        start <= data@.len(),
    ensures
        r.0@ == unstuff_from(data@, start as int).0,
        r.1 as int == unstuff_from(data@, start as int).1,
        start <= r.1 <= data@.len(),
{
    let mut clean: Vec<u8> = Vec::new();
    let mut i: usize = start;
    while i < data.len()
        invariant
            start <= i <= data@.len(),
            clean@ + unstuff_from(data@, i as int).0 == unstuff_from(data@, start as int).0,
            unstuff_from(data@, i as int).1 == unstuff_from(data@, start as int).1,
        decreases data@.len() - i,
    {
        let b = data[i];
        if b == 0xFF && i + 1 < data.len() {
            if data[i + 1] == 0x00 {
                clean.push(0xFF);
                proof {
                    let rest = unstuff_from(data@, i as int + 2);
                    assert(clean@ + rest.0 =~= clean@.drop_last() + (seq![0xFFu8] + rest.0));
                }
                i = i + 2;
            } else {
                proof {
                    assert(unstuff_from(data@, i as int).0 =~= Seq::<u8>::empty());
                    assert(unstuff_from(data@, i as int).1 == i);
                    assert(clean@ + Seq::<u8>::empty() =~= clean@);
                }
                return (clean, i);
            }
        } else {
            clean.push(b);
            proof {
                let rest = unstuff_from(data@, i as int + 1);
                assert(clean@ + rest.0 =~= clean@.drop_last() + (seq![data@[i as int]] + rest.0));
            }
            i = i + 1;
        }
    }
    proof {
        assert(unstuff_from(data@, i as int).0 =~= Seq::<u8>::empty());
        assert(clean@ + Seq::<u8>::empty() =~= clean@);
    }
    (clean, i)
}

/// A parsed image: everything the marker walk collects, and the decoded
/// pixels once a scan has been processed.
#[derive(Debug)]
pub struct JPEGImage {
    /// JFIF version from APP0, informational.
    version: JFIFVersion,
    /// Density units from APP0, informational.
    units: JFIFUnits,
    /// Pixel density from APP0, informational.
    pixel_density: (u16, u16),
    /// Image dimensions (width, height) from the frame header.
    dimensions: (u16, u16),
    /// Thumbnail dimensions from APP0, informational.
    thumbnail_dimensions: (u8, u8),
    /// Raw comment bytes from a COM segment, if one was present.
    comment: Option<Vec<u8>>,
    /// Huffman tables for AC coefficients, ids 0..=3.
    huffman_ac_tables: Vec<Option<Table>>,
    /// Huffman tables for DC coefficients, ids 0..=3.
    huffman_dc_tables: Vec<Option<Table>>,
    /// Quantization tables, ids 0..=3, each 64 zigzag-order entries.
    quantization_tables: Vec<Option<Vec<u8>>>,
    /// The frame header, once a SOF0 segment was parsed.
    frame_header: Option<FrameHeader>,
    /// The scan headers seen so far.
    scan_headers: Option<Vec<ScanHeader>>,
    /// Decoded pixels in row-major order over the 8-pixel-padded grid.
    image_data: Option<Vec<(u8, u8, u8)>>,
}

impl JPEGImage {
    pub closed spec fn dimensions_spec(self) -> (u16, u16) {
        self.dimensions
    }

    pub closed spec fn frame_header_spec(self) -> Option<FrameHeader> {
        self.frame_header
    }

    pub closed spec fn image_data_spec(self) -> Option<Vec<(u8, u8, u8)>> {
        self.image_data
    }

    /// Number of 8x8 block columns the declared width covers.
    pub open spec fn num_blocks_x(self) -> int {
        (self.dimensions_spec().0 as int + 7) / 8
    }

    /// Number of 8x8 block rows the declared height covers.
    pub open spec fn num_blocks_y(self) -> int {
        (self.dimensions_spec().1 as int + 7) / 8
    }

    pub closed spec fn ac_tables_spec(self) -> Seq<Option<Table>> {
        self.huffman_ac_tables@
    }

    pub closed spec fn dc_tables_spec(self) -> Seq<Option<Table>> {
        self.huffman_dc_tables@
    }

    pub closed spec fn quant_tables_spec(self) -> Seq<Option<Vec<u8>>> {
        self.quantization_tables@
    }

    /// The image's invariant: four slots per table class, stored tables
    /// well-formed, dimensions agreeing with the frame header, and any
    /// decoded pixel buffer holding one pixel per image pixel.
    pub open spec fn wf(self) -> bool {
        &&& self.ac_tables_spec().len() == 4
        &&& self.dc_tables_spec().len() == 4
        &&& self.quant_tables_spec().len() == 4
        &&& forall|i: int|
            0 <= i < 4 ==> ((#[trigger] self.ac_tables_spec()[i]) matches Some(t) ==> t.wf())
        &&& forall|i: int|
            0 <= i < 4 ==> ((#[trigger] self.dc_tables_spec()[i]) matches Some(t) ==> t.wf())
        &&& forall|i: int|
            0 <= i < 4 ==> ((#[trigger] self.quant_tables_spec()[i]) matches Some(q) ==> q@.len()
                == 64)
        &&& (self.frame_header_spec() matches Some(fh) ==> self.dimensions_spec() == (
        fh.samples_per_line, fh.num_lines))
        &&& (self.image_data_spec() matches Some(px) ==> px@.len() == (
        self.dimensions_spec().0 as int) * (self.dimensions_spec().1 as int))
    }

    fn new() -> (r: JPEGImage)
        ensures
            r.wf(),
            r.frame_header_spec() is None,
            r.image_data_spec() is None,
            r.dimensions_spec() == (0u16, 0u16),
            r.dc_tables_spec() =~= Seq::<Option<Table>>::new(4, |j: int| None),
            r.ac_tables_spec() =~= Seq::<Option<Table>>::new(4, |j: int| None),
            r.quant_tables_spec() =~= Seq::<Option<Vec<u8>>>::new(4, |j: int| None),
    {
        let mut ac: Vec<Option<Table>> = Vec::new();
        ac.push(None);
        ac.push(None);
        ac.push(None);
        ac.push(None);
        let mut dc: Vec<Option<Table>> = Vec::new();
        dc.push(None);
        dc.push(None);
        dc.push(None);
        dc.push(None);
        let mut quant: Vec<Option<Vec<u8>>> = Vec::new();
        quant.push(None);
        quant.push(None);
        quant.push(None);
        quant.push(None);
        JPEGImage {
            version: JFIFVersion::Unknown(0, 0),
            units: JFIFUnits::Unknown(0),
            pixel_density: (0, 0),
            dimensions: (0, 0),
            thumbnail_dimensions: (0, 0),
            comment: None,
            huffman_ac_tables: ac,
            huffman_dc_tables: dc,
            quantization_tables: quant,
            frame_header: None,
            scan_headers: None,
            image_data: None,
        }
    }

    /// Declared image width in pixels.
    pub fn width(&self) -> (r: usize)
        ensures
            r == self.dimensions_spec().0 as int,
    {
        self.dimensions.0 as usize
    }

    /// Declared image height in pixels.
    pub fn height(&self) -> (r: usize)
        ensures
            r == self.dimensions_spec().1 as int,
    {
        self.dimensions.1 as usize
    }

    /// The decoded pixels, one per image pixel in row-major order, once
    /// a scan has been decoded.
    pub fn image_data(&self) -> (r: Option<&Vec<(u8, u8, u8)>>)
        ensures
            match r {
                Some(v) => self.image_data_spec() matches Some(d) && v@ == d@,
                None => self.image_data_spec() is None,
            },
    {
        self.image_data.as_ref()
    }
}

proof fn lemma_scanned_preserved(vecd: Seq<u8>, img1: JPEGImage, img2: JPEGImage)
    requires
        scanned_state_ok(vecd, img1),
        img2.dimensions_spec() == img1.dimensions_spec(),
        img2.image_data_spec() == img1.image_data_spec(),
        img2.frame_header_spec() is Some,
    ensures
        scanned_state_ok(vecd, img2),
{
    match marker_walk(vecd, 0, initial_walk_state()) {
        MarkerWalk::Scan(st, scs, es) => {
            let d = choose|d: JPEGDecoder| #[trigger] scan_witness_ok(d, vecd, st, scs, es, img1);
            assert(scan_witness_ok(d, vecd, st, scs, es, img2));
        },
        _ => {},
    }
}

impl JPEGImage {
    /// Parse the entries of one DQT segment into the quantization
    /// slots, exactly as `dqt_walk` describes.
    #[verifier::loop_isolation(false)]
    fn apply_dqt(&mut self, vec: &Vec<u8>, body: usize, seg_end: usize) -> (r: Result<
        (),
        DecodeError,
    >)
        requires
            old(self).wf(),
            body <= seg_end <= vec@.len(),
        ensures
            final(self).wf(),
            final(self).dimensions_spec() == old(self).dimensions_spec(),
            final(self).frame_header_spec() == old(self).frame_header_spec(),
            final(self).image_data_spec() == old(self).image_data_spec(),
            final(self).dc_tables_spec() == old(self).dc_tables_spec(),
            final(self).ac_tables_spec() == old(self).ac_tables_spec(),
            match r {
                Ok(_) => dqt_walk(vec@, body as int, seg_end as int, state_of(*old(self)))
                    == Ok::<WalkState, DecodeError>(state_of(*final(self))),
                Err(e) => dqt_walk(vec@, body as int, seg_end as int, state_of(*old(self)))
                    == Err::<WalkState, DecodeError>(e),
            },
    {
        let mut index = body;
        while index < seg_end
            invariant
                body <= index,
                self.wf(),
                self.dimensions_spec() == old(self).dimensions_spec(),
                self.frame_header_spec() == old(self).frame_header_spec(),
                self.image_data_spec() == old(self).image_data_spec(),
                self.dc_tables_spec() == old(self).dc_tables_spec(),
                self.ac_tables_spec() == old(self).ac_tables_spec(),
                dqt_walk(vec@, index as int, seg_end as int, state_of(*self)) == dqt_walk(
                    vec@,
                    body as int,
                    seg_end as int,
                    state_of(*old(self)),
                ),
            decreases seg_end - index,
        {
            let pq_tq = vec[index];
            let precision = pq_tq >> 4;
            if precision != 0 {
                // only 8-bit quantization entries
                return Err(DecodeError::UnsupportedFeature);
            }
            let id = pq_tq & 0x0F;
            proof {
                assert(pq_tq & 0x0F < 4 || pq_tq & 0x0F >= 4) by (bit_vector);
            }
            if id >= 4 {
                return Err(DecodeError::MalformedHeader);
            }
            if seg_end - index < 65 {
                return Err(DecodeError::MalformedHeader);
            }
            let table = copy_bytes(vec, index + 1, 64);
            let ghost prev_state = state_of(*self);
            self.quantization_tables.set(id as usize, Some(table));
            proof {
                assert(state_of(*self).quant =~= prev_state.quant.update(
                    id as int,
                    Some(vec@.subrange(index as int + 1, index as int + 65)),
                ));
                assert(state_of(*self).dc =~= prev_state.dc);
                assert(state_of(*self).ac =~= prev_state.ac);
                assert(state_of(*self) == WalkState {
                    quant: prev_state.quant.update(
                        id as int,
                        Some(vec@.subrange(index as int + 1, index as int + 65)),
                    ),
                    ..prev_state
                });
            }
            index = index + 65;
        }
        Ok(())
    }

    /// Parse the definitions of one DHT segment into the Huffman
    /// slots, exactly as `dht_walk` describes.
    #[verifier::loop_isolation(false)]
    #[verifier::rlimit(100)]
    fn apply_dht(&mut self, vec: &Vec<u8>, body: usize, seg_end: usize) -> (r: Result<
        (),
        DecodeError,
    >)
        requires
            old(self).wf(),
            body <= seg_end <= vec@.len(),
        ensures
            final(self).wf(),
            final(self).dimensions_spec() == old(self).dimensions_spec(),
            final(self).frame_header_spec() == old(self).frame_header_spec(),
            final(self).image_data_spec() == old(self).image_data_spec(),
            final(self).quant_tables_spec() == old(self).quant_tables_spec(),
            match r {
                Ok(_) => dht_walk(vec@, body as int, seg_end as int, state_of(*old(self)))
                    == Ok::<WalkState, DecodeError>(state_of(*final(self))),
                Err(e) => dht_walk(vec@, body as int, seg_end as int, state_of(*old(self)))
                    == Err::<WalkState, DecodeError>(e),
            },
    {
        let mut hi = body;
        while hi < seg_end
            invariant
                body <= hi,
                self.wf(),
                self.dimensions_spec() == old(self).dimensions_spec(),
                self.frame_header_spec() == old(self).frame_header_spec(),
                self.image_data_spec() == old(self).image_data_spec(),
                self.quant_tables_spec() == old(self).quant_tables_spec(),
                dht_walk(vec@, hi as int, seg_end as int, state_of(*self)) == dht_walk(
                    vec@,
                    body as int,
                    seg_end as int,
                    state_of(*old(self)),
                ),
            decreases seg_end - hi,
        {
            let class_id = vec[hi];
            let table_class = class_id >> 4;
            let table_dest = class_id & 0x0F;
            proof {
                assert(class_id & 0x0F < 4 || class_id & 0x0F >= 4) by (bit_vector);
                assert((class_id >> 4) <= 15) by (bit_vector);
            }
            if table_class > 1 {
                return Err(DecodeError::MalformedHeader);
            }
            if table_dest >= 4 {
                return Err(DecodeError::MalformedHeader);
            }
            if seg_end - hi < 17 {
                return Err(DecodeError::MalformedHeader);
            }
            let size_data = copy_bytes(vec, hi + 1, 16);
            let mut number_of_codes: usize = 0;
            let mut s: usize = 0;
            while s < 16
                invariant
                    s <= 16,
                    size_data@.len() == 16,
                    number_of_codes <= 255 * s,
                    number_of_codes == byte_sum(size_data@, s as int),
                decreases 16 - s,
            {
                number_of_codes = number_of_codes + (size_data[s] as usize);
                s = s + 1;
            }
            if number_of_codes > seg_end - (hi + 17) {
                return Err(DecodeError::MalformedHeader);
            }
            let data_table = copy_bytes(vec, hi + 17, number_of_codes);
            let table = match Table::from_size_data_tables(&size_data, &data_table) {
                Ok(t) => t,
                Err(e) => {
                    proof {
                        crate::huffman::lemma_expand_lengths_count(size_data@, 16);
                    }
                    return Err(e);
                },
            };
            proof {
                crate::huffman::lemma_expand_lengths_count(size_data@, 16);
            }
            let ghost prev_state = state_of(*self);
            if table_class == 0 {
                self.huffman_dc_tables.set(table_dest as usize, Some(table));
                proof {
                    assert(state_of(*self).dc =~= prev_state.dc.update(
                        table_dest as int,
                        Some(canonical_codes(size_data@, data_table@)),
                    ));
                    assert(state_of(*self).ac =~= prev_state.ac);
                    assert(state_of(*self).quant =~= prev_state.quant);
                    assert(state_of(*self) == WalkState {
                        dc: prev_state.dc.update(
                            table_dest as int,
                            Some(canonical_codes(size_data@, data_table@)),
                        ),
                        ..prev_state
                    });
                }
            } else {
                self.huffman_ac_tables.set(table_dest as usize, Some(table));
                proof {
                    assert(state_of(*self).ac =~= prev_state.ac.update(
                        table_dest as int,
                        Some(canonical_codes(size_data@, data_table@)),
                    ));
                    assert(state_of(*self).dc =~= prev_state.dc);
                    assert(state_of(*self).quant =~= prev_state.quant);
                    assert(state_of(*self) == WalkState {
                        ac: prev_state.ac.update(
                            table_dest as int,
                            Some(canonical_codes(size_data@, data_table@)),
                        ),
                        ..prev_state
                    });
                }
            }
            hi = hi + 17 + number_of_codes;
        }
        Ok(())
    }
}

impl JPEGImage {
    /// Decode the first scan: parse the scan header, strip the stuffing
    /// from the entropy-coded region, bind the stored tables to a scan
    /// decoder, decode, and store the pixels. Returns the index of the
    /// marker that ends the entropy region.
    #[verifier::loop_isolation(false)]
    #[verifier::rlimit(100)]
    fn decode_first_scan(&mut self, vec: &Vec<u8>, body: usize, data_length: usize) -> (r: Result<
        usize,
        DecodeError,
    >)
        requires
            old(self).wf(),
            old(self).frame_header_spec() is Some,
            old(self).image_data_spec() is None,
            4 <= data_length,
            body + data_length <= vec@.len(),
            1 + 2 * (vec@[body as int] as int) + 3 <= data_length as int,
        ensures
            ({
                let st = state_of(*old(self));
                let scs = sos_components(vec@, body as int + 1, vec@[body as int] as int);
                let es = (body + data_length) as int;
                match r {
                    Ok(end) => {
                        &&& exists|d: JPEGDecoder|
                            #[trigger] scan_witness_ok(d, vec@, st, scs, es, *final(self))
                        &&& final(self).wf()
                        &&& final(self).dimensions_spec() == old(self).dimensions_spec()
                        &&& final(self).frame_header_spec() is Some
                        &&& final(self).image_data_spec() is Some
                        &&& body + data_length <= end <= vec@.len()
                    },
                    Err(e) => exists|d: JPEGDecoder|
                        #[trigger] scan_result_ok(
                            d,
                            vec@,
                            st,
                            scs,
                            es,
                            Err::<JPEGImage, DecodeError>(e),
                        ),
                }
            }),
    {
        let n = vec.len();
        let ghost st_cur = state_of(*old(self));
        let num_components = vec[body];
        let ghost scs_w = sos_components(vec@, body as int + 1, num_components as int);
        let ghost es_w = (body + data_length) as int;
        let mut scan_components: Vec<ScanComponentHeader> = Vec::new();
        let mut c: usize = 0;
        while c < num_components as usize
            invariant
                c <= num_components as usize,
                body + 1 + 2 * (num_components as usize) + 3 <= vec@.len(),
                scan_components@ =~= sos_components(
                    vec@,
                    (body + 1) as int,
                    num_components as int,
                ).take(c as int),
            decreases num_components as usize - c,
        {
            let index = body + 1 + 2 * c;
            scan_components.push(
                ScanComponentHeader {
                    component_id: vec[index],
                    dc_table_selector: vec[index + 1] >> 4,
                    ac_table_selector: vec[index + 1] & 0x0F,
                },
            );
            c = c + 1;
            proof {
                assert(scan_components@ =~= sos_components(
                    vec@,
                    (body + 1) as int,
                    num_components as int,
                ).take(c as int));
            }
        }
        proof {
            assert(sos_components(vec@, (body + 1) as int, num_components as int).take(
                num_components as int,
            ) =~= sos_components(vec@, (body + 1) as int, num_components as int));
        }
        let spectral = body + 1 + 2 * (num_components as usize);
        let ax = vec[spectral + 2];
        let scan_header = ScanHeader {
            num_components,
            scan_components,
            start_spectral_selection: vec[spectral],
            end_spectral_selection: vec[spectral + 1],
            successive_approximation_bit_pos_high: ax >> 4,
            successive_approximation_bit_pos_low: ax & 0x0F,
        };
        let frame_header = match &self.frame_header {
            Some(fh) => fh,
            None => {
                proof {
                    assert(false);
                }
                return Err(DecodeError::MalformedHeader);
            },
        };

        // find the end of the entropy data and strip the stuffing bytes
        let stripped = strip_entropy_data(vec, body + data_length);
        let encoded_data = stripped.0;
        let entropy_end = stripped.1;

        let d0 = JPEGDecoder::new(encoded_data);
        proof {
            assert(d0.component_fields_spec()
                =~= Seq::<crate::decoder::JPEGDecoderComponentFields>::empty());
        }
        let mut jpeg_decoder = d0.frame_header(frame_header).scan_header(&scan_header).dimensions(
            (self.dimensions.0 as usize, self.dimensions.1 as usize),
        );
        proof {
            assert(frame_header.frame_components@ == st_cur.frame->Some_0);
            assert(scan_header.scan_components@ == scs_w);
            assert(jpeg_decoder.component_fields_spec() == reorder_for_scan(
                merge_scan_components(
                    merge_frame_components(
                        Seq::empty(),
                        st_cur.frame->Some_0,
                        st_cur.frame->Some_0.len() as int,
                    ),
                    scs_w,
                    scs_w.len() as int,
                ),
                scs_w,
            ));
        }
        let mut t: usize = 0;
        while t < 4
            invariant
                t <= 4,
                self.wf(),
                *self == *old(self),
                jpeg_decoder.wf(),
                jpeg_decoder.dimensions_spec() == (
                    self.dimensions.0 as usize,
                    self.dimensions.1 as usize,
                ),
                forall|j: int|
                    0 <= j < t as int ==> ((#[trigger] jpeg_decoder.dc_tables_spec()[j]) is Some)
                        == (self.dc_tables_spec()[j] is Some),
                forall|j: int|
                    0 <= j < t as int && self.dc_tables_spec()[j] is Some ==> ((
                    #[trigger] jpeg_decoder.dc_tables_spec()[j])->Some_0).codes_spec() == (
                    self.dc_tables_spec()[j]->Some_0).codes_spec(),
                forall|j: int|
                    0 <= j < t as int ==> ((#[trigger] jpeg_decoder.ac_tables_spec()[j]) is Some)
                        == (self.ac_tables_spec()[j] is Some),
                forall|j: int|
                    0 <= j < t as int && self.ac_tables_spec()[j] is Some ==> ((
                    #[trigger] jpeg_decoder.ac_tables_spec()[j])->Some_0).codes_spec() == (
                    self.ac_tables_spec()[j]->Some_0).codes_spec(),
                forall|j: int|
                    0 <= j < t as int ==> ((#[trigger] jpeg_decoder.quant_tables_spec()[j])
                        is Some) == (self.quant_tables_spec()[j] is Some),
                forall|j: int|
                    0 <= j < t as int && self.quant_tables_spec()[j] is Some ==> (
                    #[trigger] jpeg_decoder.quant_tables_spec()[j])->Some_0@ == self.quant_tables_spec()[j]->Some_0@,
                forall|j: int|
                    t as int <= j < 4 ==> (#[trigger] jpeg_decoder.dc_tables_spec()[j]) is None,
                forall|j: int|
                    t as int <= j < 4 ==> (#[trigger] jpeg_decoder.ac_tables_spec()[j]) is None,
                forall|j: int|
                    t as int <= j < 4 ==> (#[trigger] jpeg_decoder.quant_tables_spec()[j])
                        is None,
                jpeg_decoder.component_fields_spec() == reorder_for_scan(
                    merge_scan_components(
                        merge_frame_components(
                            Seq::empty(),
                            st_cur.frame->Some_0,
                            st_cur.frame->Some_0.len() as int,
                        ),
                        scs_w,
                        scs_w.len() as int,
                    ),
                    scs_w,
                ),
                jpeg_decoder.data_spec() == unstuff_from(vec@, es_w).0,
            decreases 4 - t,
        {
            match &self.huffman_ac_tables[t] {
                Some(table) => {
                    jpeg_decoder.huffman_ac_tables(t as u8, table.duplicate());
                },
                None => {},
            }
            match &self.huffman_dc_tables[t] {
                Some(table) => {
                    jpeg_decoder.huffman_dc_tables(t as u8, table.duplicate());
                },
                None => {},
            }
            match &self.quantization_tables[t] {
                Some(table) => {
                    let copy = copy_bytes(table, 0, table.len());
                    proof {
                        assert(copy@ =~= table@);
                    }
                    jpeg_decoder.quantization_table(t as u8, copy);
                },
                None => {},
            }
            t = t + 1;
        }
        proof {
            assert(scan_decoder_matches(jpeg_decoder, vec@, st_cur, scs_w, es_w));
        }
        match jpeg_decoder.decode() {
            Ok(out) => {
                self.image_data = Some(out.0);
            },
            Err(e) => {
                proof {
                    assert(scan_result_ok(
                        jpeg_decoder,
                        vec@,
                        st_cur,
                        scs_w,
                        es_w,
                        Err::<JPEGImage, DecodeError>(e),
                    ));
                }
                return Err(e);
            },
        }
        match &mut self.scan_headers {
            Some(headers) => {
                headers.push(scan_header);
            },
            None => {
                let mut headers: Vec<ScanHeader> = Vec::new();
                headers.push(scan_header);
                self.scan_headers = Some(headers);
            },
        }
        proof {
            assert(scan_decoder_matches(jpeg_decoder, vec@, st_cur, scs_w, es_w));
            let ncomp = jpeg_decoder.component_fields_spec().len();
            assert(ncomp == 1 || ncomp == 3);
            assert(jpeg_decoder.sampling_ok());
            assert(jpeg_decoder.tables_ok());
            assert(self.frame_header_spec() is Some);
            assert(self.dimensions_spec() == st_cur.dimensions);
            assert(scan_iterations(jpeg_decoder) == (jpeg_decoder.num_blocks_x() / max_h_upto(
                jpeg_decoder.component_fields_spec(),
                ncomp as int,
            )) * jpeg_decoder.num_blocks_y());
            match jpeg_decoder.scan_blocks(
                jpeg_decoder.data_spec(),
                0,
                scan_iterations(jpeg_decoder),
                zero_prevs(ncomp),
            ) {
                Some(tv) => {
                    assert(self.image_data_spec() matches Some(px) && px@
                        == jpeg_decoder.decoded_pixels(tv.0));
                },
                None => {
                    jpeg_decoder.lemma_scan_blocks_end(
                        jpeg_decoder.data_spec(),
                        0,
                        scan_iterations(jpeg_decoder),
                        zero_prevs(ncomp),
                    );
                    assert(false);
                },
            }
            assert(scan_witness_ok(jpeg_decoder, vec@, st_cur, scs_w, es_w, *self));
        }
        Ok(entropy_end)
    }
}

impl JPEGImage {
    /// Parse and decode a baseline JFIF/JPEG byte stream.
    ///
    /// After the SOI signature check, parsing is exactly the marker walk
    /// (`marker_walk`): a walk failure is returned with its error kind; a
    /// stream without a scan succeeds with precisely the walked tables and
    /// dimensions; at the first start-of-scan the entropy region is
    /// un-stuffed and decoded, and the stored pixels, the configuration
    /// error kinds, and success are fixed by `parse_matches_walk` through
    /// a decoder that matches the walked configuration. A second scan is
    /// unsupported (baseline streams carry one scan per frame).
    #[verifier::loop_isolation(false)]
    #[verifier::rlimit(100)]
    pub fn parse(vec: Vec<u8>) -> (r: Result<JPEGImage, DecodeError>)
        ensures
            vec@.len() < 2 || vec@[0] != 0xFF || vec@[1] != 0xD8 ==> r == Err::<
                JPEGImage,
                DecodeError,
            >(DecodeError::MalformedHeader),
            r matches Ok(img) ==> vec@.len() >= 2 && vec@[0] == 0xFF && vec@[1] == 0xD8,
            r matches Ok(img) ==> img.wf(),
            r matches Ok(img) ==> (img.frame_header_spec() matches Some(fh)
                ==> img.dimensions_spec() == (fh.samples_per_line, fh.num_lines)),
            vec@.len() >= 2 && vec@[0] == 0xFF && vec@[1] == 0xD8 ==> parse_matches_walk(vec@, r),
    {
        if vec.len() < 2 {
            return Err(DecodeError::MalformedHeader);
        }
        if !(vec[0] == 0xFF && vec[1] == 0xD8) {
            return Err(DecodeError::MalformedHeader);
        }
        let mut image = JPEGImage::new();
        let ghost w_total = marker_walk(vec@, 0, initial_walk_state());
        let ghost mut scanned: bool = false;
        proof {
            assert(state_of(image).dc =~= initial_walk_state().dc);
            assert(state_of(image).ac =~= initial_walk_state().ac);
            assert(state_of(image).quant =~= initial_walk_state().quant);
            assert(state_of(image) == initial_walk_state());
        }
        let n = vec.len();
        let mut i: usize = 0;
        while i < n
            invariant
                i <= n,
                n == vec@.len(),
                image.wf(),
                image.frame_header_spec() is None ==> image.image_data_spec() is None,
                w_total == marker_walk(vec@, 0, initial_walk_state()),
                !scanned ==> w_total == marker_walk(vec@, i as int, state_of(image))
                    && image.image_data_spec() is None,
                scanned ==> scanned_state_ok(vec@, image) && image.frame_header_spec() is Some
                    && image.image_data_spec() is Some,
            decreases n - i,
        {
            if i + 1 >= n {
                // a lone trailing byte cannot be a marker
                proof {
                    if scanned {
                        lemma_scanned_err(vec@, image, DecodeError::MalformedHeader);
                    } else {
                        assert(w_total == MarkerWalk::Fail(DecodeError::MalformedHeader));
                    }
                }
                return Err(DecodeError::MalformedHeader);
            }
            let marker = match bytes_to_marker(vec[i], vec[i + 1]) {
                Some(m) => m,
                None => {
                    proof {
                        if scanned {
                            lemma_scanned_err(vec@, image, DecodeError::UnrecognizedMarker);
                        } else {
                            assert(w_total == MarkerWalk::Fail(DecodeError::UnrecognizedMarker));
                        }
                    }
                    return Err(DecodeError::UnrecognizedMarker);
                },
            };
            if marker == Marker::StartOfImage || marker == Marker::EndOfImage {
                // no length field on these
                proof {
                    if !scanned {
                        assert(w_total == marker_walk(vec@, i as int + 2, state_of(image)));
                    }
                }
                i = i + 2;
            } else {
                if n - i < 4 {
                    proof {
                        if scanned {
                            lemma_scanned_err(vec@, image, DecodeError::MalformedHeader);
                        } else {
                            assert(w_total == MarkerWalk::Fail(DecodeError::MalformedHeader));
                        }
                    }
                    return Err(DecodeError::MalformedHeader);
                }
                let seg_len = u8s_to_u16(vec[i + 2], vec[i + 3]);
                if seg_len < 2 {
                    proof {
                        if scanned {
                            lemma_scanned_err(vec@, image, DecodeError::MalformedHeader);
                        } else {
                            assert(w_total == MarkerWalk::Fail(DecodeError::MalformedHeader));
                        }
                    }
                    return Err(DecodeError::MalformedHeader);
                }
                let data_length = (seg_len - 2) as usize;
                if data_length > n - (i + 4) {
                    proof {
                        if scanned {
                            lemma_scanned_err(vec@, image, DecodeError::MalformedHeader);
                        } else {
                            assert(w_total == MarkerWalk::Fail(DecodeError::MalformedHeader));
                        }
                    }
                    return Err(DecodeError::MalformedHeader);
                }
                let body = i + 4;
                let mut next_i = i + 4 + data_length;
                match marker {
                    Marker::Comment => {
                        let ghost prev_state = state_of(image);
                        let ghost prev_image = image;
                        image.comment = Some(copy_bytes(&vec, body, data_length));
                        proof {
                            assert(state_of(image).dc =~= prev_state.dc);
                            assert(state_of(image).ac =~= prev_state.ac);
                            assert(state_of(image).quant =~= prev_state.quant);
                            assert(state_of(image) == prev_state);
                            if scanned {
                                lemma_scanned_preserved(vec@, prev_image, image);
                            } else {
                                assert(w_total == marker_walk(
                                    vec@,
                                    next_i as int,
                                    state_of(image),
                                ));
                            }
                        }
                    },
                    Marker::QuantizationTable => {
                        let seg_end = body + data_length;
                        let ghost prev_image = image;
                        match image.apply_dqt(&vec, body, seg_end) {
                            Ok(_) => {
                                proof {
                                    if scanned {
                                        lemma_scanned_preserved(vec@, prev_image, image);
                                    } else {
                                        assert(w_total == marker_walk(
                                            vec@,
                                            next_i as int,
                                            state_of(image),
                                        ));
                                    }
                                }
                            },
                            Err(e) => {
                                proof {
                                    if scanned {
                                        lemma_scanned_preserved(vec@, prev_image, image);
                                        lemma_scanned_err(vec@, image, e);
                                    } else {
                                        assert(w_total == MarkerWalk::Fail(e));
                                    }
                                }
                                return Err(e);
                            },
                        }
                    },
                    Marker::BaselineDCT => {
                        if image.frame_header.is_some() {
                            // baseline streams carry exactly one frame header
                            proof {
                                if scanned {
                                    lemma_scanned_err(vec@, image, DecodeError::MalformedHeader);
                                } else {
                                    assert(w_total == MarkerWalk::Fail(
                                        DecodeError::MalformedHeader,
                                    ));
                                }
                            }
                            return Err(DecodeError::MalformedHeader);
                        }
                        proof {
                            // a scan needs a frame header first, and one
                            // never goes away
                            assert(!scanned);
                        }
                        if data_length < 6 {
                            proof {
                                assert(w_total == MarkerWalk::Fail(DecodeError::MalformedHeader));
                            }
                            return Err(DecodeError::MalformedHeader);
                        }
                        let sample_precision = vec[body];
                        if sample_precision != 8 {
                            proof {
                                assert(w_total == MarkerWalk::Fail(DecodeError::MalformedHeader));
                            }
                            return Err(DecodeError::MalformedHeader);
                        }
                        let num_lines = u8s_to_u16(vec[body + 1], vec[body + 2]);
                        let samples_per_line = u8s_to_u16(vec[body + 3], vec[body + 4]);
                        let image_components = vec[body + 5];
                        if data_length < 6 + 3 * (image_components as usize) {
                            proof {
                                assert(w_total == MarkerWalk::Fail(DecodeError::MalformedHeader));
                            }
                            return Err(DecodeError::MalformedHeader);
                        }
                        let mut frame_components: Vec<FrameComponentHeader> = Vec::new();
                        let mut c: usize = 0;
                        while c < image_components as usize
                            invariant
                                c <= image_components as usize,
                                body + 6 + 3 * (image_components as usize) <= n,
                                frame_components@ =~= sof_components(
                                    vec@,
                                    (body + 6) as int,
                                    image_components as int,
                                ).take(c as int),
                            decreases image_components as usize - c,
                        {
                            let index = body + 6 + 3 * c;
                            frame_components.push(
                                FrameComponentHeader {
                                    component_id: vec[index],
                                    horizontal_sampling_factor: vec[index + 1] >> 4,
                                    vertical_sampling_factor: vec[index + 1] & 0x0F,
                                    quantization_selector: vec[index + 2],
                                },
                            );
                            c = c + 1;
                            proof {
                                assert(frame_components@ =~= sof_components(
                                    vec@,
                                    (body + 6) as int,
                                    image_components as int,
                                ).take(c as int));
                            }
                        }
                        let ghost prev_state = state_of(image);
                        image.dimensions = (samples_per_line, num_lines);
                        image.frame_header = Some(
                            FrameHeader {
                                sample_precision,
                                num_lines,
                                samples_per_line,
                                image_components,
                                frame_components,
                            },
                        );
                        proof {
                            let st2 = WalkState {
                                dimensions: (samples_per_line, num_lines),
                                frame: Some(
                                    sof_components(
                                        vec@,
                                        (body + 6) as int,
                                        image_components as int,
                                    ),
                                ),
                                ..prev_state
                            };
                            assert(sof_components(
                                vec@,
                                (body + 6) as int,
                                image_components as int,
                            ).take(image_components as int) =~= sof_components(
                                vec@,
                                (body + 6) as int,
                                image_components as int,
                            ));
                            assert(state_of(image).dc =~= prev_state.dc);
                            assert(state_of(image).ac =~= prev_state.ac);
                            assert(state_of(image).quant =~= prev_state.quant);
                            assert(state_of(image) == st2);
                            assert(w_total == marker_walk(vec@, next_i as int, state_of(image)));
                        }
                    },
                    Marker::DefineHuffmanTable => {
                        let seg_end = body + data_length;
                        let ghost prev_image = image;
                        match image.apply_dht(&vec, body, seg_end) {
                            Ok(_) => {
                                proof {
                                    if scanned {
                                        lemma_scanned_preserved(vec@, prev_image, image);
                                    } else {
                                        assert(w_total == marker_walk(
                                            vec@,
                                            next_i as int,
                                            state_of(image),
                                        ));
                                    }
                                }
                            },
                            Err(e) => {
                                proof {
                                    if scanned {
                                        lemma_scanned_preserved(vec@, prev_image, image);
                                        lemma_scanned_err(vec@, image, e);
                                    } else {
                                        assert(w_total == MarkerWalk::Fail(e));
                                    }
                                }
                                return Err(e);
                            },
                        }
                    },
                    Marker::StartOfScan => {
                        if image.image_data.is_some() {
                            // one scan per baseline frame
                            proof {
                                assert(scanned);
                                lemma_scanned_err(vec@, image, DecodeError::UnsupportedFeature);
                            }
                            return Err(DecodeError::UnsupportedFeature);
                        }
                        proof {
                            assert(!scanned);
                        }
                        if data_length < 4 {
                            proof {
                                assert(w_total == MarkerWalk::Fail(DecodeError::MalformedHeader));
                            }
                            return Err(DecodeError::MalformedHeader);
                        }
                        let num_components = vec[body];
                        if data_length < 1 + 2 * (num_components as usize) + 3 {
                            proof {
                                assert(w_total == MarkerWalk::Fail(DecodeError::MalformedHeader));
                            }
                            return Err(DecodeError::MalformedHeader);
                        }
                        if image.frame_header.is_none() {
                            // a scan cannot precede the frame header
                            proof {
                                assert(w_total == MarkerWalk::Fail(DecodeError::MalformedHeader));
                            }
                            return Err(DecodeError::MalformedHeader);
                        }
                        let ghost st_cur = state_of(image);
                        let ghost scs_w = sos_components(
                            vec@,
                            (body + 1) as int,
                            num_components as int,
                        );
                        let ghost es_w = (body + data_length) as int;
                        proof {
                            assert(w_total == MarkerWalk::Scan(st_cur, scs_w, es_w));
                        }
                        let ghost prev_image = image;
                        match image.decode_first_scan(&vec, body, data_length) {
                            Ok(end) => {
                                proof {
                                    assert(state_of(prev_image) == st_cur);
                                    assert(sos_components(
                                        vec@,
                                        body as int + 1,
                                        vec@[body as int] as int,
                                    ) == scs_w);
                                    let d = choose|d: JPEGDecoder|
                                        #[trigger] scan_witness_ok(
                                            d,
                                            vec@,
                                            state_of(prev_image),
                                            sos_components(
                                                vec@,
                                                body as int + 1,
                                                vec@[body as int] as int,
                                            ),
                                            (body + data_length) as int,
                                            image,
                                        );
                                    assert(scan_witness_ok(d, vec@, st_cur, scs_w, es_w, image));
                                    assert(marker_walk(vec@, 0, initial_walk_state())
                                        == MarkerWalk::Scan(st_cur, scs_w, es_w));
                                    assert(scan_witness_ok(
                                        d,
                                        vec@,
                                        marker_walk(vec@, 0, initial_walk_state())->Scan_0,
                                        marker_walk(vec@, 0, initial_walk_state())->Scan_1,
                                        marker_walk(vec@, 0, initial_walk_state())->Scan_2,
                                        image,
                                    ));
                                    assert(scanned_state_ok(vec@, image));
                                    scanned = true;
                                }
                                next_i = end;
                            },
                            Err(e) => {
                                proof {
                                    assert(state_of(prev_image) == st_cur);
                                    assert(sos_components(
                                        vec@,
                                        body as int + 1,
                                        vec@[body as int] as int,
                                    ) == scs_w);
                                    let d = choose|d: JPEGDecoder|
                                        #[trigger] scan_result_ok(
                                            d,
                                            vec@,
                                            state_of(prev_image),
                                            sos_components(
                                                vec@,
                                                body as int + 1,
                                                vec@[body as int] as int,
                                            ),
                                            (body + data_length) as int,
                                            Err::<JPEGImage, DecodeError>(e),
                                        );
                                    assert(scan_result_ok(
                                        d,
                                        vec@,
                                        st_cur,
                                        scs_w,
                                        es_w,
                                        Err::<JPEGImage, DecodeError>(e),
                                    ));
                                    assert(marker_walk(vec@, 0, initial_walk_state())
                                        == MarkerWalk::Scan(st_cur, scs_w, es_w));
                                    assert(scan_result_ok(
                                        d,
                                        vec@,
                                        marker_walk(vec@, 0, initial_walk_state())->Scan_0,
                                        marker_walk(vec@, 0, initial_walk_state())->Scan_1,
                                        marker_walk(vec@, 0, initial_walk_state())->Scan_2,
                                        Err::<JPEGImage, DecodeError>(e),
                                    ));
                                    assert(parse_matches_walk(
                                        vec@,
                                        Err::<JPEGImage, DecodeError>(e),
                                    ));
                                }
                                return Err(e);
                            },
                        }
                    },
                    Marker::RestartIntervalDefinition => {
                        proof {
                            if scanned {
                                lemma_scanned_err(vec@, image, DecodeError::UnsupportedFeature);
                            } else {
                                assert(w_total == MarkerWalk::Fail(
                                    DecodeError::UnsupportedFeature,
                                ));
                            }
                        }
                        return Err(DecodeError::UnsupportedFeature);
                    },
                    Marker::ApplicationSegment0 => {
                        // JFIF header: identifier, version, units,
                        // densities, thumbnail dimensions; informational,
                        // and tolerated in any form
                        let ghost prev_state = state_of(image);
                        let ghost prev_image = image;
                        if data_length >= 14 {
                            image.version = JFIFVersion::from_bytes(vec[body + 5], vec[body + 6]);
                            image.units = JFIFUnits::from_u8(vec[body + 7]);
                            let xd = u8s_to_u16(vec[body + 8], vec[body + 9]);
                            let yd = u8s_to_u16(vec[body + 10], vec[body + 11]);
                            image.pixel_density = (xd, yd);
                            image.thumbnail_dimensions = (vec[body + 12], vec[body + 13]);
                        }
                        proof {
                            assert(state_of(image).dc =~= prev_state.dc);
                            assert(state_of(image).ac =~= prev_state.ac);
                            assert(state_of(image).quant =~= prev_state.quant);
                            assert(state_of(image) == prev_state);
                            if scanned {
                                lemma_scanned_preserved(vec@, prev_image, image);
                            } else {
                                assert(w_total == marker_walk(
                                    vec@,
                                    next_i as int,
                                    state_of(image),
                                ));
                            }
                        }
                    },
                    Marker::ApplicationSegment12 => {
                        proof {
                            if !scanned {
                                assert(w_total == marker_walk(
                                    vec@,
                                    next_i as int,
                                    state_of(image),
                                ));
                            }
                        }
                    },
                    Marker::ApplicationSegment14 => {
                        proof {
                            if !scanned {
                                assert(w_total == marker_walk(
                                    vec@,
                                    next_i as int,
                                    state_of(image),
                                ));
                            }
                        }
                    },
                    Marker::StartOfImage => {},
                    Marker::EndOfImage => {},
                }
                i = next_i;
            }
        }
        proof {
            if scanned {
                lemma_scanned_ok(vec@, image);
            } else {
                assert(w_total == MarkerWalk::End(state_of(image)));
            }
        }
        Ok(image)
    }
}

fn copy_bytes(data: &Vec<u8>, start: usize, count: usize) -> (r: Vec<u8>)
    requires
        start + count <= data@.len(),
    ensures
        r@ == data@.subrange(start as int, start as int + count),
{
    let n = data.len();
    let mut r: Vec<u8> = Vec::new();
    let mut t: usize = 0;
    while t < count
        invariant
            t <= count,
            start + count <= n,
            n == data@.len(),
            r@ =~= data@.subrange(start as int, start as int + t),
        decreases count - t,
    {
        r.push(data[start + t]);
        t = t + 1;
        proof {
            assert(r@ =~= data@.subrange(start as int, start as int + t));
        }
    }
    r
}

} // verus!
