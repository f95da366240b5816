//! The per-scan decoding pipeline: entropy decode, DC correction,
//! dequantization, inverse DCT, chroma expansion, color conversion and
//! raster assembly.

use vstd::prelude::*;

use crate::color::{clamp_to_u8, y_cb_cr_to_rgb};
use crate::error::DecodeError;
use crate::huffman::{HuffmanDecoder, Table};
use crate::jpeg::{FrameHeader, ScanHeader};
use crate::transform::{dequantize, discrete_cosine_transform_inverse, zigzag_inverse};

verus! {

/// Everything the pipeline needs to know about one scan component, bound
/// together by component id from the frame and scan headers. A selector
/// of 0xFF marks a field that no header has filled in yet.
#[derive(Debug, Clone, Copy, PartialEq, Eq, Structural)]
pub struct JPEGDecoderComponentFields {
    /// Component id, as the headers name it.
    pub component: u8,
    /// DC Huffman table id for this scan.
    pub dc_table_id: u8,
    /// AC Huffman table id for this scan.
    pub ac_table_id: u8,
    /// Quantization table id from the frame header.
    pub quantization_id: u8,
    /// Horizontal sampling factor relative to the frame's maximum.
    pub horizontal_sampling_factor: u8,
    /// Vertical sampling factor relative to the frame's maximum.
    pub vertical_sampling_factor: u8,
}

/// Holds the state of one scan's decode: the un-stuffed entropy data,
/// the tables the scan may reference, and the per-component bindings.
pub struct JPEGDecoder {
    /// Un-stuffed entropy-coded data.
    data: Vec<u8>,
    /// Huffman tables for AC coefficients, ids 0..=3.
    huffman_ac_tables: Vec<Option<Table>>,
    /// Huffman tables for DC coefficients, ids 0..=3.
    huffman_dc_tables: Vec<Option<Table>>,
    /// Quantization tables, ids 0..=3, each 64 zigzag-order entries.
    quantization_tables: Vec<Option<Vec<u8>>>,
    /// Per-component bindings, in scan order once a scan header is set.
    component_fields: Vec<JPEGDecoderComponentFields>,
    /// Image dimensions in pixels (width, height).
    dimensions: (usize, usize),
}

impl JPEGDecoder {
    pub closed spec fn data_spec(self) -> Seq<u8> {
        self.data@
    }

    pub closed spec fn ac_tables_spec(self) -> Seq<Option<Table>> {
        self.huffman_ac_tables@
    }

    pub closed spec fn dc_tables_spec(self) -> Seq<Option<Table>> {
        self.huffman_dc_tables@
    }

    pub closed spec fn quant_tables_spec(self) -> Seq<Option<Vec<u8>>> {
        self.quantization_tables@
    }

    pub closed spec fn dimensions_spec(self) -> (usize, usize) {
        self.dimensions
    }

    /// The decoder's invariant: four table slots per class, every stored
    /// Huffman table well-formed, every stored quantization table 64
    /// entries, and dimensions within the 16-bit range the format allows.
    pub open spec fn wf(self) -> bool {
        &&& self.ac_tables_spec().len() == 4
        &&& self.dc_tables_spec().len() == 4
        &&& self.quant_tables_spec().len() == 4
        &&& forall|i: int|
            0 <= i < 4 ==> ((#[trigger] self.ac_tables_spec()[i]) matches Some(t) ==> t.wf())
        &&& forall|i: int|
            0 <= i < 4 ==> ((#[trigger] self.dc_tables_spec()[i]) matches Some(t) ==> t.wf())
        &&& forall|i: int|
            0 <= i < 4 ==> ((#[trigger] self.quant_tables_spec()[i]) matches Some(q) ==> q@.len()
                == 64)
        &&& self.dimensions_spec().0 <= 65535
        &&& self.dimensions_spec().1 <= 65535
    }

    /// Create a decoder over an un-stuffed entropy data buffer.
    pub fn new(data: Vec<u8>) -> (r: JPEGDecoder)
        ensures
            r.wf(),
            r.data_spec() == data@,
            r.ac_tables_spec() =~= Seq::<Option<Table>>::new(4, |i: int| None),
            r.dc_tables_spec() =~= Seq::<Option<Table>>::new(4, |i: int| None),
            r.quant_tables_spec() =~= Seq::<Option<Vec<u8>>>::new(4, |i: int| None),
            r.component_fields_spec().len() == 0,
            r.dimensions_spec() == (0usize, 0usize),
    {
        let mut ac: Vec<Option<Table>> = Vec::new();
        ac.push(None);
        ac.push(None);
        ac.push(None);
        ac.push(None);
        let mut dc: Vec<Option<Table>> = Vec::new();
        dc.push(None);
        dc.push(None);
        dc.push(None);
        dc.push(None);
        let mut quant: Vec<Option<Vec<u8>>> = Vec::new();
        quant.push(None);
        quant.push(None);
        quant.push(None);
        quant.push(None);
        JPEGDecoder {
            data,
            huffman_ac_tables: ac,
            huffman_dc_tables: dc,
            quantization_tables: quant,
            component_fields: Vec::new(),
            dimensions: (0, 0),
        }
    }

    pub closed spec fn component_fields_spec(self) -> Seq<JPEGDecoderComponentFields> {
        self.component_fields@
    }

    /// Set the image dimensions (width, height) in pixels.
    pub fn dimensions(self, dimensions: (usize, usize)) -> (r: JPEGDecoder)
        requires
            dimensions.0 <= 65535,
            dimensions.1 <= 65535,
        ensures
            r.dimensions_spec() == dimensions,
            r.data_spec() == self.data_spec(),
            r.ac_tables_spec() == self.ac_tables_spec(),
            r.dc_tables_spec() == self.dc_tables_spec(),
            r.quant_tables_spec() == self.quant_tables_spec(),
            r.component_fields_spec() == self.component_fields_spec(),
            self.wf() ==> r.wf(),
    {
        JPEGDecoder { dimensions, ..self }
    }

    /// Store the AC Huffman table with the given id.
    pub fn huffman_ac_tables(&mut self, id: u8, table: Table)
        requires
            id < 4,
            table.wf(),
            old(self).wf(),
        ensures
            final(self).wf(),
            final(self).ac_tables_spec() == old(self).ac_tables_spec().update(
                id as int,
                Some(table),
            ),
            final(self).dc_tables_spec() == old(self).dc_tables_spec(),
            final(self).quant_tables_spec() == old(self).quant_tables_spec(),
            final(self).data_spec() == old(self).data_spec(),
            final(self).component_fields_spec() == old(self).component_fields_spec(),
            final(self).dimensions_spec() == old(self).dimensions_spec(),
    {
        self.huffman_ac_tables.set(id as usize, Some(table));
    }

    /// Store the DC Huffman table with the given id.
    pub fn huffman_dc_tables(&mut self, id: u8, table: Table)
        requires
            id < 4,
            table.wf(),
            old(self).wf(),
        ensures
            final(self).wf(),
            final(self).dc_tables_spec() == old(self).dc_tables_spec().update(
                id as int,
                Some(table),
            ),
            final(self).ac_tables_spec() == old(self).ac_tables_spec(),
            final(self).quant_tables_spec() == old(self).quant_tables_spec(),
            final(self).data_spec() == old(self).data_spec(),
            final(self).component_fields_spec() == old(self).component_fields_spec(),
            final(self).dimensions_spec() == old(self).dimensions_spec(),
    {
        self.huffman_dc_tables.set(id as usize, Some(table));
    }

    /// Store the quantization table with the given id, 64 zigzag-order
    /// entries.
    pub fn quantization_table(&mut self, id: u8, table: Vec<u8>)
        requires
            id < 4,
            table@.len() == 64,
            old(self).wf(),
        ensures
            final(self).wf(),
            final(self).quant_tables_spec() == old(self).quant_tables_spec().update(
                id as int,
                Some(table),
            ),
            final(self).ac_tables_spec() == old(self).ac_tables_spec(),
            final(self).dc_tables_spec() == old(self).dc_tables_spec(),
            final(self).data_spec() == old(self).data_spec(),
            final(self).component_fields_spec() == old(self).component_fields_spec(),
            final(self).dimensions_spec() == old(self).dimensions_spec(),
    {
        self.quantization_tables.set(id as usize, Some(table));
    }
}

/// The first index at or after `i` whose binding carries component `id`;
/// -1 when there is none.
pub open spec fn find_component_from(
    cfs: Seq<JPEGDecoderComponentFields>,
    id: u8,
    i: int,
) -> int
    decreases cfs.len() - i,
{
    if i < 0 || i >= cfs.len() {
        -1
    } else if cfs[i].component == id {
        i
    } else {
        find_component_from(cfs, id, i + 1)
    }
}

/// A binding with the frame header's fields folded in.
pub open spec fn frame_updated(
    cf: JPEGDecoderComponentFields,
    fc: crate::jpeg::FrameComponentHeader,
) -> JPEGDecoderComponentFields {
    JPEGDecoderComponentFields {
        horizontal_sampling_factor: fc.horizontal_sampling_factor,
        vertical_sampling_factor: fc.vertical_sampling_factor,
        quantization_id: fc.quantization_selector,
        ..cf
    }
}

/// A fresh binding created from a frame component alone; table ids are
/// not known yet.
pub open spec fn frame_inserted(
    fc: crate::jpeg::FrameComponentHeader,
) -> JPEGDecoderComponentFields {
    JPEGDecoderComponentFields {
        component: fc.component_id,
        dc_table_id: 0xFF,
        ac_table_id: 0xFF,
        quantization_id: fc.quantization_selector,
        horizontal_sampling_factor: fc.horizontal_sampling_factor,
        vertical_sampling_factor: fc.vertical_sampling_factor,
    }
}

/// Fold one frame component into the bindings: update the binding with
/// the same component id, or append a new one.
pub open spec fn upsert_frame(
    cfs: Seq<JPEGDecoderComponentFields>,
    fc: crate::jpeg::FrameComponentHeader,
) -> Seq<JPEGDecoderComponentFields> {
    let i = find_component_from(cfs, fc.component_id, 0);
    if i >= 0 {
        cfs.update(i, frame_updated(cfs[i], fc))
    } else {
        cfs.push(frame_inserted(fc))
    }
}

/// Fold the first `k` frame components into the bindings, in order.
pub open spec fn merge_frame_components(
    cfs: Seq<JPEGDecoderComponentFields>,
    fcs: Seq<crate::jpeg::FrameComponentHeader>,
    k: int,
) -> Seq<JPEGDecoderComponentFields>
    decreases k,
{
    if k <= 0 {
        cfs
    } else {
        upsert_frame(merge_frame_components(cfs, fcs, k - 1), fcs[k - 1])
    }
}

/// A binding with the scan header's table selectors folded in.
pub open spec fn scan_updated(
    cf: JPEGDecoderComponentFields,
    sc: crate::jpeg::ScanComponentHeader,
) -> JPEGDecoderComponentFields {
    JPEGDecoderComponentFields {
        dc_table_id: sc.dc_table_selector,
        ac_table_id: sc.ac_table_selector,
        ..cf
    }
}

/// A fresh binding created from a scan component alone; sampling factors
/// and quantization table are not known yet.
pub open spec fn scan_inserted(
    sc: crate::jpeg::ScanComponentHeader,
) -> JPEGDecoderComponentFields {
    JPEGDecoderComponentFields {
        component: sc.component_id,
        dc_table_id: sc.dc_table_selector,
        ac_table_id: sc.ac_table_selector,
        quantization_id: 0xFF,
        horizontal_sampling_factor: 0xFF,
        vertical_sampling_factor: 0xFF,
    }
}

/// Fold one scan component into the bindings.
pub open spec fn upsert_scan(
    cfs: Seq<JPEGDecoderComponentFields>,
    sc: crate::jpeg::ScanComponentHeader,
) -> Seq<JPEGDecoderComponentFields> {
    let i = find_component_from(cfs, sc.component_id, 0);
    if i >= 0 {
        cfs.update(i, scan_updated(cfs[i], sc))
    } else {
        cfs.push(scan_inserted(sc))
    }
}

/// Fold the first `k` scan components into the bindings, in order.
pub open spec fn merge_scan_components(
    cfs: Seq<JPEGDecoderComponentFields>,
    scs: Seq<crate::jpeg::ScanComponentHeader>,
    k: int,
) -> Seq<JPEGDecoderComponentFields>
    decreases k,
{
    if k <= 0 {
        cfs
    } else {
        upsert_scan(merge_scan_components(cfs, scs, k - 1), scs[k - 1])
    }
}

/// The bindings rearranged into scan order: entry `i` is the binding of
/// the component that scan component `i` names.
pub open spec fn reorder_for_scan(
    cfs: Seq<JPEGDecoderComponentFields>,
    scs: Seq<crate::jpeg::ScanComponentHeader>,
) -> Seq<JPEGDecoderComponentFields> {
    Seq::new(
        scs.len(),
        |i: int|
            {
                let f = find_component_from(cfs, scs[i].component_id, 0);
                if f >= 0 {
                    cfs[f]
                } else {
                    scan_inserted(scs[i])
                }
            },
    )
}

proof fn lemma_find_component_found(cfs: Seq<JPEGDecoderComponentFields>, id: u8, i: int)
    requires
        0 <= i,
    ensures
        ({
            let f = find_component_from(cfs, id, i);
            f >= 0 ==> i <= f < cfs.len() && cfs[f].component == id
        }),
    decreases cfs.len() - i,
{
    if i < cfs.len() && cfs[i].component != id {
        lemma_find_component_found(cfs, id, i + 1);
    }
}

fn find_component(cfs: &Vec<JPEGDecoderComponentFields>, id: u8) -> (r: Option<usize>)
    ensures
        ({
            let f = find_component_from(cfs@, id, 0);
            match r {
                Some(i) => f == i && i < cfs@.len() && cfs@[i as int].component == id,
                None => f == -1,
            }
        }),
{
    let mut j: usize = 0;
    while j < cfs.len()
        invariant
            j <= cfs@.len(),
            find_component_from(cfs@, id, 0) == find_component_from(cfs@, id, j as int),
        decreases cfs@.len() - j,
    {
        if cfs[j].component == id {
            proof {
                assert(find_component_from(cfs@, id, j as int) == j);
            }
            return Some(j);
        }
        j = j + 1;
    }
    None
}

impl JPEGDecoder {
    /// Fold a frame header into the per-component bindings: sampling
    /// factors and quantization selector, bound by component id.
    pub fn frame_header(self, frame_header: &FrameHeader) -> (r: JPEGDecoder)
        ensures
            r.component_fields_spec() == merge_frame_components(
                self.component_fields_spec(),
                frame_header.frame_components@,
                frame_header.frame_components@.len() as int,
            ),
            r.data_spec() == self.data_spec(),
            r.ac_tables_spec() == self.ac_tables_spec(),
            r.dc_tables_spec() == self.dc_tables_spec(),
            r.quant_tables_spec() == self.quant_tables_spec(),
            r.dimensions_spec() == self.dimensions_spec(),
            self.wf() ==> r.wf(),
    {
        let ghost g = self;
        let mut s = self;
        let n = frame_header.frame_components.len();
        let mut k: usize = 0;
        while k < n
            invariant
                k <= n,
                n == frame_header.frame_components@.len(),
                s.component_fields@ == merge_frame_components(
                    g.component_fields@,
                    frame_header.frame_components@,
                    k as int,
                ),
                s.data@ == g.data@,
                s.huffman_ac_tables@ == g.huffman_ac_tables@,
                s.huffman_dc_tables@ == g.huffman_dc_tables@,
                s.quantization_tables@ == g.quantization_tables@,
                s.dimensions == g.dimensions,
            decreases n - k,
        {
            let fc = frame_header.frame_components[k];
            let ghost prev = s.component_fields@;
            match find_component(&s.component_fields, fc.component_id) {
                Some(i) => {
                    let mut cf = s.component_fields[i];
                    cf.horizontal_sampling_factor = fc.horizontal_sampling_factor;
                    cf.vertical_sampling_factor = fc.vertical_sampling_factor;
                    cf.quantization_id = fc.quantization_selector;
                    s.component_fields.set(i, cf);
                    proof {
                        assert(s.component_fields@ =~= upsert_frame(prev, fc));
                    }
                },
                None => {
                    s.component_fields.push(
                        JPEGDecoderComponentFields {
                            component: fc.component_id,
                            dc_table_id: 0xFF,
                            ac_table_id: 0xFF,
                            quantization_id: fc.quantization_selector,
                            horizontal_sampling_factor: fc.horizontal_sampling_factor,
                            vertical_sampling_factor: fc.vertical_sampling_factor,
                        },
                    );
                    proof {
                        assert(s.component_fields@ =~= upsert_frame(prev, fc));
                    }
                },
            }
            k = k + 1;
        }
        s
    }

    /// Fold a scan header into the bindings (table selectors, bound by
    /// component id), then rearrange the bindings into scan order, which
    /// is the interleave order of the entropy-coded data.
    pub fn scan_header(self, scan_header: &ScanHeader) -> (r: JPEGDecoder)
        ensures
            r.component_fields_spec() == reorder_for_scan(
                merge_scan_components(
                    self.component_fields_spec(),
                    scan_header.scan_components@,
                    scan_header.scan_components@.len() as int,
                ),
                scan_header.scan_components@,
            ),
            r.component_fields_spec().len() == scan_header.scan_components@.len(),
            forall|i: int|
                0 <= i < scan_header.scan_components@.len()
                    ==> (#[trigger] r.component_fields_spec()[i]).component
                    == scan_header.scan_components@[i].component_id,
            r.data_spec() == self.data_spec(),
            r.ac_tables_spec() == self.ac_tables_spec(),
            r.dc_tables_spec() == self.dc_tables_spec(),
            r.quant_tables_spec() == self.quant_tables_spec(),
            r.dimensions_spec() == self.dimensions_spec(),
            self.wf() ==> r.wf(),
    {
        let ghost g = self;
        let mut s = self;
        let n = scan_header.scan_components.len();
        let mut k: usize = 0;
        while k < n
            invariant
                k <= n,
                n == scan_header.scan_components@.len(),
                s.component_fields@ == merge_scan_components(
                    g.component_fields@,
                    scan_header.scan_components@,
                    k as int,
                ),
                s.data@ == g.data@,
                s.huffman_ac_tables@ == g.huffman_ac_tables@,
                s.huffman_dc_tables@ == g.huffman_dc_tables@,
                s.quantization_tables@ == g.quantization_tables@,
                s.dimensions == g.dimensions,
            decreases n - k,
        {
            let sc = scan_header.scan_components[k];
            let ghost prev = s.component_fields@;
            match find_component(&s.component_fields, sc.component_id) {
                Some(i) => {
                    let mut cf = s.component_fields[i];
                    cf.dc_table_id = sc.dc_table_selector;
                    cf.ac_table_id = sc.ac_table_selector;
                    s.component_fields.set(i, cf);
                    proof {
                        assert(s.component_fields@ =~= upsert_scan(prev, sc));
                    }
                },
                None => {
                    s.component_fields.push(
                        JPEGDecoderComponentFields {
                            component: sc.component_id,
                            dc_table_id: sc.dc_table_selector,
                            ac_table_id: sc.ac_table_selector,
                            quantization_id: 0xFF,
                            horizontal_sampling_factor: 0xFF,
                            vertical_sampling_factor: 0xFF,
                        },
                    );
                    proof {
                        assert(s.component_fields@ =~= upsert_scan(prev, sc));
                    }
                },
            }
            k = k + 1;
        }
        // rearrange into scan order
        let ghost merged = s.component_fields@;
        let mut ordered: Vec<JPEGDecoderComponentFields> = Vec::new();
        let mut k2: usize = 0;
        while k2 < n
            invariant
                k2 <= n,
                n == scan_header.scan_components@.len(),
                merged == s.component_fields@,
                ordered@ =~= reorder_for_scan(merged, scan_header.scan_components@).take(
                    k2 as int,
                ),
            decreases n - k2,
        {
            let sc = scan_header.scan_components[k2];
            match find_component(&s.component_fields, sc.component_id) {
                Some(i) => {
                    let cf = s.component_fields[i];
                    ordered.push(cf);
                },
                None => {
                    ordered.push(
                        JPEGDecoderComponentFields {
                            component: sc.component_id,
                            dc_table_id: sc.dc_table_selector,
                            ac_table_id: sc.ac_table_selector,
                            quantization_id: 0xFF,
                            horizontal_sampling_factor: 0xFF,
                            vertical_sampling_factor: 0xFF,
                        },
                    );
                },
            }
            k2 = k2 + 1;
            proof {
                assert(ordered@ =~= reorder_for_scan(merged, scan_header.scan_components@).take(
                    k2 as int,
                ));
            }
        }
        s.component_fields = ordered;
        proof {
            assert(s.component_fields@ =~= reorder_for_scan(
                merged,
                scan_header.scan_components@,
            ));
            let scs = scan_header.scan_components@;
            assert forall|i: int| 0 <= i < scs.len() implies (
            #[trigger] s.component_fields@[i]).component == scs[i].component_id by {
                lemma_find_component_found(merged, scs[i].component_id, 0);
            }
        }
        s
    }
}

/// The dequantized coefficients of one zigzag-order block.
pub open spec fn dequantized_spec(block: Seq<i16>, quant: Seq<u8>) -> Seq<i32> {
    Seq::new(64, |i: int| (block[i] as int * quant[i] as int) as i32)
}

/// The finished spatial samples of one block: dequantize in zigzag
/// order, scatter into natural order, then the integer inverse DCT.
pub open spec fn spatial_block_of(block: Seq<i16>, quant: Seq<u8>) -> Seq<i32> {
    Seq::new(
        64,
        |m: int|
            crate::transform::idct_out(
                crate::transform::zigzag_inverse_spec(dequantized_spec(block, quant)),
                m % 8,
                m / 8,
            ) as i32,
    )
}

/// The left half of a block doubled horizontally: each output row is the
/// input row's first four samples, each taken twice.
pub open spec fn expand_left(b: Seq<i32>) -> Seq<i32> {
    Seq::new(64, |m: int| b[8 * (m / 8) + (m % 8) / 2])
}

/// The right half of a block doubled horizontally.
pub open spec fn expand_right(b: Seq<i32>) -> Seq<i32> {
    Seq::new(64, |m: int| b[8 * (m / 8) + 4 + (m % 8) / 2])
}

/// Double an 8x8 block along the x axis into two adjacent blocks by
/// nearest-neighbor replication: the left half widens into the first
/// block, the right half into the second.
fn expand_block_x_2(block: &Vec<i32>) -> (r: (Vec<i32>, Vec<i32>))
    requires
        block.len() == 64,
    ensures
        r.0@ == expand_left(block@),
        r.1@ == expand_right(block@),
{
    let mut a: Vec<i32> = Vec::new();
    let mut b: Vec<i32> = Vec::new();
    let mut m: usize = 0;
    while m < 64
        invariant
            m <= 64,
            block.len() == 64,
            a@ =~= expand_left(block@).take(m as int),
            b@ =~= expand_right(block@).take(m as int),
        decreases 64 - m,
    {
        a.push(block[8 * (m / 8) + (m % 8) / 2]);
        b.push(block[8 * (m / 8) + 4 + (m % 8) / 2]);
        m = m + 1;
        proof {
            assert(a@ =~= expand_left(block@).take(m as int));
            assert(b@ =~= expand_right(block@).take(m as int));
        }
    }
    proof {
        assert(expand_left(block@).take(64) =~= expand_left(block@));
        assert(expand_right(block@).take(64) =~= expand_right(block@));
    }
    (a, b)
}

/// Run one component's coefficient blocks through dequantization,
/// de-zigzag and the inverse DCT, and double them horizontally when the
/// component is subsampled by two.
#[verifier::loop_isolation(false)]
fn component_to_spatial(blocks: &Vec<Vec<i16>>, quant: &Vec<u8>, x_factor: u8) -> (r: Vec<
    Vec<i32>,
>)
    requires
        quant.len() == 64,
        x_factor == 1 || x_factor == 2,
        forall|i: int| 0 <= i < blocks@.len() ==> (#[trigger] blocks@[i])@.len() == 64,
    ensures
        r@.len() == blocks@.len() * x_factor,
        forall|i: int|
            0 <= i < r@.len() ==> (#[trigger] r@[i])@.len() == 64,
        forall|i: int, m: int|
            0 <= i < r@.len() && 0 <= m < 64 ==> -134217728 <= (#[trigger] r@[i]@[m]) <= 134217728,
        x_factor == 1 ==> forall|i: int|
            0 <= i < blocks@.len() ==> (#[trigger] r@[i])@ == spatial_block_of(
                blocks@[i]@,
                quant@,
            ),
        x_factor == 2 ==> forall|i: int|
            0 <= i < blocks@.len() ==> (#[trigger] r@[2 * i])@ == expand_left(
                spatial_block_of(blocks@[i]@, quant@),
            ) && r@[2 * i + 1]@ == expand_right(spatial_block_of(blocks@[i]@, quant@)),
        views_of(r@) == spatial_list(views_of(blocks@), quant@, x_factor as int),
{
    let mut r: Vec<Vec<i32>> = Vec::new();
    let mut i: usize = 0;
    while i < blocks.len()
        invariant
            i <= blocks@.len(),
            r@.len() == i * x_factor,
            forall|p: int| 0 <= p < r@.len() ==> (#[trigger] r@[p])@.len() == 64,
            forall|p: int, m: int|
                0 <= p < r@.len() && 0 <= m < 64 ==> -134217728 <= (#[trigger] r@[p]@[m])
                    <= 134217728,
            x_factor == 1 ==> forall|p: int|
                0 <= p < i ==> (#[trigger] r@[p])@ == spatial_block_of(blocks@[p]@, quant@),
            x_factor == 2 ==> forall|p: int|
                0 <= p < i ==> (#[trigger] r@[2 * p])@ == expand_left(
                    spatial_block_of(blocks@[p]@, quant@),
                ) && r@[2 * p + 1]@ == expand_right(spatial_block_of(blocks@[p]@, quant@)),
        decreases blocks@.len() - i,
    {
        let deq = dequantize(&blocks[i], quant);
        proof {
            assert(deq@ =~= dequantized_spec(blocks@[i as int]@, quant@));
        }
        let natural = zigzag_inverse(&deq);
        let spat = discrete_cosine_transform_inverse(&natural);
        proof {
            assert(spat@ =~= spatial_block_of(blocks@[i as int]@, quant@));
        }
        if x_factor == 1 {
            r.push(spat);
        } else {
            let pair = expand_block_x_2(&spat);
            r.push(pair.0);
            r.push(pair.1);
            proof {
                assert(r@[2 * (i as int)]@ == expand_left(
                    spatial_block_of(blocks@[i as int]@, quant@),
                ));
                assert(r@[2 * (i as int) + 1]@ == expand_right(
                    spatial_block_of(blocks@[i as int]@, quant@),
                ));
            }
        }
        i = i + 1;
    }
    proof {
        let lhs = views_of(r@);
        let rhs = spatial_list(views_of(blocks@), quant@, x_factor as int);
        assert forall|j: int| 0 <= j < lhs.len() implies lhs[j] == rhs[j] by {
            if x_factor == 2 {
                assert(0 <= j / 2 < blocks@.len());
                assert(r@[2 * (j / 2)]@.len() == 64);
                if j % 2 == 0 {
                    assert(j == 2 * (j / 2));
                    assert(lhs[j] == r@[2 * (j / 2)]@);
                } else {
                    assert(j == 2 * (j / 2) + 1);
                    assert(lhs[j] == r@[2 * (j / 2) + 1]@);
                }
            }
        }
        assert(lhs =~= rhs);
    }
    r
}

/// Fresh per-component running DC values: all zero at the start of a
/// scan.
pub open spec fn zero_prevs(n: nat) -> Seq<i16> {
    Seq::new(n, |_i: int| 0i16)
}

/// The spatial sample blocks of one component: each coefficient block
/// dequantized, de-zigzagged and inverse-transformed, and doubled
/// horizontally when the component is subsampled by two.
pub open spec fn spatial_list(bl: Seq<Seq<i16>>, quant: Seq<u8>, x: int) -> Seq<Seq<i32>> {
    if x == 2 {
        Seq::new(
            2 * bl.len(),
            |j: int|
                if j % 2 == 0 {
                    expand_left(spatial_block_of(bl[j / 2], quant))
                } else {
                    expand_right(spatial_block_of(bl[j / 2], quant))
                },
        )
    } else {
        Seq::new(bl.len(), |j: int| spatial_block_of(bl[j], quant))
    }
}

/// Three aligned component planes merged into finished RGB pixels.
pub open spec fn rgb_pure(a: Seq<Seq<i32>>, b: Seq<Seq<i32>>, c: Seq<Seq<i32>>) -> Seq<
    Seq<(u8, u8, u8)>,
> {
    Seq::new(
        a.len(),
        |i: int| Seq::new(64, |m: int| rgb_of_ycc(a[i][m] as int, b[i][m] as int, c[i][m] as int)),
    )
}

/// A single component plane turned into finished gray pixels.
pub open spec fn gray_pure(a: Seq<Seq<i32>>) -> Seq<Seq<(u8, u8, u8)>> {
    Seq::new(a.len(), |i: int| Seq::new(64, |m: int| gray_of(a[i][m] as int)))
}

/// One finished RGB pixel from centered YCbCr samples: convert with the
/// fixed-point BT.601 formulas, re-shift by +128 and clamp, exactly once.
pub open spec fn rgb_of_ycc(y: int, cb: int, cr: int) -> (u8, u8, u8) {
    let r = crate::color::ycc_red(y, cr);
    let b = crate::color::ycc_blue(y, cb);
    let g = crate::color::ycc_green(y, r, b);
    (
        crate::color::clamp255(r + 128) as u8,
        crate::color::clamp255(g + 128) as u8,
        crate::color::clamp255(b + 128) as u8,
    )
}

/// One finished gray pixel: the single component re-shifted and clamped,
/// repeated over all three channels.
pub open spec fn gray_of(y: int) -> (u8, u8, u8) {
    let v = crate::color::clamp255(y + 128) as u8;
    (v, v, v)
}

/// Merge three aligned component planes into per-block RGB pixels.
#[verifier::loop_isolation(false)]
fn color_merge_three(a: &Vec<Vec<i32>>, b: &Vec<Vec<i32>>, c: &Vec<Vec<i32>>) -> (r: Vec<
    Vec<(u8, u8, u8)>,
>)
    requires
        a@.len() == b@.len(),
        a@.len() == c@.len(),
        forall|i: int| 0 <= i < a@.len() ==> (#[trigger] a@[i])@.len() == 64,
        forall|i: int| 0 <= i < b@.len() ==> (#[trigger] b@[i])@.len() == 64,
        forall|i: int| 0 <= i < c@.len() ==> (#[trigger] c@[i])@.len() == 64,
        forall|i: int, m: int|
            0 <= i < a@.len() && 0 <= m < 64 ==> -134217728 <= (#[trigger] a@[i]@[m]) <= 134217728,
        forall|i: int, m: int|
            0 <= i < b@.len() && 0 <= m < 64 ==> -134217728 <= (#[trigger] b@[i]@[m]) <= 134217728,
        forall|i: int, m: int|
            0 <= i < c@.len() && 0 <= m < 64 ==> -134217728 <= (#[trigger] c@[i]@[m]) <= 134217728,
    ensures
        r@.len() == a@.len(),
        forall|i: int| 0 <= i < r@.len() ==> (#[trigger] r@[i])@.len() == 64,
        forall|i: int, m: int|
            0 <= i < r@.len() && 0 <= m < 64 ==> (#[trigger] r@[i]@[m]) == rgb_of_ycc(
                a@[i]@[m] as int,
                b@[i]@[m] as int,
                c@[i]@[m] as int,
            ),
        views_of(r@) == rgb_pure(views_of(a@), views_of(b@), views_of(c@)),
{
    let mut r: Vec<Vec<(u8, u8, u8)>> = Vec::new();
    let mut i: usize = 0;
    while i < a.len()
        invariant
            i <= a@.len(),
            r@.len() == i,
            forall|q: int| 0 <= q < r@.len() ==> (#[trigger] r@[q])@.len() == 64,
            forall|q: int, m: int|
                0 <= q < r@.len() && 0 <= m < 64 ==> (#[trigger] r@[q]@[m]) == rgb_of_ycc(
                    a@[q]@[m] as int,
                    b@[q]@[m] as int,
                    c@[q]@[m] as int,
                ),
        decreases a@.len() - i,
    {
        let mut pix: Vec<(u8, u8, u8)> = Vec::new();
        let mut m: usize = 0;
        while m < 64
            invariant
                m <= 64,
                i < a@.len(),
                pix@.len() == m,
                forall|n: int|
                    0 <= n < m as int ==> (#[trigger] pix@[n]) == rgb_of_ycc(
                        a@[i as int]@[n] as int,
                        b@[i as int]@[n] as int,
                        c@[i as int]@[n] as int,
                    ),
            decreases 64 - m,
        {
            let yv = a[i][m];
            let cbv = b[i][m];
            let crv = c[i][m];
            let rgb = y_cb_cr_to_rgb(yv, cbv, crv);
            pix.push((clamp_to_u8(rgb.0 + 128), clamp_to_u8(rgb.1 + 128), clamp_to_u8(rgb.2 + 128)));
            m = m + 1;
        }
        r.push(pix);
        i = i + 1;
    }
    proof {
        assert(views_of(r@) =~~= rgb_pure(views_of(a@), views_of(b@), views_of(c@)));
    }
    r
}

/// Turn a single-component plane into gray RGB pixels.
#[verifier::loop_isolation(false)]
fn color_merge_gray(a: &Vec<Vec<i32>>) -> (r: Vec<Vec<(u8, u8, u8)>>)
    requires
        forall|i: int| 0 <= i < a@.len() ==> (#[trigger] a@[i])@.len() == 64,
        forall|i: int, m: int|
            0 <= i < a@.len() && 0 <= m < 64 ==> -134217728 <= (#[trigger] a@[i]@[m]) <= 134217728,
    ensures
        r@.len() == a@.len(),
        forall|i: int| 0 <= i < r@.len() ==> (#[trigger] r@[i])@.len() == 64,
        forall|i: int, m: int|
            0 <= i < r@.len() && 0 <= m < 64 ==> (#[trigger] r@[i]@[m]) == gray_of(
                a@[i]@[m] as int,
            ),
        views_of(r@) == gray_pure(views_of(a@)),
{
    let mut r: Vec<Vec<(u8, u8, u8)>> = Vec::new();
    let mut i: usize = 0;
    while i < a.len()
        invariant
            i <= a@.len(),
            r@.len() == i,
            forall|q: int| 0 <= q < r@.len() ==> (#[trigger] r@[q])@.len() == 64,
            forall|q: int, m: int|
                0 <= q < r@.len() && 0 <= m < 64 ==> (#[trigger] r@[q]@[m]) == gray_of(
                    a@[q]@[m] as int,
                ),
        decreases a@.len() - i,
    {
        let mut pix: Vec<(u8, u8, u8)> = Vec::new();
        let mut m: usize = 0;
        while m < 64
            invariant
                m <= 64,
                i < a@.len(),
                pix@.len() == m,
                forall|n: int|
                    0 <= n < m as int ==> (#[trigger] pix@[n]) == gray_of(a@[i as int]@[n] as int),
            decreases 64 - m,
        {
            let yv = a[i][m];
            let v = clamp_to_u8(yv + 128);
            pix.push((v, v, v));
            m = m + 1;
        }
        r.push(pix);
        i = i + 1;
    }
    proof {
        assert(views_of(r@) =~~= gray_pure(views_of(a@)));
    }
    r
}

/// The block that raster pixel `p` comes from, on a grid `nbx` blocks
/// wide: global pixel row `p / (8 * nbx)`, column `p % (8 * nbx)`.
pub open spec fn raster_block_of(nbx: int, p: int) -> int {
    (p / (8 * nbx) / 8) * nbx + (p % (8 * nbx)) / 8
}

/// The in-block sample index that raster pixel `p` comes from.
pub open spec fn raster_offset_of(nbx: int, p: int) -> int {
    8 * ((p / (8 * nbx)) % 8) + (p % (8 * nbx)) % 8
}

/// All pixels of the padded block grid in raster order: for each row of
/// blocks, eight pixel rows, each concatenating the matching row slice
/// of every block left to right.
pub open spec fn raster_spec(bl: Seq<Seq<(u8, u8, u8)>>, nbx: int, nby: int) -> Seq<
    (u8, u8, u8),
> {
    Seq::new(
        (64 * nbx * nby) as nat,
        |p: int| bl[raster_block_of(nbx, p)][raster_offset_of(nbx, p)],
    )
}

/// Emit the pixels of all blocks in raster order.
#[verifier::loop_isolation(false)]
fn rasterize(blocks: &Vec<Vec<(u8, u8, u8)>>, nbx: usize, nby: usize) -> (out: Vec<(u8, u8, u8)>)
    requires
        blocks@.len() == nbx * nby,
        forall|i: int| 0 <= i < blocks@.len() ==> (#[trigger] blocks@[i])@.len() == 64,
        nbx <= 8192,
        nby <= 8192,
    ensures
        out@ == raster_spec(views_of(blocks@), nbx as int, nby as int),
        out@.len() == 64 * (nbx as int) * (nby as int),
{
    proof {
        assert(64 * (nbx as int) * (nby as int) <= 4294967296) by (nonlinear_arith)
            requires
                nbx <= 8192,
                nby <= 8192,
        ;
    }
    let line_width: usize = nbx * 8;
    let row_band: usize = nbx * 64;
    let mut out: Vec<(u8, u8, u8)> = Vec::new();
    let mut by_: usize = 0;
    while by_ < nby
        invariant
            by_ <= nby,
            out@.len() == (by_ as int) * (row_band as int),
            out@ =~= raster_spec(views_of(blocks@), nbx as int, nby as int).take(out@.len() as int),
        decreases nby - by_,
    {
        let mut line: usize = 0;
        while line < 8
            invariant
                line <= 8,
                by_ < nby,
                out@.len() == (by_ as int) * (row_band as int) + (line as int) * (
                line_width as int),
                out@ =~= raster_spec(views_of(blocks@), nbx as int, nby as int).take(out@.len() as int),
            decreases 8 - line,
        {
            let mut bx: usize = 0;
            while bx < nbx
                invariant
                    bx <= nbx,
                    by_ < nby,
                    line < 8,
                    out@.len() == (by_ as int) * (row_band as int) + (line as int) * (
                    line_width as int) + (bx as int) * 8,
                    out@ =~= raster_spec(views_of(blocks@), nbx as int, nby as int).take(
                        out@.len() as int,
                    ),
                decreases nbx - bx,
            {
                proof {
                    assert(nbx as int * by_ as int + bx <= 67117056) by (nonlinear_arith)
                        requires
                            nbx <= 8192,
                            by_ < nby,
                            nby <= 8192,
                            bx < nbx,
                    ;
                }
                let block_index: usize = nbx * by_ + bx;
                proof {
                    assert(block_index < blocks@.len()) by (nonlinear_arith)
                        requires
                            block_index == nbx * by_ + bx,
                            blocks@.len() == nbx * nby,
                            bx < nbx,
                            by_ < nby,
                    ;
                }
                let mut col: usize = 0;
                while col < 8
                    invariant
                        col <= 8,
                        block_index < blocks@.len(),
                        block_index == nbx * by_ + bx,
                        bx < nbx,
                        by_ < nby,
                        line < 8,
                        out@.len() == (by_ as int) * (row_band as int) + (line as int) * (
                        line_width as int) + (bx as int) * 8 + col,
                        out@ =~= raster_spec(views_of(blocks@), nbx as int, nby as int).take(
                            out@.len() as int,
                        ),
                    decreases 8 - col,
                {
                    let ghost p = out@.len() as int;
                    out.push(blocks[block_index][8 * line + col]);
                    proof {
                        let nbxi = nbx as int;
                        let row = (by_ as int) * 8 + line as int;
                        let xg = (bx as int) * 8 + col as int;
                        assert(p == row * (8 * nbxi) + xg) by (nonlinear_arith)
                            requires
                                p == (by_ as int) * (row_band as int) + (line as int) * (
                                line_width as int) + (bx as int) * 8 + col,
                                row_band == nbx * 64,
                                line_width == nbx * 8,
                                row == (by_ as int) * 8 + line as int,
                                xg == (bx as int) * 8 + col as int,
                                nbxi == nbx as int,
                        ;
                        assert(0 <= xg < 8 * nbxi);
                        vstd::arithmetic::div_mod::lemma_fundamental_div_mod_converse_div(
                            p,
                            8 * nbxi,
                            row,
                            xg,
                        );
                        vstd::arithmetic::div_mod::lemma_fundamental_div_mod_converse_mod(
                            p,
                            8 * nbxi,
                            row,
                            xg,
                        );
                        vstd::arithmetic::div_mod::lemma_fundamental_div_mod_converse_div(
                            row,
                            8,
                            by_ as int,
                            line as int,
                        );
                        vstd::arithmetic::div_mod::lemma_fundamental_div_mod_converse_mod(
                            row,
                            8,
                            by_ as int,
                            line as int,
                        );
                        vstd::arithmetic::div_mod::lemma_fundamental_div_mod_converse_div(
                            xg,
                            8,
                            bx as int,
                            col as int,
                        );
                        vstd::arithmetic::div_mod::lemma_fundamental_div_mod_converse_mod(
                            xg,
                            8,
                            bx as int,
                            col as int,
                        );
                        assert(p / (8 * nbxi) == row);
                        assert(p % (8 * nbxi) == xg);
                        assert(row / 8 == by_ as int);
                        assert(row % 8 == line as int);
                        assert(xg / 8 == bx as int);
                        assert(xg % 8 == col as int);
                        assert((p / (8 * nbxi) / 8) * nbxi + (p % (8 * nbxi)) / 8
                            == block_index) by (nonlinear_arith)
                            requires
                                p / (8 * nbxi) == row,
                                p % (8 * nbxi) == xg,
                                row / 8 == by_ as int,
                                xg / 8 == bx as int,
                                block_index == nbx * by_ + bx,
                                nbxi == nbx as int,
                        ;
                        assert(raster_block_of(nbxi, p) == block_index);
                        assert(raster_offset_of(nbxi, p) == 8 * (line as int) + col as int);
                        assert(p < 64 * nbxi * (nby as int)) by (nonlinear_arith)
                            requires
                                p == row * (8 * nbxi) + xg,
                                row == (by_ as int) * 8 + line as int,
                                0 <= xg < 8 * nbxi,
                                by_ < nby,
                                line < 8,
                                0 <= nbxi,
                        ;
                        assert(views_of(blocks@)[block_index as int] == blocks@[
                            block_index as int
                        ]@);
                        assert(out@ =~= raster_spec(views_of(blocks@), nbxi, nby as int).take(
                            out@.len() as int,
                        ));
                    }
                    col = col + 1;
                }
                bx = bx + 1;
            }
            proof {
                assert((line as int + 1) * (line_width as int) == (line as int) * (
                line_width as int) + line_width as int) by (nonlinear_arith);
            }
            line = line + 1;
        }
        proof {
            assert((by_ as int + 1) * (row_band as int) == (by_ as int) * (row_band as int)
                + row_band as int) by (nonlinear_arith);
            assert(8 * (line_width as int) == row_band as int);
        }
        by_ = by_ + 1;
    }
    proof {
        assert(out@.len() == (nby as int) * (row_band as int));
        assert((nby as int) * (row_band as int) == 64 * (nbx as int) * (nby as int))
            by (nonlinear_arith)
            requires
                row_band == nbx * 64,
        ;
        assert(raster_spec(views_of(blocks@), nbx as int, nby as int).take(out@.len() as int)
            =~= raster_spec(views_of(blocks@), nbx as int, nby as int));
    }
    out
}

/// The image cut down from the padded block grid to its declared size:
/// pixel `p` of the result is row `p / w`, column `p % w` of the grid.
pub open spec fn crop_spec(px: Seq<(u8, u8, u8)>, padded_w: int, w: int, h: int) -> Seq<
    (u8, u8, u8),
> {
    Seq::new((w * h) as nat, |p: int| px[(p / w) * padded_w + p % w])
}

/// Cut the padded pixel grid down to the declared width and height.
#[verifier::loop_isolation(false)]
fn crop_pixels(px: &Vec<(u8, u8, u8)>, padded_w: usize, w: usize, h: usize) -> (out: Vec<
    (u8, u8, u8),
>)
    requires
        w <= padded_w,
        padded_w * h <= px@.len(),
        w <= 65535,
        h <= 65535,
        padded_w <= 65536,
    ensures
        out@ == crop_spec(px@, padded_w as int, w as int, h as int),
        out@.len() == w * h,
{
    proof {
        assert(w * h <= 65535 * 65535) by (nonlinear_arith)
            requires
                w <= 65535,
                h <= 65535,
        ;
    }
    let pn = px.len();
    let mut out: Vec<(u8, u8, u8)> = Vec::new();
    let mut y: usize = 0;
    while y < h
        invariant
            y <= h,
            out@.len() == y * w,
            out@ =~= crop_spec(px@, padded_w as int, w as int, h as int).take(out@.len() as int),
        decreases h - y,
    {
        let mut x: usize = 0;
        while x < w
            invariant
                x <= w,
                y < h,
                out@.len() == y * w + x,
                out@ =~= crop_spec(px@, padded_w as int, w as int, h as int).take(
                    out@.len() as int,
                ),
            decreases w - x,
        {
            proof {
                assert(y * padded_w + x < padded_w * h) by (nonlinear_arith)
                    requires
                        y < h,
                        x < w,
                        w <= padded_w,
                ;
            }
            let ghost p = out@.len() as int;
            out.push(px[y * padded_w + x]);
            proof {
                vstd::arithmetic::div_mod::lemma_fundamental_div_mod_converse_div(
                    p,
                    w as int,
                    y as int,
                    x as int,
                );
                vstd::arithmetic::div_mod::lemma_fundamental_div_mod_converse_mod(
                    p,
                    w as int,
                    y as int,
                    x as int,
                );
                assert(p < w * h) by (nonlinear_arith)
                    requires
                        p == y * (w as int) + x,
                        y < h,
                        x < w,
                        0 <= w,
                ;
                assert(out@ =~= crop_spec(px@, padded_w as int, w as int, h as int).take(
                    out@.len() as int,
                ));
            }
            x = x + 1;
        }
        proof {
            assert((y as int + 1) * (w as int) == y * (w as int) + w) by (nonlinear_arith);
        }
        y = y + 1;
    }
    proof {
        assert((h as int) * (w as int) == (w as int) * (h as int)) by (nonlinear_arith);
        assert(crop_spec(px@, padded_w as int, w as int, h as int).take(out@.len() as int)
            =~= crop_spec(px@, padded_w as int, w as int, h as int));
    }
    out
}

/// The largest horizontal sampling factor among the first `k` bindings;
/// 1 when there are none.
pub open spec fn max_h_upto(cfs: Seq<JPEGDecoderComponentFields>, k: int) -> int
    decreases k,
{
    if k <= 0 {
        1
    } else {
        let m = max_h_upto(cfs, k - 1);
        if cfs[k - 1].horizontal_sampling_factor > m {
            cfs[k - 1].horizontal_sampling_factor as int
        } else {
            m
        }
    }
}

proof fn lemma_max_h_upto_ge(cfs: Seq<JPEGDecoderComponentFields>, k: int, i: int)
    requires
        0 <= i < k,
    ensures
        max_h_upto(cfs, k) >= cfs[i].horizontal_sampling_factor,
    decreases k,
{
    if i < k - 1 {
        lemma_max_h_upto_ge(cfs, k - 1, i);
    }
}

proof fn lemma_max_h_upto_range(cfs: Seq<JPEGDecoderComponentFields>, k: int, bound: int)
    requires
        1 <= bound,
        forall|i: int|
            0 <= i < k ==> (#[trigger] cfs[i]).horizontal_sampling_factor <= bound,
    ensures
        1 <= max_h_upto(cfs, k) <= bound,
    decreases k,
{
    if k > 0 {
        lemma_max_h_upto_range(cfs, k - 1, bound);
    }
}

/// Where `h` consecutive blocks of one component, all read with the same
/// pair of tables, leave the bit cursor; `None` when any of them fails.
pub open spec fn same_tables_end(dc: Table, ac: Table, data: Seq<u8>, pos: int, h: int) -> Option<
    int,
>
    decreases h,
{
    if h <= 0 {
        Some(pos)
    } else {
        match crate::huffman::decode_block_spec(dc, ac, data, pos) {
            None => None,
            Some(b) => same_tables_end(dc, ac, data, b.1, h - 1),
        }
    }
}

proof fn lemma_same_tables_end_advances(dc: Table, ac: Table, data: Seq<u8>, pos: int, h: int)
    ensures
        ({
            match same_tables_end(dc, ac, data, pos, h) {
                Some(e) => pos <= e,
                None => true,
            }
        }),
    decreases h,
{
    if h > 0 {
        crate::huffman::lemma_decode_block_advances(dc, ac, data, pos);
        match crate::huffman::decode_block_spec(dc, ac, data, pos) {
            None => {},
            Some(b) => {
                lemma_same_tables_end_advances(dc, ac, data, b.1, h - 1);
            },
        }
    }
}

/// Saturate a running DC value into the coefficient range; no conforming
/// stream reaches the bounds.
pub open spec fn sat16(v: int) -> i16 {
    if v < -32768 {
        -32768i16
    } else if v > 32767 {
        32767i16
    } else {
        v as i16
    }
}

/// The views of a list of buffers, as one sequence of sequences.
pub open spec fn views_of<T>(bl: Seq<Vec<T>>) -> Seq<Seq<T>> {
    Seq::new(bl.len(), |i: int| bl[i]@)
}

/// Decode `h` consecutive blocks of one component with one table pair,
/// carrying the running DC value: each stored block is the decoded block
/// with its DC difference replaced by the saturated running sum. Yields
/// the blocks, the end position, and the outgoing running DC value.
pub open spec fn decode_component_blocks(
    dc: Table,
    ac: Table,
    data: Seq<u8>,
    pos: int,
    h: int,
    prev: i16,
) -> Option<(Seq<Seq<i16>>, int, i16)>
    decreases h,
{
    if h <= 0 {
        Some((Seq::empty(), pos, prev))
    } else {
        match crate::huffman::decode_block_spec(dc, ac, data, pos) {
            None => None,
            Some(b) => {
                let c = sat16(prev as int + b.0[0] as int);
                match decode_component_blocks(dc, ac, data, b.1, h - 1, c) {
                    None => None,
                    Some(rest) => Some((seq![b.0.update(0, c)] + rest.0, rest.1, rest.2)),
                }
            },
        }
    }
}

/// The end position of a component's blocks does not depend on the
/// running DC value: it is the same as the position-only account.
proof fn lemma_component_blocks_end(
    dc: Table,
    ac: Table,
    data: Seq<u8>,
    pos: int,
    h: int,
    prev: i16,
)
    ensures
        same_tables_end(dc, ac, data, pos, h) == match decode_component_blocks(
            dc,
            ac,
            data,
            pos,
            h,
            prev,
        ) {
            Some(t) => Some(t.1),
            None => None::<int>,
        },
    decreases h,
{
    if h > 0 {
        match crate::huffman::decode_block_spec(dc, ac, data, pos) {
            None => {},
            Some(b) => {
                let c = sat16(prev as int + b.0[0] as int);
                lemma_component_blocks_end(dc, ac, data, b.1, h - 1, c);
            },
        }
    }
}

/// Read `h` consecutive blocks of one component from the entropy stream,
/// apply the running-DC correction for that component (saturating to the
/// coefficient range, which no conforming stream reaches), and append
/// them to the component's block list.
#[verifier::loop_isolation(false)]
fn read_component_blocks(
    hd: &mut HuffmanDecoder,
    prev_dc: &mut Vec<i16>,
    blocks: &mut Vec<Vec<i16>>,
    ci: usize,
    h: u8,
    ac: &Table,
    dc: &Table,
) -> (r: Result<(), DecodeError>)
    requires
        ac.wf(),
        dc.wf(),
        1 <= h <= 2,
        ci < old(prev_dc)@.len(),
        old(hd).pos_spec() + 8192 <= usize::MAX,
        forall|i: int| 0 <= i < old(blocks)@.len() ==> (#[trigger] old(blocks)@[i])@.len() == 64,
    ensures
        final(hd).data_spec() == old(hd).data_spec(),
        old(hd).pos_spec() <= final(hd).pos_spec() <= old(hd).pos_spec() + 4096,
        final(prev_dc)@.len() == old(prev_dc)@.len(),
        forall|i: int|
            0 <= i < final(blocks)@.len() ==> (#[trigger] final(blocks)@[i])@.len() == 64,
        old(blocks)@.len() <= final(blocks)@.len() <= old(blocks)@.len() + h,
        match r {
            Ok(_) => match decode_component_blocks(
                *dc,
                *ac,
                old(hd).data_spec(),
                old(hd).pos_spec(),
                h as int,
                old(prev_dc)@[ci as int],
            ) {
                Some(t) => {
                    &&& final(blocks)@.len() == old(blocks)@.len() + h
                    &&& views_of(final(blocks)@) == views_of(old(blocks)@) + t.0
                    &&& final(prev_dc)@ == old(prev_dc)@.update(ci as int, t.2)
                    &&& final(hd).pos_spec() == t.1
                },
                None => false,
            },
            Err(e) => e == DecodeError::EntropyDecodeFailure && decode_component_blocks(
                *dc,
                *ac,
                old(hd).data_spec(),
                old(hd).pos_spec(),
                h as int,
                old(prev_dc)@[ci as int],
            ) is None,
        },
{
    let ghost done0 = old(blocks)@.len() as int;
    let mut b: u8 = 0;
    while b < h
        invariant
            b <= h,
            hd.data_spec() == old(hd).data_spec(),
            old(hd).pos_spec() <= hd.pos_spec() <= old(hd).pos_spec() + 2048 * (b as int),
            prev_dc@.len() == old(prev_dc)@.len(),
            forall|j: int| 0 <= j < prev_dc@.len() && j != ci ==> #[trigger] prev_dc@[j] == old(
                prev_dc,
            )@[j],
            forall|i: int| 0 <= i < blocks@.len() ==> (#[trigger] blocks@[i])@.len() == 64,
            blocks@.len() == old(blocks)@.len() + b,
            blocks@.take(done0) == old(blocks)@,
            ({
                let total = decode_component_blocks(
                    *dc,
                    *ac,
                    old(hd).data_spec(),
                    old(hd).pos_spec(),
                    h as int,
                    old(prev_dc)@[ci as int],
                );
                match decode_component_blocks(
                    *dc,
                    *ac,
                    hd.data_spec(),
                    hd.pos_spec(),
                    h - b,
                    prev_dc@[ci as int],
                ) {
                    Some(t) => total == Some(
                        (views_of(blocks@.skip(done0)) + t.0, t.1, t.2),
                    ),
                    None => total is None,
                }
            }),
        decreases h - b,
    {
        let mut blk = match hd.next_block(ac, dc) {
            Ok(x) => x,
            Err(_) => {
                return Err(DecodeError::EntropyDecodeFailure);
            },
        };
        let prev = prev_dc[ci];
        let sum: i32 = (prev as i32) + (blk[0] as i32);
        let sat: i32 = if sum < -32768 {
            -32768
        } else if sum > 32767 {
            32767
        } else {
            sum
        };
        proof {
            assert(sat as int == sat16(prev as int + blk@[0] as int) as int);
        }
        blk.set(0, sat as i16);
        prev_dc.set(ci, sat as i16);
        blocks.push(blk);
        b = b + 1;
        proof {
            assert(blocks@.take(done0) =~= old(blocks)@);
            assert(views_of(blocks@.skip(done0)) =~= views_of(
                blocks@.skip(done0).drop_last(),
            ).push(blocks@.last()@));
        }
    }
    proof {
        assert(views_of(blocks@) =~= views_of(old(blocks)@) + views_of(blocks@.skip(done0)));
        assert(views_of(blocks@.skip(done0)) + Seq::<Seq<i16>>::empty() =~= views_of(
            blocks@.skip(done0),
        ));
        assert(prev_dc@ =~= old(prev_dc)@.update(ci as int, prev_dc@[ci as int]));
    }
    Ok(())
}

impl JPEGDecoder {
    /// Number of 8x8 block columns the declared width covers.
    pub open spec fn num_blocks_x(self) -> int {
        (self.dimensions_spec().0 as int + 7) / 8
    }

    /// Number of 8x8 block rows the declared height covers.
    pub open spec fn num_blocks_y(self) -> int {
        (self.dimensions_spec().1 as int + 7) / 8
    }

    /// Sampling factors this decoder supports: every horizontal factor 1
    /// or 2, all vertical factors equal (1 or 2), and the block width a
    /// multiple of the maximum horizontal factor.
    pub open spec fn sampling_ok(self) -> bool {
        let cfs = self.component_fields_spec();
        let mh = max_h_upto(cfs, cfs.len() as int);
        &&& forall|i: int|
            0 <= i < cfs.len() ==> ((#[trigger] cfs[i]).horizontal_sampling_factor == 1
                || cfs[i].horizontal_sampling_factor == 2)
        &&& forall|i: int|
            0 <= i < cfs.len() ==> (#[trigger] cfs[i]).vertical_sampling_factor
                == cfs[0].vertical_sampling_factor
        &&& (cfs.len() > 0 ==> (cfs[0].vertical_sampling_factor == 1
            || cfs[0].vertical_sampling_factor == 2))
        &&& self.num_blocks_x() % mh == 0
    }

    /// The DC table the scan binds to component `ci`.
    pub open spec fn comp_dc_table(self, ci: int) -> Table
        recommends
            self.tables_ok(),
            0 <= ci < self.component_fields_spec().len(),
    {
        self.dc_tables_spec()[self.component_fields_spec()[ci].dc_table_id as int]->Some_0
    }

    /// The AC table the scan binds to component `ci`.
    pub open spec fn comp_ac_table(self, ci: int) -> Table
        recommends
            self.tables_ok(),
            0 <= ci < self.component_fields_spec().len(),
    {
        self.ac_tables_spec()[self.component_fields_spec()[ci].ac_table_id as int]->Some_0
    }

    /// Where one minimum coded unit leaves the bit cursor: each component
    /// in scan order contributes its horizontal sampling factor's worth
    /// of blocks; `None` when any block fails.
    pub open spec fn mcu_end(self, data: Seq<u8>, pos: int) -> Option<int>
        recommends
            self.tables_ok(),
            self.component_fields_spec().len() == 1 || self.component_fields_spec().len() == 3,
    {
        let cfs = self.component_fields_spec();
        let e0 = same_tables_end(
            self.comp_dc_table(0),
            self.comp_ac_table(0),
            data,
            pos,
            cfs[0].horizontal_sampling_factor as int,
        );
        if cfs.len() == 1 {
            e0
        } else {
            match e0 {
                None => None,
                Some(p1) => match same_tables_end(
                    self.comp_dc_table(1),
                    self.comp_ac_table(1),
                    data,
                    p1,
                    cfs[1].horizontal_sampling_factor as int,
                ) {
                    None => None,
                    Some(p2) => same_tables_end(
                        self.comp_dc_table(2),
                        self.comp_ac_table(2),
                        data,
                        p2,
                        cfs[2].horizontal_sampling_factor as int,
                    ),
                },
            }
        }
    }

    /// Where `k` minimum coded units leave the bit cursor; `None` when
    /// any block of any of them fails. This is the success condition of
    /// the entropy phase: a scan decodes exactly when every unit does.
    pub open spec fn scan_end(self, data: Seq<u8>, pos: int, k: int) -> Option<int>
        decreases k,
    {
        if k <= 0 {
            Some(pos)
        } else {
            match self.mcu_end(data, pos) {
                None => None,
                Some(p) => self.scan_end(data, p, k - 1),
            }
        }
    }

    /// One minimum coded unit with its decoded values: the DC-corrected
    /// blocks each component contributes, the end position, and the
    /// per-component running DC values going out.
    pub open spec fn mcu_blocks(self, data: Seq<u8>, pos: int, prevs: Seq<i16>) -> Option<
        ((Seq<Seq<i16>>, Seq<Seq<i16>>, Seq<Seq<i16>>), int, Seq<i16>),
    >
        recommends
            self.tables_ok(),
            self.component_fields_spec().len() == 1 || self.component_fields_spec().len() == 3,
            prevs.len() == self.component_fields_spec().len(),
    {
        let cfs = self.component_fields_spec();
        match decode_component_blocks(
            self.comp_dc_table(0),
            self.comp_ac_table(0),
            data,
            pos,
            cfs[0].horizontal_sampling_factor as int,
            prevs[0],
        ) {
            None => None,
            Some(t0) => if cfs.len() == 1 {
                Some(((t0.0, Seq::empty(), Seq::empty()), t0.1, prevs.update(0, t0.2)))
            } else {
                match decode_component_blocks(
                    self.comp_dc_table(1),
                    self.comp_ac_table(1),
                    data,
                    t0.1,
                    cfs[1].horizontal_sampling_factor as int,
                    prevs[1],
                ) {
                    None => None,
                    Some(t1) => match decode_component_blocks(
                        self.comp_dc_table(2),
                        self.comp_ac_table(2),
                        data,
                        t1.1,
                        cfs[2].horizontal_sampling_factor as int,
                        prevs[2],
                    ) {
                        None => None,
                        Some(t2) => Some(
                            (
                                (t0.0, t1.0, t2.0),
                                t2.1,
                                prevs.update(0, t0.2).update(1, t1.2).update(2, t2.2),
                            ),
                        ),
                    },
                }
            },
        }
    }

    /// The decoded values of `k` minimum coded units: the concatenated
    /// per-component block lists, the end position, and the outgoing
    /// running DC values. This is the exact content of the entropy
    /// phase of a scan.
    pub open spec fn scan_blocks(self, data: Seq<u8>, pos: int, k: int, prevs: Seq<i16>) -> Option<
        ((Seq<Seq<i16>>, Seq<Seq<i16>>, Seq<Seq<i16>>), int, Seq<i16>),
    >
        decreases k,
    {
        if k <= 0 {
            Some(((Seq::empty(), Seq::empty(), Seq::empty()), pos, prevs))
        } else {
            match self.mcu_blocks(data, pos, prevs) {
                None => None,
                Some(m) => match self.scan_blocks(data, m.1, k - 1, m.2) {
                    None => None,
                    Some(rest) => Some(
                        (
                            (m.0.0 + rest.0.0, m.0.1 + rest.0.1, m.0.2 + rest.0.2),
                            rest.1,
                            rest.2,
                        ),
                    ),
                },
            }
        }
    }

    proof fn lemma_mcu_blocks_end(self, data: Seq<u8>, pos: int, prevs: Seq<i16>)
        requires
            self.component_fields_spec().len() == 1 || self.component_fields_spec().len() == 3,
        ensures
            self.mcu_end(data, pos) == match self.mcu_blocks(data, pos, prevs) {
                Some(t) => Some(t.1),
                None => None::<int>,
            },
    {
        let cfs = self.component_fields_spec();
        lemma_component_blocks_end(
            self.comp_dc_table(0),
            self.comp_ac_table(0),
            data,
            pos,
            cfs[0].horizontal_sampling_factor as int,
            prevs[0],
        );
        match decode_component_blocks(
            self.comp_dc_table(0),
            self.comp_ac_table(0),
            data,
            pos,
            cfs[0].horizontal_sampling_factor as int,
            prevs[0],
        ) {
            None => {},
            Some(t0) => {
                if cfs.len() == 3 {
                    lemma_component_blocks_end(
                        self.comp_dc_table(1),
                        self.comp_ac_table(1),
                        data,
                        t0.1,
                        cfs[1].horizontal_sampling_factor as int,
                        prevs[1],
                    );
                    match decode_component_blocks(
                        self.comp_dc_table(1),
                        self.comp_ac_table(1),
                        data,
                        t0.1,
                        cfs[1].horizontal_sampling_factor as int,
                        prevs[1],
                    ) {
                        None => {},
                        Some(t1) => {
                            lemma_component_blocks_end(
                                self.comp_dc_table(2),
                                self.comp_ac_table(2),
                                data,
                                t1.1,
                                cfs[2].horizontal_sampling_factor as int,
                                prevs[2],
                            );
                        },
                    }
                }
            },
        }
    }

    pub proof fn lemma_scan_blocks_end(self, data: Seq<u8>, pos: int, k: int, prevs: Seq<i16>)
        requires
            self.component_fields_spec().len() == 1 || self.component_fields_spec().len() == 3,
        ensures
            self.scan_end(data, pos, k) == match self.scan_blocks(data, pos, k, prevs) {
                Some(t) => Some(t.1),
                None => None::<int>,
            },
        decreases k,
    {
        if k > 0 {
            self.lemma_mcu_blocks_end(data, pos, prevs);
            match self.mcu_blocks(data, pos, prevs) {
                None => {},
                Some(m) => {
                    self.lemma_scan_blocks_end(data, m.1, k - 1, m.2);
                },
            }
        }
    }

    proof fn lemma_scan_end_advances(self, data: Seq<u8>, pos: int, k: int)
        requires
            self.component_fields_spec().len() == 1 || self.component_fields_spec().len() == 3,
        ensures
            ({
                match self.scan_end(data, pos, k) {
                    Some(e) => pos <= e,
                    None => true,
                }
            }),
        decreases k,
    {
        if k > 0 {
            let cfs = self.component_fields_spec();
            lemma_same_tables_end_advances(
                self.comp_dc_table(0),
                self.comp_ac_table(0),
                data,
                pos,
                cfs[0].horizontal_sampling_factor as int,
            );
            if cfs.len() == 3 {
                match same_tables_end(
                    self.comp_dc_table(0),
                    self.comp_ac_table(0),
                    data,
                    pos,
                    cfs[0].horizontal_sampling_factor as int,
                ) {
                    None => {},
                    Some(p1) => {
                        lemma_same_tables_end_advances(
                            self.comp_dc_table(1),
                            self.comp_ac_table(1),
                            data,
                            p1,
                            cfs[1].horizontal_sampling_factor as int,
                        );
                        match same_tables_end(
                            self.comp_dc_table(1),
                            self.comp_ac_table(1),
                            data,
                            p1,
                            cfs[1].horizontal_sampling_factor as int,
                        ) {
                            None => {},
                            Some(p2) => {
                                lemma_same_tables_end_advances(
                                    self.comp_dc_table(2),
                                    self.comp_ac_table(2),
                                    data,
                                    p2,
                                    cfs[2].horizontal_sampling_factor as int,
                                );
                            },
                        }
                    },
                }
            }
            match self.mcu_end(data, pos) {
                None => {},
                Some(p) => {
                    self.lemma_scan_end_advances(data, p, k - 1);
                },
            }
        }
    }

    /// The finished image for a given entropy-phase output: each
    /// component's blocks dequantized with its table, de-zigzagged,
    /// inverse-transformed and expanded to full horizontal resolution,
    /// then converted to RGB (or replicated gray) and emitted in raster
    /// order over the padded block grid.
    pub open spec fn decoded_pixels(
        self,
        bl: (Seq<Seq<i16>>, Seq<Seq<i16>>, Seq<Seq<i16>>),
    ) -> Seq<(u8, u8, u8)>
        recommends
            self.tables_ok(),
            self.sampling_ok(),
            self.component_fields_spec().len() == 1 || self.component_fields_spec().len() == 3,
    {
        let cfs = self.component_fields_spec();
        let mh = max_h_upto(cfs, cfs.len() as int);
        let q0 = (self.quant_tables_spec()[cfs[0].quantization_id as int]->Some_0)@;
        let sa = spatial_list(bl.0, q0, mh / (cfs[0].horizontal_sampling_factor as int));
        let grid = if cfs.len() == 1 {
            raster_spec(gray_pure(sa), self.num_blocks_x(), self.num_blocks_y())
        } else {
            let q1 = (self.quant_tables_spec()[cfs[1].quantization_id as int]->Some_0)@;
            let q2 = (self.quant_tables_spec()[cfs[2].quantization_id as int]->Some_0)@;
            let sb = spatial_list(bl.1, q1, mh / (cfs[1].horizontal_sampling_factor as int));
            let sc = spatial_list(bl.2, q2, mh / (cfs[2].horizontal_sampling_factor as int));
            raster_spec(rgb_pure(sa, sb, sc), self.num_blocks_x(), self.num_blocks_y())
        };
        crop_spec(
            grid,
            8 * self.num_blocks_x(),
            self.dimensions_spec().0 as int,
            self.dimensions_spec().1 as int,
        )
    }

    proof fn lemma_scan_blocks_step(
        self,
        data: Seq<u8>,
        total_k: int,
        it: int,
        mcu_start: int,
        pos2: int,
        prev_old: Seq<i16>,
        prev_new: Seq<i16>,
        va0: Seq<Seq<i16>>,
        vb0: Seq<Seq<i16>>,
        vc0: Seq<Seq<i16>>,
        va1: Seq<Seq<i16>>,
        vb1: Seq<Seq<i16>>,
        vc1: Seq<Seq<i16>>,
        zeros: Seq<i16>,
    )
        requires
            0 <= it < total_k,
            match self.mcu_blocks(data, mcu_start, prev_old) {
                Some(m) => va1 == va0 + m.0.0 && vb1 == vb0 + m.0.1 && vc1 == vc0 + m.0.2 && pos2
                    == m.1 && prev_new == m.2,
                None => false,
            },
            ({
                let total = self.scan_blocks(data, 0, total_k, zeros);
                match self.scan_blocks(data, mcu_start, total_k - it, prev_old) {
                    Some(t) => total == Some(
                        ((va0 + t.0.0, vb0 + t.0.1, vc0 + t.0.2), t.1, t.2),
                    ),
                    None => total is None,
                }
            }),
        ensures
            ({
                let total = self.scan_blocks(data, 0, total_k, zeros);
                match self.scan_blocks(data, pos2, total_k - it - 1, prev_new) {
                    Some(t) => total == Some(
                        ((va1 + t.0.0, vb1 + t.0.1, vc1 + t.0.2), t.1, t.2),
                    ),
                    None => total is None,
                }
            }),
    {
        let m = self.mcu_blocks(data, mcu_start, prev_old)->Some_0;
        match self.scan_blocks(data, pos2, total_k - it - 1, prev_new) {
            Some(rest) => {
                assert(self.scan_blocks(data, mcu_start, total_k - it, prev_old) == Some(
                    ((m.0.0 + rest.0.0, m.0.1 + rest.0.1, m.0.2 + rest.0.2), rest.1, rest.2),
                ));
                assert(va1 + rest.0.0 =~= va0 + (m.0.0 + rest.0.0));
                assert(vb1 + rest.0.1 =~= vb0 + (m.0.1 + rest.0.1));
                assert(vc1 + rest.0.2 =~= vc0 + (m.0.2 + rest.0.2));
            },
            None => {
                assert(self.scan_blocks(data, mcu_start, total_k - it, prev_old) is None);
            },
        }
    }

    /// Every table a scan component references is defined.
    pub open spec fn tables_ok(self) -> bool {
        let cfs = self.component_fields_spec();
        forall|i: int|
            0 <= i < cfs.len() ==> {
                let cf = #[trigger] cfs[i];
                &&& cf.dc_table_id < 4
                &&& self.dc_tables_spec()[cf.dc_table_id as int] is Some
                &&& cf.ac_table_id < 4
                &&& self.ac_tables_spec()[cf.ac_table_id as int] is Some
                &&& cf.quantization_id < 4
                &&& self.quant_tables_spec()[cf.quantization_id as int] is Some
            }
    }

    /// Read one minimum coded unit: each component in scan order
    /// contributes its horizontal sampling factor's worth of blocks,
    /// exactly as `mcu_blocks` describes.
    #[verifier::loop_isolation(false)]
    #[verifier::rlimit(100)]
    fn read_mcu(
        &self,
        hd: &mut HuffmanDecoder,
        prev_dc: &mut Vec<i16>,
        blocks_a: &mut Vec<Vec<i16>>,
        blocks_b: &mut Vec<Vec<i16>>,
        blocks_c: &mut Vec<Vec<i16>>,
    ) -> (r: Result<(), DecodeError>)
        requires
            self.wf(),
            self.tables_ok(),
            self.component_fields_spec().len() == 1 || self.component_fields_spec().len() == 3,
            forall|i: int|
                0 <= i < self.component_fields_spec().len() ==> 1 <= (
                #[trigger] self.component_fields_spec()[i]).horizontal_sampling_factor <= 2,
            old(prev_dc)@.len() == self.component_fields_spec().len(),
            old(hd).pos_spec() + 16384 <= usize::MAX,
            old(hd).data_spec() == self.data_spec(),
            forall|i: int|
                0 <= i < old(blocks_a)@.len() ==> (#[trigger] old(blocks_a)@[i])@.len() == 64,
            forall|i: int|
                0 <= i < old(blocks_b)@.len() ==> (#[trigger] old(blocks_b)@[i])@.len() == 64,
            forall|i: int|
                0 <= i < old(blocks_c)@.len() ==> (#[trigger] old(blocks_c)@[i])@.len() == 64,
        ensures
            final(hd).data_spec() == old(hd).data_spec(),
            old(hd).pos_spec() <= final(hd).pos_spec(),
            final(prev_dc)@.len() == old(prev_dc)@.len(),
            forall|i: int|
                0 <= i < final(blocks_a)@.len() ==> (#[trigger] final(blocks_a)@[i])@.len() == 64,
            forall|i: int|
                0 <= i < final(blocks_b)@.len() ==> (#[trigger] final(blocks_b)@[i])@.len() == 64,
            forall|i: int|
                0 <= i < final(blocks_c)@.len() ==> (#[trigger] final(blocks_c)@[i])@.len() == 64,
            ({
                let cfs = self.component_fields_spec();
                match r {
                    Ok(_) => match self.mcu_blocks(
                        self.data_spec(),
                        old(hd).pos_spec(),
                        old(prev_dc)@,
                    ) {
                        Some(m) => {
                            &&& views_of(final(blocks_a)@) == views_of(old(blocks_a)@) + m.0.0
                            &&& views_of(final(blocks_b)@) == views_of(old(blocks_b)@) + m.0.1
                            &&& views_of(final(blocks_c)@) == views_of(old(blocks_c)@) + m.0.2
                            &&& final(prev_dc)@ == m.2
                            &&& final(hd).pos_spec() == m.1
                            &&& final(blocks_a)@.len() == old(blocks_a)@.len() + (
                            cfs[0].horizontal_sampling_factor as int)
                            &&& (cfs.len() == 3 ==> final(blocks_b)@.len() == old(blocks_b)@.len()
                                + (cfs[1].horizontal_sampling_factor as int)
                                && final(blocks_c)@.len() == old(blocks_c)@.len() + (
                            cfs[2].horizontal_sampling_factor as int))
                            &&& (cfs.len() == 1 ==> final(blocks_b)@ == old(blocks_b)@
                                && final(blocks_c)@ == old(blocks_c)@)
                        },
                        None => false,
                    },
                    Err(e) => e == DecodeError::EntropyDecodeFailure && self.mcu_blocks(
                        self.data_spec(),
                        old(hd).pos_spec(),
                        old(prev_dc)@,
                    ) is None,
                }
            }),
    {
        let ghost cfs = self.component_fields_spec();
        let ghost mcu_start = hd.pos_spec();
        let ghost prev_old = prev_dc@;
        let ncomp = self.component_fields.len();
        let cf0 = self.component_fields[0];
        let dc_t = match &self.huffman_dc_tables[cf0.dc_table_id as usize] {
            Some(t) => t,
            None => {
                proof {
                    assert(false);
                }
                return Err(DecodeError::MissingTable);
            },
        };
        let ac_t = match &self.huffman_ac_tables[cf0.ac_table_id as usize] {
            Some(t) => t,
            None => {
                proof {
                    assert(false);
                }
                return Err(DecodeError::MissingTable);
            },
        };
        proof {
            assert(*dc_t == self.comp_dc_table(0));
            assert(*ac_t == self.comp_ac_table(0));
        }
        match read_component_blocks(
            hd,
            prev_dc,
            blocks_a,
            0,
            cf0.horizontal_sampling_factor,
            ac_t,
            dc_t,
        ) {
            Ok(_) => {},
            Err(_) => {
                return Err(DecodeError::EntropyDecodeFailure);
            },
        }
        if ncomp == 3 {
            let cf1 = self.component_fields[1];
            let dc_t1 = match &self.huffman_dc_tables[cf1.dc_table_id as usize] {
                Some(t) => t,
                None => {
                    proof {
                        assert(false);
                    }
                    return Err(DecodeError::MissingTable);
                },
            };
            let ac_t1 = match &self.huffman_ac_tables[cf1.ac_table_id as usize] {
                Some(t) => t,
                None => {
                    proof {
                        assert(false);
                    }
                    return Err(DecodeError::MissingTable);
                },
            };
            proof {
                assert(*dc_t1 == self.comp_dc_table(1));
                assert(*ac_t1 == self.comp_ac_table(1));
                assert(prev_dc@[1] == prev_old[1]);
            }
            match read_component_blocks(
                hd,
                prev_dc,
                blocks_b,
                1,
                cf1.horizontal_sampling_factor,
                ac_t1,
                dc_t1,
            ) {
                Ok(_) => {},
                Err(_) => {
                    return Err(DecodeError::EntropyDecodeFailure);
                },
            }
            let cf2 = self.component_fields[2];
            let dc_t2 = match &self.huffman_dc_tables[cf2.dc_table_id as usize] {
                Some(t) => t,
                None => {
                    proof {
                        assert(false);
                    }
                    return Err(DecodeError::MissingTable);
                },
            };
            let ac_t2 = match &self.huffman_ac_tables[cf2.ac_table_id as usize] {
                Some(t) => t,
                None => {
                    proof {
                        assert(false);
                    }
                    return Err(DecodeError::MissingTable);
                },
            };
            proof {
                assert(*dc_t2 == self.comp_dc_table(2));
                assert(*ac_t2 == self.comp_ac_table(2));
                assert(prev_dc@[2] == prev_old[2]);
            }
            match read_component_blocks(
                hd,
                prev_dc,
                blocks_c,
                2,
                cf2.horizontal_sampling_factor,
                ac_t2,
                dc_t2,
            ) {
                Ok(_) => {},
                Err(_) => {
                    return Err(DecodeError::EntropyDecodeFailure);
                },
            }
            proof {
                let data = self.data_spec();
                match decode_component_blocks(
                    self.comp_dc_table(0),
                    self.comp_ac_table(0),
                    data,
                    mcu_start,
                    cfs[0].horizontal_sampling_factor as int,
                    prev_old[0],
                ) {
                    None => {
                        assert(false);
                    },
                    Some(t0) => {
                        match decode_component_blocks(
                            self.comp_dc_table(1),
                            self.comp_ac_table(1),
                            data,
                            t0.1,
                            cfs[1].horizontal_sampling_factor as int,
                            prev_old[1],
                        ) {
                            None => {
                                assert(false);
                            },
                            Some(t1) => {
                                match decode_component_blocks(
                                    self.comp_dc_table(2),
                                    self.comp_ac_table(2),
                                    data,
                                    t1.1,
                                    cfs[2].horizontal_sampling_factor as int,
                                    prev_old[2],
                                ) {
                                    None => {
                                        assert(false);
                                    },
                                    Some(t2) => {
                                        assert(prev_dc@ =~= prev_old.update(0, t0.2).update(
                                            1,
                                            t1.2,
                                        ).update(2, t2.2));
                                    },
                                }
                            },
                        }
                    },
                }
            }
        } else {
            proof {
                let data = self.data_spec();
                match decode_component_blocks(
                    self.comp_dc_table(0),
                    self.comp_ac_table(0),
                    data,
                    mcu_start,
                    cfs[0].horizontal_sampling_factor as int,
                    prev_old[0],
                ) {
                    None => {
                        assert(false);
                    },
                    Some(t0) => {
                        assert(prev_dc@ =~= prev_old.update(0, t0.2));
                    },
                }
            }
        }
        Ok(())
    }

    /// Entropy-decode every block of every component, in interleave
    /// order, one minimum coded unit at a time. The running DC
    /// difference is accumulated per component. Returns the block lists
    /// of the up-to-three components, exactly as `scan_blocks` describes
    /// them, and the count of whole entropy bytes consumed.
    #[verifier::loop_isolation(false)]
    #[verifier::rlimit(100)]
    #[verifier::spinoff_prover]
    fn decode_all_blocks(&self, iterations: usize) -> (r: Result<
        (Vec<Vec<i16>>, Vec<Vec<i16>>, Vec<Vec<i16>>, usize),
        DecodeError,
    >)
        requires
            self.wf(),
            self.tables_ok(),
            self.component_fields_spec().len() == 1 || self.component_fields_spec().len() == 3,
            forall|i: int|
                0 <= i < self.component_fields_spec().len() ==> 1 <= (
                #[trigger] self.component_fields_spec()[i]).horizontal_sampling_factor <= 2,
            iterations <= 67108864,
        ensures
            ({
                let cfs = self.component_fields_spec();
                let zeros = zero_prevs(cfs.len());
                match r {
                    Ok(bl) => {
                        &&& bl.0@.len() == iterations * (
                        cfs[0].horizontal_sampling_factor as int)
                        &&& (cfs.len() == 3 ==> bl.1@.len() == iterations * (
                        cfs[1].horizontal_sampling_factor as int) && bl.2@.len() == iterations
                            * (cfs[2].horizontal_sampling_factor as int))
                        &&& (cfs.len() == 1 ==> bl.1@.len() == 0 && bl.2@.len() == 0)
                        &&& (forall|p: int|
                            0 <= p < bl.0@.len() ==> (#[trigger] bl.0@[p])@.len() == 64)
                        &&& (forall|p: int|
                            0 <= p < bl.1@.len() ==> (#[trigger] bl.1@[p])@.len() == 64)
                        &&& (forall|p: int|
                            0 <= p < bl.2@.len() ==> (#[trigger] bl.2@[p])@.len() == 64)
                        &&& self.scan_end(self.data_spec(), 0, iterations as int) is Some
                        &&& match self.scan_blocks(self.data_spec(), 0, iterations as int, zeros) {
                            Some(t) => views_of(bl.0@) == t.0.0 && views_of(bl.1@) == t.0.1
                                && views_of(bl.2@) == t.0.2 && bl.3 as int == (t.1 + 7) / 8,
                            None => false,
                        }
                    },
                    Err(e) => {
                        &&& e == DecodeError::EntropyDecodeFailure
                        &&& match self.scan_end(self.data_spec(), 0, iterations as int) {
                            Some(endp) => endp > usize::MAX - 16384,
                            None => true,
                        }
                    },
                }
            }),
    {
        let ghost cfs = self.component_fields_spec();
        let ghost zeros = zero_prevs(cfs.len());
        let ncomp = self.component_fields.len();
        let mut data_copy: Vec<u8> = Vec::new();
        let mut di: usize = 0;
        while di < self.data.len()
            invariant
                di <= self.data@.len(),
                data_copy@ =~= self.data@.take(di as int),
            decreases self.data@.len() - di,
        {
            data_copy.push(self.data[di]);
            di = di + 1;
            proof {
                assert(data_copy@ =~= self.data@.take(di as int));
            }
        }
        proof {
            assert(self.data@.take(self.data@.len() as int) =~= self.data@);
        }
        let mut hd = HuffmanDecoder::new(data_copy);
        let mut prev_dc: Vec<i16> = Vec::new();
        let mut i: usize = 0;
        while i < ncomp
            invariant
                i <= ncomp,
                prev_dc@.len() == i,
                forall|j: int| 0 <= j < i ==> #[trigger] prev_dc@[j] == 0,
            decreases ncomp - i,
        {
            prev_dc.push(0);
            i = i + 1;
        }
        let mut blocks_a: Vec<Vec<i16>> = Vec::new();
        let mut blocks_b: Vec<Vec<i16>> = Vec::new();
        let mut blocks_c: Vec<Vec<i16>> = Vec::new();
        let ghost h0 = self.component_fields_spec()[0].horizontal_sampling_factor;
        proof {
            assert(prev_dc@ =~= zeros);
            match self.scan_blocks(self.data_spec(), 0, iterations as int, zeros) {
                Some(t) => {
                    assert(views_of(blocks_a@) + t.0.0 =~= t.0.0);
                    assert(views_of(blocks_b@) + t.0.1 =~= t.0.1);
                    assert(views_of(blocks_c@) + t.0.2 =~= t.0.2);
                },
                None => {},
            }
        }
        let mut it: usize = 0;
        while it < iterations
            invariant
                it <= iterations,
                hd.data_spec() == self.data_spec(),
                0 <= hd.pos_spec(),
                prev_dc@.len() == ncomp,
                forall|p: int| 0 <= p < blocks_a@.len() ==> (#[trigger] blocks_a@[p])@.len() == 64,
                forall|p: int| 0 <= p < blocks_b@.len() ==> (#[trigger] blocks_b@[p])@.len() == 64,
                forall|p: int| 0 <= p < blocks_c@.len() ==> (#[trigger] blocks_c@[p])@.len() == 64,
                blocks_a@.len() == it * (h0 as int),
                ncomp == 3 ==> blocks_b@.len() == it * (
                cfs[1].horizontal_sampling_factor as int),
                ncomp == 3 ==> blocks_c@.len() == it * (
                cfs[2].horizontal_sampling_factor as int),
                ncomp == 1 ==> blocks_b@.len() == 0 && blocks_c@.len() == 0,
                ({
                    let total = self.scan_blocks(self.data_spec(), 0, iterations as int, zeros);
                    match self.scan_blocks(
                        self.data_spec(),
                        hd.pos_spec(),
                        iterations as int - it,
                        prev_dc@,
                    ) {
                        Some(t) => total == Some(
                            (
                                (
                                    views_of(blocks_a@) + t.0.0,
                                    views_of(blocks_b@) + t.0.1,
                                    views_of(blocks_c@) + t.0.2,
                                ),
                                t.1,
                                t.2,
                            ),
                        ),
                        None => total is None,
                    }
                }),
            decreases iterations - it,
        {
            let ghost rem = iterations as int - it;
            // A stream that has consumed nearly the whole address space
            // in bits cannot be a sane scan: treat it as corrupt rather
            // than let the bit cursor overflow.
            if hd.bit_position() > usize::MAX - 16384 {
                proof {
                    self.lemma_scan_blocks_end(self.data_spec(), hd.pos_spec(), rem, prev_dc@);
                    self.lemma_scan_blocks_end(self.data_spec(), 0, iterations as int, zeros);
                    match self.scan_blocks(self.data_spec(), hd.pos_spec(), rem, prev_dc@) {
                        Some(t) => {
                            self.lemma_scan_end_advances(self.data_spec(), hd.pos_spec(), rem);
                        },
                        None => {},
                    }
                }
                return Err(DecodeError::EntropyDecodeFailure);
            }
            let ghost mcu_start = hd.pos_spec();
            let ghost prev_old = prev_dc@;
            let ghost va0 = views_of(blocks_a@);
            let ghost vb0 = views_of(blocks_b@);
            let ghost vc0 = views_of(blocks_c@);
            match self.read_mcu(&mut hd, &mut prev_dc, &mut blocks_a, &mut blocks_b, &mut blocks_c)
            {
                Ok(_) => {},
                Err(_) => {
                    proof {
                        assert(self.scan_blocks(
                            self.data_spec(),
                            mcu_start,
                            rem,
                            prev_old,
                        ) is None);
                        self.lemma_scan_blocks_end(self.data_spec(), 0, iterations as int, zeros);
                    }
                    return Err(DecodeError::EntropyDecodeFailure);
                },
            }
            proof {
                assert((it + 1) * (h0 as int) == it * (h0 as int) + (h0 as int))
                    by (nonlinear_arith);
                if ncomp == 3 {
                    assert((it + 1) * (cfs[1].horizontal_sampling_factor as int) == it * (
                    cfs[1].horizontal_sampling_factor as int) + (
                    cfs[1].horizontal_sampling_factor as int)) by (nonlinear_arith);
                    assert((it + 1) * (cfs[2].horizontal_sampling_factor as int) == it * (
                    cfs[2].horizontal_sampling_factor as int) + (
                    cfs[2].horizontal_sampling_factor as int)) by (nonlinear_arith);
                }
                self.lemma_scan_blocks_step(
                    self.data_spec(),
                    iterations as int,
                    it as int,
                    mcu_start,
                    hd.pos_spec(),
                    prev_old,
                    prev_dc@,
                    va0,
                    vb0,
                    vc0,
                    views_of(blocks_a@),
                    views_of(blocks_b@),
                    views_of(blocks_c@),
                    zeros,
                );
            }
            it = it + 1;
        }
        proof {
            match self.scan_blocks(self.data_spec(), 0, iterations as int, zeros) {
                Some(t) => {
                    assert(views_of(blocks_a@) + Seq::<Seq<i16>>::empty() =~= views_of(
                        blocks_a@,
                    ));
                    assert(views_of(blocks_b@) + Seq::<Seq<i16>>::empty() =~= views_of(
                        blocks_b@,
                    ));
                    assert(views_of(blocks_c@) + Seq::<Seq<i16>>::empty() =~= views_of(
                        blocks_c@,
                    ));
                },
                None => {
                    assert(false);
                },
            }
            self.lemma_scan_blocks_end(self.data_spec(), 0, iterations as int, zeros);
        }
        // A scan ends on a byte boundary: count any partial byte whole.
        proof {
            hd.lemma_pos_in_range();
            assert(hd.pos_spec() / 8 + 4 <= usize::MAX) by (nonlinear_arith)
                requires
                    0 <= hd.pos_spec() <= usize::MAX,
            ;
        }
        let bytes_read: usize = if hd.bits_read() > 0 {
            hd.next_index() + 1 - 4
        } else {
            hd.next_index() - 4
        };
        proof {
            let p = hd.pos_spec();
            let q = p / 8;
            let rr = p % 8;
            vstd::arithmetic::div_mod::lemma_fundamental_div_mod(p, 8);
            if rr == 0 {
                vstd::arithmetic::div_mod::lemma_fundamental_div_mod_converse_div(p + 7, 8, q, 7);
            } else {
                vstd::arithmetic::div_mod::lemma_fundamental_div_mod_converse_div(
                    p + 7,
                    8,
                    q + 1,
                    rr - 1,
                );
            }
            assert(bytes_read as int == (p + 7) / 8);
        }
        Ok((blocks_a, blocks_b, blocks_c, bytes_read))
    }

    /// Decode the whole scan: entropy-decode every 8x8 block of every
    /// component in interleave order, reconstruct spatial samples,
    /// expand subsampled components, convert to RGB, lay the blocks out
    /// in raster order and cut the grid down to the declared dimensions.
    /// Returns the pixels, one per image pixel in row-major order, and
    /// how many whole bytes of entropy data were consumed.
    ///
    /// A component count other than 1 or 3, or sampling factors outside
    /// what `sampling_ok` admits, are unsupported; a scan that references
    /// an undefined table is missing it; a failed Huffman lookup or an
    /// unfinishable block is a corrupt entropy stream.
    #[verifier::loop_isolation(false)]
    #[verifier::rlimit(100)]
    pub fn decode(&self) -> (r: Result<(Vec<(u8, u8, u8)>, usize), DecodeError>)
        requires
            self.wf(),
        ensures
            ({
                let ncomp = self.component_fields_spec().len();
                let comp_ok = ncomp == 1 || ncomp == 3;
                &&& (!comp_ok ==> r == Err::<(Vec<(u8, u8, u8)>, usize), DecodeError>(
                    DecodeError::UnsupportedFeature,
                ))
                &&& (comp_ok && !self.sampling_ok() ==> r == Err::<
                    (Vec<(u8, u8, u8)>, usize),
                    DecodeError,
                >(DecodeError::UnsupportedFeature))
                &&& (comp_ok && self.sampling_ok() && !self.tables_ok() ==> r == Err::<
                    (Vec<(u8, u8, u8)>, usize),
                    DecodeError,
                >(DecodeError::MissingTable))
                &&& (comp_ok && self.sampling_ok() && self.tables_ok() ==> (r is Ok || r == Err::<
                    (Vec<(u8, u8, u8)>, usize),
                    DecodeError,
                >(DecodeError::EntropyDecodeFailure)))
                &&& (comp_ok && self.sampling_ok() && self.tables_ok() ==> ({
                    let cfs = self.component_fields_spec();
                    let mh = max_h_upto(cfs, cfs.len() as int);
                    let its = (self.num_blocks_x() / mh) * self.num_blocks_y();
                    match self.scan_end(self.data_spec(), 0, its) {
                        Some(endp) => endp <= usize::MAX - 16384 ==> r is Ok,
                        None => r == Err::<(Vec<(u8, u8, u8)>, usize), DecodeError>(
                            DecodeError::EntropyDecodeFailure,
                        ),
                    }
                }))
                &&& (comp_ok && self.sampling_ok() && self.tables_ok() ==> ({
                    let cfs = self.component_fields_spec();
                    let mh = max_h_upto(cfs, cfs.len() as int);
                    let its = (self.num_blocks_x() / mh) * self.num_blocks_y();
                    match self.scan_blocks(self.data_spec(), 0, its, zero_prevs(cfs.len())) {
                        Some(t) => r matches Ok(out) ==> out.0@ == self.decoded_pixels(t.0)
                            && out.1 as int == (t.1 + 7) / 8,
                        None => true,
                    }
                }))
                &&& (r matches Ok(out) ==> out.0@.len() == (self.dimensions_spec().0 as int)
                    * (self.dimensions_spec().1 as int))
            }),
    {
        let nbx: usize = (self.dimensions.0 + 7) / 8;
        let nby: usize = (self.dimensions.1 + 7) / 8;
        proof {
            assert(nbx <= 8192);
            assert(nby <= 8192);
        }
        let ncomp = self.component_fields.len();
        if !(ncomp == 1 || ncomp == 3) {
            return Err(DecodeError::UnsupportedFeature);
        }
        let ghost cfs = self.component_fields_spec();

        // Maximum horizontal sampling factor over the scan components.
        let mut max_h: u8 = 1;
        let mut i: usize = 0;
        while i < ncomp
            invariant
                i <= ncomp,
                max_h as int == max_h_upto(cfs, i as int),
            decreases ncomp - i,
        {
            let hf = self.component_fields[i].horizontal_sampling_factor;
            if hf > max_h {
                max_h = hf;
            }
            i = i + 1;
        }

        // Validate the sampling layout.
        let v0 = self.component_fields[0].vertical_sampling_factor;
        let mut i: usize = 0;
        while i < ncomp
            invariant
                i <= ncomp,
                forall|p: int|
                    0 <= p < i ==> ((#[trigger] cfs[p]).horizontal_sampling_factor == 1
                        || cfs[p].horizontal_sampling_factor == 2),
                forall|p: int|
                    0 <= p < i ==> (#[trigger] cfs[p]).vertical_sampling_factor == v0,
            decreases ncomp - i,
        {
            let cf = self.component_fields[i];
            if !(cf.horizontal_sampling_factor == 1 || cf.horizontal_sampling_factor == 2) {
                proof {
                    assert(!self.sampling_ok());
                }
                return Err(DecodeError::UnsupportedFeature);
            }
            if cf.vertical_sampling_factor != v0 {
                proof {
                    assert(!self.sampling_ok());
                }
                return Err(DecodeError::UnsupportedFeature);
            }
            i = i + 1;
        }
        if !(v0 == 1 || v0 == 2) {
            proof {
                assert(!self.sampling_ok());
            }
            return Err(DecodeError::UnsupportedFeature);
        }
        if nbx % (max_h as usize) != 0 {
            proof {
                assert(!self.sampling_ok());
            }
            return Err(DecodeError::UnsupportedFeature);
        }
        proof {
            assert(self.sampling_ok());
            assert(1 <= max_h <= 2) by {
                lemma_max_h_upto_range(cfs, ncomp as int, 2);
            }
        }

        // Validate that every referenced table is defined.
        let mut i: usize = 0;
        while i < ncomp
            invariant
                i <= ncomp,
                forall|p: int|
                    0 <= p < i ==> {
                        let cf = #[trigger] cfs[p];
                        &&& cf.dc_table_id < 4
                        &&& self.dc_tables_spec()[cf.dc_table_id as int] is Some
                        &&& cf.ac_table_id < 4
                        &&& self.ac_tables_spec()[cf.ac_table_id as int] is Some
                        &&& cf.quantization_id < 4
                        &&& self.quant_tables_spec()[cf.quantization_id as int] is Some
                    },
            decreases ncomp - i,
        {
            let cf = self.component_fields[i];
            if cf.dc_table_id >= 4 {
                return Err(DecodeError::MissingTable);
            }
            if self.huffman_dc_tables[cf.dc_table_id as usize].is_none() {
                return Err(DecodeError::MissingTable);
            }
            if cf.ac_table_id >= 4 {
                return Err(DecodeError::MissingTable);
            }
            if self.huffman_ac_tables[cf.ac_table_id as usize].is_none() {
                return Err(DecodeError::MissingTable);
            }
            if cf.quantization_id >= 4 {
                return Err(DecodeError::MissingTable);
            }
            if self.quantization_tables[cf.quantization_id as usize].is_none() {
                return Err(DecodeError::MissingTable);
            }
            i = i + 1;
        }
        proof {
            assert(self.tables_ok());
        }

        // Entropy-decode all blocks, in interleave order.
        proof {
            assert((nbx as int / (max_h as int)) * nby <= 67108864) by (nonlinear_arith)
                requires
                    nbx <= 8192,
                    nby <= 8192,
                    1 <= max_h as int <= 2,
            ;
        }
        let iterations: usize = (nbx / (max_h as usize)) * nby;
        proof {
            assert(iterations <= 67108864);
            assert(iterations as int == (self.num_blocks_x() / max_h_upto(cfs, ncomp as int))
                * self.num_blocks_y());
        }
        let blocks_trip = match self.decode_all_blocks(iterations) {
            Ok(t) => t,
            Err(e) => {
                return Err(e);
            },
        };
        let blocks_a = blocks_trip.0;
        let blocks_b = blocks_trip.1;
        let blocks_c = blocks_trip.2;
        let bytes_read = blocks_trip.3;
        let h0 = self.component_fields[0].horizontal_sampling_factor;



        // Reconstruct spatial samples per component, expanding
        // subsampled components to full horizontal resolution.
        proof {
            assert(nbx as int * nby as int <= 67108864) by (nonlinear_arith)
                requires
                    nbx <= 8192,
                    nby <= 8192,
            ;
        }
        let num_blocks: usize = nbx * nby;
        proof {
            // the scan covers the padded grid exactly
            assert(iterations * (max_h as int) == num_blocks) by (nonlinear_arith)
                requires
                    iterations == (nbx / (max_h as usize)) * nby,
                    num_blocks == nbx * nby,
                    nbx % (max_h as usize) == 0,
                    1 <= max_h as usize <= 2,
                    nbx <= 8192,
            ;
        }
        let cf0 = self.component_fields[0];
        let q0 = match &self.quantization_tables[cf0.quantization_id as usize] {
            Some(q) => q,
            None => {
                proof {
                    assert(false);
                }
                return Err(DecodeError::MissingTable);
            },
        };
        let x0: u8 = max_h / cf0.horizontal_sampling_factor;
        proof {
            lemma_max_h_upto_ge(cfs, ncomp as int, 0);
            assert(cfs[0].horizontal_sampling_factor == 1 || cfs[0].horizontal_sampling_factor
                == 2);
            assert(1 <= max_h <= 2) by {
                lemma_max_h_upto_range(cfs, ncomp as int, 2);
            }
            assert(x0 == 1 || x0 == 2);
            assert((h0 as int) * (x0 as int) == max_h as int);
        }
        let spatial_a = component_to_spatial(&blocks_a, q0, x0);
        proof {
            assert(spatial_a@.len() == (iterations as int) * (h0 as int) * (x0 as int)
                == num_blocks) by (nonlinear_arith)
                requires
                    spatial_a@.len() == blocks_a@.len() * (x0 as int),
                    blocks_a@.len() == (iterations as int) * (h0 as int),
                    (h0 as int) * (x0 as int) == max_h as int,
                    (iterations as int) * (max_h as int) == num_blocks,
            ;
        }
        let rgb_blocks: Vec<Vec<(u8, u8, u8)>> = if ncomp == 3 {
            let cf1 = self.component_fields[1];
            let q1 = match &self.quantization_tables[cf1.quantization_id as usize] {
                Some(q) => q,
                None => {
                    proof {
                        assert(false);
                    }
                    return Err(DecodeError::MissingTable);
                },
            };
            let x1: u8 = max_h / cf1.horizontal_sampling_factor;
            proof {
                lemma_max_h_upto_ge(cfs, ncomp as int, 1);
                assert(cfs[1].horizontal_sampling_factor == 1
                    || cfs[1].horizontal_sampling_factor == 2);
                assert(x1 == 1 || x1 == 2);
                assert((cfs[1].horizontal_sampling_factor as int) * (x1 as int) == max_h as int);
            }
            let spatial_b = component_to_spatial(&blocks_b, q1, x1);
            let cf2 = self.component_fields[2];
            let q2 = match &self.quantization_tables[cf2.quantization_id as usize] {
                Some(q) => q,
                None => {
                    proof {
                        assert(false);
                    }
                    return Err(DecodeError::MissingTable);
                },
            };
            let x2: u8 = max_h / cf2.horizontal_sampling_factor;
            proof {
                lemma_max_h_upto_ge(cfs, ncomp as int, 2);
                assert(cfs[2].horizontal_sampling_factor == 1
                    || cfs[2].horizontal_sampling_factor == 2);
                assert(x2 == 1 || x2 == 2);
                assert((cfs[2].horizontal_sampling_factor as int) * (x2 as int) == max_h as int);
            }
            let spatial_c = component_to_spatial(&blocks_c, q2, x2);
            proof {
                assert(spatial_b@.len() == num_blocks) by (nonlinear_arith)
                    requires
                        spatial_b@.len() == blocks_b@.len() * (x1 as int),
                        blocks_b@.len() == (iterations as int) * (
                        cfs[1].horizontal_sampling_factor as int),
                        (cfs[1].horizontal_sampling_factor as int) * (x1 as int) == max_h as int,
                        (iterations as int) * (max_h as int) == num_blocks,
                ;
                assert(spatial_c@.len() == num_blocks) by (nonlinear_arith)
                    requires
                        spatial_c@.len() == blocks_c@.len() * (x2 as int),
                        blocks_c@.len() == (iterations as int) * (
                        cfs[2].horizontal_sampling_factor as int),
                        (cfs[2].horizontal_sampling_factor as int) * (x2 as int) == max_h as int,
                        (iterations as int) * (max_h as int) == num_blocks,
                ;
            }
            color_merge_three(&spatial_a, &spatial_b, &spatial_c)
        } else {
            color_merge_gray(&spatial_a)
        };
        proof {
            assert(rgb_blocks@.len() == num_blocks);
        }
        let image_grid = rasterize(&rgb_blocks, nbx, nby);
        proof {
            assert(image_grid@.len() == 64 * (nbx as int) * (nby as int));
            assert(nbx as int == self.num_blocks_x());
            assert(nby as int == self.num_blocks_y());
        }
        let padded_w = nbx * 8;
        let width = self.dimensions.0;
        let height = self.dimensions.1;
        proof {
            vstd::arithmetic::div_mod::lemma_fundamental_div_mod(width as int + 7, 8);
            assert(width <= padded_w);
            vstd::arithmetic::div_mod::lemma_fundamental_div_mod(height as int + 7, 8);
            assert(height as int <= 8 * (nby as int));
            assert((padded_w as int) * (height as int) <= 64 * (nbx as int) * (nby as int))
                by (nonlinear_arith)
                requires
                    padded_w == 8 * nbx,
                    height as int <= 8 * (nby as int),
                    0 <= nbx,
            ;
        }
        let image_data = crop_pixels(&image_grid, padded_w, width, height);
        proof {
            match self.scan_blocks(
                self.data_spec(),
                0,
                iterations as int,
                zero_prevs(cfs.len()),
            ) {
                Some(t) => {
                    assert(image_data@ == self.decoded_pixels(t.0));
                },
                None => {
                    assert(false);
                },
            }
        }
        Ok((image_data, bytes_read))
    }
}

} // verus!
