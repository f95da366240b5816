//! Canonical Huffman tables and the bit-level entropy cursor.

use vstd::prelude::*;

use crate::error::DecodeError;
use vstd::arithmetic::div_mod::lemma_fundamental_div_mod;
use vstd::arithmetic::power2::{
    lemma2_to64, lemma_pow2_adds, lemma_pow2_pos, lemma_pow2_strictly_increases, pow2,
};

verus! {

/// The byte the cursor reads past the end of the entropy data: a defined
/// fill value so that the last partial byte of a scan can be consumed
/// without faulting.
pub open spec fn fill_byte() -> u8 {
    0xAA
}

/// The byte the bit stream presents at byte offset `i`: the data itself,
/// then the fill value forever after.
pub open spec fn stream_byte(data: Seq<u8>, i: int) -> u8 {
    if 0 <= i < data.len() {
        data[i]
    } else {
        fill_byte()
    }
}

/// Bit `i` of the stream, MSB-first within each byte; 0 or 1.
pub open spec fn stream_bit(data: Seq<u8>, i: int) -> u8 {
    (stream_byte(data, i / 8) >> ((7 - (i % 8)) as u8)) & 1
}

/// The value of the `n` bits starting at bit position `pos`, MSB first.
pub open spec fn bits_value(data: Seq<u8>, pos: int, n: nat) -> int
    decreases n,
{
    if n == 0 {
        0
    } else {
        bits_value(data, pos, (n - 1) as nat) * 2 + stream_bit(data, pos + n - 1) as int
    }
}

pub proof fn lemma_stream_bit_is_bit(data: Seq<u8>, i: int)
    requires
        i >= 0,
    ensures
        stream_bit(data, i) == 0 || stream_bit(data, i) == 1,
{
    let b = stream_byte(data, i / 8);
    let sh = (7 - (i % 8)) as u8;
    assert((b >> sh) & 1 == 0 || (b >> sh) & 1 == 1) by (bit_vector);
}

pub proof fn lemma_bits_value_bound(data: Seq<u8>, pos: int, n: nat)
    requires
        pos >= 0,
    ensures
        0 <= bits_value(data, pos, n) < pow2(n),
    decreases n,
{
    lemma_pow2_pos(n);
    if n > 0 {
        lemma_bits_value_bound(data, pos, (n - 1) as nat);
        lemma_stream_bit_is_bit(data, pos + n - 1);
        lemma_pow2_adds((n - 1) as nat, 1);
        lemma2_to64();
    }
}

/// One canonical Huffman code.
#[derive(Clone, Copy, Debug, PartialEq, Eq, Structural)]
pub struct Code {
    /// How many bits of the pattern are used, 1..=16.
    pub length: u8,
    /// The code pattern, in the low `length` bits.
    pub code: u16,
    /// The value the code maps to.
    pub value: u8,
}

pub open spec fn code_wf(c: Code) -> bool {
    &&& 1 <= c.length <= 16
    &&& (c.code as int) < pow2(c.length as nat)
}

/// A code's pattern left-aligned in a 16-bit window. A window of bits
/// starts with the pattern of `c` exactly when its value lies in
/// `[code_weight(c), code_weight(c) + 2^(16 - c.length))`.
pub open spec fn code_weight(c: Code) -> int {
    c.code as int * pow2((16 - c.length) as nat)
}

/// The per-code lengths described by a 16-entry size histogram:
/// `counts[i]` codes of length `i + 1`, shortest first, truncated to the
/// lengths up to `upto`.
pub open spec fn expand_lengths(counts: Seq<u8>, upto: int) -> Seq<u8>
    decreases upto,
{
    if upto <= 0 {
        Seq::empty()
    } else {
        expand_lengths(counts, upto - 1) + Seq::new(counts[upto - 1] as nat, |_j: int| upto as u8)
    }
}

/// The left-aligned window value the canonical assignment gives to code
/// `k`: the sum of the window spans of all earlier codes.
pub open spec fn kraft_sum(lens: Seq<u8>, k: int) -> int
    decreases k,
{
    if k <= 0 {
        0
    } else {
        kraft_sum(lens, k - 1) + pow2((16 - lens[k - 1]) as nat)
    }
}

/// A size histogram admits a canonical assignment exactly when every
/// code's window still fits below 2^16.
pub open spec fn kraft_ok(lens: Seq<u8>) -> bool {
    forall|k: int|
        0 <= k < lens.len() ==> kraft_sum(lens, k) + pow2((16 - #[trigger] lens[k]) as nat)
            <= 65536
}

/// The sum of the first `k` histogram entries: how many codes the
/// lengths up to `k` describe.
pub open spec fn byte_sum(s: Seq<u8>, k: int) -> nat
    decreases k,
{
    if k <= 0 {
        0
    } else {
        byte_sum(s, k - 1) + s[k - 1] as nat
    }
}

pub proof fn lemma_expand_lengths_count(counts: Seq<u8>, upto: int)
    requires
        0 <= upto,
    ensures
        expand_lengths(counts, upto).len() == byte_sum(counts, upto),
    decreases upto,
{
    if upto > 0 {
        lemma_expand_lengths_count(counts, upto - 1);
    }
}

/// The canonical Annex C code assignment, spelled out value by value:
/// code `k` has the `k`-th histogram length, its pattern is the running
/// left-aligned window value scaled back down, and it maps to the `k`-th
/// entry of the value table.
pub open spec fn canonical_codes(counts: Seq<u8>, values: Seq<u8>) -> Seq<Code> {
    let lens = expand_lengths(counts, 16);
    Seq::new(
        values.len(),
        |k: int|
            Code {
                length: lens[k],
                code: (kraft_sum(lens, k) / pow2((16 - lens[k]) as nat) as int) as u16,
                value: values[k],
            },
    )
}

proof fn lemma_expand_lengths_wf(counts: Seq<u8>, upto: int)
    requires
        0 <= upto <= 16,
    ensures
        forall|i: int|
            0 <= i < expand_lengths(counts, upto).len() ==> 1 <= #[trigger] expand_lengths(
                counts,
                upto,
            )[i] <= upto,
        forall|i: int, j: int|
            0 <= i <= j < expand_lengths(counts, upto).len() ==> expand_lengths(counts, upto)[i]
                <= expand_lengths(counts, upto)[j],
    decreases upto,
{
    if upto > 0 {
        lemma_expand_lengths_wf(counts, upto - 1);
        let prev = expand_lengths(counts, upto - 1);
        let cur = expand_lengths(counts, upto);
        assert forall|i: int| 0 <= i < cur.len() implies 1 <= #[trigger] cur[i] <= upto by {
            if i < prev.len() {
                assert(cur[i] == prev[i]);
            } else {
                assert(cur[i] == upto as u8);
            }
        }
        assert forall|i: int, j: int| 0 <= i <= j < cur.len() implies cur[i] <= cur[j] by {
            if j < prev.len() {
                assert(cur[i] == prev[i]);
                assert(cur[j] == prev[j]);
            } else if i < prev.len() {
                assert(cur[i] == prev[i]);
                assert(cur[j] == upto as u8);
            } else {
                assert(cur[i] == upto as u8);
                assert(cur[j] == upto as u8);
            }
        }
    }
}

proof fn lemma_kraft_sum_mono(lens: Seq<u8>, a: int, b: int)
    requires
        0 <= a <= b <= lens.len(),
        forall|i: int| 0 <= i < lens.len() ==> #[trigger] lens[i] <= 16,
    ensures
        kraft_sum(lens, a) <= kraft_sum(lens, b),
    decreases b - a,
{
    if a < b {
        lemma_kraft_sum_mono(lens, a, b - 1);
        lemma_pow2_pos((16 - lens[b - 1]) as nat);
    }
}

/// Canonical Huffman code table built from a JPEG-style size histogram and
/// value list. Codes are stored shortest first, in assignment order.
#[derive(Debug)]
pub struct Table {
    codes: Vec<Code>,
}

impl Table {
    /// The codes of the table, in assignment order.
    pub closed spec fn codes_spec(self) -> Seq<Code> {
        self.codes@
    }

    /// Well-formedness: lengths lie in 1..=16 and never decrease, and the
    /// left-aligned window values strictly increase, each by at least the
    /// full span of the earlier code. This is exactly the shape the Annex
    /// C assignment produces, and it makes every lookup unambiguous.
    pub open spec fn wf(self) -> bool {
        &&& forall|i: int|
            0 <= i < self.codes_spec().len() ==> code_wf(#[trigger] self.codes_spec()[i])
        &&& forall|i: int, j: int|
            #![trigger self.codes_spec()[i], self.codes_spec()[j]]
            0 <= i < j < self.codes_spec().len() ==> {
                &&& self.codes_spec()[i].length <= self.codes_spec()[j].length
                &&& code_weight(self.codes_spec()[j]) >= code_weight(self.codes_spec()[i]) + pow2(
                    (16 - self.codes_spec()[i].length) as nat,
                )
            }
    }

    /// Create a Huffman table from a size histogram and a value table.
    ///
    /// `size_data` must hold 16 entries; there are `size_data[i]` codes of
    /// bit length `i + 1`, and code number `k` (shortest first) maps to
    /// `data_table[k]`. Codes are assigned canonically per JPEG Annex C:
    /// counting up within one length, and shifting left once whenever the
    /// length steps up. Fails when the histogram over-fills the code
    /// space or the value table does not match it.
    #[verifier::rlimit(100)]
    pub fn from_size_data_tables(size_data: &Vec<u8>, data_table: &Vec<u8>) -> (r: Result<
        Table,
        DecodeError,
    >)
        ensures
            match r {
                Ok(t) => {
                    let lens = expand_lengths(size_data@, 16);
                    &&& size_data@.len() == 16
                    &&& data_table@.len() == lens.len()
                    &&& kraft_ok(lens)
                    &&& t.wf()
                    &&& t.codes_spec().len() == lens.len()
                    &&& forall|k: int|
                        0 <= k < lens.len() ==> {
                            &&& (#[trigger] t.codes_spec()[k]).length == lens[k]
                            &&& t.codes_spec()[k].value == data_table@[k]
                            &&& code_weight(t.codes_spec()[k]) == kraft_sum(lens, k)
                        }
                    &&& t.codes_spec() == canonical_codes(size_data@, data_table@)
                },
                Err(e) => {
                    &&& e == DecodeError::MalformedHeader
                    &&& !(size_data@.len() == 16 && data_table@.len() == expand_lengths(
                        size_data@,
                        16,
                    ).len() && kraft_ok(expand_lengths(size_data@, 16)))
                },
            },
    {
        if size_data.len() != 16 {
            return Err(DecodeError::MalformedHeader);
        }
        let ghost lens = expand_lengths(size_data@, 16);
        proof {
            lemma_expand_lengths_wf(size_data@, 16);
        }
        let mut lengths: Vec<u8> = Vec::new();
        let mut i: usize = 0;
        while i < 16
            invariant
                i <= 16,
                size_data@.len() == 16,
                lengths@ =~= expand_lengths(size_data@, i as int),
            decreases 16 - i,
        {
            let count = size_data[i];
            let mut j: u8 = 0;
            while j < count
                invariant
                    i < 16,
                    j <= count,
                    count == size_data@[i as int],
                    size_data@.len() == 16,
                    lengths@ =~= expand_lengths(size_data@, i as int) + Seq::new(
                        j as nat,
                        |_k: int| (i + 1) as u8,
                    ),
                decreases count - j,
            {
                lengths.push((i + 1) as u8);
                j = j + 1;
            }
            i = i + 1;
        }
        assert(lengths@ =~= lens);
        if lengths.len() != data_table.len() {
            return Err(DecodeError::MalformedHeader);
        }
        let n = lengths.len();
        let mut codes: Vec<Code> = Vec::new();
        let mut code: u32 = 0;
        let mut size: u8 = if n > 0 {
            lengths[0]
        } else {
            1
        };
        proof {
            lemma_pow2_pos((16 - size) as nat);
        }
        let mut k: usize = 0;
        while k < n
            invariant
                k <= n,
                size_data@.len() == 16,
                lens == expand_lengths(size_data@, 16),
                n == lens.len(),
                n == data_table@.len(),
                lengths@ == lens,
                forall|m: int| 0 <= m < n ==> 1 <= #[trigger] lens[m] <= 16,
                forall|a: int, b: int| 0 <= a <= b < n ==> lens[a] <= lens[b],
                1 <= size <= 16,
                k > 0 ==> size == lens[k - 1],
                k == 0 ==> n == 0 || size == lens[0],
                codes@.len() == k,
                forall|m: int|
                    0 <= m < k ==> {
                        &&& (#[trigger] codes@[m]).length == lens[m]
                        &&& codes@[m].value == data_table@[m]
                        &&& code_wf(codes@[m])
                        &&& code_weight(codes@[m]) == kraft_sum(lens, m)
                    },
                forall|m: int|
                    0 <= m < k ==> kraft_sum(lens, m) + pow2((16 - #[trigger] lens[m]) as nat)
                        <= 65536,
                code as int * pow2((16 - size) as nat) == kraft_sum(lens, k as int),
                code as int <= pow2(size as nat),
            decreases n - k,
        {
            let l = lengths[k];
            assert(size <= l);
            while size < l
                invariant
                    size <= l,
                    l <= 16,
                    1 <= size,
                    code as int * pow2((16 - size) as nat) == kraft_sum(lens, k as int),
                    code as int <= pow2(size as nat),
                decreases l - size,
            {
                proof {
                    lemma_pow2_adds((16 - size - 1) as nat, 1);
                    lemma_pow2_adds(size as nat, 1);
                    lemma2_to64();
                    if size < 16 {
                        lemma_pow2_strictly_increases(size as nat, 16);
                    }
                    assert(pow2(16) == 65536);
                    assert(code <= 65536);
                }
                let ghost c0 = code as int;
                let ghost s0 = size as int;
                code = code * 2;
                size = size + 1;
                proof {
                    assert(pow2((16 - s0) as nat) == pow2((16 - s0 - 1) as nat) * 2);
                    assert(pow2((s0 + 1) as nat) == pow2(s0 as nat) * 2);
                    assert(code as int * pow2((16 - size) as nat) == c0 * pow2((16 - s0) as nat))
                        by (nonlinear_arith)
                        requires
                            code as int == c0 * 2,
                            size == s0 + 1,
                            pow2((16 - s0) as nat) == pow2((16 - s0 - 1) as nat) * 2,
                            0 <= s0 < 16,
                    ;
                    assert(code as int <= pow2(size as nat)) by (nonlinear_arith)
                        requires
                            code as int == c0 * 2,
                            size == s0 + 1,
                            c0 <= pow2(s0 as nat),
                            pow2((s0 + 1) as nat) == pow2(s0 as nat) * 2,
                            0 <= s0,
                    ;
                }
            }
            proof {
                lemma_pow2_pos((16 - l) as nat);
                lemma_pow2_strictly_increases(l as nat, 17);
                lemma2_to64();
                assert(pow2(17) == 131072);
            }
            let limit: u32 = 1u32 << (l as u32);
            proof {
                vstd::bits::lemma_u32_shl_is_mul(1u32, l as u32);
            }
            if code >= limit {
                proof {
                    // The running window value has reached 2^16: the
                    // histogram over-fills the code space at index k.
                    assert(code as int >= pow2(l as nat));
                    vstd::arithmetic::mul::lemma_mul_inequality(
                        pow2(l as nat) as int,
                        code as int,
                        pow2((16 - l) as nat) as int,
                    );
                    lemma_pow2_adds(l as nat, (16 - l) as nat);
                    assert(pow2(16) == 65536);
                    assert(kraft_sum(lens, k as int) >= 65536);
                    assert(lens[k as int] == l);
                    assert(kraft_sum(lens, k as int) + pow2((16 - lens[k as int]) as nat) > 65536);
                    assert(!kraft_ok(lens));
                    assert(lengths@.len() == data_table@.len());
                    assert(!(size_data@.len() == 16 && data_table@.len() == expand_lengths(
                        size_data@,
                        16,
                    ).len() && kraft_ok(expand_lengths(size_data@, 16))));
                }
                return Err(DecodeError::MalformedHeader);
            }
            codes.push(
                Code { length: l, code: (code as u16), value: data_table[k] },
            );
            proof {
                assert(code < limit);
                assert((code as int) < pow2(l as nat));
                assert(kraft_sum(lens, k as int + 1) == kraft_sum(lens, k as int) + pow2(
                    (16 - l) as nat,
                ));
                assert((code as int + 1) * pow2((16 - l) as nat) == code as int * pow2(
                    (16 - l) as nat,
                ) + pow2((16 - l) as nat)) by (nonlinear_arith);
                // the freshly pushed code is well-formed and sits at its
                // kraft window
                assert(code_wf(codes@[k as int]));
                assert(code_weight(codes@[k as int]) == kraft_sum(lens, k as int));
                // the window stays within 2^16
                assert((code as int + 1) <= pow2(l as nat));
                vstd::arithmetic::mul::lemma_mul_inequality(
                    code as int + 1,
                    pow2(l as nat) as int,
                    pow2((16 - l) as nat) as int,
                );
                lemma_pow2_adds(l as nat, (16 - l) as nat);
                assert(pow2(16) == 65536);
                assert(kraft_sum(lens, k as int) + pow2((16 - l) as nat) <= 65536);
            }
            code = code + 1;
            k = k + 1;
        }
        let t = Table { codes };
        proof {
            assert forall|a: int, b: int|
                #![trigger t.codes_spec()[a], t.codes_spec()[b]]
                0 <= a < b < t.codes_spec().len() implies {
                &&& t.codes_spec()[a].length <= t.codes_spec()[b].length
                &&& code_weight(t.codes_spec()[b]) >= code_weight(t.codes_spec()[a]) + pow2(
                    (16 - t.codes_spec()[a].length) as nat,
                )
            } by {
                lemma_kraft_sum_mono(lens, a + 1, b);
            }
            assert forall|m: int| 0 <= m < lens.len() implies #[trigger] t.codes_spec()[m]
                == canonical_codes(size_data@, data_table@)[m] by {
                let c = t.codes_spec()[m];
                let pw = pow2((16 - c.length) as nat) as int;
                lemma_pow2_pos((16 - c.length) as nat);
                vstd::arithmetic::div_mod::lemma_fundamental_div_mod_converse_div(
                    kraft_sum(lens, m),
                    pw,
                    c.code as int,
                    0,
                );
                assert(kraft_sum(lens, m) / pw == c.code as int);
            }
            assert(t.codes_spec() =~= canonical_codes(size_data@, data_table@));
        }
        Ok(t)
    }
}

proof fn lemma_weight_gap_no_prefix(a: Code, b: Code)
    requires
        code_wf(a),
        code_wf(b),
        a.length <= b.length,
        code_weight(b) >= code_weight(a) + pow2((16 - a.length) as nat),
    ensures
        (b.code as int) / pow2((b.length - a.length) as nat) as int > a.code as int,
{
    let d = (b.length - a.length) as nat;
    let xa = pow2((16 - a.length) as nat) as int;
    let xb = pow2((16 - b.length) as nat) as int;
    let q = (b.code as int) / pow2(d) as int;
    let r = (b.code as int) % pow2(d) as int;
    lemma_pow2_pos(d);
    lemma_pow2_pos((16 - a.length) as nat);
    lemma_pow2_pos((16 - b.length) as nat);
    lemma_fundamental_div_mod(b.code as int, pow2(d) as int);
    lemma_pow2_adds(d, (16 - b.length) as nat);
    assert(code_weight(b) == q * xa + r * xb) by (nonlinear_arith)
        requires
            b.code as int == pow2(d) * q + r,
            pow2(d) * xb == xa,
            code_weight(b) == b.code as int * xb,
    ;
    assert(r * xb < xa) by (nonlinear_arith)
        requires
            0 <= r < pow2(d),
            pow2(d) * xb == xa,
            xb > 0,
    ;
    assert(code_weight(a) + xa == (a.code as int + 1) * xa) by (nonlinear_arith)
        requires
            code_weight(a) == a.code as int * xa,
    ;
    assert(q > a.code as int) by (nonlinear_arith)
        requires
            (a.code as int + 1) * xa <= q * xa + r * xb,
            r * xb < xa,
            xa > 0,
    ;
}

impl Table {
    /// Canonical code property: in a well-formed table no code's pattern
    /// is a bit-prefix of another code of greater or equal length, so a
    /// lookup that scans lengths shortest-first is unambiguous; and
    /// earlier-assigned (shorter-or-equal) codes sort before later ones
    /// in left-aligned code-value order.
    pub proof fn lemma_canonical_prefix_free(self)
        requires
            self.wf(),
        ensures
            forall|i: int, j: int|
                #![trigger self.codes_spec()[i], self.codes_spec()[j]]
                0 <= i < self.codes_spec().len() && 0 <= j < self.codes_spec().len() && i != j
                    && self.codes_spec()[i].length <= self.codes_spec()[j].length
                    ==> (self.codes_spec()[j].code as int) / pow2(
                    (self.codes_spec()[j].length - self.codes_spec()[i].length) as nat,
                ) as int != self.codes_spec()[i].code as int,
            forall|i: int, j: int|
                #![trigger self.codes_spec()[i], self.codes_spec()[j]]
                0 <= i < j < self.codes_spec().len() ==> code_weight(self.codes_spec()[i])
                    < code_weight(self.codes_spec()[j]),
    {
        assert forall|i: int, j: int|
            #![trigger self.codes_spec()[i], self.codes_spec()[j]]
            0 <= i < j < self.codes_spec().len() implies code_weight(self.codes_spec()[i])
            < code_weight(self.codes_spec()[j]) by {
            lemma_pow2_pos((16 - self.codes_spec()[i].length) as nat);
        }
        let cs = self.codes_spec();
        assert forall|i: int, j: int|
            #![trigger cs[i], cs[j]]
            0 <= i < cs.len() && 0 <= j < cs.len() && i != j && cs[i].length
                <= cs[j].length implies (cs[j].code as int) / pow2(
            (cs[j].length - cs[i].length) as nat,
        ) as int != cs[i].code as int by {
            let a = cs[i];
            let b = cs[j];
            if i < j {
                lemma_weight_gap_no_prefix(a, b);
            } else {
                // sorted lengths force a.length == b.length here, and the
                // window gap from j to i makes the codes differ
                assert(b.length <= a.length);
                lemma_weight_gap_no_prefix(b, a);
                lemma2_to64();
                assert(pow2(0) == 1);
                assert((a.code as int) / 1 == a.code as int);
                assert((b.code as int) / 1 == b.code as int);
            }
        }
    }

    /// In a well-formed table, a (length, pattern) pair occurs at most
    /// once: codes never collide.
    pub proof fn lemma_wf_unique(self)
        requires
            self.wf(),
        ensures
            forall|i: int, j: int|
                #![trigger self.codes_spec()[i], self.codes_spec()[j]]
                0 <= i < self.codes_spec().len() && 0 <= j < self.codes_spec().len() && i != j
                    ==> !(self.codes_spec()[i].length == self.codes_spec()[j].length
                    && self.codes_spec()[i].code == self.codes_spec()[j].code),
    {
        let cs = self.codes_spec();
        assert forall|i: int, j: int|
            #![trigger cs[i], cs[j]]
            0 <= i < cs.len() && 0 <= j < cs.len() && i != j implies !(cs[i].length
            == cs[j].length && cs[i].code == cs[j].code) by {
            if i < j {
                lemma_pow2_pos((16 - cs[i].length) as nat);
            } else {
                lemma_pow2_pos((16 - cs[j].length) as nat);
            }
        }
    }

    /// A copy of the table with the same codes.
    pub fn duplicate(&self) -> (r: Table)
        ensures
            r.codes_spec() == self.codes_spec(),
    {
        let mut codes: Vec<Code> = Vec::new();
        let mut i: usize = 0;
        while i < self.codes.len()
            invariant
                i <= self.codes@.len(),
                codes@ =~= self.codes@.take(i as int),
            decreases self.codes@.len() - i,
        {
            codes.push(self.codes[i]);
            i = i + 1;
            proof {
                assert(codes@ =~= self.codes@.take(i as int));
            }
        }
        proof {
            assert(self.codes@.take(self.codes@.len() as int) =~= self.codes@);
        }
        Table { codes }
    }

    /// All codes whose pattern is `len` bits long, in assignment order.
    pub fn codes_of_length(&self, len: usize) -> (r: Vec<Code>)
        requires
            1 <= len <= 16,
        ensures
            r@ == codes_with_length(self.codes_spec(), len as u8),
    {
        let len8: u8 = len as u8;
        let mut r: Vec<Code> = Vec::new();
        let mut m: usize = 0;
        while m < self.codes.len()
            invariant
                m <= self.codes.len(),
                r@ == codes_with_length(self.codes@.take(m as int), len8),
            decreases self.codes.len() - m,
        {
            let c = self.codes[m];
            proof {
                lemma_codes_with_length_step(self.codes@, len8, m as int);
            }
            if c.length == len8 {
                r.push(c);
            }
            m = m + 1;
        }
        proof {
            assert(self.codes@.take(self.codes@.len() as int) == self.codes@);
        }
        r
    }
}

/// The subsequence of `cs` whose codes have pattern length `len`.
pub open spec fn codes_with_length(cs: Seq<Code>, len: u8) -> Seq<Code> {
    cs.filter(|c: Code| c.length == len)
}

proof fn lemma_codes_with_length_step(cs: Seq<Code>, len: u8, m: int)
    requires
        0 <= m < cs.len(),
    ensures
        codes_with_length(cs.take(m + 1), len) == if cs[m].length == len {
            codes_with_length(cs.take(m), len).push(cs[m])
        } else {
            codes_with_length(cs.take(m), len)
        },
{
    let taken = cs.take(m + 1);
    assert(taken.drop_last() =~= cs.take(m));
    assert(taken.last() == cs[m]);
    reveal_with_fuel(Seq::filter, 2);
}

/// Whether some code of `t` has length `len` and pattern `bits`.
pub open spec fn has_code(t: Table, len: int, bits: int) -> bool {
    exists|i: int|
        0 <= i < t.codes_spec().len() && (#[trigger] t.codes_spec()[i]).length == len
            && t.codes_spec()[i].code == bits
}

/// The first code length from `l` up through 16 at which the next bits
/// of the stream spell a code of `t`; 17 when none does.
pub open spec fn match_len_from(t: Table, data: Seq<u8>, pos: int, l: int) -> int
    decreases 17 - l,
{
    if l >= 17 {
        17
    } else if has_code(t, l, bits_value(data, pos, l as nat)) {
        l
    } else {
        match_len_from(t, data, pos, l + 1)
    }
}

/// The length of the symbol a lookup at bit position `pos` resolves to,
/// scanning lengths shortest first; 17 when no code matches within 16
/// bits, which is a fatal corrupt-entropy-stream condition.
pub open spec fn match_len(t: Table, data: Seq<u8>, pos: int) -> int {
    match_len_from(t, data, pos, 1)
}

/// The value of the (unique, in a well-formed table) code of `t` with
/// length `len` and pattern `bits`.
pub open spec fn code_value_at(t: Table, len: int, bits: int) -> u8 {
    let i = choose|i: int|
        0 <= i < t.codes_spec().len() && (#[trigger] t.codes_spec()[i]).length == len
            && t.codes_spec()[i].code == bits;
    t.codes_spec()[i].value
}

proof fn lemma_code_value_unique(t: Table, len: int, bits: int, i: int)
    requires
        t.wf(),
        0 <= i < t.codes_spec().len(),
        t.codes_spec()[i].length == len,
        t.codes_spec()[i].code == bits,
    ensures
        code_value_at(t, len, bits) == t.codes_spec()[i].value,
{
    t.lemma_wf_unique();
    assert(has_code(t, len, bits));
    let j = choose|j: int|
        0 <= j < t.codes_spec().len() && (#[trigger] t.codes_spec()[j]).length == len
            && t.codes_spec()[j].code == bits;
    assert(j == i);
}

/// The sign-extension rule of JPEG Table F.2: a raw `s`-bit value below
/// 2^(s-1) stands for `raw - (2^s - 1)`, any other stands for itself, and
/// zero bits stand for zero.
pub open spec fn sign_extend(raw: int, s: nat) -> int {
    if s == 0 {
        0
    } else if raw < pow2((s - 1) as nat) {
        raw - pow2(s) + 1
    } else {
        raw
    }
}

/// Round-trip sign extension: for any bit length `s` in 1..16 and any raw
/// value in [0, 2^s), the decoded value is `raw - (2^s - 1)` below the
/// halfway point 2^(s-1) and `raw` itself from there up; zero-length
/// values decode to zero.
pub proof fn lemma_sign_extension_round_trip(s: nat, raw: int)
    requires
        1 <= s <= 15,
        0 <= raw < pow2(s),
    ensures
        raw < pow2((s - 1) as nat) ==> sign_extend(raw, s) == raw - (pow2(s) - 1),
        raw >= pow2((s - 1) as nat) ==> sign_extend(raw, s) == raw,
        sign_extend(0, 0) == 0,
{
}

/// Decode a raw value read from the bit stream per the sign-extension
/// rule (JPEG Table F.2).
pub fn value_correction(val: u16, len: usize) -> (r: i16)
    requires
        len <= 15,
        (val as int) < pow2(len as nat),
    ensures
        r as int == sign_extend(val as int, len as nat),
{
    if len == 0 {
        return 0;
    }
    proof {
        lemma2_to64();
        if len < 15 {
            lemma_pow2_strictly_increases(len as nat, 15);
        }
        assert(pow2(15) == 32768);
        lemma_pow2_adds((len - 1) as nat, 1);
        if (len - 1) < 15 {
            lemma_pow2_strictly_increases((len - 1) as nat, 15);
        }
        vstd::bits::lemma_u32_shl_is_mul(1u32, (len - 1) as u32);
    }
    let base_u: u32 = 1u32 << ((len - 1) as u32);
    let base: i32 = base_u as i32;
    let v: i32 = val as i32;
    if v < base {
        let out: i32 = v - 2 * base + 1;
        out as i16
    } else {
        v as i16
    }
}

/// A sign-extended coefficient as stored in a block; always in range
/// because raw values carry at most 15 bits.
pub open spec fn sign_extend16(raw: int, s: nat) -> i16 {
    sign_extend(raw, s) as i16
}

proof fn lemma_sign_extend_fits(raw: int, s: nat)
    requires
        s <= 15,
        0 <= raw < pow2(s),
    ensures
        -32767 <= sign_extend(raw, s) <= 32767,
        sign_extend16(raw, s) as int == sign_extend(raw, s),
{
    lemma2_to64();
    if s > 0 && s < 15 {
        lemma_pow2_strictly_increases(s, 15);
    }
    assert(pow2(15) == 32768);
}

/// A run of zero coefficients.
pub open spec fn zero_coeffs(n: nat) -> Seq<i16> {
    Seq::new(n, |_i: int| 0i16)
}

/// The DC step of the block state machine: one Huffman symbol from the
/// DC table gives the bit length of the literal difference that follows,
/// which is then sign-extended. Lengths above 15 do not fit a coefficient
/// and are treated as corrupt.
pub open spec fn decode_dc_spec(dc: Table, data: Seq<u8>, pos: int) -> Option<(i16, int)> {
    let l = match_len(dc, data, pos);
    if l > 16 {
        None
    } else {
        let s = code_value_at(dc, l, bits_value(data, pos, l as nat)) as int;
        if s > 15 {
            None
        } else {
            let raw = bits_value(data, pos + l, s as nat);
            Some((sign_extend16(raw, s as nat), pos + l + s))
        }
    }
}

/// The AC steps of the block state machine, filling `remaining` more
/// coefficients: symbol 0x00 ends the block and zero-fills it, symbol
/// 0xF0 stands for sixteen zero coefficients (truncated to what still
/// fits), and any other symbol carries a zero-run length in its high
/// nibble and the bit length of the following literal in its low nibble.
pub open spec fn decode_ac_spec(ac: Table, data: Seq<u8>, pos: int, remaining: nat) -> Option<
    (Seq<i16>, int),
>
    decreases remaining,
{
    if remaining == 0 {
        Some((Seq::empty(), pos))
    } else {
        let l = match_len(ac, data, pos);
        if l > 16 {
            None
        } else {
            let sym = code_value_at(ac, l, bits_value(data, pos, l as nat));
            let pos1 = pos + l;
            if sym == 0x00 {
                Some((zero_coeffs(remaining), pos1))
            } else if sym == 0xF0 {
                let k = if remaining < 16 {
                    remaining
                } else {
                    16nat
                };
                match decode_ac_spec(ac, data, pos1, (remaining - k) as nat) {
                    Some(rest) => Some((zero_coeffs(k) + rest.0, rest.1)),
                    None => None,
                }
            } else {
                let run = sym as int / 16;
                let s = sym as int % 16;
                let zn = if run <= remaining - 1 {
                    run
                } else {
                    remaining - 1
                };
                let raw = bits_value(data, pos1, s as nat);
                let v = sign_extend16(raw, s as nat);
                match decode_ac_spec(ac, data, pos1 + s, (remaining - zn - 1) as nat) {
                    Some(rest) => Some((zero_coeffs(zn as nat).push(v) + rest.0, rest.1)),
                    None => None,
                }
            }
        }
    }
}

/// One whole 8x8 block: the DC difference, then AC coefficients until
/// exactly 64 coefficients stand. `None` is a fatal corrupt-entropy
/// condition for the scan.
pub open spec fn decode_block_spec(dc: Table, ac: Table, data: Seq<u8>, pos: int) -> Option<
    (Seq<i16>, int),
> {
    match decode_dc_spec(dc, data, pos) {
        None => None,
        Some(d) => match decode_ac_spec(ac, data, d.1, 63) {
            None => None,
            Some(rest) => Some((seq![d.0] + rest.0, rest.1)),
        },
    }
}

proof fn lemma_match_len_from_ge(t: Table, data: Seq<u8>, pos: int, l: int)
    requires
        l <= 17,
    ensures
        match_len_from(t, data, pos, l) >= l,
    decreases 17 - l,
{
    if l < 17 && !has_code(t, l, bits_value(data, pos, l as nat)) {
        lemma_match_len_from_ge(t, data, pos, l + 1);
    }
}

proof fn lemma_decode_ac_advances(ac: Table, data: Seq<u8>, pos: int, remaining: nat)
    ensures
        ({
            match decode_ac_spec(ac, data, pos, remaining) {
                Some(rest) => pos <= rest.1,
                None => true,
            }
        }),
    decreases remaining,
{
    if remaining > 0 {
        lemma_match_len_from_ge(ac, data, pos, 1);
        let l = match_len(ac, data, pos);
        if l <= 16 {
            let sym = code_value_at(ac, l, bits_value(data, pos, l as nat));
            let pos1 = pos + l;
            if sym == 0x00 {
            } else if sym == 0xF0 {
                let k = if remaining < 16 {
                    remaining
                } else {
                    16nat
                };
                lemma_decode_ac_advances(ac, data, pos1, (remaining - k) as nat);
            } else {
                let run = sym as int / 16;
                let s = sym as int % 16;
                let zn = if run <= remaining - 1 {
                    run
                } else {
                    remaining - 1
                };
                lemma_decode_ac_advances(ac, data, pos1 + s, (remaining - zn - 1) as nat);
            }
        }
    }
}

/// A decoded block only moves the cursor forward.
pub proof fn lemma_decode_block_advances(dc: Table, ac: Table, data: Seq<u8>, pos: int)
    ensures
        ({
            match decode_block_spec(dc, ac, data, pos) {
                Some(b) => pos <= b.1,
                None => true,
            }
        }),
{
    lemma_match_len_from_ge(dc, data, pos, 1);
    match decode_dc_spec(dc, data, pos) {
        None => {},
        Some(d) => {
            lemma_decode_ac_advances(ac, data, d.1, 63);
        },
    }
}

/// Stateful cursor over the entropy-coded byte region. It hands out runs
/// of bits, MSB first, and reads the fill byte once past the end of the
/// data, so it never faults on a truncated final byte.
pub struct HuffmanDecoder {
    /// The entropy-coded bytes, already freed of stuffing bytes.
    data: Vec<u8>,
    /// Number of bits consumed since the start of `data`.
    pos: usize,
}

impl HuffmanDecoder {
    /// The bytes the cursor walks over.
    pub closed spec fn data_spec(self) -> Seq<u8> {
        self.data@
    }

    /// The bit position of the cursor: bits consumed since the start.
    pub closed spec fn pos_spec(self) -> int {
        self.pos as int
    }

    pub fn new(data: Vec<u8>) -> (r: HuffmanDecoder)
        ensures
            r.data_spec() == data@,
            r.pos_spec() == 0,
    {
        HuffmanDecoder { data, pos: 0 }
    }

    /// The cursor's absolute bit position.
    pub fn bit_position(&self) -> (r: usize)
        ensures
            r == self.pos_spec(),
    {
        self.pos
    }

    /// The bit position is a machine word.
    pub proof fn lemma_pos_in_range(&self)
        ensures
            0 <= self.pos_spec() <= usize::MAX,
    {
    }

    /// How many bits of the byte at the cursor have been consumed.
    pub fn bits_read(&self) -> (r: usize)
        ensures
            r == self.pos_spec() % 8,
    {
        self.pos % 8
    }

    /// The index of the next whole byte the cursor would pull in, counted
    /// as if a four-byte window had been filled up front.
    pub fn next_index(&self) -> (r: usize)
        requires
            self.pos_spec() / 8 + 4 <= usize::MAX,
        ensures
            r == self.pos_spec() / 8 + 4,
    {
        self.pos / 8 + 4
    }

    /// Returns the next `n` bits, MSB first, without consuming them.
    pub fn peek_bits(&self, n: usize) -> (r: u16)
        requires
            n <= 16,
            self.pos_spec() + 16 <= usize::MAX,
        ensures
            r as int == bits_value(self.data_spec(), self.pos_spec(), n as nat),
    {
        let mut r: u16 = 0;
        let mut k: usize = 0;
        while k < n
            invariant
                k <= n,
                n <= 16,
                self.pos + 16 <= usize::MAX,
                r as int == bits_value(self.data_spec(), self.pos as int, k as nat),
            decreases n - k,
        {
            let bit_index: usize = self.pos + k;
            let byte_index: usize = bit_index / 8;
            let byte: u8 = if byte_index < self.data.len() {
                self.data[byte_index]
            } else {
                0xAA
            };
            let sh: u8 = (7 - (bit_index % 8)) as u8;
            let bit: u8 = (byte >> sh) & 1;
            proof {
                assert(byte == stream_byte(self.data@, bit_index as int / 8));
                assert(bit == stream_bit(self.data@, bit_index as int));
                lemma_stream_bit_is_bit(self.data@, bit_index as int);
                lemma_bits_value_bound(self.data@, self.pos as int, k as nat);
                lemma2_to64();
                vstd::arithmetic::power2::lemma_pow2_strictly_increases(k as nat, 16);
                assert(pow2(16) == 65536);
            }
            r = r * 2 + (bit as u16);
            k = k + 1;
        }
        r
    }

    /// Advances the cursor by `n` bits.
    pub fn consume(&mut self, n: usize)
        requires
            old(self).pos_spec() + n <= usize::MAX,
        ensures
            final(self).data_spec() == old(self).data_spec(),
            final(self).pos_spec() == old(self).pos_spec() + n,
    {
        self.pos = self.pos + n;
    }

    /// Decode the next Huffman symbol from `table`: scan candidate code
    /// lengths shortest first, and take the first code whose pattern
    /// equals the next bits of the stream. On a match the code's bits are
    /// consumed; when no code matches within 16 bits nothing is consumed
    /// and `None` is returned.
    pub fn next_code(&mut self, table: &Table) -> (r: Option<u8>)
        requires
            old(self).pos_spec() + 16 <= usize::MAX,
        ensures
            final(self).data_spec() == old(self).data_spec(),
            ({
                let ml = match_len(*table, old(self).data_spec(), old(self).pos_spec());
                if ml <= 16 {
                    &&& final(self).pos_spec() == old(self).pos_spec() + ml
                    &&& exists|i: int|
                        0 <= i < table.codes_spec().len() && (#[trigger] table.codes_spec()[i]).length
                            == ml && table.codes_spec()[i].code == bits_value(
                            old(self).data_spec(),
                            old(self).pos_spec(),
                            ml as nat,
                        ) && r == Some(table.codes_spec()[i].value)
                } else {
                    &&& r is None
                    &&& final(self).pos_spec() == old(self).pos_spec()
                }
            }),
    {
        let ghost data = self.data@;
        let ghost pos = self.pos as int;
        let mut l: usize = 1;
        while l <= 16
            invariant
                1 <= l <= 17,
                self.data@ == data,
                self.pos as int == pos,
                data == old(self).data_spec(),
                pos == old(self).pos_spec(),
                pos + 16 <= usize::MAX,
                match_len(*table, data, pos) == match_len_from(*table, data, pos, l as int),
            decreases 17 - l,
        {
            let bits = self.peek_bits(l);
            let n = table.codes.len();
            let mut m: usize = 0;
            while m < n
                invariant
                    m <= n,
                    n == table.codes@.len(),
                    self.data@ == data,
                    self.pos as int == pos,
                    data == old(self).data_spec(),
                    pos == old(self).pos_spec(),
                    pos + 16 <= usize::MAX,
                    bits as int == bits_value(data, pos, l as nat),
                    1 <= l <= 16,
                    match_len(*table, data, pos) == match_len_from(*table, data, pos, l as int),
                    forall|idx: int|
                        0 <= idx < m ==> !((#[trigger] table.codes@[idx]).length == l as u8
                            && table.codes@[idx].code == bits),
                decreases n - m,
            {
                let c = table.codes[m];
                if c.length == l as u8 && c.code == bits {
                    self.consume(l);
                    proof {
                        assert(table.codes_spec() == table.codes@);
                        assert((table.codes_spec()[m as int]).length == l as u8);
                        assert(table.codes_spec()[m as int].code == bits);
                        assert(has_code(*table, l as int, bits_value(data, pos, l as nat)));
                        assert(match_len_from(*table, data, pos, l as int) == l as int);
                    }
                    return Some(c.value);
                }
                m = m + 1;
            }
            proof {
                assert(table.codes_spec() == table.codes@);
                assert(!has_code(*table, l as int, bits_value(data, pos, l as nat)));
                assert(match_len_from(*table, data, pos, l as int) == match_len_from(
                    *table,
                    data,
                    pos,
                    l as int + 1,
                ));
            }
            l = l + 1;
        }
        proof {
            assert(match_len_from(*table, data, pos, 17) == 17);
        }
        None
    }

    /// Reads and consumes `n` raw (non-Huffman-coded) bits.
    pub fn read_n_bits(&mut self, n: usize) -> (r: u16)
        requires
            n <= 16,
            old(self).pos_spec() + 16 <= usize::MAX,
        ensures
            final(self).data_spec() == old(self).data_spec(),
            final(self).pos_spec() == old(self).pos_spec() + n,
            r as int == bits_value(old(self).data_spec(), old(self).pos_spec(), n as nat),
    {
        let r = self.peek_bits(n);
        self.consume(n);
        r
    }
}

impl HuffmanDecoder {
    /// Read the next 8x8 block of quantized coefficients: one DC
    /// difference, then run-length coded AC coefficients. Exactly 64
    /// coefficients are emitted, or the whole scan fails.
    #[verifier::loop_isolation(false)]
    #[verifier::rlimit(100)]
    pub fn next_block(&mut self, ac_table: &Table, dc_table: &Table) -> (r: Result<
        Vec<i16>,
        DecodeError,
    >)
        requires
            ac_table.wf(),
            dc_table.wf(),
            old(self).pos_spec() + 4096 <= usize::MAX,
        ensures
            final(self).data_spec() == old(self).data_spec(),
            old(self).pos_spec() <= final(self).pos_spec() <= old(self).pos_spec() + 2048,
            match decode_block_spec(
                *dc_table,
                *ac_table,
                old(self).data_spec(),
                old(self).pos_spec(),
            ) {
                Some(res) => match r {
                    Ok(v) => v@ == res.0 && v@.len() == 64 && final(self).pos_spec() == res.1,
                    Err(_) => false,
                },
                None => match r {
                    Ok(_) => false,
                    Err(e) => e == DecodeError::EntropyDecodeFailure,
                },
            },
    {
        let ghost data = self.data@;
        let ghost pos0 = self.pos as int;
        let mut block: Vec<i16> = Vec::new();

        // DC: the symbol is the bit length of the literal difference.
        let dc_sym = self.next_code(dc_table);
        let ghost ml0 = match_len(*dc_table, data, pos0);
        let s: u8 = match dc_sym {
            Some(v) => v,
            None => {
                return Err(DecodeError::EntropyDecodeFailure);
            },
        };
        proof {
            let i = choose|i: int|
                0 <= i < dc_table.codes_spec().len() && (#[trigger] dc_table.codes_spec()[i]).length
                    == ml0 && dc_table.codes_spec()[i].code == bits_value(data, pos0, ml0 as nat)
                    && dc_sym == Some(dc_table.codes_spec()[i].value);
            lemma_code_value_unique(*dc_table, ml0, bits_value(data, pos0, ml0 as nat), i);
        }
        if s > 15 {
            return Err(DecodeError::EntropyDecodeFailure);
        }
        proof {
            lemma_bits_value_bound(data, pos0 + ml0, s as nat);
            lemma_sign_extend_fits(bits_value(data, pos0 + ml0, s as nat), s as nat);
        }
        let raw = self.read_n_bits(s as usize);
        let dc_val = value_correction(raw, s as usize);
        block.push(dc_val);
        let ghost pos1 = self.pos as int;
        proof {
            assert(decode_dc_spec(*dc_table, data, pos0) == Some((dc_val, pos1)));
        }

        // AC: fill the remaining 63 coefficients.
        while block.len() < 64
            invariant
                1 <= block.len() <= 64,
                self.data@ == data,
                pos1 <= self.pos as int,
                self.pos as int <= pos0 + 31 * (block.len() as int),
                block@[0] == dc_val,
                ({
                    let rem = (64 - block.len()) as nat;
                    match decode_ac_spec(*ac_table, data, self.pos as int, rem) {
                        Some(rest) => decode_ac_spec(*ac_table, data, pos1, 63) == Some(
                            (block@.skip(1) + rest.0, rest.1),
                        ),
                        None => decode_ac_spec(*ac_table, data, pos1, 63) is None,
                    }
                }),
            decreases 64 - block.len(),
        {
            let ghost cur = self.pos as int;
            let ghost rem = (64 - block.len()) as nat;
            let ghost done = block@;
            let sym_opt = self.next_code(ac_table);
            let ghost mla = match_len(*ac_table, data, cur);
            let sym: u8 = match sym_opt {
                Some(v) => v,
                None => {
                    return Err(DecodeError::EntropyDecodeFailure);
                },
            };
            proof {
                let i = choose|i: int|
                    0 <= i < ac_table.codes_spec().len() && (
                    #[trigger] ac_table.codes_spec()[i]).length == mla
                        && ac_table.codes_spec()[i].code == bits_value(data, cur, mla as nat)
                        && sym_opt == Some(ac_table.codes_spec()[i].value);
                lemma_code_value_unique(*ac_table, mla, bits_value(data, cur, mla as nat), i);
                assert(sym == code_value_at(*ac_table, mla, bits_value(data, cur, mla as nat)));
            }
            let ghost posn = self.pos as int;
            if sym == 0x00 {
                // end of block: zero-fill the rest
                while block.len() < 64
                    invariant
                        done.len() <= block.len() <= 64,
                        block@ == done + zero_coeffs((block.len() - done.len()) as nat),
                    decreases 64 - block.len(),
                {
                    block.push(0i16);
                    proof {
                        assert(block@ =~= done + zero_coeffs((block.len() - done.len()) as nat));
                    }
                }
                proof {
                    assert(decode_ac_spec(*ac_table, data, cur, rem) == Some(
                        (zero_coeffs(rem), posn),
                    ));
                    assert(block@.skip(1) =~= done.skip(1) + zero_coeffs(rem));
                    assert(decode_ac_spec(*ac_table, data, posn, 0) == Some(
                        (Seq::<i16>::empty(), posn),
                    ));
                    assert(block@.skip(1) + Seq::<i16>::empty() =~= block@.skip(1));
                }
            } else if sym == 0xF0 {
                // sixteen zero coefficients, truncated to what still fits
                let rem_now: usize = 64 - block.len();
                let k: usize = if rem_now < 16 {
                    rem_now
                } else {
                    16
                };
                let mut j: usize = 0;
                while j < k
                    invariant
                        j <= k,
                        block@ == done + zero_coeffs(j as nat),
                    decreases k - j,
                {
                    block.push(0i16);
                    j = j + 1;
                    proof {
                        assert(block@ =~= done + zero_coeffs(j as nat));
                    }
                }
                proof {
                    let rem2 = (rem - k) as nat;
                    match decode_ac_spec(*ac_table, data, posn, rem2) {
                        Some(rest2) => {
                            assert(decode_ac_spec(*ac_table, data, cur, rem) == Some(
                                (zero_coeffs(k as nat) + rest2.0, rest2.1),
                            ));
                            assert(block@.skip(1) + rest2.0 =~= done.skip(1) + (zero_coeffs(
                                k as nat,
                            ) + rest2.0));
                        },
                        None => {
                            assert(decode_ac_spec(*ac_table, data, cur, rem) is None);
                        },
                    }
                }
            } else {
                // a zero run, then one sign-extended literal
                proof {
                    assert(sym >> 4 == sym / 16) by (bit_vector);
                    assert(sym & 0x0F == sym % 16) by (bit_vector);
                    assert(sym % 16 < 16) by (bit_vector);
                }
                let run: usize = (sym >> 4) as usize;
                let s2: usize = (sym & 0x0F) as usize;
                let rem_now: usize = 64 - block.len();
                let zn: usize = if run <= rem_now - 1 {
                    run
                } else {
                    rem_now - 1
                };
                let mut j: usize = 0;
                while j < zn
                    invariant
                        j <= zn,
                        block@ == done + zero_coeffs(j as nat),
                    decreases zn - j,
                {
                    block.push(0i16);
                    j = j + 1;
                    proof {
                        assert(block@ =~= done + zero_coeffs(j as nat));
                    }
                }
                proof {
                    lemma_bits_value_bound(data, posn, s2 as nat);
                    lemma_sign_extend_fits(bits_value(data, posn, s2 as nat), s2 as nat);
                }
                let raw2 = self.read_n_bits(s2);
                let v2 = value_correction(raw2, s2);
                block.push(v2);
                proof {
                    let rem2 = (rem - zn - 1) as nat;
                    assert(v2 == sign_extend16(bits_value(data, posn, s2 as nat), s2 as nat));
                    match decode_ac_spec(*ac_table, data, posn + s2, rem2) {
                        Some(rest2) => {
                            assert(decode_ac_spec(*ac_table, data, cur, rem) == Some(
                                (zero_coeffs(zn as nat).push(v2) + rest2.0, rest2.1),
                            ));
                            assert(block@ =~= done + zero_coeffs(zn as nat).push(v2));
                            assert(block@.skip(1) + rest2.0 =~= done.skip(1) + (zero_coeffs(
                                zn as nat,
                            ).push(v2) + rest2.0));
                        },
                        None => {
                            assert(decode_ac_spec(*ac_table, data, cur, rem) is None);
                        },
                    }
                }
            }
        }
        proof {
            assert(decode_ac_spec(*ac_table, data, self.pos as int, 0) == Some(
                (Seq::<i16>::empty(), self.pos as int),
            ));
            assert(block@.skip(1) + Seq::<i16>::empty() =~= block@.skip(1));
            assert(seq![dc_val] + block@.skip(1) =~= block@);
        }
        Ok(block)
    }
}

} // verus!
