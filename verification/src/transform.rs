//! Zigzag reordering, dequantization and the integer inverse DCT.

use vstd::prelude::*;

verus! {

/// The zigzag serialization order of an 8x8 block: entry `k` is the
/// natural (row-major) index that zigzag position `k` comes from.
pub open spec fn zigzag_order() -> Seq<usize> {
    seq![
        0usize, 1, 8, 16, 9, 2, 3, 10, 17, 24, 32, 25, 18, 11, 4, 5, 12, 19, 26, 33, 40, 48, 41,
        34, 27, 20, 13, 6, 7, 14, 21, 28, 35, 42, 49, 56, 57, 50, 43, 36, 29, 22, 15, 23, 30, 37,
        44, 51, 58, 59, 52, 45, 38, 31, 39, 46, 53, 60, 61, 54, 47, 55, 62, 63,
    ]
}

/// The inverse permutation: entry `n` is the zigzag position at which
/// natural index `n` is serialized.
pub open spec fn zigzag_inv_order() -> Seq<usize> {
    seq![
        0usize, 1, 5, 6, 14, 15, 27, 28, 2, 4, 7, 13, 16, 26, 29, 42, 3, 8, 12, 17, 25, 30, 41,
        43, 9, 11, 18, 24, 31, 40, 44, 53, 10, 19, 23, 32, 39, 45, 52, 54, 20, 22, 33, 38, 46, 51,
        55, 60, 21, 34, 37, 47, 50, 56, 59, 61, 35, 36, 48, 49, 57, 58, 62, 63,
    ]
}

/// The two permutation tables agree up to position `k`: entries are in
/// range and each is the other's inverse.
pub open spec fn zigzag_tables_agree(k: int) -> bool
    decreases k,
{
    if k <= 0 {
        true
    } else {
        let i = k - 1;
        &&& zigzag_tables_agree(i)
        &&& zigzag_order()[i] < 64
        &&& zigzag_inv_order()[i] < 64
        &&& zigzag_inv_order()[zigzag_order()[i] as int] as int == i
        &&& zigzag_order()[zigzag_inv_order()[i] as int] as int == i
    }
}

proof fn lemma_zigzag_tables_spread(k: int)
    requires
        zigzag_tables_agree(k),
        0 <= k <= 64,
    ensures
        forall|i: int|
            0 <= i < k ==> {
                &&& (#[trigger] zigzag_order()[i]) < 64
                &&& zigzag_inv_order()[i] < 64
                &&& zigzag_inv_order()[zigzag_order()[i] as int] as int == i
                &&& zigzag_order()[zigzag_inv_order()[i] as int] as int == i
            },
    decreases k,
{
    if k > 0 {
        lemma_zigzag_tables_spread(k - 1);
    }
}

/// Zigzag and its inverse are mutually inverse permutations of 0..64.
pub proof fn lemma_zigzag_tables()
    ensures
        zigzag_order().len() == 64,
        zigzag_inv_order().len() == 64,
        forall|i: int|
            0 <= i < 64 ==> {
                &&& (#[trigger] zigzag_order()[i]) < 64
                &&& zigzag_inv_order()[i] < 64
                &&& zigzag_inv_order()[zigzag_order()[i] as int] as int == i
                &&& zigzag_order()[zigzag_inv_order()[i] as int] as int == i
            },
{
    assert(zigzag_order().len() == 64);
    assert(zigzag_inv_order().len() == 64);
    assert(zigzag_tables_agree(64)) by {
        reveal_with_fuel(zigzag_tables_agree, 65);
    }
    lemma_zigzag_tables_spread(64);
}

/// The serialization step: entry `k` of the result is entry
/// `zigzag_order()[k]` of the input.
pub open spec fn zigzag_spec(s: Seq<i32>) -> Seq<i32>
    recommends
        s.len() == 64,
{
    Seq::new(64, |k: int| s[zigzag_order()[k] as int])
}

/// The de-serialization step: entry `n` of the result is entry
/// `zigzag_inv_order()[n]` of the input.
pub open spec fn zigzag_inverse_spec(s: Seq<i32>) -> Seq<i32>
    recommends
        s.len() == 64,
{
    Seq::new(64, |n: int| s[zigzag_inv_order()[n] as int])
}

/// Zigzag followed by de-zigzag (or the other way around) reproduces any
/// 64-element sequence exactly: the two permutations are a bijection.
pub proof fn lemma_zigzag_bijection(s: Seq<i32>)
    requires
        s.len() == 64,
    ensures
        zigzag_inverse_spec(zigzag_spec(s)) == s,
        zigzag_spec(zigzag_inverse_spec(s)) == s,
{
    lemma_zigzag_tables();
    assert(zigzag_inverse_spec(zigzag_spec(s)) =~= s);
    assert(zigzag_spec(zigzag_inverse_spec(s)) =~= s);
}

/// Reorder a natural-order block into zigzag order.
pub fn zigzag(v: &Vec<i32>) -> (r: Vec<i32>)
    requires
        v.len() == 64,
    ensures
        r@ == zigzag_spec(v@),
{
    proof {
        lemma_zigzag_tables();
    }
    let table = zigzag_table();
    let mut r: Vec<i32> = Vec::new();
    let mut k: usize = 0;
    while k < 64
        invariant
            k <= 64,
            v.len() == 64,
            table@ == zigzag_order(),
            r@ =~= zigzag_spec(v@).take(k as int),
        decreases 64 - k,
    {
        proof {
            lemma_zigzag_tables();
        }
        r.push(v[table[k]]);
        k = k + 1;
        proof {
            assert(r@ =~= zigzag_spec(v@).take(k as int));
        }
    }
    proof {
        assert(zigzag_spec(v@).take(64) =~= zigzag_spec(v@));
    }
    r
}

/// Scatter a zigzag-order block back into natural row-major order.
pub fn zigzag_inverse(v: &Vec<i32>) -> (r: Vec<i32>)
    requires
        v.len() == 64,
    ensures
        r@ == zigzag_inverse_spec(v@),
{
    proof {
        lemma_zigzag_tables();
    }
    let table = zigzag_inv_table();
    let mut r: Vec<i32> = Vec::new();
    let mut n: usize = 0;
    while n < 64
        invariant
            n <= 64,
            v.len() == 64,
            table@ == zigzag_inv_order(),
            r@ =~= zigzag_inverse_spec(v@).take(n as int),
        decreases 64 - n,
    {
        proof {
            lemma_zigzag_tables();
        }
        r.push(v[table[n]]);
        n = n + 1;
        proof {
            assert(r@ =~= zigzag_inverse_spec(v@).take(n as int));
        }
    }
    proof {
        assert(zigzag_inverse_spec(v@).take(64) =~= zigzag_inverse_spec(v@));
    }
    r
}

fn zigzag_table() -> (t: Vec<usize>)
    ensures
        t@ == zigzag_order(),
{
    let t: Vec<usize> = vec![
        0usize, 1, 8, 16, 9, 2, 3, 10, 17, 24, 32, 25, 18, 11, 4, 5, 12, 19, 26, 33, 40, 48, 41,
        34, 27, 20, 13, 6, 7, 14, 21, 28, 35, 42, 49, 56, 57, 50, 43, 36, 29, 22, 15, 23, 30, 37,
        44, 51, 58, 59, 52, 45, 38, 31, 39, 46, 53, 60, 61, 54, 47, 55, 62, 63,
    ];
    proof {
        assert(t@ =~= zigzag_order());
    }
    t
}

fn zigzag_inv_table() -> (t: Vec<usize>)
    ensures
        t@ == zigzag_inv_order(),
{
    let t: Vec<usize> = vec![
        0usize, 1, 5, 6, 14, 15, 27, 28, 2, 4, 7, 13, 16, 26, 29, 42, 3, 8, 12, 17, 25, 30, 41,
        43, 9, 11, 18, 24, 31, 40, 44, 53, 10, 19, 23, 32, 39, 45, 52, 54, 20, 22, 33, 38, 46, 51,
        55, 60, 21, 34, 37, 47, 50, 56, 59, 61, 35, 36, 48, 49, 57, 58, 62, 63,
    ];
    proof {
        assert(t@ =~= zigzag_inv_order());
    }
    t
}

/// Multiply a zigzag-order coefficient block elementwise with its
/// (zigzag-order) quantization table.
pub fn dequantize(block: &Vec<i16>, quant: &Vec<u8>) -> (r: Vec<i32>)
    requires
        block.len() == 64,
        quant.len() == 64,
    ensures
        r@.len() == 64,
        forall|i: int|
            0 <= i < 64 ==> #[trigger] r@[i] == block@[i] as int * quant@[i] as int,
        forall|i: int| 0 <= i < 64 ==> -8388608 <= #[trigger] r@[i] <= 8388608,
{
    let mut r: Vec<i32> = Vec::new();
    let mut i: usize = 0;
    while i < 64
        invariant
            i <= 64,
            block.len() == 64,
            quant.len() == 64,
            r@.len() == i,
            forall|j: int|
                0 <= j < i ==> #[trigger] r@[j] == block@[j] as int * quant@[j] as int,
            forall|j: int| 0 <= j < i ==> -8388608 <= #[trigger] r@[j] <= 8388608,
        decreases 64 - i,
    {
        let b: i32 = block[i] as i32;
        let q: i32 = quant[i] as i32;
        proof {
            assert(-8388608 <= b as int * q as int <= 8388608) by (nonlinear_arith)
                requires
                    -32768 <= b as int <= 32767,
                    0 <= q as int <= 255,
            ;
        }
        r.push(b * q);
        i = i + 1;
    }
    r
}

/// The 8-point cosine basis in 12-bit fixed point: entry `8*u + x` is
/// `round(alpha(u) * cos((2x+1) * u * pi / 16) * 4096)`, with
/// `alpha(0) = 1/sqrt(2)` and `alpha(u>0) = 1` folded in.
pub open spec fn cos_q() -> Seq<i64> {
    seq![
        2896i64, 2896, 2896, 2896, 2896, 2896, 2896, 2896, 4017, 3406, 2276, 799, -799i64, -2276i64,
        -3406i64, -4017i64, 3784, 1567, -1567i64, -3784i64, -3784i64, -1567i64, 1567, 3784, 3406, -799i64, -4017i64,
        -2276i64, 2276, 4017, 799, -3406i64, 2896, -2896i64, -2896i64, 2896, 2896, -2896i64, -2896i64, 2896, 2276,
        -4017i64, 799, 3406, -3406i64, -799i64, 4017, -2276i64, 1567, -3784i64, 3784, -1567i64, -1567i64, 3784, -3784i64,
        1567, 799, -2276i64, 3406, -4017i64, 4017, -3406i64, 2276, -799i64,
    ]
}

/// All basis entries up to position `k` lie within the fixed-point unit.
pub open spec fn cos_q_bounded(k: int) -> bool
    decreases k,
{
    if k <= 0 {
        true
    } else {
        cos_q_bounded(k - 1) && -4096 <= cos_q()[k - 1] <= 4096
    }
}

proof fn lemma_cos_q_spread(k: int)
    requires
        cos_q_bounded(k),
        0 <= k <= 64,
    ensures
        forall|i: int| 0 <= i < k ==> -4096 <= #[trigger] cos_q()[i] <= 4096,
    decreases k,
{
    if k > 0 {
        lemma_cos_q_spread(k - 1);
    }
}

proof fn lemma_cos_q_table()
    ensures
        cos_q().len() == 64,
        forall|i: int| 0 <= i < 64 ==> -4096 <= #[trigger] cos_q()[i] <= 4096,
{
    assert(cos_q_bounded(64)) by {
        reveal_with_fuel(cos_q_bounded, 65);
    }
    lemma_cos_q_spread(64);
}

fn cosine_table() -> (t: Vec<i64>)
    ensures
        t@ == cos_q(),
{
    let t: Vec<i64> = vec![
        2896i64, 2896, 2896, 2896, 2896, 2896, 2896, 2896, 4017, 3406, 2276, 799, -799, -2276,
        -3406, -4017, 3784, 1567, -1567, -3784, -3784, -1567, 1567, 3784, 3406, -799, -4017,
        -2276, 2276, 4017, 799, -3406, 2896, -2896, -2896, 2896, 2896, -2896, -2896, 2896, 2276,
        -4017, 799, 3406, -3406, -799, 4017, -2276, 1567, -3784, 3784, -1567, -1567, 3784, -3784,
        1567, 799, -2276, 3406, -4017, 4017, -3406, 2276, -799,
    ];
    proof {
        assert(t@ =~= cos_q());
    }
    t
}

/// The first `k` terms of the inverse-DCT double sum for output sample
/// (x, y): term `j` couples coefficient `j` (natural order, `j = 8*v + u`)
/// with the two basis factors for frequencies `u = j % 8` and `v = j / 8`.
pub open spec fn idct_sum(c: Seq<i32>, x: int, y: int, k: int) -> int
    decreases k,
{
    if k <= 0 {
        0
    } else {
        let j = k - 1;
        idct_sum(c, x, y, j) + (c[j] as int) * (cos_q()[8 * (j % 8) + x] as int) * (cos_q()[8 * (j
            / 8) + y] as int)
    }
}

/// Undo the two 12-bit fixed-point factors and the overall 1/4 of the
/// inverse DCT, rounding to nearest. The large offset shifts the sum into
/// nonnegative range so that machine division rounds like the
/// mathematical floor.
pub open spec fn descale(s: int) -> int {
    (s + 33554432 + 1152921504606846976) / 67108864 - 17179869184
}

/// Output sample (x, y) of the integer inverse DCT.
pub open spec fn idct_out(c: Seq<i32>, x: int, y: int) -> int {
    descale(idct_sum(c, x, y, 64))
}

/// The 2-D 8x8 inverse discrete cosine transform, in 12-bit fixed-point
/// integer arithmetic. Input is a natural-order coefficient block; output
/// sample `8*y + x` is the rounded inverse transform at (x, y), still
/// centered on zero (the +128 level shift happens at color conversion).
#[verifier::loop_isolation(false)]
pub fn discrete_cosine_transform_inverse(input: &Vec<i32>) -> (r: Vec<i32>)
    requires
        input.len() == 64,
        forall|i: int| 0 <= i < 64 ==> -8388608 <= #[trigger] input@[i] <= 8388608,
    ensures
        r@.len() == 64,
        forall|m: int| 0 <= m < 64 ==> #[trigger] r@[m] == idct_out(input@, m % 8, m / 8),
        forall|m: int| 0 <= m < 64 ==> -134217728 <= #[trigger] r@[m] <= 134217728,
{
    proof {
        lemma_cos_q_table();
    }
    let cos = cosine_table();
    let mut r: Vec<i32> = Vec::new();
    let mut m: usize = 0;
    while m < 64
        invariant
            m <= 64,
            r@.len() == m,
            forall|p: int| 0 <= p < m ==> #[trigger] r@[p] == idct_out(input@, p % 8, p / 8),
            forall|p: int| 0 <= p < m ==> -134217728 <= #[trigger] r@[p] <= 134217728,
        decreases 64 - m,
    {
        let x: usize = m % 8;
        let y: usize = m / 8;
        let mut acc: i64 = 0;
        let mut j: usize = 0;
        while j < 64
            invariant
                j <= 64,
                x == m % 8,
                y == m / 8,
                m < 64,
                acc as int == idct_sum(input@, x as int, y as int, j as int),
                -(j as int) * 140737488355328 <= acc as int <= (j as int) * 140737488355328,
            decreases 64 - j,
        {
            let c: i64 = input[j] as i64;
            let cu: i64 = cos[8 * (j % 8) + x];
            let cv: i64 = cos[8 * (j / 8) + y];
            proof {
                assert(-34359738368 <= c * cu <= 34359738368) by (nonlinear_arith)
                    requires
                        -8388608 <= c <= 8388608,
                        -4096 <= cu <= 4096,
                ;
                assert(-140737488355328 <= (c * cu) * cv <= 140737488355328) by (nonlinear_arith)
                    requires
                        -34359738368 <= c * cu <= 34359738368,
                        -4096 <= cv <= 4096,
                ;
            }
            let term: i64 = c * cu * cv;
            acc = acc + term;
            j = j + 1;
        }
        let t: i64 = acc + 33554432 + 1152921504606846976;
        let tu: u64 = t as u64;
        let qu: u64 = tu / 67108864;
        proof {
            assert(qu <= 17314086912) by (nonlinear_arith)
                requires
                    qu == tu as int / 67108864,
                    tu as int <= 1161928703895142400,
                    0 <= tu,
            ;
            assert(qu >= 17045651456) by (nonlinear_arith)
                requires
                    qu == tu as int / 67108864,
                    tu as int >= 1143914305385660416,
            ;
        }
        let out64: i64 = (qu as i64) - 17179869184;
        let out: i32 = out64 as i32;
        proof {
            assert(out == idct_out(input@, m as int % 8, m as int / 8));
        }
        r.push(out);
        m = m + 1;
    }
    r
}

} // verus!
