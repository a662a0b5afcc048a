use cubek_qa::arith::{Full, Real, Stored};
use cubek_qa::codebook::Codebook;
use cubek_qa::qa_matmul::{launch, launch_activation_quant, launch_panel};
use cubek_qa::rht::RhtSigns;
use cubek_qa::scheme::QuantValue;
use half::f16;

/// 16-level Lloyd-Max TQ4 centroids.
const Q4F: [f32; 16] = [
    -2.732590, -2.069017, -1.618046, -1.256231, -0.942340, -0.656759, -0.388048, -0.128395,
    0.128395, 0.388048, 0.656759, 0.942340, 1.256231, 1.618046, 2.069017, 2.732590,
];

/// 64-level Lloyd-Max TQ6 centroids.
const Q6F: [f32; 64] = [
    -3.73971331, -3.23553866, -2.91215583, -2.66675206, -2.46556925, -2.29307792, -2.14077946,
    -2.00348979, -1.87780041, -1.76134301, -1.65240050, -1.54968499, -1.45220328, -1.35917132,
    -1.26995767, -1.18404491, -1.10100239, -1.02046671, -0.94212725, -0.86571539, -0.79099622,
    -0.71776211, -0.64582771, -0.57502585, -0.50520434, -0.43622321, -0.36795256, -0.30027058,
    -0.23306199, -0.16621658, -0.09962796, -0.03319237, 0.03319237, 0.09962796, 0.16621658,
    0.23306199, 0.30027058, 0.36795256, 0.43622321, 0.50520434, 0.57502585, 0.64582771, 0.71776211,
    0.79099622, 0.86571539, 0.94212725, 1.02046671, 1.10100239, 1.18404491, 1.26995767, 1.35917132,
    1.45220328, 1.54968499, 1.65240050, 1.76134301, 1.87780041, 2.00348979, 2.14077946, 2.29307792,
    2.46556925, 2.66675206, 2.91215583, 3.23553866, 3.73971331,
];

/// A sign pattern.
const RHT_SIGNS: [f32; 32] = [
    1.0, -1.0, 1.0, -1.0, 1.0, 1.0, -1.0, 1.0, -1.0, -1.0, 1.0, -1.0, 1.0, 1.0, -1.0, 1.0, -1.0,
    -1.0, 1.0, -1.0, 1.0, -1.0, -1.0, 1.0, -1.0, 1.0, 1.0, -1.0, 1.0, -1.0, -1.0, 1.0,
];

const INV_SQRT32: f32 = 0.176_776_69;

/// Single precision, as a format to compute in.
#[derive(Clone, Copy, Debug)]
struct F(f32);

impl Real for F {
    fn decimal(mantissa: i64, places: u32) -> F {
        if places == 0 {
            F(mantissa as f32)
        } else {
            F(format!("{mantissa}e-{places}").parse().unwrap())
        }
    }

    fn plus(self, other: F) -> F {
        F(self.0 + other.0)
    }

    fn minus(self, other: F) -> F {
        F(self.0 - other.0)
    }

    fn times(self, other: F) -> F {
        F(self.0 * other.0)
    }

    fn over(self, other: F) -> F {
        F(self.0 / other.0)
    }

    fn recip(self) -> F {
        F(1.0 / self.0)
    }

    fn sqrt(self) -> F {
        F(self.0.sqrt())
    }

    fn abs(self) -> F {
        F(self.0.abs())
    }

    fn round(self) -> F {
        F(self.0.round())
    }

    fn at_least(self, other: F) -> bool {
        self.0 >= other.0
    }

    fn exceeds(self, other: F) -> bool {
        self.0 > other.0
    }

    fn whole(self) -> i32 {
        self.0 as i32
    }

    fn word(self) -> u32 {
        self.0.to_bits()
    }

    fn plane_sum(lanes: &Vec<F>) -> F {
        F(lanes.iter().map(|lane| lane.0).sum())
    }
}

/// Half precision, as a format to store in.
#[derive(Clone, Copy, Debug)]
struct Half(f16);

impl Stored<F> for Half {
    fn widen(self) -> F {
        F(self.0.to_f32())
    }

    fn narrow(x: F) -> Half {
        Half(f16::from_f32(x.0))
    }
}

fn numbers(values: &[f32]) -> Vec<F> {
    values.iter().map(|&v| F(v)).collect()
}

fn full(values: &[f32]) -> Vec<Full<F>> {
    values.iter().map(|&v| Full(F(v))).collect()
}

fn halves(values: &[f16]) -> Vec<Half> {
    values.iter().map(|&v| Half(v)).collect()
}

fn floats(values: &[F]) -> Vec<f32> {
    values.iter().map(|v| v.0).collect()
}

/// Packs a row of 6-bit codes, code `j` at bit `6j`.
fn pack_row(codes: &[u8]) -> Vec<u32> {
    let words = codes.len() * 6 / 32;
    let mut out = vec![0u32; words];
    for (j, &c) in codes.iter().enumerate() {
        let code = (c & 0x3f) as u32;
        let (word, bitoff) = (j * 6 / 32, (j * 6) % 32);
        out[word] |= code << bitoff;
        if bitoff + 6 > 32 {
            out[word + 1] |= code >> (32 - bitoff);
        }
    }
    out
}

/// Packs a row of 4-bit codes, code `j` at bit `4j`.
fn pack_row4(codes: &[u8]) -> Vec<u32> {
    let words = codes.len() * 4 / 32;
    let mut out = vec![0u32; words];
    for (j, &c) in codes.iter().enumerate() {
        let code = (c & 0x0f) as u32;
        out[j * 4 / 32] |= code << ((j * 4) % 32);
    }
    out
}

/// Reads 6-bit code `c` of a packed row.
fn unpack_code(words: &[u32], c: usize) -> u8 {
    let (word, bitoff) = (c * 6 / 32, (c * 6) % 32);
    let lo = words[word] >> bitoff;
    let raw = if bitoff + 6 > 32 {
        lo | (words[word + 1] << (32 - bitoff))
    } else {
        lo
    };
    (raw & 0x3f) as u8
}

fn plain_choose_index(v: f32) -> usize {
    let mut idx = 0usize;
    for i in 0..63 {
        if v >= (Q6F[i] + Q6F[i + 1]) * 0.5 {
            idx += 1;
        }
    }
    idx
}

fn plain_rht_forward(buf: &mut [f32; 32]) {
    for (j, x) in buf.iter_mut().enumerate() {
        *x *= RHT_SIGNS[j];
    }
    let mut step = 1;
    while step < 32 {
        let span = step * 2;
        let mut q = 0;
        while q < 32 {
            for i in q..q + step {
                let (a, b) = (buf[i], buf[i + step]);
                buf[i] = a + b;
                buf[i + step] = a - b;
            }
            q += span;
        }
        step *= 2;
    }
    for x in buf.iter_mut() {
        *x *= INV_SQRT32;
    }
}

/// The codes of a block of 32, and the scales of its halves as they are stored.
fn plain_quantize_block(hidden_block: &[f32]) -> ([u8; 32], f32, f32) {
    let mut buf = [0.0f32; 32];
    buf.copy_from_slice(hidden_block);
    plain_rht_forward(&mut buf);

    let rms = |s: &[f32]| (s.iter().map(|x| x * x).sum::<f32>() / 16.0).sqrt();
    let (mut d_lo, mut d_hi) = (rms(&buf[..16]), rms(&buf[16..]));
    for _ in 0..6 {
        let inv_lo = if d_lo > 1e-10 { 1.0 / d_lo } else { 0.0 };
        let inv_hi = if d_hi > 1e-10 { 1.0 / d_hi } else { 0.0 };
        let (mut nl, mut dl, mut nh, mut dh) = (0.0f32, 0.0f32, 0.0f32, 0.0f32);
        for j in 0..16 {
            let c0 = Q6F[plain_choose_index(buf[j] * inv_lo)];
            nl += buf[j] * c0;
            dl += c0 * c0;
            let c1 = Q6F[plain_choose_index(buf[j + 16] * inv_hi)];
            nh += buf[j + 16] * c1;
            dh += c1 * c1;
        }
        if dl > 1e-10 {
            d_lo = nl / dl;
        }
        if dh > 1e-10 {
            d_hi = nh / dh;
        }
    }
    let fi_lo = if d_lo > 1e-10 { 1.0 / d_lo } else { 0.0 };
    let fi_hi = if d_hi > 1e-10 { 1.0 / d_hi } else { 0.0 };
    let mut codes = [0u8; 32];
    for j in 0..32 {
        let inv = if j < 16 { fi_lo } else { fi_hi };
        codes[j] = plain_choose_index(buf[j] * inv) as u8;
    }
    (
        codes,
        f16::from_f32(d_lo).to_f32(),
        f16::from_f32(d_hi).to_f32(),
    )
}

/// The whole forward against the same steps in plain code.
#[test]
fn test_qa_forward_parity_vs_bee() {
    let (m, n, k) = (6usize, 8usize, 128usize);
    let units = k / 16;
    let blocks_per_row = k / 32;

    let mut s = 0x5151_2727_9393u64;
    let mut next = || {
        s ^= s << 13;
        s ^= s >> 7;
        s ^= s << 17;
        s
    };
    let hidden: Vec<f32> = (0..m * k)
        .map(|_| ((next() % 4000) as f32 / 1000.0) - 2.0)
        .collect();
    let w_code: Vec<u8> = (0..n * k).map(|_| (next() % 64) as u8).collect();
    let w_scale: Vec<f16> = (0..n * units)
        .map(|_| f16::from_f32(0.3 + (next() % 1000) as f32 / 2000.0))
        .collect();
    let mut w_words = Vec::<u32>::new();
    for r in 0..n {
        w_words.extend(pack_row(&w_code[r * k..(r + 1) * k]));
    }
    let value = QuantValue::Q6F;
    let cb = Codebook(numbers(&Q6F));
    let rht = RhtSigns(numbers(&RHT_SIGNS));
    let mut a_codes = vec![0u32; m * k * 6 / 32];
    let mut a_scales = vec![Half(f16::ZERO); m * units];
    launch_activation_quant(
        value,
        &numbers(&hidden),
        &mut a_codes,
        &mut a_scales,
        &cb,
        &rht,
        m,
        k,
    );
    let mut out = vec![F(0.0); m * n];
    launch(
        value,
        &a_codes,
        &a_scales,
        &w_words,
        &halves(&w_scale),
        &cb,
        &mut out,
        m,
        n,
        k,
    );
    let got = floats(&out);

    let mut a_deq = vec![0.0f32; m * k];
    for mi in 0..m {
        for b in 0..blocks_per_row {
            let base = mi * k + b * 32;
            let (codes, d_lo, d_hi) = plain_quantize_block(&hidden[base..base + 32]);
            for j in 0..32 {
                let sc = if j < 16 { d_lo } else { d_hi };
                a_deq[base + j] = Q6F[codes[j] as usize] * sc;
            }
        }
    }
    let w_deq = |ni: usize| -> Vec<f32> {
        let wrow = &w_words[ni * (k * 6 / 32)..(ni + 1) * (k * 6 / 32)];
        (0..k)
            .map(|c| {
                let sc = w_scale[ni * units + c / 16].to_f32();
                Q6F[unpack_code(wrow, c) as usize] * sc
            })
            .collect()
    };
    let mut max_rel = 0.0f32;
    let mut cmax = 0.0f32;
    for mi in 0..m {
        for ni in 0..n {
            let wd = w_deq(ni);
            let r: f32 = (0..k).map(|c| a_deq[mi * k + c] * wd[c]).sum();
            max_rel = max_rel.max((got[mi * n + ni] - r).abs());
            cmax = cmax.max(r.abs());
        }
    }
    assert!(
        max_rel <= 1e-2 * (1.0 + cmax),
        "QA parity vs bee: max|gpu-bee|={max_rel} (|C|max {cmax})"
    );
}

/// Quantized activations go into the product as they come: the layouts agree.
#[test]
fn test_qa_forward_end_to_end() {
    let (m, n, k) = (4usize, 8usize, 64usize);
    let units = k / 16;
    let blocks_per_row = k / 32;

    let mut s = 0xABCDEF12_3456u64;
    let mut next = || {
        s ^= s << 13;
        s ^= s >> 7;
        s ^= s << 17;
        s
    };
    let hidden: Vec<f32> = (0..m * k)
        .map(|_| (((next() % 2000) as f32 / 1000.0) - 1.0) * 1.5)
        .collect();
    let w_code: Vec<u8> = (0..n * k).map(|_| (next() % 64) as u8).collect();
    let w_scale: Vec<f16> = (0..n * units)
        .map(|_| f16::from_f32(0.2 + (next() % 1000) as f32 / 2000.0))
        .collect();
    let mut w_words = Vec::<u32>::new();
    for r in 0..n {
        w_words.extend(pack_row(&w_code[r * k..(r + 1) * k]));
    }
    let value = QuantValue::Q6F;
    let cb = Codebook(numbers(&Q6F));
    let rht = RhtSigns(numbers(&RHT_SIGNS));
    let mut a_words = vec![0u32; m * k * 6 / 32];
    let mut a_halves = vec![Half(f16::ZERO); m * units];
    launch_activation_quant(
        value,
        &numbers(&hidden),
        &mut a_words,
        &mut a_halves,
        &cb,
        &rht,
        m,
        k,
    );
    let mut out = vec![F(0.0); m * n];
    launch(
        value,
        &a_words,
        &a_halves,
        &w_words,
        &halves(&w_scale),
        &cb,
        &mut out,
        m,
        n,
        k,
    );
    let got = floats(&out);
    let a_scale: Vec<f16> = a_halves.iter().map(|s| s.0).collect();
    let words_per_row = k * 6 / 32;
    let dequant = |words: &[u32], scales: &[f16], row: usize| -> Vec<f32> {
        let wrow = &words[row * words_per_row..(row + 1) * words_per_row];
        (0..k)
            .map(|c| {
                let block = c / 32;
                let half = c % 32 / 16;
                let sc = scales[row * units + block * 2 + half].to_f32();
                Q6F[unpack_code(wrow, c) as usize] * sc
            })
            .collect()
    };

    let mut max_abs = 0.0f32;
    let mut cmax = 0.0f32;
    for mi in 0..m {
        let a_deq = dequant(&a_words, &a_scale, mi);
        for ni in 0..n {
            let w_deq = dequant(&w_words, &w_scale, ni);
            let r: f32 = (0..k).map(|c| a_deq[c] * w_deq[c]).sum();
            max_abs = max_abs.max((got[mi * n + ni] - r).abs());
            cmax = cmax.max(r.abs());
        }
    }
    assert!(
        max_abs <= 1e-3 * (1.0 + cmax),
        "QA forward chain: max|gpu-host|={max_abs} (|C|max {cmax})"
    );
    assert!(blocks_per_row >= 1 && got.iter().any(|&x| x.abs() > 1e-6));
}

/// One unit per output and the panel give the same product.
#[test]
fn panel_agrees_with_product() {
    let (m, n, k) = (3usize, 5usize, 64usize);
    let units = k / 16;
    let mut s = 0x9999_5555u64;
    let mut next = || {
        s ^= s << 13;
        s ^= s >> 7;
        s ^= s << 17;
        s
    };
    let a_code: Vec<u8> = (0..m * k).map(|_| (next() % 64) as u8).collect();
    let w_code: Vec<u8> = (0..n * k).map(|_| (next() % 64) as u8).collect();
    let a_scale = vec![f16::from_f32(0.5); m * units];
    let w_scale = vec![f16::from_f32(0.5); n * units];
    let mut a_words = Vec::new();
    for r in 0..m {
        a_words.extend(pack_row(&a_code[r * k..(r + 1) * k]));
    }
    let mut w_words = Vec::new();
    for r in 0..n {
        w_words.extend(pack_row(&w_code[r * k..(r + 1) * k]));
    }
    let a_f32: Vec<f32> = a_code.iter().map(|&c| Q6F[c as usize] * 0.5).collect();
    let cb = Codebook(numbers(&Q6F));
    let mut naive = vec![F(0.0); m * n];
    launch(
        QuantValue::Q6F,
        &a_words,
        &halves(&a_scale),
        &w_words,
        &halves(&w_scale),
        &cb,
        &mut naive,
        m,
        n,
        k,
    );
    let mut panel = vec![F(0.0); m * n];
    launch_panel(
        QuantValue::Q6F,
        &full(&a_f32),
        &w_words,
        &halves(&w_scale),
        &cb,
        &RhtSigns(Vec::new()),
        &mut panel,
        m,
        n,
        k,
        &[],
        false,
        F(1e-6),
        false,
    );
    for i in 0..m * n {
        assert!((naive[i].0 - panel[i].0).abs() <= 1e-4 * (1.0 + naive[i].0.abs()));
    }
}

/// The panel against a plain loop.
#[test]
fn test_qa_gemm_panel() {
    let (m, n, k) = (40usize, 16usize, 64usize);
    let units = k / 16;

    let mut s = 0x7777_3333_BEEFu64;
    let mut next = || {
        s ^= s << 13;
        s ^= s >> 7;
        s ^= s << 17;
        s
    };
    let a: Vec<f32> = (0..m * k)
        .map(|_| ((next() % 2000) as f32 / 1000.0) - 1.0)
        .collect();
    let w_code: Vec<u8> = (0..n * k).map(|_| (next() % 64) as u8).collect();
    let w_scale: Vec<f16> = (0..n * units)
        .map(|_| f16::from_f32(0.2 + (next() % 1000) as f32 / 2000.0))
        .collect();
    let mut w_words = Vec::<u32>::new();
    for r in 0..n {
        w_words.extend(pack_row(&w_code[r * k..(r + 1) * k]));
    }

    let mut oracle = vec![0.0f32; m * n];
    for mi in 0..m {
        for ni in 0..n {
            let mut acc = 0.0f32;
            for c in 0..k {
                let sw = w_scale[ni * units + c / 16].to_f32();
                acc += a[mi * k + c] * Q6F[w_code[ni * k + c] as usize] * sw;
            }
            oracle[mi * n + ni] = acc;
        }
    }

    let value = QuantValue::Q6F;
    let cb = Codebook(numbers(&Q6F));
    let mut out = vec![F(0.0); m * n];
    launch_panel(
        value,
        &full(&a),
        &w_words,
        &halves(&w_scale),
        &cb,
        &RhtSigns(Vec::new()),
        &mut out,
        m,
        n,
        k,
        &[],
        false,
        F(1e-6),
        false,
    );
    let got = floats(&out);

    let cmax = oracle.iter().fold(0.0f32, |a, &x| a.max(x.abs()));
    for (i, &g) in got.iter().enumerate() {
        let diff = (g - oracle[i]).abs();
        assert!(
            diff <= 1e-4 * (1.0 + cmax),
            "panel QA [{i}]: expected {} got {g} (diff {diff})",
            oracle[i]
        );
    }
}

/// Both operands quantized, against dequantizing them and multiplying.
#[test]
fn test_qa_matmul_tq6() {
    let (m, n, k) = (8usize, 8usize, 64usize);
    let units = k / 16;
    let mut s = 0xC0FFEE_1234_5678u64;
    let mut next = || {
        s ^= s << 13;
        s ^= s >> 7;
        s ^= s << 17;
        s
    };
    let a_code: Vec<u8> = (0..m * k).map(|_| (next() % 64) as u8).collect();
    let w_code: Vec<u8> = (0..n * k).map(|_| (next() % 64) as u8).collect();
    let a_scale: Vec<f16> = (0..m * units)
        .map(|_| f16::from_f32(0.2 + (next() % 1000) as f32 / 2000.0))
        .collect();
    let w_scale: Vec<f16> = (0..n * units)
        .map(|_| f16::from_f32(0.2 + (next() % 1000) as f32 / 2000.0))
        .collect();
    let mut a_words = Vec::<u32>::new();
    for r in 0..m {
        a_words.extend(pack_row(&a_code[r * k..(r + 1) * k]));
    }
    let mut w_words = Vec::<u32>::new();
    for r in 0..n {
        w_words.extend(pack_row(&w_code[r * k..(r + 1) * k]));
    }
    let mut oracle = vec![0.0f32; m * n];
    for mi in 0..m {
        for ni in 0..n {
            let mut acc = 0.0f32;
            for u in 0..units {
                let mut block = 0.0f32;
                for j in 0..16 {
                    let c = u * 16 + j;
                    block += Q6F[a_code[mi * k + c] as usize] * Q6F[w_code[ni * k + c] as usize];
                }
                acc += block
                    * a_scale[mi * units + u].to_f32()
                    * w_scale[ni * units + u].to_f32();
            }
            oracle[mi * n + ni] = acc;
        }
    }

    let value = QuantValue::Q6F;
    let cb = Codebook(numbers(&Q6F));
    let mut out = vec![F(0.0); m * n];
    launch(
        value,
        &a_words,
        &halves(&a_scale),
        &w_words,
        &halves(&w_scale),
        &cb,
        &mut out,
        m,
        n,
        k,
    );
    let got = floats(&out);
    let cmax = oracle.iter().fold(0.0f32, |a, &x| a.max(x.abs()));
    for (i, &g) in got.iter().enumerate() {
        let diff = (g - oracle[i]).abs();
        assert!(
            diff <= 1e-4 * (1.0 + cmax),
            "QA matmul [{i}]: expected {} got {g} (diff {diff})",
            oracle[i]
        );
    }
}

/// Both operands quantized, against dequantizing them and multiplying.
#[test]
fn test_qa_matmul_tq4() {
    let (m, n, k) = (8usize, 8usize, 64usize);
    let units = k / 16;
    let wpu = 4 * 16 / 32;

    let mut s = 0xBEEF_4444_1357u64;
    let mut next = || {
        s ^= s << 13;
        s ^= s >> 7;
        s ^= s << 17;
        s
    };
    let a_code: Vec<u8> = (0..m * k).map(|_| (next() % 16) as u8).collect();
    let w_code: Vec<u8> = (0..n * k).map(|_| (next() % 16) as u8).collect();
    let a_scale: Vec<f16> = (0..m * units)
        .map(|_| f16::from_f32(0.2 + (next() % 1000) as f32 / 2000.0))
        .collect();
    let w_scale: Vec<f16> = (0..n * units)
        .map(|_| f16::from_f32(0.2 + (next() % 1000) as f32 / 2000.0))
        .collect();

    let mut a_words = Vec::<u32>::new();
    for r in 0..m {
        a_words.extend(pack_row4(&a_code[r * k..(r + 1) * k]));
    }
    let mut w_words = Vec::<u32>::new();
    for r in 0..n {
        w_words.extend(pack_row4(&w_code[r * k..(r + 1) * k]));
    }

    let mut oracle = vec![0.0f32; m * n];
    for mi in 0..m {
        for ni in 0..n {
            let mut acc = 0.0f32;
            for u in 0..units {
                let mut block = 0.0f32;
                for j in 0..16 {
                    let c = u * 16 + j;
                    block += Q4F[a_code[mi * k + c] as usize] * Q4F[w_code[ni * k + c] as usize];
                }
                acc += block * a_scale[mi * units + u].to_f32() * w_scale[ni * units + u].to_f32();
            }
            oracle[mi * n + ni] = acc;
        }
    }

    let _ = wpu;
    let value = QuantValue::Q4F;
    let cb = Codebook(numbers(&Q4F));
    let mut out = vec![F(0.0); m * n];
    launch(
        value,
        &a_words,
        &halves(&a_scale),
        &w_words,
        &halves(&w_scale),
        &cb,
        &mut out,
        m,
        n,
        k,
    );
    let got = floats(&out);
    let cmax = oracle.iter().fold(0.0f32, |a, &x| a.max(x.abs()));
    for (i, &g) in got.iter().enumerate() {
        let diff = (g - oracle[i]).abs();
        assert!(
            diff <= 1e-4 * (1.0 + cmax),
            "TQ4 QA matmul [{i}]: expected {} got {g} (diff {diff})",
            oracle[i]
        );
    }
}
