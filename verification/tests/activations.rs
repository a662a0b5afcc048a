use cubek_qa::arith::{Full, Real, Stored};
use cubek_qa::codebook::Codebook;
use cubek_qa::dense::{dense_code, pack_block};
use cubek_qa::qa_matmul::{
    launch_activation_quant, launch_panel, launch_symmetric_activation_quant,
};
use cubek_qa::panel::cube_product;
use cubek_qa::quantize::choose_index;
use cubek_qa::rht::{rotate_block, RhtSigns};
use cubek_qa::scheme::QuantValue;
use cubek_qa::weights::reconstruct;
use half::f16;

/// 16-level Lloyd-Max TQ4 centroids.
const Q4F: [f32; 16] = [
    -2.732590, -2.069017, -1.618046, -1.256231, -0.942340, -0.656759, -0.388048, -0.128395,
    0.128395, 0.388048, 0.656759, 0.942340, 1.256231, 1.618046, 2.069017, 2.732590,
];

/// A sign pattern.
const RHT_SIGNS: [f32; 32] = [
    1.0, -1.0, 1.0, -1.0, 1.0, 1.0, -1.0, 1.0, -1.0, -1.0, 1.0, -1.0, 1.0, 1.0, -1.0, 1.0, -1.0,
    -1.0, 1.0, -1.0, 1.0, -1.0, -1.0, 1.0, -1.0, 1.0, 1.0, -1.0, 1.0, -1.0, -1.0, 1.0,
];

/// Single precision, as a format to compute in.
#[derive(Clone, Copy, Debug)]
struct F(f32);

impl Real for F {
    fn decimal(mantissa: i64, places: u32) -> F {
        if places == 0 {
            F(mantissa as f32)
        } else {
            F(format!("{mantissa}e-{places}").parse().unwrap())
        }
    }

    fn plus(self, other: F) -> F {
        F(self.0 + other.0)
    }

    fn minus(self, other: F) -> F {
        F(self.0 - other.0)
    }

    fn times(self, other: F) -> F {
        F(self.0 * other.0)
    }

    fn over(self, other: F) -> F {
        F(self.0 / other.0)
    }

    fn recip(self) -> F {
        F(1.0 / self.0)
    }

    fn sqrt(self) -> F {
        F(self.0.sqrt())
    }

    fn abs(self) -> F {
        F(self.0.abs())
    }

    fn round(self) -> F {
        F(self.0.round())
    }

    fn at_least(self, other: F) -> bool {
        self.0 >= other.0
    }

    fn exceeds(self, other: F) -> bool {
        self.0 > other.0
    }

    fn whole(self) -> i32 {
        self.0 as i32
    }

    fn word(self) -> u32 {
        self.0.to_bits()
    }

    fn plane_sum(lanes: &Vec<F>) -> F {
        F(lanes.iter().map(|lane| lane.0).sum())
    }
}

/// Half precision, as a format to store in.
#[derive(Clone, Copy, Debug)]
struct Half(f16);

impl Stored<F> for Half {
    fn widen(self) -> F {
        F(self.0.to_f32())
    }

    fn narrow(x: F) -> Half {
        Half(f16::from_f32(x.0))
    }
}

fn numbers(values: &[f32]) -> Vec<F> {
    values.iter().map(|&v| F(v)).collect()
}

fn full(values: &[f32]) -> Vec<Full<F>> {
    values.iter().map(|&v| Full(F(v))).collect()
}

fn halves(values: &[f16]) -> Vec<Half> {
    values.iter().map(|&v| Half(v)).collect()
}

fn floats(values: &[F]) -> Vec<f32> {
    values.iter().map(|v| v.0).collect()
}

/// Numbers between -2 and 2.
fn noise(seed: u64, count: usize) -> Vec<f32> {
    let mut s = seed;
    (0..count)
        .map(|_| {
            s ^= s << 13;
            s ^= s >> 7;
            s ^= s << 17;
            (s % 4000) as f32 / 1000.0 - 2.0
        })
        .collect()
}

/// The chosen centroid is a nearest one, and on a midpoint the upper one.
#[test]
fn chosen_centroid_is_nearest() {
    let codebook = Codebook(numbers(&Q4F));
    for step in -400..400 {
        let x = step as f32 / 100.0;
        let index = choose_index(F(x), &codebook, QuantValue::Q4F) as usize;
        let best = (x - Q4F[index]).abs();
        for c in Q4F {
            assert!(best <= (x - c).abs() + 1e-6);
        }
    }
    assert_eq!(choose_index(F(0.0), &codebook, QuantValue::Q4F), 8);
    assert_eq!(choose_index(F(-100.0), &codebook, QuantValue::Q4F), 0);
    assert_eq!(choose_index(F(100.0), &codebook, QuantValue::Q4F), 15);
}

/// Quantizing to a table and reading the table back stays within half a gap between
/// centroids.
#[test]
fn table_error_is_half_a_gap() {
    let codebook = Codebook(numbers(&Q4F));
    let half_gap = (2.732590 - 2.069017) / 2.0;
    for i in 0..1024 {
        let x = (i as f32 - 512.0) / 512.0 * 2.732590;
        let index = choose_index(F(x), &codebook, QuantValue::Q4F);
        let back = reconstruct(index, &codebook, QuantValue::Q4F);
        assert!((back.0 - x).abs() <= half_gap * (1.0 + 1e-4));
    }
}

/// Codes and scales of symmetric quantization: the largest value of a half-block takes
/// the largest code, and every code stands for the value rounded to the scale.
#[test]
fn symmetric_codes_stand_for_values() {
    let (m, k) = (2usize, 64usize);
    for (value, largest) in [
        (QuantValue::Q8S, 127.0f32),
        (QuantValue::Q4S, 7.0),
        (QuantValue::Q2S, 1.0),
    ] {
        let bits = value.size_bits();
        let hidden = numbers(&noise(0x5151_2727_9393, m * k));
        let signs = RhtSigns(numbers(&RHT_SIGNS));
        let mut codes = vec![0u32; m * k * bits / 32 + 1];
        codes[m * k * bits / 32] = 0xdead_beef;
        let mut scales = vec![Full(F(0.0)); m * k / 16];
        launch_symmetric_activation_quant(
            value,
            &hidden,
            &mut codes,
            &mut scales,
            &signs,
            m,
            k,
        );
        assert_eq!(codes[m * k * bits / 32], 0xdead_beef);
        let none: Codebook<F> = Codebook(Vec::new());
        for block in 0..m * k / 32 {
            let x = rotate_block(&hidden, 32 * block, &signs);
            for h in 0..2 {
                let half = &x[16 * h..16 * h + 16];
                let peak = half.iter().fold(0.0f32, |top, v| top.max(v.0.abs()));
                let scale = scales[2 * block + h].0 .0;
                assert!((scale - peak / largest).abs() <= 1e-6);
                for j in 0..16 {
                    let raw = dense_code(&codes, block * bits, 16 * h + j, value);
                    let level = reconstruct(raw, &none, value).0;
                    assert!(level.abs() <= largest);
                    assert!((level * scale - half[j].0).abs() <= scale * 0.5001);
                }
            }
        }
    }
}

/// Activations that vanish have vanishing scales and one and the same code.
#[test]
fn zero_activations() {
    let hidden = numbers(&[0.0; 32]);
    let signs = RhtSigns(numbers(&RHT_SIGNS));
    let codebook = Codebook(numbers(&Q4F));
    let mut codes = vec![u32::MAX; 4];
    let mut scales = vec![Full(F(1.0)); 2];
    launch_activation_quant(
        QuantValue::Q4F,
        &hidden,
        &mut codes,
        &mut scales,
        &codebook,
        &signs,
        1,
        32,
    );
    assert_eq!(codes, vec![0x8888_8888; 4]);
    assert!(scales.iter().all(|s| s.0 .0.abs() < 1e-6));
    let mut codes = vec![u32::MAX; 4];
    launch_symmetric_activation_quant(
        QuantValue::Q4S,
        &hidden,
        &mut codes,
        &mut scales,
        &signs,
        1,
        32,
    );
    assert_eq!(codes, vec![0; 4]);
}

/// Two's complement codes of four bits.
#[test]
fn signed_codes() {
    let none: Codebook<F> = Codebook(Vec::new());
    let levels: Vec<f32> = (0..16)
        .map(|raw| reconstruct(raw, &none, QuantValue::Q4S).0)
        .collect();
    assert_eq!(levels[0], 0.0);
    assert_eq!(levels[7], 7.0);
    assert_eq!(levels[8], -8.0);
    assert_eq!(levels[15], -1.0);
}

/// A weight matrix of four-bit codes, its scales, and what it stands for.
fn weights(n: usize, k: usize, symmetric: bool) -> (Vec<u32>, Vec<Half>, Vec<f32>) {
    let value = if symmetric {
        QuantValue::Q4S
    } else {
        QuantValue::Q4F
    };
    let mut words = Vec::new();
    let mut plain = Vec::new();
    let scales: Vec<Half> = (0..n * k / 16)
        .map(|i| Half(f16::from_f32(0.25 + (i % 7) as f32 / 8.0)))
        .collect();
    for b in 0..n * k / 32 {
        let block: Vec<u32> = (0..32).map(|j| (j * 5 + b as u32 * 11 + 3) % 16).collect();
        words.extend(pack_block(&block, value));
        for (j, &c) in block.iter().enumerate() {
            let level = if symmetric {
                if c >= 8 {
                    c as f32 - 16.0
                } else {
                    c as f32
                }
            } else {
                Q4F[c as usize]
            };
            plain.push(level * scales[2 * b + j / 16].0.to_f32());
        }
    }
    (words, scales, plain)
}

fn close(got: f32, want: f32, scale: f32) -> bool {
    (got - want).abs() <= scale * (1.0 + want.abs())
}

/// The decode product of a row: rotated or not, staged in either precision, normalized
/// or not, from a table or symmetric.
#[test]
fn decode_product() {
    let (n, k) = (11usize, 96usize);
    let a = noise(0x7777_3333_beef, k);
    let gamma: Vec<f32> = noise(0x1357_9bdf, k);
    for symmetric in [false, true] {
        let (words, scales, plain) = weights(n, k, symmetric);
        let (value, codebook) = if symmetric {
            (QuantValue::Q4S, Codebook(Vec::new()))
        } else {
            (QuantValue::Q4F, Codebook(numbers(&Q4F)))
        };
        for rotate in [false, true] {
            let signs = if rotate {
                RhtSigns(numbers(&RHT_SIGNS))
            } else {
                RhtSigns(Vec::new())
            };
            for do_norm in [false, true] {
                let mut x: Vec<f32> = if do_norm {
                    a.iter().zip(&gamma).map(|(h, g)| h * g).collect()
                } else {
                    a.clone()
                };
                if rotate {
                    let turned = numbers(&x);
                    x = (0..k / 32)
                        .flat_map(|b| rotate_block(&turned, 32 * b, &signs))
                        .map(|v| v.0)
                        .collect();
                }
                let s = if do_norm {
                    let mean = a.iter().map(|h| h * h).sum::<f32>() / k as f32;
                    1.0 / (mean + 1e-6).sqrt()
                } else {
                    1.0
                };
                for stage_f32 in [false, true] {
                    let mut out = vec![F(0.0); n + 1];
                    out[n] = F(42.0);
                    launch_panel(
                        value,
                        &full(&a),
                        &words,
                        &scales,
                        &codebook,
                        &signs,
                        &mut out,
                        1,
                        n,
                        k,
                        &full(&gamma),
                        do_norm,
                        F(0.5),
                        stage_f32,
                    );
                    assert_eq!(out[n].0, 42.0);
                    let tolerance = if stage_f32 { 1e-4 } else { 2e-2 };
                    for col in 0..n {
                        let dot: f32 = (0..k).map(|e| x[e] * plain[col * k + e]).sum();
                        assert!(close(out[col].0, dot * s, tolerance));
                    }
                }
            }
        }
    }
}

/// A row that is no whole number of blocks is summed over all of its units, by the decode
/// product as by the panel.
#[test]
fn decode_takes_every_unit() {
    for stage_f32 in [false, true] {
        for m in [1usize, 2] {
            let mut out = vec![F(0.0); m];
            launch_panel(
                QuantValue::Q4S,
                &full(&vec![1.0; m * 48]),
                &[0x1111_1111; 6],
                &halves(&[f16::ONE; 3]),
                &Codebook(Vec::new()),
                &RhtSigns(Vec::new()),
                &mut out,
                m,
                1,
                48,
                &[],
                false,
                F(0.0),
                stage_f32,
            );
            assert_eq!(floats(&out), vec![48.0; m]);
        }
    }
}

/// The scale of a normalized row is that of all of its units.
#[test]
fn normalized_row_of_units() {
    let k = 48usize;
    let (a, gamma) = (noise(0xabc_def1, k), noise(0x1357_9bdf, k));
    let scales = halves(&[f16::ONE; 3]);
    let mut out = vec![F(0.0); 1];
    launch_panel(
        QuantValue::Q4S,
        &full(&a),
        &[0x1111_1111; 6],
        &scales,
        &Codebook(Vec::new()),
        &RhtSigns(Vec::new()),
        &mut out,
        1,
        1,
        k,
        &full(&gamma),
        true,
        F(0.0),
        true,
    );
    let dot: f32 = a.iter().zip(&gamma).map(|(h, g)| h * g).sum();
    let mean = a.iter().map(|h| h * h).sum::<f32>() / k as f32;
    assert!(close(out[0].0, dot / (mean + 1e-6).sqrt(), 1e-4));
}

/// The panel with signs rotates every block of the activations.
#[test]
fn panel_rotates_rows() {
    let (m, n, k) = (3usize, 4usize, 320usize);
    let a = noise(0x2468_ace0, m * k);
    let (words, scales, plain) = weights(n, k, true);
    let signs = RhtSigns(numbers(&RHT_SIGNS));
    let mut out = vec![F(0.0); m * n];
    launch_panel(
        QuantValue::Q4S,
        &full(&a),
        &words,
        &scales,
        &Codebook(Vec::new()),
        &signs,
        &mut out,
        m,
        n,
        k,
        &[],
        false,
        F(0.0),
        false,
    );
    let values = numbers(&a);
    for row in 0..m {
        let x: Vec<F> = (0..k / 32)
            .flat_map(|b| rotate_block(&values, row * k + 32 * b, &signs))
            .collect();
        for col in 0..n {
            let dot: f32 = (0..k).map(|e| x[e].0 * plain[col * k + e]).sum();
            assert!(close(out[row * n + col].0, dot, 1e-4));
        }
    }
}

/// The rotation keeps inner products.
#[test]
fn rotation_cancels() {
    let (a, w) = (noise(0x1111_2222, 32), noise(0x3333_4444, 32));
    let signs = RhtSigns(numbers(&RHT_SIGNS));
    let (ra, rw) = (
        rotate_block(&numbers(&a), 0, &signs),
        rotate_block(&numbers(&w), 0, &signs),
    );
    let plain: f32 = a.iter().zip(&w).map(|(x, y)| x * y).sum();
    let turned: f32 = ra.iter().zip(&rw).map(|(x, y)| x.0 * y.0).sum();
    assert!(close(turned, plain, 1e-4));
}

/// Patterns are told apart by bits, and so are their hashes.
#[test]
fn sign_patterns_as_keys() {
    let a = RhtSigns(numbers(&[1.0, -1.0, 0.0]));
    let same = RhtSigns(numbers(&[1.0, -1.0, 0.0]));
    let minus_zero = RhtSigns(numbers(&[1.0, -1.0, -0.0]));
    let shorter = RhtSigns(numbers(&[1.0, -1.0]));
    let nan = RhtSigns(numbers(&[f32::NAN]));
    let also_nan = RhtSigns(numbers(&[f32::NAN]));
    assert!(a == same && same == a);
    assert!(a != minus_zero && a != shorter && shorter != a);
    assert!(nan == also_nan);
    assert_eq!(a.hash(), same.hash());
    assert_ne!(a.hash(), minus_zero.hash());
    assert_eq!(a.hash(), vec![0x3f80_0000, 0xbf80_0000, 0]);
}

/// Half precision rounds what it stores.
#[test]
fn stored_scales_round() {
    let hidden = numbers(&noise(0x9e37_79b9, 32));
    let signs = RhtSigns(numbers(&RHT_SIGNS));
    let mut codes = vec![0u32; 4];
    let mut exact = vec![Full(F(0.0)); 2];
    let mut stored = halves(&[f16::ZERO; 2]);
    launch_symmetric_activation_quant(
        QuantValue::Q4S,
        &hidden,
        &mut codes,
        &mut exact,
        &signs,
        1,
        32,
    );
    launch_symmetric_activation_quant(
        QuantValue::Q4S,
        &hidden,
        &mut codes,
        &mut stored,
        &signs,
        1,
        32,
    );
    for h in 0..2 {
        assert_eq!(stored[h].0, f16::from_f32(exact[h].0 .0));
    }
}

/// Larger values never take smaller indices.
#[test]
fn chosen_index_is_monotone() {
    let codebook = Codebook(numbers(&Q4F));
    let mut last = 0;
    for step in -400..400 {
        let index = choose_index(F(step as f32 / 100.0), &codebook, QuantValue::Q4F);
        assert!(index >= last);
        last = index;
    }
    assert_eq!(last, 15);
}

/// The refined scale fits the codes better than one a little off.
#[test]
fn refined_scale_fits() {
    let hidden = numbers(&noise(0x0bad_cafe, 64));
    let signs = RhtSigns(numbers(&RHT_SIGNS));
    let codebook = Codebook(numbers(&Q4F));
    let mut codes = vec![0u32; 8];
    let mut scales = vec![Full(F(0.0)); 4];
    launch_activation_quant(
        QuantValue::Q4F,
        &hidden,
        &mut codes,
        &mut scales,
        &codebook,
        &signs,
        2,
        32,
    );
    for unit in 0..4 {
        let x = rotate_block(&hidden, 32 * (unit / 2), &signs);
        let error = |scale: f32| -> f32 {
            (0..16)
                .map(|j| {
                    let code = dense_code(&codes, unit * 2, j, QuantValue::Q4F);
                    x[16 * (unit % 2) + j].0 - Q4F[code as usize] * scale
                })
                .map(|e| e * e)
                .sum()
        };
        let scale = scales[unit].0 .0;
        assert!(scale > 0.0);
        assert!(error(scale) <= error(scale * 1.05));
        assert!(error(scale) <= error(scale * 0.95));
    }
}

/// A row times rotated weights, with signs, is the row times the weights.
#[test]
fn rotated_weights_cancel() {
    let k = 288usize;
    let (x, w) = (noise(0x5eed_0001, k), noise(0x5eed_0002, k));
    let signs = RhtSigns(numbers(&RHT_SIGNS));
    let plain = numbers(&w);
    let turned: Vec<F> = (0..k / 32)
        .flat_map(|b| rotate_block(&plain, 32 * b, &signs))
        .collect();
    let got = cube_product(&numbers(&x), &turned, &signs);
    let want = cube_product(&numbers(&x), &plain, &RhtSigns(Vec::new()));
    let dot: f32 = x.iter().zip(&w).map(|(a, b)| a * b).sum();
    assert!(close(want.0, dot, 1e-4));
    assert!(close(got.0, dot, 1e-4));
}

/// Runs a decode launch without a table.
fn decode(
    a: &[f32],
    words: &[u32],
    scales: &[Half],
    signs: &RhtSigns<F>,
    n: usize,
    gamma: &[f32],
) -> Vec<f32> {
    let mut out = vec![F(0.0); n];
    launch_panel(
        QuantValue::Q8S,
        &full(a),
        words,
        scales,
        &Codebook(Vec::new()),
        signs,
        &mut out,
        1,
        n,
        a.len(),
        &full(gamma),
        !gamma.is_empty(),
        F(0.0),
        true,
    );
    floats(&out)
}

/// Rotated weights cancel the rotation of a decoded row, up to their quantization.
#[test]
fn decode_cancels_rotation() {
    let (n, k) = (3usize, 64usize);
    let (a, w) = (noise(0x5eed_0003, k), noise(0x5eed_0004, n * k));
    let signs = RhtSigns(numbers(&RHT_SIGNS));
    let mut words = vec![0u32; n * k / 4];
    let mut scales = halves(&vec![f16::ZERO; n * k / 16]);
    launch_symmetric_activation_quant(
        QuantValue::Q8S,
        &numbers(&w),
        &mut words,
        &mut scales,
        &signs,
        n,
        k,
    );
    let got = decode(&a, &words, &scales, &signs, n, &[]);
    for col in 0..n {
        let dot: f32 = (0..k).map(|e| a[e] * w[col * k + e]).sum();
        assert!((got[col] - dot).abs() < 0.3);
    }
}

/// A normalized run is the plain run on activation times gain, times the scale of the
/// activation alone.
#[test]
fn normalized_run_is_scaled_plain_run() {
    let (n, k) = (3usize, 64usize);
    let (a, gamma) = (noise(0x5eed_0005, k), noise(0x5eed_0006, k));
    let product: Vec<f32> = a.iter().zip(&gamma).map(|(h, g)| h * g).collect();
    let words: Vec<u32> = (0..n * k / 4).map(|i| 0x0102_f307 + i as u32).collect();
    let scales = halves(&vec![f16::from_f32(0.5); n * k / 16]);
    let mean = a.iter().map(|h| h * h).sum::<f32>() / k as f32;
    for signs in [RhtSigns(Vec::new()), RhtSigns(numbers(&RHT_SIGNS))] {
        let normalized = decode(&a, &words, &scales, &signs, n, &gamma);
        let plain = decode(&product, &words, &scales, &signs, n, &[]);
        for col in 0..n {
            assert!(close(normalized[col], plain[col] / (mean + 1e-6).sqrt(), 1e-4));
        }
    }
}

/// Codes and scales of symmetric quantization to four bits.
fn symmetric(hidden: &[f32]) -> (Vec<u32>, Vec<f32>) {
    let signs = RhtSigns(numbers(&RHT_SIGNS));
    let mut words = vec![0u32; hidden.len() / 8];
    let mut scales = vec![Full(F(0.0)); hidden.len() / 16];
    launch_symmetric_activation_quant(
        QuantValue::Q4S,
        &numbers(hidden),
        &mut words,
        &mut scales,
        &signs,
        1,
        hidden.len(),
    );
    let codes = (0..hidden.len())
        .map(|j| dense_code(&words, 0, j, QuantValue::Q4S))
        .collect();
    (codes, scales.iter().map(|s| s.0 .0).collect())
}

/// Every half-block has a code at an end of the range, and none beyond.
#[test]
fn symmetric_codes_reach_the_range() {
    let (codes, scales) = symmetric(&noise(0x5eed_0007, 96));
    for (unit, scale) in scales.iter().enumerate() {
        assert!(*scale > 1e-10);
        let own = &codes[16 * unit..16 * unit + 16];
        assert!(own.iter().any(|&c| c == 7 || c == 9));
        assert!(own.iter().all(|&c| c != 8));
    }
}

/// Negated activations have negated codes and the same scales.
#[test]
fn negated_activations() {
    let hidden = noise(0x5eed_0008, 64);
    let negated: Vec<f32> = hidden.iter().map(|v| -v).collect();
    let (codes, scales) = symmetric(&hidden);
    let (codes2, scales2) = symmetric(&negated);
    assert_eq!(scales, scales2);
    for (a, b) in codes.iter().zip(&codes2) {
        assert_eq!(*b, 0u32.wrapping_sub(*a) & 15);
    }
}

/// A value on a midpoint takes the upper centroid.
#[test]
fn midpoints_go_up() {
    let table: Vec<F> = (0..16).map(|i| F(i as f32)).collect();
    let codebook = Codebook(table);
    for i in 0..15u32 {
        let index = choose_index(F(i as f32 + 0.5), &codebook, QuantValue::Q4F);
        assert_eq!(index, i + 1);
    }
}

/// Six steps of refinement fit no worse than the root mean square.
#[test]
fn refinement_fits_no_worse_than_the_seed() {
    let signs = RhtSigns(numbers(&RHT_SIGNS));
    let codebook = Codebook(numbers(&Q4F));
    for seed in 1..20u64 {
        let hidden = numbers(&noise(seed * 0x9e37_79b9, 32));
        let mut codes = vec![0u32; 4];
        let mut scales = vec![Full(F(0.0)); 2];
        launch_activation_quant(
            QuantValue::Q4F,
            &hidden,
            &mut codes,
            &mut scales,
            &codebook,
            &signs,
            1,
            32,
        );
        let x = rotate_block(&hidden, 0, &signs);
        for h in 0..2 {
            let half = &x[16 * h..16 * h + 16];
            let rms = (half.iter().map(|v| v.0 * v.0).sum::<f32>() / 16.0).sqrt();
            let error = |scale: f32| -> f32 {
                half.iter()
                    .map(|v| {
                        let index = choose_index(F(v.0 / scale), &codebook, QuantValue::Q4F);
                        v.0 - Q4F[index as usize] * scale
                    })
                    .map(|e| e * e)
                    .sum()
            };
            assert!(error(scales[h].0 .0) <= error(rms) + 1e-5);
        }
    }
}

/// Copies of tables and patterns hold what they are copies of.
#[test]
fn copies() {
    let signs = RhtSigns(numbers(&RHT_SIGNS));
    assert!(signs.clone() == signs);
    let codebook = Codebook(numbers(&Q4F));
    assert_eq!(floats(&codebook.clone().0), Q4F.to_vec());
}
