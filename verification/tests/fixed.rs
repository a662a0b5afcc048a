use cubek_qa::arith::{Full, Real};
use cubek_qa::codebook::Codebook;
use cubek_qa::dense::pack_block;
use cubek_qa::fixed::Fixed;
use cubek_qa::qa_matmul::{launch, launch_panel};
use cubek_qa::rht::{rotate_block, rotate_plane, RhtSigns};
use cubek_qa::scheme::QuantValue;

fn whole(x: i32) -> Fixed {
    Fixed { raw: x * 65536 }
}

#[test]
fn decimals() {
    assert_eq!(Fixed::decimal(5, 1).raw, 32768);
    assert_eq!(Fixed::decimal(-5, 1).raw, -32768);
    assert_eq!(Fixed::decimal(3, 0).raw, 3 * 65536);
    assert_eq!(Fixed::decimal(1, 10).raw, 0);
    assert_eq!(Fixed::decimal(i64::MAX, 0).raw, i32::MAX);
    assert_eq!(Fixed::decimal(i64::MIN, 0).raw, i32::MIN);
}

#[test]
fn operations() {
    assert_eq!(whole(3).plus(whole(4)), whole(7));
    assert_eq!(whole(3).minus(whole(4)), whole(-1));
    assert_eq!(whole(3).times(whole(-4)), whole(-12));
    assert_eq!(Fixed { raw: 1 }.times(Fixed { raw: 1 }).raw, 0);
    assert_eq!(whole(7).over(whole(-2)).raw, -7 * 32768);
    assert_eq!(whole(1).over(whole(0)).raw, i32::MAX);
    assert_eq!(whole(-1).over(whole(0)).raw, i32::MIN);
    assert_eq!(whole(0).over(whole(0)).raw, 0);
    assert_eq!(whole(4).recip().raw, 16384);
    assert_eq!(whole(9).sqrt(), whole(3));
    assert_eq!(whole(2).sqrt().raw, 92681);
    assert_eq!(whole(-2).sqrt().raw, 0);
    assert_eq!(whole(-2).abs(), whole(2));
    assert_eq!(Fixed { raw: 98304 }.round(), whole(2));
    assert_eq!(Fixed { raw: -98304 }.round(), whole(-2));
    assert_eq!(Fixed { raw: 98303 }.round(), whole(1));
    assert_eq!(Fixed { raw: -98303 }.whole(), -1);
    assert!(whole(2).at_least(whole(2)) && !whole(2).exceeds(whole(2)));
    assert!(whole(3).exceeds(whole(2)) && !whole(1).at_least(whole(2)));
    assert_eq!(whole(-1).word(), 0xffff_0000);
}

#[test]
fn results_stay_in_range() {
    let top = Fixed { raw: i32::MAX };
    let bottom = Fixed { raw: i32::MIN };
    assert_eq!(top.plus(top), top);
    assert_eq!(bottom.minus(top), bottom);
    assert_eq!(top.times(top), top);
    assert_eq!(bottom.abs(), top);
    assert_eq!(Fixed::plane_sum(&vec![top, top, whole(-1)]).raw, i32::MAX - 65536);
    assert_eq!(Fixed::plane_sum(&Vec::new()), whole(0));
}

/// Codes of `j` in unit `u` of a row.
fn row(seed: u32, blocks: u32) -> (Vec<u32>, Vec<u32>) {
    let mut words = Vec::new();
    let mut codes = Vec::new();
    for b in 0..blocks {
        let block: Vec<u32> = (0..32).map(|j| (j * 5 + b * 3 + seed) % 16).collect();
        words.extend(pack_block(&block, QuantValue::Q4F));
        codes.extend(block);
    }
    (words, codes)
}

/// Without rounding, a product is the inner product of the dequantized rows, and the
/// panel and the decode product of the same rows are that, too.
#[test]
fn products_are_inner_products() {
    let table: Vec<i32> = (0..16).map(|i| i - 8).collect();
    let codebook = Codebook(table.iter().map(|&c| whole(c)).collect::<Vec<Fixed>>());
    let (m, n, k) = (2usize, 9usize, 64usize);
    let units = k / 16;
    let mut a_words = Vec::new();
    let mut a = Vec::new();
    for r in 0..m {
        let (words, codes) = row(r as u32, 2);
        a_words.extend(words);
        a.extend(codes);
    }
    let mut w_words = Vec::new();
    let mut w = Vec::new();
    for r in 0..n {
        let (words, codes) = row(7 * r as u32 + 1, 2);
        w_words.extend(words);
        w.extend(codes);
    }
    let a_scale: Vec<i32> = (0..m * units).map(|i| (i % 3) as i32 - 1).collect();
    let w_scale: Vec<i32> = (0..n * units).map(|i| (i % 2) as i32 + 1).collect();
    let a_scales: Vec<Full<Fixed>> = a_scale.iter().map(|&s| Full(whole(s))).collect();
    let w_scales: Vec<Full<Fixed>> = w_scale.iter().map(|&s| Full(whole(s))).collect();
    let value_a = |r: usize, c: usize| {
        table[a[r * k + c] as usize] * a_scale[r * units + c / 16]
    };
    let value_w = |r: usize, c: usize| {
        table[w[r * k + c] as usize] * w_scale[r * units + c / 16]
    };
    let expected: Vec<Fixed> = (0..m * n)
        .map(|i| whole((0..k).map(|c| value_a(i / n, c) * value_w(i % n, c)).sum()))
        .collect();

    let mut out = vec![whole(0); m * n + 1];
    out[m * n] = whole(77);
    launch(
        QuantValue::Q4F,
        &a_words,
        &a_scales,
        &w_words,
        &w_scales,
        &codebook,
        &mut out,
        m,
        n,
        k,
    );
    assert_eq!(out[..m * n], expected[..]);
    assert_eq!(out[m * n], whole(77));

    let activations: Vec<Full<Fixed>> = (0..m * k)
        .map(|i| Full(whole(value_a(i / k, i % k))))
        .collect();
    let mut panel = vec![whole(0); m * n];
    launch_panel(
        QuantValue::Q4F,
        &activations,
        &w_words,
        &w_scales,
        &codebook,
        &RhtSigns(Vec::new()),
        &mut panel,
        m,
        n,
        k,
        &[],
        false,
        whole(0),
        false,
    );
    assert_eq!(panel, expected);

    for stage_f32 in [false, true] {
        let mut decoded = vec![whole(0); n];
        launch_panel(
            QuantValue::Q4F,
            &activations[k..],
            &w_words,
            &w_scales,
            &codebook,
            &RhtSigns(Vec::new()),
            &mut decoded,
            1,
            n,
            k,
            &[],
            false,
            whole(0),
            stage_f32,
        );
        assert_eq!(decoded[..], expected[n..]);
    }
}

/// A block and a plane rotate alike; an impulse spreads with the signs of the
/// Walsh-Hadamard matrix.
#[test]
fn rotations_agree() {
    let ones = RhtSigns(vec![whole(1); 32]);
    let gain = Fixed::decimal(17677669, 8);
    let minus = Fixed { raw: -gain.raw };
    for at in 0..32usize {
        let mut x = vec![whole(0); 32];
        x[at] = whole(1);
        let block = rotate_block(&x, 0, &ones);
        assert_eq!(block, rotate_plane(&x, &ones));
        for i in 0..32usize {
            let sign = (i & at).count_ones() % 2;
            assert_eq!(block[i], if sign == 0 { gain } else { minus });
        }
    }
}

/// Signs are applied before the butterfly.
#[test]
fn signs_come_first() {
    let mut pattern = vec![whole(1); 32];
    pattern[3] = whole(-1);
    let signs = RhtSigns(pattern);
    let plain = RhtSigns(vec![whole(1); 32]);
    let mut x = vec![whole(0); 40];
    x[8 + 3] = whole(2);
    let mut y = vec![whole(0); 40];
    y[8 + 3] = whole(-2);
    assert_eq!(rotate_block(&x, 8, &signs), rotate_block(&y, 8, &plain));
}
