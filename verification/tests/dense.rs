use cubek_qa::dense::{dense_code, dense_code_dyn, low_mask, pack_block, words_per_unit};
use cubek_qa::scheme::QuantValue;

const VALUES: [QuantValue; 11] = [
    QuantValue::Q8F,
    QuantValue::E5M2,
    QuantValue::E4M3,
    QuantValue::Q6F,
    QuantValue::Q4F,
    QuantValue::E2M1,
    QuantValue::Q3F,
    QuantValue::Q2F,
    QuantValue::Q8S,
    QuantValue::Q4S,
    QuantValue::Q2S,
];

/// Packed codes come back, also those that straddle two words.
#[test]
fn packed_codes_come_back() {
    for value in VALUES {
        let bits = value.size_bits();
        let mut s = 0x1234_5678_9abcu64;
        for _ in 0..20 {
            let codes: Vec<u32> = (0..32)
                .map(|_| {
                    s ^= s << 13;
                    s ^= s >> 7;
                    s ^= s << 17;
                    (s % (1 << bits)) as u32
                })
                .collect();
            let words = pack_block(&codes, value);
            assert_eq!(words.len(), bits);
            for j in 0..32 {
                assert_eq!(dense_code(&words, 0, j, value), codes[j]);
                assert_eq!(dense_code_dyn(&words, 0, j as u32, value), codes[j]);
            }
        }
    }
}

/// Code 5 of a 6-bit stream takes two bits of one word and four of the next.
#[test]
fn straddling_code() {
    let words = [0x8000_0000u32, 0x0000_000d];
    assert_eq!(dense_code(&words, 0, 5, QuantValue::Q6F), 0b110110);
    assert_eq!(dense_code_dyn(&words, 0, 5, QuantValue::Q6F), 0b110110);
}

#[test]
fn codes_start_at_their_base() {
    let words = [0u32, 0x0000_0321];
    assert_eq!(dense_code(&words, 1, 0, QuantValue::Q4F), 1);
    assert_eq!(dense_code(&words, 1, 1, QuantValue::Q4F), 2);
    assert_eq!(dense_code_dyn(&words, 1, 2, QuantValue::Q4F), 3);
}

/// A block of thirty-two codes is two units of sixteen.
#[test]
fn blocks_are_two_units() {
    for value in VALUES {
        if value.size_bits() % 2 == 1 {
            continue;
        }
        let codes: Vec<u32> = (0..32)
            .map(|j| (j * 7 + 3) % (1 << value.size_bits()))
            .collect();
        let words = pack_block(&codes, value);
        let wpu = words_per_unit(value);
        for j in 0..32 {
            let unit = j / 16;
            assert_eq!(dense_code(&words, unit * wpu, j % 16, value), codes[j]);
        }
    }
}

#[test]
fn unit_sizes() {
    assert_eq!(words_per_unit(QuantValue::Q6F), 3);
    assert_eq!(words_per_unit(QuantValue::Q4F), 2);
    assert_eq!(words_per_unit(QuantValue::Q8F), 4);
    assert_eq!(words_per_unit(QuantValue::Q2S), 1);
}

#[test]
fn masks() {
    assert_eq!(low_mask(2), 3);
    assert_eq!(low_mask(6), 63);
    assert_eq!(low_mask(8), 255);
}

/// Known words: code `j` is `j` in six bits.
#[test]
fn known_packing() {
    let codes: Vec<u32> = (0..32).collect();
    let words = pack_block(&codes, QuantValue::Q6F);
    assert_eq!(words[0], 0x440c_2040);
    assert_eq!(words[1] & 0xf, 1);
}
