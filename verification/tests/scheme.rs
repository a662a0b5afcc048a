use cubek_qa::codebook::{bias, is_linear, num_levels};
use cubek_qa::scheme::{
    block_size_verdict, check_block_size_compat, packed_storage_elem, BlockSizeError, ElemType,
    QuantLevel, QuantScheme, QuantStore, QuantValue, UIntKind,
};

fn scheme(store: QuantStore, level: QuantLevel) -> QuantScheme {
    QuantScheme {
        value: QuantValue::Q4F,
        store,
        level,
    }
}

#[test]
fn widths() {
    let widths = [
        (QuantValue::Q8F, 8),
        (QuantValue::E5M2, 8),
        (QuantValue::E4M3, 8),
        (QuantValue::Q6F, 6),
        (QuantValue::Q4F, 4),
        (QuantValue::E2M1, 4),
        (QuantValue::Q3F, 3),
        (QuantValue::Q2F, 2),
        (QuantValue::Q8S, 8),
        (QuantValue::Q4S, 4),
        (QuantValue::Q2S, 2),
    ];
    for (value, bits) in widths {
        assert_eq!(value.size_bits(), bits);
        assert_eq!(num_levels(value), 1 << bits);
    }
}

#[test]
fn symmetric_values() {
    for value in [QuantValue::Q8S, QuantValue::Q4S, QuantValue::Q2S] {
        assert!(value.is_symmetric());
    }
    for value in [
        QuantValue::Q8F,
        QuantValue::E5M2,
        QuantValue::E4M3,
        QuantValue::Q6F,
        QuantValue::Q4F,
        QuantValue::E2M1,
        QuantValue::Q3F,
        QuantValue::Q2F,
    ] {
        assert!(!value.is_symmetric());
    }
}

#[test]
fn ranges() {
    let ranges = [
        (QuantValue::Q8F, 127),
        (QuantValue::E5M2, 57344),
        (QuantValue::E4M3, 448),
        (QuantValue::Q6F, 31),
        (QuantValue::Q4F, 7),
        (QuantValue::E2M1, 6),
        (QuantValue::Q3F, 3),
        (QuantValue::Q2F, 1),
        (QuantValue::Q8S, 127),
        (QuantValue::Q4S, 7),
        (QuantValue::Q2S, 1),
    ];
    for (value, max) in ranges {
        assert_eq!(value.range_max(), max);
    }
}

#[test]
fn linear_codebooks() {
    assert!(is_linear(QuantValue::Q8F));
    assert!(!is_linear(QuantValue::Q8S));
    assert!(!is_linear(QuantValue::Q6F));
    assert_eq!(bias(QuantValue::Q8F), 128);
    assert_eq!(bias(QuantValue::Q4F), 0);
}

#[test]
fn block_sizes() {
    let block = |size: u8| {
        scheme(
            QuantStore::Native,
            QuantLevel::Block(vec![3, size]),
        )
    };
    assert_eq!(block_size_verdict(&block(32), 8), Ok(()));
    assert_eq!(block_size_verdict(&block(0), 0), Ok(()));
    assert_eq!(
        block_size_verdict(&block(30), 8),
        Err(BlockSizeError {
            div: 8,
            block_size: 30
        })
    );
    assert_eq!(
        block_size_verdict(&block(30), 0),
        Err(BlockSizeError {
            div: 0,
            block_size: 30
        })
    );
    let tensor = scheme(QuantStore::Native, QuantLevel::Tensor);
    assert_eq!(block_size_verdict(&tensor, 8), Ok(()));
    check_block_size_compat(&tensor, 8);
    check_block_size_compat(&block(32), 8);
}

#[test]
fn packed_storage() {
    for store in [QuantStore::PackedU32(0), QuantStore::PackedU32Dense(1)] {
        assert!(store.is_packed_u32());
        assert_eq!(
            packed_storage_elem(&scheme(store, QuantLevel::Tensor)),
            ElemType::UInt(UIntKind::U32)
        );
    }
    for store in [QuantStore::Native, QuantStore::PackedNative(0)] {
        assert!(!store.is_packed_u32());
    }
}
