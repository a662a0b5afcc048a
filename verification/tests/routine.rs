use cubek_qa::arith::Full;
use cubek_qa::definition::{
    AddressType, CubeCountPlan, CubeDim, CubeDimResource, GlobalLayoutConfig, InvalidConfig,
    MatmulAvailabilityError, MatmulElems, MatmulProblem, MatmulSetupError, MatmulVectorSizes,
    MatrixLayout,
};
use cubek_qa::fixed::Fixed;
use cubek_qa::grid::{div_ceil, linear_grid, planar_grid, CubeCount};
use cubek_qa::qa_gemv::config::QaGemvConfig;
use cubek_qa::qa_gemv::matmul::{load_unrolled, Operand};
use cubek_qa::qa_gemv::routine::{
    qa_gemv_cube_count, DeviceSettings, ExpandInfo, QaGemvRoutine, QaGemvStrategy,
};
use cubek_qa::qa_gemv::setup::{QaGemvBatchMatmulFamily, QaGemvBlueprint};
use cubek_qa::scheme::{ElemType, FloatKind};

const F32: ElemType = ElemType::Float(FloatKind::Single);
const F16: ElemType = ElemType::Float(FloatKind::Half);

const DTYPES: MatmulElems = MatmulElems {
    lhs_global: F16,
    rhs_global: F16,
    acc_global: F32,
    lhs_register: F16,
    rhs_register: F16,
    acc_register: F32,
};

fn sizes(lhs: usize, rhs: usize, out: usize) -> MatmulVectorSizes {
    MatmulVectorSizes { lhs, rhs, out }
}

fn settings(vector_sizes: MatmulVectorSizes) -> DeviceSettings {
    DeviceSettings {
        plane_dim: 32,
        vector_sizes,
    }
}

fn problem(k: usize, out_shape: Vec<usize>) -> MatmulProblem {
    MatmulProblem {
        k,
        out_shape,
        address_type: AddressType::U32,
    }
}

fn info() -> ExpandInfo {
    QaGemvRoutine::expand_blueprint(&DTYPES, &settings(sizes(1, 1, 1)), &QaGemvStrategy::default())
        .unwrap()
}

fn count(x: u32, y: u32, z: u32) -> CubeCount {
    CubeCount { x, y, z }
}

fn whole(x: i32) -> Full<Fixed> {
    Full(Fixed { raw: x * 65536 })
}

fn layout(matrix_layout: MatrixLayout) -> GlobalLayoutConfig {
    GlobalLayoutConfig {
        matrix_layout,
        check_row_bounds: false,
        check_col_bounds: false,
    }
}

/// Configuration and blueprint lay the operands out alike.
#[test]
fn layouts() {
    let config = QaGemvConfig {};
    let blueprint = QaGemvBlueprint { dtypes: DTYPES };
    assert_eq!(config.lhs_global_layout_config(), layout(MatrixLayout::RowMajor));
    assert_eq!(config.rhs_global_layout_config(), layout(MatrixLayout::ColMajor));
    assert_eq!(config.out_global_layout_config(), layout(MatrixLayout::RowMajor));
    assert_eq!(
        blueprint.lhs_global_layout_config(),
        config.lhs_global_layout_config()
    );
    assert_eq!(
        blueprint.rhs_global_layout_config(),
        config.rhs_global_layout_config()
    );
    assert_eq!(
        blueprint.out_global_layout_config(),
        config.out_global_layout_config()
    );
}

#[test]
fn family() {
    let blueprint = QaGemvBlueprint { dtypes: DTYPES };
    assert_eq!(
        QaGemvBatchMatmulFamily::expand_config(&blueprint, &DTYPES, &sizes(4, 2, 1)),
        Ok(QaGemvConfig {})
    );
    let stages = QaGemvBatchMatmulFamily::num_stages();
    assert_eq!((stages.lhs, stages.rhs), (1, 1));
    assert_eq!(QaGemvRoutine::num_stages(), stages);
    let resource =
        QaGemvBatchMatmulFamily::cubedim_resource(&blueprint, &DTYPES, &sizes(1, 1, 1)).unwrap();
    assert_eq!(resource, CubeDimResource::Planes(8));
    assert_eq!(resource.to_cube_dim(32), CubeDim { x: 32, y: 8, z: 1 });
}

#[test]
fn vectorized_output_is_refused() {
    let verdict = QaGemvRoutine::validate_blueprint(
        &info().blueprint,
        &problem(63, vec![8, 1]),
        &DTYPES,
        &sizes(4, 4, 2),
    );
    assert_eq!(
        verdict,
        Err(MatmulSetupError::InvalidConfig(InvalidConfig::VectorizedOutput))
    );
}

#[test]
fn uneven_loads_are_refused() {
    let verdict = |k: usize, lhs: usize, rhs: usize| {
        QaGemvBatchMatmulFamily::validate_blueprint(
            &info().blueprint,
            &problem(k, vec![8, 1]),
            &DTYPES,
            &sizes(lhs, rhs, 1),
        )
    };
    let uneven = |k: usize, load: usize| {
        Err(MatmulSetupError::InvalidConfig(InvalidConfig::UnevenLoad {
            k,
            load,
        }))
    };
    assert_eq!(verdict(64, 4, 2), Ok(()));
    assert_eq!(verdict(64, 2, 8), Ok(()));
    assert_eq!(verdict(66, 2, 4), uneven(66, 4));
    assert_eq!(verdict(66, 4, 2), uneven(66, 4));
    assert_eq!(verdict(66, 0, 0), uneven(66, 0));
    assert_eq!(verdict(0, 0, 0), Ok(()));
}

#[test]
fn strategies() {
    let strategy: QaGemvStrategy = ().into();
    assert_eq!(strategy.text(), "");
    assert_eq!(QaGemvStrategy::default().clone().text(), String::new());
    let expanded = info();
    assert_eq!(expanded.dtypes, DTYPES);
    assert_eq!(expanded.blueprint, QaGemvBlueprint { dtypes: DTYPES });
}

#[test]
fn cube_counts() {
    let plan = |shape: &[usize], threads: u32| {
        qa_gemv_cube_count(shape, threads).map(|p: CubeCountPlan| p.resolve())
    };
    let too_big = |x: u32, y: u32, z: u32| {
        Err(MatmulSetupError::Unavailable(
            MatmulAvailabilityError::CubeCountTooBig(count(x, y, z)),
        ))
    };
    assert_eq!(plan(&[256, 1], 256), Ok(count(1, 1, 1)));
    assert_eq!(plan(&[257, 1], 256), Ok(count(1, 2, 1)));
    assert_eq!(plan(&[0, 1], 256), Ok(count(1, 1, 1)));
    assert_eq!(plan(&[3, 5, 100, 1], 256), Ok(count(1, 1, 15)));
    assert_eq!(plan(&[0, 7, 100, 1], 256), Ok(count(1, 1, 0)));
    assert_eq!(plan(&[65535 * 4, 1], 4), Ok(count(1, 65535, 1)));
    assert_eq!(plan(&[65535 * 4 + 1, 1], 4), too_big(1, 65536, 1));
    assert_eq!(plan(&[256, 256, 8, 1], 4), too_big(1, 2, 65536));
    assert_eq!(plan(&[5, 1], 0), too_big(1, u32::MAX, 1));
    assert_eq!(plan(&[0, 1], 0), Ok(count(1, 1, 1)));
}

#[test]
fn preparation() {
    let launch = QaGemvRoutine::prepare(
        &problem(64, vec![2, 300, 1]),
        &settings(sizes(4, 4, 1)),
        info(),
    )
    .unwrap();
    assert_eq!(launch.blueprint, info().blueprint);
    assert_eq!(launch.dtypes, DTYPES);
    assert_eq!(launch.cube_dim, CubeDim { x: 32, y: 8, z: 1 });
    assert_eq!(launch.cube_count_plan.resolve(), count(1, 2, 2));
    assert_eq!(launch.address_type, AddressType::U32);
    assert_eq!(launch.vector_sizes, sizes(4, 4, 1));
    assert_eq!(
        QaGemvRoutine::prepare(&problem(62, vec![8, 1]), &settings(sizes(4, 4, 1)), info()),
        Err(MatmulSetupError::InvalidConfig(InvalidConfig::UnevenLoad {
            k: 62,
            load: 4
        }))
    );
    assert_eq!(
        QaGemvRoutine::prepare(
            &problem(64, vec![256 * 65536, 1]),
            &settings(sizes(4, 4, 1)),
            info()
        ),
        Err(MatmulSetupError::Unavailable(
            MatmulAvailabilityError::CubeCountTooBig(count(1, 65536, 1))
        ))
    );
}

/// Prepared and launched, whatever the vector sizes: every row of every batch is the
/// inner product of its weights and the vector, and nothing else is written.
#[test]
fn launched_rows() {
    let (batches, m, n, k) = (2usize, 300usize, 2usize, 16usize);
    let lhs: Vec<Full<Fixed>> = (0..m * k).map(|i| whole((i % 7) as i32 - 3)).collect();
    let rhs: Vec<Full<Fixed>> = (0..batches * k * n)
        .map(|i| whole((i % 5) as i32 - 2))
        .collect();
    for (lhs_size, rhs_size) in [(1, 1), (4, 2), (2, 8)] {
        let vector_sizes = sizes(lhs_size, rhs_size, 1);
        let launch = QaGemvRoutine::prepare(
            &problem(k, vec![batches, m, n]),
            &settings(vector_sizes),
            info(),
        )
        .unwrap();
        let lhs_operand = Operand {
            data: &lhs,
            rows: m,
            cols: k,
            batches: &[0, 0],
            vector_size: lhs_size,
        };
        let rhs_operand = Operand {
            data: &rhs,
            rows: k,
            cols: n,
            batches: &[1, 0],
            vector_size: rhs_size,
        };
        let mut out = vec![whole(99); batches * m * n + 1];
        let done = QaGemvRoutine::launch::<Fixed, Full<Fixed>, Full<Fixed>, Full<Fixed>>(
            launch.cube_dim,
            launch.cube_count_plan.resolve(),
            &lhs_operand,
            &rhs_operand,
            &mut out,
            m,
            n,
            &launch.blueprint,
            &vector_sizes,
        );
        assert_eq!(done, Ok(()));
        for b in 0..batches {
            let vector = &rhs[(1 - b) * k * n..];
            for row in 0..m {
                let dot: i32 = (0..k)
                    .map(|c| lhs[row * k + c].0.raw / 65536 * (vector[c].0.raw / 65536))
                    .sum();
                assert_eq!(out[(b * m + row) * n].0, whole(dot).0);
                assert_eq!(out[(b * m + row) * n + 1].0, whole(99).0);
            }
        }
        assert_eq!(out[batches * m * n].0, whole(99).0);
    }
}

/// A grid without units writes nothing.
#[test]
fn empty_grid() {
    let data = [whole(1)];
    let operand = Operand {
        data: &data,
        rows: 1,
        cols: 1,
        batches: &[0],
        vector_size: 1,
    };
    let mut out = vec![whole(5)];
    let done = QaGemvBatchMatmulFamily::launch_unchecked::<
        Fixed,
        Full<Fixed>,
        Full<Fixed>,
        Full<Fixed>,
    >(
        CubeDim { x: 32, y: 8, z: 1 },
        count(1, 0, 1),
        &operand,
        &operand,
        &mut out,
        1,
        1,
        &info().blueprint,
        &sizes(1, 1, 1),
    );
    assert_eq!(done, Ok(()));
    assert_eq!(out[0].0, whole(5).0);
}

/// A load takes as many reads as it needs, along the layout.
#[test]
fn loads() {
    let data: Vec<u32> = (0..24).collect();
    let operand = |vector_size: usize| Operand {
        data: &data,
        rows: 4,
        cols: 6,
        batches: &[0],
        vector_size,
    };
    for vector_size in [1, 2, 4] {
        let rows = operand(vector_size).view_batch(0, MatrixLayout::RowMajor);
        assert_eq!(
            load_unrolled(&rows, (1, 2), MatrixLayout::RowMajor, 4),
            vec![8, 9, 10, 11]
        );
        let cols = operand(vector_size).view_batch(0, MatrixLayout::ColMajor);
        assert_eq!(
            load_unrolled(&cols, (0, 5), MatrixLayout::ColMajor, 4),
            vec![20, 21, 22, 23]
        );
    }
}

#[test]
fn grids() {
    assert_eq!(linear_grid(0), count(0, 1, 1));
    assert_eq!(linear_grid(256), count(1, 1, 1));
    assert_eq!(linear_grid(257), count(2, 1, 1));
    assert_eq!(planar_grid(65535), count(65535, 1, 1));
    assert_eq!(planar_grid(65536), count(65535, 2, 1));
    assert_eq!(div_ceil(9, 8), 2);
    assert_eq!(div_ceil(usize::MAX, 2), usize::MAX / 2 + 1);
}

/// A prepared grid has a unit for every row, and less than a cube of units too many.
#[test]
fn prepared_grids_cover_the_rows() {
    for m in [1usize, 255, 256, 257, 5000] {
        let launch = QaGemvRoutine::prepare(
            &problem(64, vec![3, m, 1]),
            &settings(sizes(4, 4, 1)),
            info(),
        )
        .unwrap();
        let grid = launch.cube_count_plan.resolve();
        let dim = launch.cube_dim;
        let rows = (grid.x * dim.x * (grid.y * dim.y)) as usize;
        assert!(m <= rows && rows < m + 256);
        assert_eq!(grid.z * dim.z, 3);
    }
}
