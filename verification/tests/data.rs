//! Batches, the worker queue, image transforms, random numbers, MNIST files and
//! the data loader.

use std::io::Write;

use flate2::write::GzEncoder;
use flate2::Compression;
use oxitorch::data::batch::{
    epoch_plan, gather_columns, indices_seed, respond, BatchRequest, BatchResponse, BatchSource,
    CompletedBatch, Poll, QueueState, ResponseReorderer, TensorBatchSource,
};
use oxitorch::data::loader::{
    inline_outcome, parse_transform, DataLoader, EpochSeeds, LoaderIter, LoaderStep,
};
use oxitorch::data::mnist::{
    be_u32, decode_file, decoded, file_names, parse_idx1, parse_idx3, pick_compressed, MnistData,
};
use oxitorch::data::rng::Mt19937;
use oxitorch::data::transform::{
    batch_rng, batch_seed, normalize, random_crop, random_horizontal_flip, Geometry,
    NativeTransform, TransformPipeline,
};
use oxitorch::elem::Elem;
use oxitorch::error::OxitorchResult;
use oxitorch::tensor::Tensor;

/// 32-bit floats as tensor elements.
#[derive(Debug, Clone, Copy, PartialEq)]
struct F32(f32);

impl Elem for F32 {
    fn zero() -> Self {
        F32(0.0)
    }
    fn one() -> Self {
        F32(1.0)
    }
    fn two() -> Self {
        F32(2.0)
    }
    fn tiny() -> Self {
        F32(1e-12)
    }
    fn difference_step() -> Self {
        F32(1e-2)
    }
    fn half() -> Self {
        F32(0.5)
    }
    fn tau() -> Self {
        F32(std::f32::consts::TAU)
    }
    fn min_positive() -> Self {
        F32(f32::MIN_POSITIVE)
    }
    fn infinity() -> Self {
        F32(f32::INFINITY)
    }
    fn neg_infinity() -> Self {
        F32(f32::NEG_INFINITY)
    }
    fn plus(a: Self, b: Self) -> Self {
        F32(a.0 + b.0)
    }
    fn minus(a: Self, b: Self) -> Self {
        F32(a.0 - b.0)
    }
    fn times(a: Self, b: Self) -> Self {
        F32(a.0 * b.0)
    }
    fn divide(a: Self, b: Self) -> Self {
        F32(a.0 / b.0)
    }
    fn power(a: Self, b: Self) -> Self {
        F32(a.0.powf(b.0))
    }
    fn smaller(a: Self, b: Self) -> Self {
        F32(a.0.min(b.0))
    }
    fn larger(a: Self, b: Self) -> Self {
        F32(a.0.max(b.0))
    }
    fn negate(a: Self) -> Self {
        F32(-a.0)
    }
    fn magnitude(a: Self) -> Self {
        F32(a.0.abs())
    }
    fn sqrt(a: Self) -> Self {
        F32(a.0.sqrt())
    }
    fn exp(a: Self) -> Self {
        F32(a.0.exp())
    }
    fn ln(a: Self) -> Self {
        F32(a.0.ln())
    }
    fn log2(a: Self) -> Self {
        F32(a.0.log2())
    }
    fn log10(a: Self) -> Self {
        F32(a.0.log10())
    }
    fn sin(a: Self) -> Self {
        F32(a.0.sin())
    }
    fn cos(a: Self) -> Self {
        F32(a.0.cos())
    }
    fn tanh(a: Self) -> Self {
        F32(a.0.tanh())
    }
    fn floor(a: Self) -> Self {
        F32(a.0.floor())
    }
    fn ceil(a: Self) -> Self {
        F32(a.0.ceil())
    }
    fn round(a: Self) -> Self {
        F32(a.0.round())
    }
    fn signum(a: Self) -> Self {
        F32(a.0.signum())
    }
    fn equal(a: Self, b: Self) -> bool {
        a.0 == b.0
    }
    fn less(a: Self, b: Self) -> bool {
        a.0 < b.0
    }
    fn less_equal(a: Self, b: Self) -> bool {
        a.0 <= b.0
    }
    fn from_count(n: usize) -> Self {
        F32(n as f32)
    }
    fn to_count(a: Self) -> usize {
        a.0 as usize
    }
    fn from_byte(b: u8) -> Self {
        F32(f32::from(b))
    }
    fn from_53_bits(n: u64) -> Self {
        // Rounding must not reach 1.
        let below_one = 1.0 - f32::EPSILON / 2.0;
        F32(((n as f64 / 9_007_199_254_740_992.0) as f32).min(below_one))
    }
    fn gemm(m: usize, k: usize, n: usize, a: &[Self], b: &[Self]) -> Vec<Self> {
        let mut out = vec![F32(0.0); m * n];
        for i in 0..m {
            for p in 0..k {
                for j in 0..n {
                    out[i * n + j].0 += a[i * k + p].0 * b[p * n + j].0;
                }
            }
        }
        out
    }
    fn shown(a: Self) -> String {
        format!("{}", a.0)
    }
    fn listed(a: Self) -> String {
        format!("{:?}", a.0)
    }
}

/// The plain floats of a run of elements.
trait Floats {
    fn f32s(&self) -> Vec<f32>;
}

impl Floats for [F32] {
    fn f32s(&self) -> Vec<f32> {
        self.iter().map(|x| x.0).collect()
    }
}

/// Plain floats as elements.
fn elems(data: Vec<f32>) -> Vec<F32> {
    data.into_iter().map(F32).collect()
}

/// A tensor of plain floats.
fn from_vec(shape: &[i64], data: Vec<f32>) -> OxitorchResult<Tensor<F32>> {
    Tensor::from_vec(shape, elems(data))
}

fn tensor(shape: &[usize], data: Vec<f32>) -> Tensor<F32> {
    let dims: Vec<i64> = shape.iter().map(|&d| d as i64).collect();
    from_vec(&dims, data).unwrap()
}

#[test]
fn plan_sequential_and_remainder() {
    let order: Vec<u64> = (0..7).collect();
    let plan = epoch_plan(&order, 3, false).unwrap();
    assert_eq!(plan, vec![vec![0, 1, 2], vec![3, 4, 5], vec![6]]);

    let plan = epoch_plan(&order, 3, true).unwrap();
    assert_eq!(plan, vec![vec![0, 1, 2], vec![3, 4, 5]]);
}

#[test]
fn plan_drop_last_single_batch_keeps_short_batch() {
    // A single short batch with drop_last still yields it (else the
    // loader would be infinitely empty).
    let plan = epoch_plan(&[9, 8], 4, true).unwrap();
    assert_eq!(plan, vec![vec![9, 8]]);
}

#[test]
fn plan_rejects_zero_batch_size() {
    assert!(epoch_plan(&[1], 0, false).is_err());
}

#[test]
fn source_gathers_rows_keeping_dims() {
    // 6 images of (1, 2, 2) + labels.
    let imgs = from_vec(&[6, 1, 2, 2], (0..24).map(|v| v as f32).collect()).unwrap();
    let labels = from_vec(&[6], (0..6).map(|v| v as f32).collect()).unwrap();
    let src = TensorBatchSource::new(vec![imgs, labels]).unwrap();
    let batch = src.get_batch(&[5, 0]).unwrap();
    assert_eq!(batch.len(), 2);
    assert_eq!(batch[0].shape(), &[2, 1, 2, 2]);
    assert_eq!(
        batch[0].to_vec().f32s(),
        vec![20.0, 21.0, 22.0, 23.0, 0.0, 1.0, 2.0, 3.0]
    );
    assert_eq!(batch[1].to_vec().f32s(), vec![5.0, 0.0]);
}

#[test]
fn source_rejects_out_of_range() {
    let col = from_vec(&[1, 2], vec![1.0, 2.0]).unwrap();
    let src = TensorBatchSource::new(vec![col]).unwrap();
    assert!(src.get_batch(&[1]).is_err());
}

#[test]
fn source_rejects_mismatched_columns() {
    let a = from_vec(&[2], vec![0.0, 1.0]).unwrap();
    let b = from_vec(&[3], vec![0.0, 1.0, 2.0]).unwrap();
    assert!(TensorBatchSource::new(vec![a, b]).is_err());
}

#[test]
fn reorder_yields_in_submission_order() {
    let mut r = ResponseReorderer::<F32>::new();
    assert!(r.try_pop().is_none());
    // Out-of-order arrival: 1, then 0.
    let resp1 = BatchResponse::Tensors {
        seq: 1,
        tensors: vec![],
    };
    assert!(r.accept(resp1).is_none());
    assert_eq!(r.buffered(), 1);
    let resp0 = BatchResponse::Tensors {
        seq: 0,
        tensors: vec![],
    };
    let b = r
        .accept(resp0)
        .expect("seq 0 completes after seq 1 buffered");
    assert!(b.error.is_none());
    // seq 1 was buffered while waiting for seq 0; it is now at the head.
    let b1 = r.try_pop().expect("buffered seq 1 ready");
    assert!(b1.error.is_none());
    // Next slot is 2; truly nothing buffered now.
    assert!(r.try_pop().is_none());
}

#[test]
fn reorder_carries_errors_at_their_position() {
    let mut r = ResponseReorderer::<F32>::new();
    // accept returns the completed batch directly when it fills seq 0.
    let b = r
        .accept(BatchResponse::Error {
            seq: 0,
            message: "boom".into(),
        })
        .expect("seq 0 returned by accept");
    assert_eq!(b.error.as_deref(), Some("boom"));
    assert!(r.try_pop().is_none());
}

/// Builds a minimal in-memory IDX3/IDX1 pair (2 images, 2x3 px).
fn sample_idx3() -> Vec<u8> {
    let mut b = Vec::new();
    b.extend_from_slice(&0x0000_0803u32.to_be_bytes());
    b.extend_from_slice(&2u32.to_be_bytes());
    b.extend_from_slice(&2u32.to_be_bytes());
    b.extend_from_slice(&3u32.to_be_bytes());
    b.extend_from_slice(&[0, 127, 255, 10, 20, 30, 40, 50, 60, 70, 80, 90]);
    b
}

fn sample_idx1() -> Vec<u8> {
    let mut b = Vec::new();
    b.extend_from_slice(&0x0000_0801u32.to_be_bytes());
    b.extend_from_slice(&2u32.to_be_bytes());
    b.extend_from_slice(&[7, 3]);
    b
}

#[test]
fn parses_sample_idx() {
    let d = MnistData::<F32>::from_idx(&sample_idx3(), &sample_idx1()).unwrap();
    assert_eq!(d.images.shape(), &[2, 1, 2, 3]);
    assert_eq!(d.labels.shape(), &[2]);
    let px = d.images.to_vec().f32s();
    assert!((px[0] - 0.0).abs() < 1e-7);
    assert!((px[1] - 127.0 / 255.0).abs() < 1e-6);
    assert!((px[2] - 1.0).abs() < 1e-7);
    assert_eq!(d.labels.to_vec().f32s(), vec![7.0, 3.0]);
}

#[test]
fn rejects_bad_magic() {
    let mut bad = sample_idx3();
    bad[2] = 0x09; // corrupt magic
    assert!(MnistData::<F32>::from_idx(&bad, &sample_idx1()).is_err());
}

#[test]
fn rejects_truncated_payload() {
    let full = sample_idx3();
    let truncated = &full[..full.len() - 1];
    assert!(MnistData::<F32>::from_idx(truncated, &sample_idx1()).is_err());
}

#[test]
fn rejects_length_mismatch() {
    let mut labels = sample_idx1();
    labels[7] = 5; // claim 5 labels, only 2 bytes follow
    let mut padded = labels;
    padded.extend_from_slice(&[0, 0, 0]);
    assert!(MnistData::<F32>::from_idx(&sample_idx3(), &padded).is_err());
}

/// NumPy reference streams (recorded from np.random.RandomState).
#[test]
fn matches_numpy_random_stream() {
    let mut r = Mt19937::new(42);
    let got: Vec<f32> = (0..5).map(|_| r.random::<F32>().0).collect();
    // np.random.RandomState(42).random_sample(5)
    let want = [
        0.374_540_12,
        0.950_714_3,
        0.731_993_9,
        0.598_658_5,
        0.156_018_64,
    ];
    for (g, w) in got.iter().zip(want) {
        assert!((g - w).abs() < 1e-6, "{g} vs {w}");
    }
}

#[test]
fn matches_numpy_permutation() {
    let mut r = Mt19937::new(7);
    let got = r.permutation(10);
    // np.random.RandomState(7).permutation(10)
    let want = [8, 5, 0, 2, 1, 9, 7, 3, 6, 4];
    assert_eq!(got, want);
}

#[test]
fn normal_is_reasonably_distributed() {
    let mut r = Mt19937::new(0);
    let n = 20_000;
    let sum: f64 = (0..n).map(|_| f64::from(r.normal::<F32>().0)).sum();
    let mean = sum / f64::from(n);
    assert!(mean.abs() < 0.05, "mean {mean}");
}

#[test]
fn crop_positions_are_independent_per_image() {
    // Two 4x4 images; crop 2x2.
    let batch = tensor(&[2, 1, 4, 4], (0u8..32).map(f32::from).collect());
    let mut rng = batch_rng(batch_seed(123, 0));
    let out = random_crop(&batch, 2, &mut rng).unwrap();
    assert_eq!(out.shape(), &[2, 1, 2, 2]);
    // Every cropped pixel must exist in the source at one consistent
    // (top, left) offset per image.
    let src = batch.as_slice().unwrap().f32s();
    let out_v = out.to_vec().f32s();
    for (img, o) in out_v.chunks(4).enumerate() {
        let mut found = None;
        for top in 0..3 {
            for left in 0..3 {
                let mut ok = true;
                for r in 0..2 {
                    for c in 0..2 {
                        let s = src[img * 16 + (top + r) * 4 + left + c];
                        if (s - o[r * 2 + c]).abs() > f32::EPSILON {
                            ok = false;
                        }
                    }
                }
                if ok {
                    found = Some((top, left));
                }
            }
        }
        assert!(found.is_some(), "image {img} crop matches no window");
    }
}

#[test]
fn crop_is_reproducible_from_seed_and_seq() {
    let batch = tensor(&[3, 2, 5, 5], (0u8..150).map(f32::from).collect());
    let mut a = batch_rng(batch_seed(9, 4));
    let mut b = batch_rng(batch_seed(9, 4));
    let mut c = batch_rng(batch_seed(9, 5));
    let ra = random_crop(&batch, 3, &mut a).unwrap();
    let rb = random_crop(&batch, 3, &mut b).unwrap();
    let rc = random_crop(&batch, 3, &mut c).unwrap();
    assert_eq!(ra.to_vec().f32s(), rb.to_vec().f32s(), "same seed+seq -> same crop");
    assert_ne!(ra.to_vec().f32s(), rc.to_vec().f32s(), "different seq -> different crop");
}

#[test]
fn crop_rejects_oversize() {
    let batch = tensor(&[1, 1, 4, 4], vec![0.0; 16]);
    let mut rng = batch_rng(1);
    assert!(random_crop(&batch, 5, &mut rng).is_err());
    assert!(random_crop(&batch, 0, &mut rng).is_err());
}

#[test]
fn flip_decides_per_sample_not_per_channel() {
    // One sample, two channels; the coin is drawn once, so both planes
    // flip together. With a seed whose first draw is >= 0.5 the output
    // is fully flipped; either way channels stay in lockstep.
    let batch = tensor(
        &[1, 2, 2, 2],
        vec![0.0, 1.0, 2.0, 3.0, 10.0, 11.0, 12.0, 13.0],
    );
    let mut rng = batch_rng(7);
    let out = random_horizontal_flip(&batch, &mut rng).unwrap();
    let o = out.to_vec().f32s();
    let flipped = |ch: &[f32]| ch[1] > ch[0]; // row [a, b] -> [b, a]
    assert_eq!(
        flipped(&o[0..4]),
        flipped(&o[4..8]),
        "channels of one sample flip together"
    );
}

#[test]
fn flip_matches_manual_reversal_when_seeded_low() {
    // seed 0 draws ~0.548 first (MT19937, numpy stream), which flips.
    // Instead of depending on the stream, check both outcomes exist
    // across seeds and each is a valid flip of the input.
    let batch = tensor(&[1, 1, 1, 4], vec![1.0, 2.0, 3.0, 4.0]);
    let mut saw_flipped = false;
    let mut saw_identity = false;
    for seed in 0..64u64 {
        let mut rng = batch_rng(seed);
        let out = random_horizontal_flip(&batch, &mut rng).unwrap().to_vec().f32s();
        if out == vec![4.0, 3.0, 2.0, 1.0] {
            saw_flipped = true;
        } else if out == vec![1.0, 2.0, 3.0, 4.0] {
            saw_identity = true;
        } else {
            panic!("seed {seed} produced a non-flip: {out:?}");
        }
    }
    assert!(saw_flipped && saw_identity, "both outcomes occur");
}

#[test]
fn normalize_is_exact_per_channel() {
    // (2, 3, 1, 2) row-major: sample = i / 6, channel = (i % 6) / 2 —
    // channels are consecutive planes within each sample.
    let batch = tensor(&[2, 3, 1, 2], (0u8..12).map(f32::from).collect());
    let out = normalize(&batch, &elems(vec![1.0, 2.0, 3.0]), &elems(vec![2.0, 4.0, 8.0])).unwrap();
    let mean = [1.0, 2.0, 3.0];
    let std = [2.0, 4.0, 8.0];
    let want: Vec<f32> = (0..12)
        .map(|i| {
            let c = (i % 6) / 2;
            (f32::from(i as u8) - mean[c]) / std[c]
        })
        .collect();
    assert_eq!(out.to_vec().f32s(), want);
}

#[test]
fn normalize_validates_channels_and_std() {
    let batch = tensor(&[2, 3, 2, 2], vec![0.0; 24]);
    assert!(normalize(&batch, &elems(vec![0.0]), &elems(vec![1.0])).is_err());
    assert!(normalize(&batch, &elems(vec![0.0; 3]), &elems(vec![0.0; 3])).is_err());
}

#[test]
fn pipeline_applies_steps_in_order() {
    // Normalize then crop vs crop then normalize differ unless the crop
    // is uniform; use a deterministic geometry where order is visible:
    // normalize scales channels, then flip reverses rows.
    let batch = tensor(&[1, 1, 1, 2], vec![2.0, 4.0]);
    let pipeline = TransformPipeline::new(vec![
        NativeTransform::Normalize(elems(vec![1.0]), elems(vec![2.0])),
        NativeTransform::RandomHorizontalFlip,
    ]);
    // With a seed that flips: (2,4) -> (0.5,1.5) -> (1.5,0.5).
    let mut rng = batch_rng(0);
    let out = pipeline.apply(&batch, &mut rng).unwrap();
    let v = out.to_vec().f32s();
    assert!(
        v == vec![0.5, 1.5] || v == vec![1.5, 0.5],
        "normalized values only: {v:?}"
    );
}

#[test]
fn transforms_preserve_non_image_columns_via_source() {
    // Covered at the source level in batch.rs; here just ensure the
    // pipeline handles the no-op case.
    let batch = tensor(&[2, 2], vec![1.0, 2.0, 3.0, 4.0]);
    let pipeline = TransformPipeline::<F32>::default();
    let mut rng = batch_rng(1);
    let out = pipeline.apply(&batch, &mut rng).unwrap();
    assert_eq!(out.to_vec().f32s(), batch.to_vec().f32s());
}

// ---- the worker pool's decisions --------------------------------------------

/// The pool with its threads taken out: one queue, any worker order, and the
/// reorderer in front of the consumer.
struct Pool {
    source: TensorBatchSource<F32>,
    queue: QueueState,
    shutdown: bool,
    replies: Vec<BatchResponse<F32>>,
    reorderer: ResponseReorderer<F32>,
}

impl Pool {
    fn new(columns: Vec<Tensor<F32>>) -> Self {
        Pool {
            source: TensorBatchSource::new(columns).unwrap(),
            queue: QueueState::new(),
            shutdown: false,
            replies: Vec::new(),
            reorderer: ResponseReorderer::new(),
        }
    }

    fn submit(&mut self, seq: u64, indices: Vec<u64>) -> bool {
        self.queue.submit(self.shutdown, seq, indices)
    }

    /// Lets the workers drain the queue; the last to start is the first to
    /// reply.
    fn work(&mut self) {
        while let Poll::Work(req) = self.queue.pop() {
            let outcome = self.source.get_batch(&req.indices);
            self.replies.push(respond(req.seq, outcome));
        }
    }

    fn next_batch(&mut self) -> Option<CompletedBatch<F32>> {
        if let Some(b) = self.reorderer.try_pop() {
            return Some(b);
        }
        while let Some(reply) = self.replies.pop() {
            if let Some(b) = self.reorderer.accept(reply) {
                return Some(b);
            }
        }
        None
    }

    fn shutdown(&mut self) {
        self.shutdown = true;
        self.queue.close();
    }
}

#[test]
fn dispatcher_returns_batches_in_plan_order() {
    let feats = from_vec(&[10, 4], (0..40).map(|v| v as f32).collect()).unwrap();
    let labels = from_vec(&[10], (0..10).map(|v| v as f32).collect()).unwrap();
    let mut d = Pool::new(vec![feats, labels]);
    let order: Vec<u64> = (0..10).collect();
    let plan = epoch_plan(&order, 3, false).unwrap();
    for (seq, batch) in plan.iter().enumerate() {
        assert!(d.submit(seq as u64, batch.clone()));
    }
    d.work();
    let mut got = Vec::new();
    for _ in 0..plan.len() {
        let b = d.next_batch().expect("batch per plan entry");
        assert!(b.error.is_none());
        got.push(b.tensors[1].to_vec().f32s()); // labels column
    }
    // In-order labels: 0-2, 3-5, 6-8, 9.
    assert_eq!(
        got,
        vec![
            vec![0.0, 1.0, 2.0],
            vec![3.0, 4.0, 5.0],
            vec![6.0, 7.0, 8.0],
            vec![9.0]
        ]
    );
    d.shutdown();
}

#[test]
fn dispatcher_survives_worker_errors() {
    let feats = from_vec(&[2, 4], (0..8).map(|v| v as f32).collect()).unwrap();
    let labels = from_vec(&[2], vec![0.0, 1.0]).unwrap();
    let mut d = Pool::new(vec![feats, labels]);
    assert!(d.submit(0, vec![0]));
    assert!(d.submit(1, vec![9])); // out of range -> worker error
    d.work();
    let b0 = d.next_batch().unwrap();
    assert!(b0.error.is_none());
    let b1 = d.next_batch().unwrap();
    assert_eq!(b1.error.as_deref(), Some("out of bounds: index out of range (n=2)"));
    d.shutdown();
}

#[test]
fn shutdown_joins_workers() {
    let feats = from_vec(&[2, 4], (0..8).map(|v| v as f32).collect()).unwrap();
    let labels = from_vec(&[2], vec![0.0, 1.0]).unwrap();
    let mut d = Pool::new(vec![feats, labels]);
    assert!(d.submit(0, vec![0]));
    d.shutdown(); // queued work is still handed out, and then the workers stop
    assert!(matches!(d.queue.pop(), Poll::Work(_)));
    assert!(matches!(d.queue.pop(), Poll::Stop));
    assert!(!d.submit(1, vec![1])); // after shutdown, submit refuses
}

#[test]
fn the_queue_hands_work_out_in_order() {
    let mut q = QueueState::new();
    assert!(matches!(q.pop(), Poll::Wait));
    for seq in 0..3 {
        q.push(BatchRequest {
            seq,
            indices: vec![seq],
        });
    }
    for want in 0..3 {
        match q.pop() {
            Poll::Work(req) => assert_eq!(req.seq, want),
            _ => panic!("work is pending"),
        }
    }
    q.close();
    assert!(matches!(q.pop(), Poll::Stop));
}

// ---- plans and sources ------------------------------------------------------

#[test]
fn plans_cover_the_order() {
    let order: Vec<u64> = vec![4, 2, 9, 1, 7];
    let plan = epoch_plan(&order, 2, false).unwrap();
    assert_eq!(plan.concat(), order);
    assert_eq!(plan.iter().map(Vec::len).collect::<Vec<_>>(), [2, 2, 1]);
    let dropped = epoch_plan(&order, 2, true).unwrap();
    assert_eq!(dropped.concat(), order[..4]);
    assert!(epoch_plan(&[], 2, false).unwrap().is_empty());
    assert_eq!(
        epoch_plan(&order, 0, false).unwrap_err().to_string(),
        "invalid argument: batch_size must be >= 1"
    );
}

#[test]
fn sources_say_what_is_wrong() {
    let text = |columns: Vec<Tensor<F32>>| {
        TensorBatchSource::new(columns).err().unwrap().to_string()
    };
    assert_eq!(
        text(vec![]),
        "invalid argument: a tensor source needs at least one column"
    );
    assert_eq!(
        text(vec![tensor(&[0, 2], vec![])]),
        "invalid argument: a tensor source needs at least one row"
    );
    assert_eq!(
        text(vec![tensor(&[2], vec![0.0; 2]), tensor(&[3], vec![0.0; 3])]),
        "shape mismatch: column 1 has 3 rows vs 2 rows"
    );
}

#[test]
fn seeds_are_their_formulas() {
    assert_eq!(batch_seed(123, 7), 0xe2b9_b977_0cf0_6e0e);
    assert_eq!(indices_seed(&[]), 0xcbf2_9ce4_8422_2325);
    assert_eq!(indices_seed(&[1, 258]), 0x3c6a_138d_b59c_b341);
    let mut seeds = EpochSeeds::new(5);
    assert_eq!(seeds.next(), 0xb6bf_613d_bebb_45dc);
    assert_eq!(seeds.next(), 0x6303_3b0c_a389_c35a);
}

#[test]
fn batches_are_reproducible_from_seed_and_rows() {
    let images = tensor(&[4, 1, 6, 6], (0..144).map(|i| i as f32).collect());
    let labels = tensor(&[4], vec![0.0, 1.0, 2.0, 3.0]);
    let source = |seed: u64| {
        let steps = vec![NativeTransform::RandomCrop(3), NativeTransform::RandomHorizontalFlip];
        TensorBatchSource::with_transforms(
            vec![images.clone(), labels.clone()],
            TransformPipeline::new(steps),
            seed,
        )
        .unwrap()
    };
    let a = source(11).get_batch(&[2, 0]).unwrap();
    let b = source(11).get_batch(&[2, 0]).unwrap();
    assert_eq!(a[0].to_vec(), b[0].to_vec());
    assert_eq!(a[0].shape(), &[2, 1, 3, 3]);
    // Labels pass through.
    assert_eq!(a[1].to_vec().f32s(), [2.0, 0.0]);
    let plain = gather_columns(&vec![images.clone(), labels.clone()], &[2, 0]).unwrap();
    assert_eq!(plain[0].shape(), &[2, 1, 6, 6]);
    assert_eq!(source(11).len(), 4);
    assert!(!source(11).is_empty());
}

#[test]
fn late_and_repeated_replies_are_held_back() {
    let mut r = ResponseReorderer::<F32>::default();
    for seq in [3u64, 1, 2] {
        let reply = BatchResponse::Tensors {
            seq,
            tensors: vec![tensor(&[1], vec![seq as f32])],
        };
        assert!(r.accept(reply).is_none());
    }
    assert_eq!(r.buffered(), 3);
    let first = BatchResponse::Tensors {
        seq: 0,
        tensors: vec![tensor(&[1], vec![0.0])],
    };
    assert!(r.accept(first).is_some());
    for want in 1..4 {
        let b = r.try_pop().unwrap();
        assert_eq!(b.tensors[0].to_vec().f32s(), [want as f32]);
    }
    assert_eq!(r.buffered(), 0);
}

// ---- random numbers ---------------------------------------------------------

#[test]
fn bounded_draws_stay_below_their_bound() {
    let mut r = Mt19937::new(3);
    for bound in [1usize, 2, 3, 7, 100] {
        for _ in 0..50 {
            assert!(r.below(bound) < bound);
        }
    }
    let low = r.uniform(F32(-2.0), F32(2.0)).0;
    assert!((-2.0..2.0).contains(&low));
}

#[test]
fn permutations_are_complete() {
    for n in [0usize, 1, 2, 17] {
        let mut p = Mt19937::new(n as u32).permutation(n);
        p.sort();
        assert_eq!(p, (0..n as u64).collect::<Vec<_>>());
    }
}

// ---- transforms -------------------------------------------------------------

#[test]
fn geometry_reads_the_last_two_dims() {
    let of = |shape: &[usize]| Geometry::of(&tensor(shape, vec![0.0; shape.iter().product()]));
    let g = of(&[5, 3, 4, 6]).unwrap();
    assert_eq!((g.height, g.width), (4, 6));
    assert!(of(&[4]).is_err());
    assert!(of(&[2, 0]).is_err());
}

#[test]
fn channels_of_one_sample_are_cropped_alike() {
    // Channel 1 is channel 0 plus 100.
    let plane: Vec<f32> = (0..25).map(|i| i as f32).collect();
    let mut data = plane.clone();
    data.extend(plane.iter().map(|v| v + 100.0));
    let batch = tensor(&[1, 2, 5, 5], data);
    for seed in 0..8 {
        let mut rng = batch_rng(seed);
        let out = random_crop(&batch, 2, &mut rng).unwrap().to_vec().f32s();
        for i in 0..4 {
            assert_eq!(out[i] + 100.0, out[4 + i]);
        }
    }
}

#[test]
fn transform_errors_say_what_is_wrong() {
    let batch = tensor(&[1, 1, 4, 4], vec![0.0; 16]);
    let mut rng = batch_rng(1);
    assert_eq!(
        random_crop(&batch, 5, &mut rng).err().unwrap().to_string(),
        "invalid argument: crop size 5 exceeds image 4x4"
    );
    assert_eq!(
        normalize(&batch, &elems(vec![0.0; 2]), &elems(vec![1.0; 2]))
            .err()
            .unwrap()
            .to_string(),
        "invalid argument: normalize expects 1 channels, got mean 2 / std 2"
    );
    assert_eq!(
        normalize(&batch, &elems(vec![0.0]), &elems(vec![0.0]))
            .err()
            .unwrap()
            .to_string(),
        "invalid argument: normalize std must be > 0"
    );
}

#[test]
fn transforms_are_parsed_by_name() {
    assert!(matches!(
        parse_transform("crop", &elems(vec![3.0])),
        Ok(NativeTransform::RandomCrop(3))
    ));
    assert!(matches!(
        parse_transform::<F32>("flip", &[]),
        Ok(NativeTransform::RandomHorizontalFlip)
    ));
    match parse_transform("normalize", &elems(vec![1.0, 2.0, 3.0, 4.0])) {
        Ok(NativeTransform::Normalize(mean, std)) => {
            assert_eq!(mean.f32s(), [1.0, 2.0]);
            assert_eq!(std.f32s(), [3.0, 4.0]);
        }
        _ => panic!("means and stds"),
    }
    let text = |name: &str, args: Vec<f32>| parse_transform(name, &elems(args)).err().unwrap();
    assert_eq!(
        text("crop", vec![-1.0]),
        "crop expects a single non-negative size argument"
    );
    assert_eq!(text("flip", vec![1.0]), "flip expects no arguments");
    assert_eq!(
        text("normalize", vec![1.0]),
        "normalize expects mean... followed by std... of equal length"
    );
    assert_eq!(text("blur", vec![]), "unknown native transform \"blur\"");
}

// ---- MNIST files ------------------------------------------------------------

#[test]
fn gzip_roundtrip() {
    // Gzip-compress the sample and ensure the reader sees through it.
    let mut enc = GzEncoder::new(Vec::new(), Compression::default());
    enc.write_all(&sample_idx3()).unwrap();
    let gz = enc.finish().unwrap();
    let images = decode_file("train-images-idx3-ubyte.gz", gz.clone()).unwrap();
    assert_eq!(images, sample_idx3());
    let labels = decode_file("train-labels-idx1-ubyte", sample_idx1()).unwrap();
    let d = MnistData::<F32>::from_idx(&images, &labels).unwrap();
    assert_eq!(d.images.shape(), &[2, 1, 2, 3]);
    // A truncated member is an error of that file.
    let err = decode_file("t.gz", gz[..gz.len() / 2].to_vec()).unwrap_err();
    assert!(err.to_string().starts_with("gunzip t.gz: "));
    assert_eq!(
        decoded("t.gz", Err("broken".to_string())).unwrap_err().to_string(),
        "gunzip t.gz: broken"
    );
    assert_eq!(decoded("t.gz", Ok(vec![1])).unwrap(), [1]);
}

#[test]
fn files_are_found_by_name() {
    assert_eq!(
        file_names(true),
        ("train-images-idx3-ubyte", "train-labels-idx1-ubyte")
    );
    assert_eq!(
        file_names(false),
        ("t10k-images-idx3-ubyte", "t10k-labels-idx1-ubyte")
    );
    assert!(!pick_compressed("a", true, true).unwrap());
    assert!(pick_compressed("a", false, true).unwrap());
    assert_eq!(
        pick_compressed("a", false, false).unwrap_err().to_string(),
        "MNIST file not found: a (or .gz)"
    );
}

#[test]
fn idx_errors_say_what_is_wrong() {
    assert_eq!(be_u32(&[0, 0, 1, 2, 9], 0).unwrap(), 258);
    assert_eq!(
        be_u32(&[0, 0], 0).unwrap_err().to_string(),
        "out of bounds: IDX header truncated at byte 0"
    );
    assert_eq!(
        parse_idx3::<F32>(&sample_idx1()).err().unwrap().to_string(),
        "bad IDX3 magic: 0x00000801"
    );
    assert_eq!(
        parse_idx1::<F32>(&sample_idx3()).err().unwrap().to_string(),
        "bad IDX1 magic: 0x00000803"
    );
    let full = sample_idx3();
    assert_eq!(
        parse_idx3::<F32>(&full[..27]).err().unwrap().to_string(),
        "out of bounds: IDX3 truncated: have 27 bytes, need 28"
    );
    let mut three = sample_idx1();
    three[7] = 3;
    three.push(1);
    assert_eq!(
        MnistData::<F32>::from_idx(&full, &three).err().unwrap().to_string(),
        "MNIST images/labels length mismatch: 2 vs 3"
    );
}

// ---- the loader -------------------------------------------------------------

fn loader(num_workers: usize, seed: Option<u64>) -> DataLoader<F32> {
    let feats = tensor(&[5, 2], (0..10).map(|i| i as f32).collect());
    let labels = tensor(&[5], (0..5).map(|i| i as f32).collect());
    DataLoader::new(
        vec![feats, labels],
        2,
        seed.is_some(),
        false,
        seed,
        num_workers,
        None,
        0,
    )
    .unwrap()
}

/// The label column of every batch of one epoch.
fn epoch_labels(l: &mut DataLoader<F32>) -> Vec<Vec<f32>> {
    let mut epoch = l.begin_epoch().unwrap();
    let mut out = Vec::new();
    let mut queue: std::collections::VecDeque<BatchRequest> =
        epoch.iter.top_up().into_iter().collect();
    loop {
        match epoch.iter.next_step() {
            LoaderStep::Finished => return out,
            LoaderStep::Build { seq, indices } => {
                let built = inline_outcome(seq, epoch.source.get_batch(&indices)).unwrap();
                out.push(built[1].to_vec().f32s());
            }
            LoaderStep::Await => {
                let req = queue.pop_front().unwrap();
                let tensors = epoch.source.get_batch(&req.indices).unwrap();
                let (batch, more) = epoch.iter.deliver(Some(CompletedBatch {
                    tensors,
                    error: None,
                }));
                queue.extend(more);
                out.push(batch.unwrap()[1].to_vec().f32s());
            }
        }
    }
}

#[test]
fn inline_and_worker_epochs_agree() {
    let want = vec![vec![0.0, 1.0], vec![2.0, 3.0], vec![4.0]];
    assert_eq!(epoch_labels(&mut loader(0, None)), want);
    assert_eq!(epoch_labels(&mut loader(2, None)), want);
    let l = loader(2, None);
    assert_eq!((l.n(), l.batch_size(), l.num_workers()), (5, 2, 2));
}

#[test]
fn shuffled_epochs_are_permutations_and_reproducible() {
    let mut a = loader(0, Some(9));
    let mut b = loader(2, Some(9));
    let first = epoch_labels(&mut a);
    assert_eq!(first, epoch_labels(&mut b));
    let second = epoch_labels(&mut a);
    assert_eq!(second, epoch_labels(&mut b));
    let mut all: Vec<f32> = first.concat();
    all.sort_by(|x, y| x.partial_cmp(y).unwrap());
    assert_eq!(all, [0.0, 1.0, 2.0, 3.0, 4.0]);
    assert_ne!(first, second, "each epoch has an order of its own");
}

#[test]
fn loaders_say_what_is_wrong() {
    let text = |columns: Vec<Tensor<F32>>, batch: usize, t: Option<TransformPipeline<F32>>| {
        DataLoader::new(columns, batch, false, false, None, 0, t, 0)
            .err()
            .unwrap()
    };
    let col = || tensor(&[2], vec![0.0; 2]);
    assert_eq!(
        text(vec![], 1, None),
        "DataLoader needs at least one tensor column"
    );
    assert_eq!(
        text(vec![tensor(&[0], vec![])], 1, None),
        "DataLoader dataset is empty"
    );
    assert_eq!(text(vec![col()], 0, None), "batch_size must be >= 1");
    assert_eq!(
        text(vec![col(), tensor(&[3], vec![0.0; 3])], 1, None),
        "column 1 has 3 rows, expected 2"
    );
    assert_eq!(
        text(vec![col()], 1, Some(TransformPipeline::default())),
        "transforms pipeline is empty; pass None instead"
    );
}

#[test]
fn prefetching_is_bounded_and_errors_end_the_epoch() {
    let plan: Vec<Vec<u64>> = (0..5).map(|i| vec![i]).collect();
    let mut it = LoaderIter::new(plan, 2);
    let first = it.top_up();
    assert_eq!(first.iter().map(|r| r.seq).collect::<Vec<_>>(), [0, 1]);
    assert!(it.top_up().is_empty());
    let (ok, more) = it.deliver::<F32>(Some(CompletedBatch {
        tensors: vec![],
        error: None,
    }));
    assert!(ok.is_ok());
    assert_eq!(more.len(), 1);
    assert_eq!(more[0].indices, [2]);
    let (failed, none) = it.deliver::<F32>(Some(CompletedBatch {
        tensors: vec![],
        error: Some("boom".to_string()),
    }));
    assert_eq!(failed.err().unwrap(), "DataLoader worker failed: boom");
    assert!(none.is_empty());
    let mut gone = LoaderIter::new(vec![vec![0]], 1);
    gone.top_up();
    assert_eq!(
        gone.deliver::<F32>(None).0.err().unwrap(),
        "DataLoader worker pool shut down mid-epoch"
    );
    let built: OxitorchResult<Vec<Tensor<F32>>> =
        Err(oxitorch::error::OxitorchError::Other("bad".to_string()));
    assert_eq!(
        inline_outcome(3, built).err().unwrap(),
        "DataLoader failed at batch 3: bad"
    );
}

#[test]
fn transforms_keep_all_but_the_image_size() {
    let batch = tensor(&[2, 3, 5, 4], (0..120).map(|i| i as f32).collect());
    let crop = random_crop(&batch, 3, &mut batch_rng(1)).unwrap();
    assert_eq!(crop.shape(), &[2, 3, 3, 3]);
    let flip = random_horizontal_flip(&batch, &mut batch_rng(1)).unwrap();
    assert_eq!(flip.shape(), batch.shape());
    let same = normalize(&batch, &elems(vec![0.0; 3]), &elems(vec![1.0; 3])).unwrap();
    assert_eq!(same.shape(), batch.shape());
    assert_eq!(same.to_vec(), batch.to_vec());
    // A single plane and a stack of planes are images too.
    let plane = tensor(&[4, 4], vec![1.0; 16]);
    assert_eq!(random_crop(&plane, 2, &mut batch_rng(1)).unwrap().shape(), &[2, 2]);
}

#[test]
fn batches_and_epochs_have_seeds_of_their_own() {
    assert_eq!(batch_seed(0, 0), 0);
    assert_eq!(batch_seed(0, 1), 0xE220_A839_7B1D_CDAF);
    let numbers = [0u64, 1, 2, 3, 1 << 32, u64::MAX - 1, u64::MAX];
    for a in numbers {
        for b in numbers {
            assert_eq!(batch_seed(7, a) == batch_seed(7, b), a == b);
            assert_eq!(batch_seed(a, 7) == batch_seed(b, 7), a == b);
        }
    }
    let mut seeds = EpochSeeds::new(7);
    let first: Vec<u64> = (0..50).map(|_| seeds.next()).collect();
    for i in 0..50 {
        for j in 0..i {
            assert_ne!(first[i], first[j]);
        }
    }
}

#[test]
fn reordered_runs_have_no_gap_and_no_repeat() {
    let mut r = ResponseReorderer::<F32>::new();
    let mut out: Vec<CompletedBatch<F32>> = Vec::new();
    let mut taken = 0usize;
    for seq in [4u64, 0, 2, 1, 5, 3] {
        let reply = if seq == 2 {
            BatchResponse::Error {
                seq,
                message: "bad".to_string(),
            }
        } else {
            BatchResponse::Tensors {
                seq,
                tensors: vec![tensor(&[1], vec![seq as f32])],
            }
        };
        taken += 1;
        out.extend(r.accept(reply));
        assert_eq!(r.buffered(), taken - out.len());
        if seq == 1 {
            out.extend(r.try_pop());
            assert_eq!(r.buffered(), taken - out.len());
        }
    }
    while let Some(b) = r.try_pop() {
        out.push(b);
        assert_eq!(r.buffered(), taken - out.len());
    }
    assert_eq!(out.len(), 6);
    for (k, b) in out.iter().enumerate() {
        if k == 2 {
            assert!(b.tensors.is_empty());
            assert_eq!(b.error.as_deref(), Some("bad"));
        } else {
            assert_eq!(b.tensors[0].to_vec().f32s(), [k as f32]);
            assert!(b.error.is_none());
        }
    }
}

#[test]
fn uniform_numbers_stay_below_one() {
    let mut r = Mt19937::new(5);
    for _ in 0..10_000 {
        let x = r.random::<F32>().0;
        assert!((0.0..1.0).contains(&x));
    }
    // The largest fraction does not round up to one.
    let top = F32::from_53_bits((1 << 53) - 1).0;
    assert!(top < 1.0 && top > 0.999_999);
}
