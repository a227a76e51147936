use dbs_dither::kernel::{generate_autocorr, generate_hvs_kernel, kernel_distances, HvsKernel};

fn bits(weights: &[i64]) -> Vec<u64> {
    weights.iter().map(|&w| (w as f64).to_bits()).collect()
}

fn soft() -> Vec<u64> {
    bits(&[4096, 8192, 4096, 8192, 16384, 8192, 4096, 8192, 4096])
}

#[test]
fn distances_small() {
    assert_eq!(kernel_distances(3), vec![2, 1, 2, 1, 0, 1, 2, 1, 2]);
    assert_eq!(kernel_distances(1), vec![0]);
}

#[test]
fn distances_of_an_even_width_are_those_of_the_next_odd_one() {
    assert_eq!(kernel_distances(2), kernel_distances(3));
    assert_eq!(kernel_distances(0), vec![0]);
}

#[test]
fn distances_of_a_negative_width_are_none() {
    assert!(kernel_distances(-3).is_empty());
    assert!(kernel_distances(-1).is_empty());
}

#[test]
fn distances_end_at_the_largest_short() {
    let d = kernel_distances(401);
    assert_eq!(d.len(), 401 * 401);
    assert_eq!(d[0], i16::MAX);
    assert_eq!(d[200 * 401 + 20], 180 * 180);
    assert_eq!(d[200 * 401 + 19], 32761);
    assert_eq!(d[200 * 401 + 18], i16::MAX);
}

#[test]
fn distances_look_the_same_from_both_sides() {
    let d = kernel_distances(7);
    let n = d.len();
    for k in 0..n {
        assert_eq!(d[k], d[n - 1 - k]);
    }
}

#[test]
fn kernel_of_width_three() {
    let k: HvsKernel = generate_hvs_kernel(3, &soft());
    assert_eq!(k.flat, vec![4096, 8192, 4096, 8192, 16384, 8192, 4096, 8192, 4096]);
    assert_eq!(k.c_pp, 9216);
    assert_eq!(k.autocorr_size, 5);
    assert_eq!(
        k.autocorr,
        vec![
            256, 1024, 1536, 1024, 256, 1024, 4096, 6144, 4096, 1024, 1536, 6144, 9216, 6144, 1536,
            1024, 4096, 6144, 4096, 1024, 256, 1024, 1536, 1024, 256
        ]
    );
    assert_eq!(k.offsets.len(), 9);
    assert_eq!((k.offsets[0].dx, k.offsets[0].dy, k.offsets[0].weight), (-1, -1, 4096));
    assert_eq!((k.offsets[5].dx, k.offsets[5].dy, k.offsets[5].weight), (1, 0, 8192));
    assert_eq!(k.offsets[5].offset, 0);
    assert_eq!(k.autocorr_offsets.len(), 25);
    assert_eq!(
        (k.autocorr_offsets[7].dx, k.autocorr_offsets[7].dy, k.autocorr_offsets[7].weight),
        (0, -1, 6144)
    );
}

#[test]
fn kernel_of_an_even_width() {
    let k = generate_hvs_kernel(
        2,
        &bits(&[1000, 2000, 3000, 4000, 5000, 6000, 7000, 8000, 9000]),
    );
    assert_eq!(k.flat, vec![1000, 2000, 4000, 5000]);
    assert_eq!(k.offsets.len(), 9);
    assert_eq!(k.offsets[2].weight, 3000);
    assert_eq!(k.c_pp, 701);
    assert_eq!(k.autocorr, vec![76, 213, 427, 457, 945, 457, 427, 213, 76]);
}

#[test]
fn kernel_of_no_width() {
    let k = generate_hvs_kernel(0, &bits(&[77]));
    assert!(k.flat.is_empty());
    assert_eq!(k.offsets.len(), 1);
    assert_eq!(k.offsets[0].weight, 77);
    assert_eq!(k.c_pp, 0);
    assert_eq!(k.autocorr_size, -1);
    assert_eq!(k.autocorr, vec![0]);
    assert!(k.autocorr_offsets.is_empty());
}

#[test]
fn kernel_of_a_negative_width() {
    let k = generate_hvs_kernel(-3, &[]);
    assert_eq!(k.flat, vec![0; 9]);
    assert!(k.offsets.is_empty());
    assert_eq!(k.autocorr_size, -7);
    assert_eq!(k.autocorr, vec![0; 49]);
    assert!(k.autocorr_offsets.is_empty());
}

#[test]
fn missing_weights_are_zero() {
    let k = generate_hvs_kernel(3, &bits(&[5, 6]));
    assert_eq!(k.flat, vec![5, 6, 0, 0, 0, 0, 0, 0, 0]);
}

#[test]
fn autocorrelation_alone() {
    let (flat, taps) = generate_autocorr(1, &[131072], 0);
    assert_eq!(flat, vec![262144]);
    assert_eq!(taps.len(), 1);
    assert_eq!((taps[0].dx, taps[0].dy, taps[0].weight), (0, 0, 262144));
}

#[test]
fn energy_is_the_autocorrelation_at_the_centre() {
    let k = generate_hvs_kernel(
        3,
        &bits(&[4001, 8003, 4001, 8003, 16385, 8003, 4001, 8003, 4001]),
    );
    assert_eq!(k.c_pp, 8980);
    assert_eq!(k.autocorr[12], k.c_pp);
    for i in 0..25 {
        assert_eq!(k.autocorr[i], k.autocorr[24 - i]);
    }
}

#[test]
fn rounding_of_the_autocorrelation_is_less_than_one_per_tap() {
    let w: [i64; 9] = [4001, 8003, 4001, 8003, 16385, 8003, 4001, 8003, 4001];
    let k = generate_hvs_kernel(3, &bits(&w));
    let exact: i64 = w.iter().map(|v| v * v).sum();
    assert_eq!(exact - 65536 * k.c_pp, 178985);
    assert!(178985 <= 65535 * 9);
}
