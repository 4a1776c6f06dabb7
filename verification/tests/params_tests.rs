use netcat::rpp::params::{
    core_i7, core_i7_ddio, xeon_e5, xeon_e5_ddio, xeon_platinum, xeon_platinum_ddio, CacheParams,
    RppParams, PAGE_SIZE,
};

#[test]
fn param_test_i7() {
    let cache_params = core_i7();
    let rpp_params: RppParams = cache_params.into();

    assert_eq!(rpp_params.n_sets, 8192, "Number of sets is wrong");
    assert_eq!(rpp_params.n_sets_per_page, 64, "Number of sets is wrong");
    assert_eq!(rpp_params.n_colors, 128, "Number of sets is wrong");
}

#[test]
fn param_test_e5() {
    let cache_params = xeon_e5();
    let rpp_params: RppParams = cache_params.into();

    assert_eq!(rpp_params.n_sets, 16384, "Number of sets is wrong");
    assert_eq!(rpp_params.n_sets_per_page, 64, "Number of sets is wrong");
    assert_eq!(rpp_params.n_colors, 256, "Number of sets is wrong");
}

#[test]
fn param_test_e5_ddio() {
    let cache_params = xeon_e5_ddio();
    let rpp_params: RppParams = cache_params.into();

    assert_eq!(rpp_params.n_sets, 16384, "Number of sets is wrong");
    assert_eq!(rpp_params.n_sets_per_page, 64, "Number of sets is wrong");
    assert_eq!(rpp_params.n_colors, 256, "Number of sets is wrong");
}

#[test]
fn param_lines_and_buffer() {
    let full: RppParams = xeon_e5().into();
    let ddio: RppParams = xeon_e5_ddio().into();
    assert_eq!(full.n_lines, 20);
    assert_eq!(ddio.n_lines, 2);
    assert_eq!(full.v_buf, 5000 * PAGE_SIZE);
    assert_eq!(ddio.v_buf, 20_480_000);
}

#[test]
fn param_test_platinum() {
    let full: RppParams = xeon_platinum().into();
    let ddio: RppParams = xeon_platinum_ddio().into();
    // 33 MiB in sets of 11 lines of 64 bytes
    assert_eq!(full.n_sets, 49152);
    assert_eq!(full.n_colors, 768);
    assert_eq!(full.n_lines, 11);
    assert_eq!(ddio.n_sets, 49152);
    assert_eq!(ddio.n_lines, 2);
}

#[test]
fn param_test_i7_ddio() {
    let p: RppParams = core_i7_ddio().into();
    assert_eq!(p.n_sets, 8192);
    assert_eq!(p.n_colors, 128);
    assert_eq!(p.n_lines, 2);
}

#[test]
fn default_params_are_core_i7() {
    let d: RppParams = CacheParams::default().into();
    let i7: RppParams = core_i7().into();
    assert_eq!(d.n_lines, i7.n_lines);
    assert_eq!(d.n_sets, i7.n_sets);
    assert_eq!(d.n_sets_per_page, i7.n_sets_per_page);
    assert_eq!(d.n_colors, i7.n_colors);
    assert_eq!(d.v_buf, i7.v_buf);
}

#[test]
fn custom_params() {
    let p: RppParams = CacheParams::new(128, 4, 2, 1 << 20, 10).into();
    assert_eq!(p.n_lines, 2);
    assert_eq!(p.n_sets, 2048);
    assert_eq!(p.n_sets_per_page, 32);
    assert_eq!(p.n_colors, 64);
    assert_eq!(p.v_buf, 40960);
}

#[test]
fn try_new_rejects_what_cannot_be_derived() {
    assert!(CacheParams::try_new(0, 12, 12, 6_291_456, 5000).is_none());
    assert!(CacheParams::try_new(64, 0, 12, 6_291_456, 5000).is_none());
    assert!(CacheParams::try_new(8192, 12, 12, 6_291_456, 5000).is_none());
    assert!(CacheParams::try_new(4096, usize::MAX / 2, 12, 6_291_456, 5000).is_none());
    assert!(CacheParams::try_new(64, 12, 12, 6_291_456, usize::MAX / 2).is_none());
}

#[test]
fn try_new_accepts_a_valid_geometry() {
    let p: RppParams = CacheParams::try_new(64, 12, 12, 6_291_456, 5000)
        .expect("a valid geometry was refused")
        .into();
    assert_eq!(p.n_sets, 8192);
    assert_eq!(p.n_colors, 128);
    let edge: RppParams = CacheParams::try_new(4096, 1, 0, 0, 0)
        .expect("a valid geometry was refused")
        .into();
    assert_eq!(edge.n_sets, 0);
    assert_eq!(edge.n_sets_per_page, 1);
    assert_eq!(edge.n_colors, 0);
    assert_eq!(edge.v_buf, 0);
}

#[test]
fn quantities_are_what_the_conversion_gives() {
    let q = xeon_platinum_ddio().quantities();
    let p: RppParams = xeon_platinum_ddio().into();
    assert_eq!(q.n_lines, p.n_lines);
    assert_eq!(q.n_sets, p.n_sets);
    assert_eq!(q.n_sets_per_page, p.n_sets_per_page);
    assert_eq!(q.n_colors, p.n_colors);
    assert_eq!(q.v_buf, p.v_buf);
    assert_eq!(q.n_colors, 768);
}
