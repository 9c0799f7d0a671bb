use dupefinder::size::Size;

#[test]
fn three_million_bytes_render_as_megabytes() {
    assert_eq!(Size::new(3_000_000).render(), "3.00Mb");
}

#[test]
fn small_counts_render_as_kilobytes() {
    assert_eq!(Size::new(0).render(), "0.00Kb");
    assert_eq!(Size::new(500).render(), "0.50Kb");
    assert_eq!(Size::new(999_999).render(), "1000.00Kb");
}

#[test]
fn megabyte_scale_keeps_two_decimals() {
    assert_eq!(Size::new(1_000_000).render(), "1.00Mb");
    assert_eq!(Size::new(1_234_567).render(), "1.23Mb");
    assert_eq!(Size::new(1_500_000).render(), "1.50Mb");
}

#[test]
fn gigabyte_scale_starts_at_one_billion() {
    assert_eq!(Size::new(999_999_999).render(), "1000.00Mb");
    assert_eq!(Size::new(1_000_000_000).render(), "1.00Gb");
    assert_eq!(Size::new(2_750_000_000).render(), "2.75Gb");
}
