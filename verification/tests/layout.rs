use lumadisk::icon::{icon_rgba, ICON_SIZE};
use lumadisk::order::sort_desc;
use lumadisk::model::FileEntry;
use lumadisk::treemap::split_point;

#[test]
fn split_point_cuts_at_half_the_weight() {
    assert_eq!(split_point(&[(0, 500), (1, 300), (2, 200)]), (1, 500, 1000));
    assert_eq!(split_point(&[(0, 1), (1, 1), (2, 1), (3, 1)]), (2, 2, 4));
    assert_eq!(split_point(&[(0, 0), (1, 0)]), (1, 1, 2));
    assert_eq!(split_point(&[(0, 1), (1, 1), (2, 100)]), (2, 2, 102));
    assert_eq!(split_point(&[(0, u64::MAX), (1, u64::MAX)]), (1, u64::MAX as u128, 2 * u64::MAX as u128));
}

#[test]
fn icon_paints_tiles_over_background() {
    let rgba = icon_rgba();
    assert_eq!(rgba.len(), ICON_SIZE * ICON_SIZE * 4);
    let pixel = |x: usize, y: usize| rgba[(y * 64 + x) * 4..(y * 64 + x) * 4 + 4].to_vec();
    assert_eq!(pixel(0, 0), vec![10, 14, 20, 255]);
    assert_eq!(pixel(7, 8), vec![44, 178, 140, 255]);
    assert_eq!(pixel(37, 34), vec![112, 91, 218, 255]);
    assert_eq!(pixel(7, 39), vec![218, 139, 55, 255]);
    assert_eq!(pixel(56, 56), vec![47, 147, 201, 255]);
    assert_eq!(pixel(57, 56), vec![10, 14, 20, 255]);
}

#[test]
fn sort_desc_orders_largest_first() {
    let make = |size: u64| FileEntry {
        path: std::path::PathBuf::from(size.to_string()),
        display_path: size.to_string(),
        name: size.to_string(),
        extension: "bin".to_owned(),
        size,
        modified_unix: 0,
    };
    let sorted = sort_desc(vec![make(3), make(9), make(1), make(9), make(5), make(0)]);
    let sizes: Vec<u64> = sorted.iter().map(|f| f.size).collect();
    assert_eq!(sizes, vec![9, 9, 5, 3, 1, 0]);
    assert!(sort_desc(Vec::<FileEntry>::new()).is_empty());
}
