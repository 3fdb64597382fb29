use offset_finder::path::{PointerPath, ScanOpts};

fn path(rva: usize, rest: &[usize]) -> PointerPath {
    PointerPath { rva, rest: rest.to_vec() }
}

#[test]
fn line_has_an_rva_of_eight_digits() {
    assert_eq!(path(0x04DD0708, &[0x8, 0x3F0, 0x0]).to_line(), "04DD0708 8 3F0 0");
}

#[test]
fn line_of_a_wide_rva_keeps_all_digits() {
    assert_eq!(path(0x1_2345_6789, &[0xAB]).to_line(), "123456789 AB");
}

#[test]
fn line_of_the_largest_numbers() {
    assert_eq!(
        path(usize::MAX, &[usize::MAX]).to_line(),
        "FFFFFFFFFFFFFFFF FFFFFFFFFFFFFFFF"
    );
}

#[test]
fn line_without_offsets() {
    assert_eq!(path(0x10, &[]).to_line(), "00000010");
    assert_eq!(path(0, &[]).to_line(), "00000000");
}

#[test]
fn lines_tell_paths_apart() {
    let paths = [
        path(0x10, &[]),
        path(0x10, &[0]),
        path(0x10, &[0, 0]),
        path(0x100, &[]),
        path(0x1, &[0x0]),
        path(0x1, &[0x00, 0x10]),
    ];
    for i in 0..paths.len() {
        for j in 0..paths.len() {
            assert_eq!(paths[i].to_line() == paths[j].to_line(), i == j);
        }
    }
}

#[test]
fn depth_counts_dereferences() {
    assert_eq!(path(1, &[1, 2, 3]).depth(), 3);
    assert_eq!(path(1, &[1]).depth(), 1);
    assert_eq!(path(1, &[]).depth(), 1);
}

#[test]
fn clone_is_the_same_path() {
    let p = path(7, &[1, 2]);
    assert_eq!(p.clone(), p);
}

#[test]
fn default_options() {
    let opts = ScanOpts::default();
    assert_eq!(opts.max_offset, 0x800);
    assert_eq!(opts.max_depth, 8);
    assert_eq!(opts.max_results, 256);
    assert_eq!(opts.node_budget, 3_000_000);
}

#[test]
fn lines_read_back() {
    for p in [
        path(0x04DD0708, &[0x8, 0x3F0, 0x0]),
        path(0, &[]),
        path(usize::MAX, &[0, usize::MAX, 0xABCDEF]),
    ] {
        let line = p.to_line();
        let fields: Vec<&str> = line.split(' ').collect();
        assert_eq!(fields.len(), 1 + p.rest.len());
        for f in &fields {
            assert!(f.chars().all(|c| matches!(c, '0'..='9' | 'A'..='F')));
        }
        let numbers: Vec<usize> =
            fields.iter().map(|f| usize::from_str_radix(f, 16).unwrap_or(1)).collect();
        assert_eq!((numbers[0], numbers[1..].to_vec()), (p.rva, p.rest.clone()));
    }
}
