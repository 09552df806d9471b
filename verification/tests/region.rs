use mca_viewer_rs::region::{parse_i32, parse_mca_file_name, FileNameError, Region};
use std::path::PathBuf;

#[test]
fn test_mca_file_name() {
    assert_eq!((-3, 7), parse_mca_file_name("r.-3.7.mca").unwrap());

    assert!(parse_mca_file_name("").is_err());
    assert!(parse_mca_file_name("-3.7.mca").is_err());
    assert!(parse_mca_file_name("r.-3.4.7.mca").is_err());
    assert!(parse_mca_file_name("r.1,2.mca").is_err());
}

#[test]
fn file_name_errors() {
    assert_eq!(parse_mca_file_name("x.1.2.mca"), Err(FileNameError::UnexpectedName));
    assert_eq!(parse_mca_file_name("r.1.2.mcb"), Err(FileNameError::UnexpectedName));
    assert_eq!(parse_mca_file_name("r.a.2.mca"), Err(FileNameError::InvalidNumber));
    assert_eq!(parse_mca_file_name("r..2.mca"), Err(FileNameError::InvalidNumber));
    assert_eq!(parse_mca_file_name("r.+5.-0.mca"), Ok((5, 0)));
    assert_eq!(parse_mca_file_name("r.2147483648.0.mca"), Err(FileNameError::InvalidNumber));
}

#[test]
fn parse_i32_like_std() {
    for s in ["0", "-0", "+12", "-2147483648", "2147483647", "2147483648", "-2147483649", "", "+", "-", "1-", "99999999999", "12a", "007"] {
        assert_eq!(parse_i32(s.as_bytes()), s.parse::<i32>().ok(), "{}", s);
    }
}

#[test]
fn region_new_keeps_fields() {
    let r = Region::new(-2, 5, PathBuf::from("r.-2.5.mca"));
    assert_eq!((r.x, r.z), (-2, 5));
    assert_eq!(r.path, PathBuf::from("r.-2.5.mca"));
}

#[test]
fn formatted_names_read_back() {
    for (x, z) in [(0, 0), (-3, 7), (i32::MIN, i32::MAX), (12, -40)] {
        let name = format!("r.{}.{}.mca", x, z);
        assert_eq!(parse_mca_file_name(&name), Ok((x, z)));
    }
}
