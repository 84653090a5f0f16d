use cairo_protostar::input_path::ensure_path_is_dir;

#[test]
fn directory_is_accepted() {
    assert_eq!(ensure_path_is_dir(true, false), Ok(()));
}

#[test]
fn file_is_refused_with_its_kind() {
    assert_eq!(
        ensure_path_is_dir(false, true),
        Err("invalid input path: a directory path is expected, a file was received".to_string())
    );
}

#[test]
fn missing_path_is_refused() {
    assert_eq!(
        ensure_path_is_dir(false, false),
        Err("invalid input path: a directory path is expected".to_string())
    );
}
