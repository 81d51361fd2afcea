use texflat::flatten::{flatten_path, path_file_type, EncodingError, FileType, FileTypeError};

fn segs(parts: &[&str]) -> Vec<Option<Vec<u8>>> {
    parts.iter().map(|p| Some(p.as_bytes().to_vec())).collect()
}

#[test]
fn test_flatten_path_basic() {
    let segments = segs(&["proj", "content", "background.tex"]);
    let flat = flatten_path(&segments, 1).unwrap();
    assert_eq!(flat, b"content__background.tex".to_vec());
}

#[test]
fn test_flatten_path_deeper_root() {
    let segments = segs(&["home", "user", "proj", "figures", "plots", "chart.png"]);
    let flat = flatten_path(&segments, 3).unwrap();
    assert_eq!(flat, b"figures__plots__chart.png".to_vec());
}

#[test]
fn test_flatten_path_single_segment() {
    let segments = segs(&["proj", "main.tex"]);
    let flat = flatten_path(&segments, 1).unwrap();
    assert_eq!(flat, b"main.tex".to_vec());
}

#[test]
fn test_flatten_path_undecodable_segment() {
    let segments = vec![Some(b"proj".to_vec()), None, Some(b"main.tex".to_vec())];
    assert_eq!(flatten_path(&segments, 1), Err(EncodingError));
}

#[test]
fn test_path_file_type_directory() {
    assert_eq!(
        path_file_type(&b"project".to_vec()),
        Ok(FileType::Directory)
    );
}

#[test]
fn test_path_file_type_dot_file_is_directory() {
    assert_eq!(path_file_type(&b".hidden".to_vec()), Ok(FileType::Directory));
}

#[test]
fn test_path_file_type_zip() {
    assert_eq!(path_file_type(&b"archive.zip".to_vec()), Ok(FileType::Zip));
    assert_eq!(path_file_type(&b"ARCHIVE.ZIP".to_vec()), Ok(FileType::Zip));
}

#[test]
fn test_path_file_type_invalid_extension() {
    assert_eq!(
        path_file_type(&b"archive.tar".to_vec()),
        Err(FileTypeError::InvalidExtension(b"tar".to_vec()))
    );
}
