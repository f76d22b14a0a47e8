use flint_core::error::{Error, Result};

#[test]
fn test_io_error_with_path() {
    let err = Error::io_with_path("file not found", "/path/to/file.txt");
    let display = err.to_string();
    assert!(display.contains("IO error"));
    assert!(display.contains("/path/to/file.txt"));
    assert!(display.contains("file not found"));
}

#[test]
fn test_parse_error_display() {
    let err = Error::Parse {
        line: 42,
        message: "unexpected token".to_string(),
        path: None,
    };
    let display = err.to_string();
    assert!(display.contains("Parse error"));
    assert!(display.contains("at line 42"));
    assert!(display.contains("unexpected token"));
}

#[test]
fn test_parse_error_with_path() {
    let err = Error::parse_with_path(42, "unexpected token", "/path/to/file.py");
    let display = err.to_string();
    assert!(display.contains("Parse error"));
    assert!(display.contains("/path/to/file.py"));
    assert!(display.contains("at line 42"));
    assert!(display.contains("unexpected token"));
}

#[test]
fn test_wad_error() {
    let err = Error::Wad {
        message: "invalid WAD header".to_string(),
        path: None,
    };
    assert!(err.to_string().contains("WAD error"));
    assert!(err.to_string().contains("invalid WAD header"));
}

#[test]
fn test_wad_error_with_path() {
    let err = Error::wad_with_path("invalid WAD header", "/path/to/file.wad");
    let display = err.to_string();
    assert!(display.contains("WAD error"));
    assert!(display.contains("/path/to/file.wad"));
    assert!(display.contains("invalid WAD header"));
}

#[test]
fn test_hash_error() {
    let err = Error::Hash("hash not found".to_string());
    assert!(err.to_string().contains("Hash error"));
    assert!(err.to_string().contains("hash not found"));
}

#[test]
fn test_bin_conversion_error() {
    let err = Error::BinConversion {
        message: "invalid bin format".to_string(),
        path: None,
    };
    assert!(err.to_string().contains("Bin conversion error"));
    assert!(err.to_string().contains("invalid bin format"));
}

#[test]
fn test_bin_conversion_error_with_path() {
    let err = Error::bin_conversion_with_path("invalid bin format", "/path/to/file.bin");
    let display = err.to_string();
    assert!(display.contains("Bin conversion error"));
    assert!(display.contains("/path/to/file.bin"));
    assert!(display.contains("invalid bin format"));
}

#[test]
fn test_invalid_input_error() {
    let err = Error::InvalidInput("empty path".to_string());
    assert!(err.to_string().contains("Invalid input"));
    assert!(err.to_string().contains("empty path"));
}

#[test]
fn test_error_to_string_conversion() {
    let err = Error::Hash("test error".to_string());
    let s: String = err.to_string();
    assert!(s.contains("Hash error"));
    assert!(s.contains("test error"));
}

#[test]
fn test_result_type() {
    fn returns_result() -> Result<i32> {
        Ok(42)
    }
    fn returns_error() -> Result<i32> {
        Err(Error::InvalidInput("test".to_string()))
    }
    assert_eq!(returns_result().unwrap(), 42);
    assert!(returns_error().is_err());
}

#[test]
fn error_texts_exact() {
    let err = Error::parse_with_path(7, "bad", "h.txt");
    assert_eq!(err.to_string(), "Parse error in file 'h.txt' at line 7: bad");
    let err = Error::io_with_path("gone", "/x");
    assert_eq!(err.to_string(), "IO error at '/x': gone");
    assert_eq!(Error::Hash("m".to_string()).to_string(), "Hash error: m");
}
