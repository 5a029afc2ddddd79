use unescape_newlines::error::{exit_code, ConversionError, HumanError};

fn read_error() -> ConversionError {
    ConversionError::ReadError { path: "missing.txt".to_string(), cause: "not found".to_string() }
}

#[test]
fn read_error_message() {
    assert_eq!(read_error().message(), "Error when reading 'missing.txt': not found");
}

#[test]
fn create_error_message() {
    let e = ConversionError::CreateError {
        path: "out/x - copy.txt".to_string(),
        cause: "permission denied".to_string(),
    };
    assert_eq!(e.message(), "Error when creating file 'out/x - copy.txt': permission denied");
}

#[test]
fn write_error_message() {
    let e = ConversionError::WriteError { path: "o.txt".to_string(), cause: "disk full".to_string() };
    assert_eq!(e.message(), "Error when writing 'o.txt': disk full");
}

#[test]
fn sync_error_message() {
    let e = ConversionError::SyncError { path: "o.txt".to_string(), cause: "i/o error".to_string() };
    assert_eq!(e.message(), "Cannot sync 'o.txt' with disk: i/o error");
}

#[test]
fn human_error_holds_message() {
    let h = HumanError::new("boom".to_string());
    assert_eq!(h.message(), "boom");
    assert_eq!(read_error().to_human().0, "Error when reading 'missing.txt': not found");
}

#[test]
fn exit_codes() {
    assert_eq!(exit_code(&Ok(())), 0);
    assert_eq!(exit_code(&Err(read_error())), 1);
}
