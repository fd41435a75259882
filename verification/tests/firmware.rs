//! Loading firmware images.

use jolt::error::{Error, IoError, IoErrorKind};
use jolt::firmware::{check_extension, check_format, load};

/// The path of a file in the temporary directory.
fn temp_file(name: &str) -> String {
    format!("/tmp/jolt-test-1-{name}")
}

#[test]
fn hex_rejected_case_insensitively_with_hint() {
    for name in ["x.hex", "X.HEX"] {
        let p = temp_file(name);
        let err = load(&p, Ok(b"\x00\x01\x02".to_vec())).unwrap_err();
        let msg = err.message();
        match err {
            Error::FirmwareFormat { ext, .. } => assert_eq!(ext, "hex"),
            other => panic!("expected FirmwareFormat, got {other:?}"),
        }
        // The message carries the objcopy conversion hint.
        assert!(msg.contains("objcopy"), "hint missing from: {msg}");
        assert!(check_format(&p).is_err());
    }
}

#[test]
fn elf_rejected() {
    let p = temp_file("x.elf");
    assert!(matches!(
        load(&p, Ok(b"\x7fELF".to_vec())).unwrap_err(),
        Error::FirmwareFormat { .. }
    ));
}

#[test]
fn empty_bin_rejected() {
    let p = temp_file("empty.bin");
    assert!(matches!(
        load(&p, Ok(b"".to_vec())).unwrap_err(),
        Error::FirmwareEmpty { .. }
    ));
}

#[test]
fn missing_path_error_mentions_the_path() {
    let p = temp_file("does-not-exist.bin");
    let read = Err(IoError {
        kind: IoErrorKind::NotFound,
        message: "No such file or directory (os error 2)".to_string(),
    });
    let err = load(&p, read).unwrap_err();
    assert!(matches!(err, Error::Io(_)));
    assert!(err.message().contains(&p));
}

#[test]
fn small_bin_loads_byte_exact() {
    let p = temp_file("three.bin");
    assert_eq!(
        load(&p, Ok(vec![0xDE, 0xAD, 0xBE])).unwrap(),
        vec![0xDE, 0xAD, 0xBE]
    );
}

#[test]
fn extensionless_file_loads() {
    let p = temp_file("noext");
    assert_eq!(load(&p, Ok(vec![0x01, 0x02])).unwrap(), vec![0x01, 0x02]);
}

#[test]
fn read_failure_keeps_its_kind() {
    let read = Err(IoError {
        kind: IoErrorKind::PermissionDenied,
        message: "denied".to_string(),
    });
    match load("a.bin", read).unwrap_err() {
        Error::Io(e) => {
            assert_eq!(e.kind, IoErrorKind::PermissionDenied);
            assert_eq!(e.message, "reading firmware file a.bin: denied");
        }
        other => panic!("expected Io, got {other:?}"),
    }
}

#[test]
fn only_the_last_extension_of_the_file_name_counts() {
    for path in ["a.hex.bin", "dir.hex/image", "dir.elf/a.bin", ".hex", "hex", "a.hexx", "a."] {
        assert!(check_format(path).is_ok(), "{path}");
        assert_eq!(load(path, Ok(vec![1])).unwrap(), vec![1]);
    }
    for path in ["a.bin.hex", "dir/a.ELF", "./x.Hex", "..elf", "a b.eLf", "/x.hex"] {
        assert!(matches!(check_format(path), Err(Error::FirmwareFormat { .. })), "{path}");
    }
}

#[test]
fn hex_and_elf_rejected_in_paths_with_backslashes_and_drives() {
    for path in [
        "C:\\fw\\app.hex",
        "fw\\app.ELF",
        "\\app.hex",
        "C:/fw/app.elf",
        "C:app.hex",
        "a/b\\c.d.Hex",
        "dir/app.hex/",
        "app.elf//",
        "\\\\server\\share\\fw\\app.hex",
        "\\\\server\\share\\app.elf",
    ] {
        assert!(matches!(check_format(path), Err(Error::FirmwareFormat { .. })), "{path}");
        assert!(load(path, Ok(vec![1])).is_err(), "{path}");
    }
    for path in [
        "C:\\fw\\app.bin",
        "C:\\fw.hex\\app.bin",
        "C:app.bin",
        "C:\\fw\\image",
        "C:\\fw.d\\image",
        "\\\\server\\share\\fw.bin",
        "//server/fw.bin",
        "hex.",
        "..",
    ] {
        assert_eq!(load(path, Ok(vec![1])).unwrap(), vec![1], "{path}");
    }
}

#[test]
fn extension_is_reported_in_lower_case() {
    assert!(check_extension("p", None).is_ok());
    assert!(check_extension("p", Some("bin")).is_ok());
    match check_extension("p", Some("ElF")).unwrap_err() {
        Error::FirmwareFormat { path, ext } => {
            assert_eq!(path, "p");
            assert_eq!(ext, "elf");
        }
        other => panic!("expected FirmwareFormat, got {other:?}"),
    }
}
