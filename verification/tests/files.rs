use braid::error::BraidError;
use braid::file_mode::digest::{compute_file_crc32c, verify_file_crc32c, FileCrc};
use braid::file_mode::output::{resolve_output_path, OutputName};
use braid::file_mode::receiver::FileModeReceiver;
use braid::file_mode::sanitize::sanitize_filename;
use braid::file_mode::sender::FileModeSender;
use braid::file_mode::splitter::FileSplitter;
use braid::file_mode::FileMetadata;

fn metadata(filename: &str, filesize: u64, hash: u32) -> FileMetadata {
    FileMetadata::from_basename(filename.to_string(), filesize, hash)
}

#[test]
fn from_basename_sets_fields() {
    let meta = FileMetadata::from_basename("sample.bin".to_string(), 42, 0xdead_beef);
    assert_eq!(meta.filename, "sample.bin");
    assert_eq!(meta.filesize, 42);
    assert_eq!(meta.file_crc32c, 0xdead_beef);
}

#[test]
fn display_formats_metadata() {
    let meta = FileMetadata::from_basename("sample.bin".to_string(), 42, 0xdead_beef);
    assert_eq!(meta.to_string(), "sample.bin (42 bytes, crc32c=deadbeef)");
}

#[test]
fn sanitize_accepts_simple_name() {
    assert_eq!(sanitize_filename("file.bin").unwrap(), "file.bin");
}

#[test]
fn sanitize_rejects_path_traversal() {
    assert_eq!(sanitize_filename("../../../etc/passwd"), Err("invalid filename"));
}

#[test]
fn sanitize_rejects_absolute_path() {
    assert_eq!(sanitize_filename("/etc/passwd"), Err("path separator not allowed"));
}

#[test]
fn sanitize_rejects_null_byte() {
    assert_eq!(sanitize_filename("file\0.bin"), Err("null byte not allowed"));
}

#[test]
fn sanitize_rejects_too_long() {
    let input = "a".repeat(256);
    assert_eq!(sanitize_filename(&input), Err("filename too long"));
}

#[test]
fn sanitize_strips_whitespace() {
    assert_eq!(sanitize_filename("  file.bin  ").unwrap(), "file.bin");
}

#[test]
fn sanitize_edge_cases() {
    assert_eq!(sanitize_filename(""), Err("invalid filename"));
    assert_eq!(sanitize_filename(" \t\n"), Err("invalid filename"));
    assert_eq!(sanitize_filename("."), Err("invalid filename"));
    assert_eq!(sanitize_filename(".."), Err("invalid filename"));
    assert_eq!(sanitize_filename("a..b"), Err("invalid filename"));
    assert_eq!(sanitize_filename("a\\b"), Err("path separator not allowed"));
    assert_eq!(sanitize_filename(&"a".repeat(255)).unwrap().len(), 255);
    assert_eq!(sanitize_filename(&"é".repeat(128)), Err("filename too long"));
    assert_eq!(sanitize_filename("\u{3000}né\u{a0}").unwrap(), "né");
    assert_eq!(sanitize_filename(".profile").unwrap(), ".profile");
}

#[test]
fn white_space_is_what_trim_removes() {
    for n in (0..0x3100u32).chain(0xFE00..0x10000) {
        if let Some(c) = char::from_u32(n) {
            let name = format!("{c}x{c}");
            let trimmed = name.trim();
            let expected: Result<String, &str> = Ok(trimmed.to_string());
            if c != '/' && c != '\\' && c != '\0' {
                assert_eq!(sanitize_filename(&name), expected, "U+{n:04X}");
            }
        }
    }
}

#[test]
fn compute_file_crc32c_empty_file() {
    assert_eq!(compute_file_crc32c(&vec![vec![]]), 0);
    assert_eq!(compute_file_crc32c(&vec![]), 0);
}

#[test]
fn compute_file_crc32c_known_value() {
    assert_eq!(compute_file_crc32c(&vec![b"hello".to_vec(), vec![]]), 0x3610_a686);
}

#[test]
fn compute_file_crc32c_large_file() {
    let data = vec![0xAB; 100 * 1024];
    let reads: Vec<Vec<u8>> = data.chunks(64 * 1024).map(|c| c.to_vec()).collect();
    assert_eq!(compute_file_crc32c(&reads), crc32fast::hash(&data));
}

#[test]
fn verify_file_crc32c_match() {
    let data = b"braid verification";
    let expected = crc32fast::hash(data);
    assert!(verify_file_crc32c(&vec![data.to_vec()], expected));
}

#[test]
fn verify_file_crc32c_mismatch() {
    assert!(!verify_file_crc32c(&vec![b"braid verification".to_vec()], 0));
}

#[test]
fn a_file_ends_at_the_first_empty_read() {
    let mut file = FileCrc::new();
    file.update(b"hel");
    file.update(b"lo");
    assert_eq!(file.finish(), 0x3610_a686);
    let reads = vec![b"hel".to_vec(), b"lo".to_vec(), vec![], b"more".to_vec()];
    assert_eq!(compute_file_crc32c(&reads), 0x3610_a686);
}

#[test]
fn resolve_no_conflict() {
    assert_eq!(resolve_output_path("file.bin", &vec![false]).unwrap(), "file.bin");
}

#[test]
fn resolve_with_conflict() {
    assert_eq!(resolve_output_path("file.bin", &vec![true, false]).unwrap(), "file (1).bin");
}

#[test]
fn resolve_with_multiple_conflicts() {
    assert_eq!(
        resolve_output_path("file.bin", &vec![true, true, false]).unwrap(),
        "file (2).bin"
    );
}

#[test]
fn resolve_no_extension() {
    assert_eq!(resolve_output_path("file", &vec![true, false]).unwrap(), "file (1)");
}

#[test]
fn extensions_of_unusual_names() {
    let second = |name: &str| resolve_output_path(name, &vec![true, false]).unwrap();
    assert_eq!(second("a.tar.gz"), "a.tar (1).gz");
    assert_eq!(second(".bashrc"), ".bashrc (1)");
    assert_eq!(second("name."), "name (1).");
    assert_eq!(second(".."), ".. (1)");
    assert_eq!(second(""), " (1)");
    assert_eq!(resolve_output_path("f", &vec![true, true]), None);
    let mut search = OutputName::new("f.x");
    for _ in 0..12 {
        search.on_taken();
    }
    assert_eq!(search.candidate(), "f (12).x");
}

#[test]
fn resolve_uses_sender_filename() {
    let receiver = FileModeReceiver::new(None);
    let resolved = receiver.resolve_output_path(&metadata("myfile.bin", 100, 0x12345678)).unwrap();
    assert_eq!(resolved, "myfile.bin");
}

#[test]
fn resolve_uses_explicit_output() {
    let receiver = FileModeReceiver::new(Some("/some/dir/explicit.bin".to_string()));
    let resolved =
        receiver.resolve_output_path(&metadata("sender_file.bin", 100, 0x12345678)).unwrap();
    assert_eq!(resolved, "/some/dir/explicit.bin");
}

#[test]
fn resolve_sanitizes_filename() {
    let receiver = FileModeReceiver::new(None);
    let result = receiver.resolve_output_path(&metadata("foo/../bar.bin", 100, 0x12345678));
    assert!(result.is_err(), "should reject path traversal");
    assert!(matches!(result, Err(BraidError::Protocol("invalid filename"))));
}

#[test]
fn compute_hash_matches_expected() {
    let data = b"braid integrity check";
    let receiver = FileModeReceiver::new(None);
    assert_eq!(receiver.compute_hash(&vec![data.to_vec()]), crc32fast::hash(data));
}

#[test]
fn compute_hash_mismatch() {
    let receiver = FileModeReceiver::new(None);
    let computed = receiver.compute_hash(&vec![b"some data".to_vec()]);
    assert_ne!(computed, crc32fast::hash(b"different data"));
}

#[test]
fn prepare_returns_correct_metadata() {
    let data = b"hello world";
    let sender = FileModeSender::new("/tmp/braid-sender-meta".to_string(), Ok(true)).unwrap();
    let crc = compute_file_crc32c(&vec![data.to_vec()]);
    let meta = sender
        .prepare(Some("braid-sender-meta".to_string()), data.len() as u64, crc)
        .unwrap();
    assert_eq!(meta.filename, "braid-sender-meta");
    assert_eq!(meta.filesize, data.len() as u64);
    assert_eq!(meta.file_crc32c, crc32fast::hash(data));
    assert!(matches!(
        sender.prepare(None, 0, 0),
        Err(BraidError::Protocol("invalid filename in input path"))
    ));
}

#[test]
fn prepare_nonexistent_file_errors() {
    let missing = std::io::Error::new(std::io::ErrorKind::NotFound, "no such file");
    let result = FileModeSender::new("/nonexistent".to_string(), Err(missing));
    assert!(matches!(result, Err(BraidError::Io(_))));
}

#[test]
fn prepare_directory_errors() {
    let result = FileModeSender::new("/tmp".to_string(), Ok(false));
    assert!(matches!(result, Err(BraidError::Protocol("input path is not a regular file"))));
}

#[test]
fn file_splitter_produces_fragments() {
    let content = vec![b'x'; 200];
    let mut splitter = FileSplitter::new(128);
    let reads = vec![content[..128].to_vec(), content[128..].to_vec(), vec![]];
    let batches = splitter.run_file(&reads);
    let total_fragments: usize = batches.iter().map(|b| b.len()).sum();
    assert!(total_fragments > 0);
}
