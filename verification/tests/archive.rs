use boost::archive::{ArchiveEntry, decode_archive, encode_archive};
use boost::errors::Error;

fn entry(path: &str, mode: u32, data: &[u8]) -> ArchiveEntry {
    ArchiveEntry { path: path.as_bytes().to_vec(), mode, data: data.to_vec() }
}

#[test]
fn empty_archive_round_trips() {
    let bytes = encode_archive(&vec![]).unwrap();
    assert_eq!(bytes.len(), 1024);
    assert!(bytes.iter().all(|b| *b == 0));
    let back = decode_archive(&bytes).unwrap();
    assert_eq!(back.len(), 0);
}

#[test]
fn one_file_round_trips() {
    let entries = vec![entry("dist/a", 0o644, b"x\n")];
    let bytes = encode_archive(&entries).unwrap();
    let back = decode_archive(&bytes).unwrap();
    assert_eq!(back.len(), 1);
    assert_eq!(back[0].path, b"dist/a".to_vec());
    assert_eq!(back[0].mode, 0o644);
    assert_eq!(back[0].data, b"x\n".to_vec());
}

#[test]
fn several_files_keep_order_mode_and_contents() {
    let entries = vec![
        entry("out/one.txt", 0o644, b"first"),
        entry("out/tool", 0o755, b"#!/bin/sh\nexit 0\n"),
        entry("out/empty", 0o600, b""),
    ];
    let bytes = encode_archive(&entries).unwrap();
    let back = decode_archive(&bytes).unwrap();
    assert_eq!(back.len(), 3);
    assert_eq!(back[0].path, b"out/one.txt".to_vec());
    assert_eq!(back[0].data, b"first".to_vec());
    assert_eq!(back[1].mode, 0o755);
    assert_eq!(back[1].data, b"#!/bin/sh\nexit 0\n".to_vec());
    assert_eq!(back[2].data, Vec::<u8>::new());
    assert_eq!(back[2].mode, 0o600);
}

#[test]
fn large_contents_round_trip() {
    // spans several blocks, exercises the padding
    let data: Vec<u8> = (0..1500u32).map(|i| (i % 251) as u8).collect();
    let entries = vec![entry("big.bin", 0o640, &data)];
    let bytes = encode_archive(&entries).unwrap();
    assert_eq!(bytes.len() % 512, 0);
    let back = decode_archive(&bytes).unwrap();
    assert_eq!(back[0].data, data);
}

#[test]
fn header_layout_is_ustar() {
    let bytes = encode_archive(&vec![entry("f", 0o644, b"hi")]).unwrap();
    // name at 0, NUL padded
    assert_eq!(bytes[0], b'f');
    assert_eq!(bytes[1], 0);
    // mode in octal at 100
    assert_eq!(&bytes[100..108], b"0000644\0");
    // size in octal at 124
    assert_eq!(&bytes[124..136], b"00000000002\0");
    // type flag and magic
    assert_eq!(bytes[156], b'0');
    assert_eq!(&bytes[257..263], b"ustar\0");
    assert_eq!(&bytes[263..265], b"00");
}

#[test]
fn corrupt_checksum_is_refused() {
    let mut bytes = encode_archive(&vec![entry("f", 0o644, b"hi")]).unwrap();
    // flip a content-independent header byte: the first checksum digit
    bytes[148] = if bytes[148] == b'0' { b'1' } else { b'0' };
    match decode_archive(&bytes) {
        Err(Error::ArchiveError(_)) => {},
        other => panic!("expected ArchiveError, got {:?}", other),
    }
}

#[test]
fn truncated_stream_is_refused() {
    let bytes = encode_archive(&vec![entry("f", 0o644, b"hi")]).unwrap();
    match decode_archive(&bytes[..700]) {
        Err(Error::ArchiveError(_)) => {},
        other => panic!("expected ArchiveError, got {:?}", other),
    }
}

#[test]
fn overlong_name_is_refused() {
    let long = "x".repeat(101);
    match encode_archive(&vec![entry(&long, 0o644, b"")]) {
        Err(Error::ArchiveError(_)) => {},
        other => panic!("expected ArchiveError, got {:?}", other),
    }
}

#[test]
fn empty_name_is_refused() {
    match encode_archive(&vec![entry("", 0o644, b"")]) {
        Err(Error::ArchiveError(_)) => {},
        other => panic!("expected ArchiveError, got {:?}", other),
    }
}
