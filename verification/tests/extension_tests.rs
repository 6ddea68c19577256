use ouch_core::extension::{
    build_archive_file_suggestion, extensions_from_path, flatten_compression_formats,
    parse_format_flag, separate_known_extensions_from_name, split_first_compression_format,
    stem_is_known_token, to_extension, CompressionFormat, Extension, ParseError,
};

fn ext(formats: Vec<CompressionFormat>, text: &str) -> Extension {
    Extension::new(formats, text.as_bytes().to_vec())
}

#[test]
fn test_extensions_from_path() {
    let path = b"bolovo.tar.gz";

    let extensions = extensions_from_path(path).unwrap();
    let formats = flatten_compression_formats(&extensions);

    assert_eq!(formats, vec![CompressionFormat::Tar, CompressionFormat::Gzip]);
}

#[test]
fn test_separate_known_extensions_from_name() {
    let (stem, exts) = separate_known_extensions_from_name(b"file").unwrap();
    assert_eq!(stem, b"file");
    assert_eq!(exts, vec![]);

    let (stem, exts) = separate_known_extensions_from_name(b"tar").unwrap();
    assert_eq!(stem, b"tar");
    assert_eq!(exts, vec![]);

    let (stem, exts) = separate_known_extensions_from_name(b".tar").unwrap();
    assert_eq!(stem, b".tar");
    assert_eq!(exts, vec![]);

    let (stem, exts) = separate_known_extensions_from_name(b"file.tar").unwrap();
    assert_eq!(stem, b"file");
    assert_eq!(exts, vec![ext(vec![CompressionFormat::Tar], "tar")]);

    let (stem, exts) = separate_known_extensions_from_name(b"file.tar.gz").unwrap();
    assert_eq!(stem, b"file");
    assert_eq!(
        exts,
        vec![
            ext(vec![CompressionFormat::Tar], "tar"),
            ext(vec![CompressionFormat::Gzip], "gz"),
        ]
    );

    let (stem, exts) = separate_known_extensions_from_name(b".tar.gz").unwrap();
    assert_eq!(stem, b".tar");
    assert_eq!(exts, vec![ext(vec![CompressionFormat::Gzip], "gz")]);
}

#[test]
fn test_parse_of_format_flag() {
    assert_eq!(
        parse_format_flag(b"tar").unwrap(),
        vec![ext(vec![CompressionFormat::Tar], "tar")]
    );
    assert_eq!(
        parse_format_flag(b".tar").unwrap(),
        vec![ext(vec![CompressionFormat::Tar], "tar")]
    );
    assert_eq!(
        parse_format_flag(b"tar.gz").unwrap(),
        vec![
            ext(vec![CompressionFormat::Tar], "tar"),
            ext(vec![CompressionFormat::Gzip], "gz"),
        ]
    );
    assert_eq!(
        parse_format_flag(b".tar.gz").unwrap(),
        vec![
            ext(vec![CompressionFormat::Tar], "tar"),
            ext(vec![CompressionFormat::Gzip], "gz"),
        ]
    );
    assert_eq!(
        parse_format_flag(b"..tar..gz.....").unwrap(),
        vec![
            ext(vec![CompressionFormat::Tar], "tar"),
            ext(vec![CompressionFormat::Gzip], "gz"),
        ]
    );

    assert!(parse_format_flag(b"../tar.gz").is_err());
    assert!(parse_format_flag(b"targz").is_err());
    assert!(parse_format_flag(b"tar.gz.unknown").is_err());
    assert!(parse_format_flag(b".tar.gz.unknown").is_err());
    assert!(parse_format_flag(b".tar.!@#.gz").is_err());
}

#[test]
fn builds_suggestion_correctly() {
    assert_eq!(build_archive_file_suggestion(b"linux.png", b".tar"), None);
    assert_eq!(
        build_archive_file_suggestion(b"linux.xz.gz.zst", b".tar").unwrap(),
        b"linux.tar.xz.gz.zst".to_vec()
    );
    assert_eq!(
        build_archive_file_suggestion(b"linux.pkg.xz.gz.zst", b".tar").unwrap(),
        b"linux.pkg.tar.xz.gz.zst".to_vec()
    );
    assert_eq!(
        build_archive_file_suggestion(b"linux.pkg.zst", b".tar").unwrap(),
        b"linux.pkg.tar.zst".to_vec()
    );
    assert_eq!(
        build_archive_file_suggestion(b"linux.pkg.info.zst", b".tar").unwrap(),
        b"linux.pkg.info.tar.zst".to_vec()
    );
}

#[test]
fn test_extension_parsing_with_multiple_archive_formats() {
    assert!(separate_known_extensions_from_name(b"file.tar.zip").is_err());
    assert!(separate_known_extensions_from_name(b"file.7z.zst.zip.lz4").is_err());
}

#[test]
fn catalog_tokens_round_trip() {
    let singles: [(&str, CompressionFormat); 15] = [
        ("tar", CompressionFormat::Tar),
        ("zip", CompressionFormat::Zip),
        ("bz", CompressionFormat::Bzip),
        ("bz2", CompressionFormat::Bzip),
        ("bz3", CompressionFormat::Bzip3),
        ("gz", CompressionFormat::Gzip),
        ("lz4", CompressionFormat::Lz4),
        ("xz", CompressionFormat::Xz),
        ("lzma", CompressionFormat::Lzma),
        ("lz", CompressionFormat::Lzip),
        ("sz", CompressionFormat::Snappy),
        ("zst", CompressionFormat::Zstd),
        ("rar", CompressionFormat::Rar),
        ("7z", CompressionFormat::SevenZip),
        ("br", CompressionFormat::Brotli),
    ];
    for (token, format) in singles {
        let e = to_extension(token.as_bytes()).unwrap();
        assert!(!e.compression_formats.is_empty());
        assert_eq!(e.compression_formats, vec![format]);
        assert_eq!(e.display_text(), &token.as_bytes().to_vec());
    }
    let aliases: [(&str, CompressionFormat); 10] = [
        ("tgz", CompressionFormat::Gzip),
        ("tbz", CompressionFormat::Bzip),
        ("tbz2", CompressionFormat::Bzip),
        ("tbz3", CompressionFormat::Bzip3),
        ("tlz4", CompressionFormat::Lz4),
        ("txz", CompressionFormat::Xz),
        ("tlzma", CompressionFormat::Lzma),
        ("tlz", CompressionFormat::Lzip),
        ("tsz", CompressionFormat::Snappy),
        ("tzst", CompressionFormat::Zstd),
    ];
    for (token, inner) in aliases {
        let e = to_extension(token.as_bytes()).unwrap();
        assert!(!e.compression_formats.is_empty());
        assert_eq!(e.compression_formats, vec![CompressionFormat::Tar, inner]);
        assert_eq!(e.display_text(), &token.as_bytes().to_vec());
    }
    assert!(to_extension(b"unknown").is_none());
    assert!(to_extension(b"TAR").is_none());
    assert!(to_extension(b"").is_none());
}

#[test]
fn archive_classification_is_total() {
    assert!(CompressionFormat::Tar.archive_format());
    assert!(CompressionFormat::Zip.archive_format());
    assert!(CompressionFormat::Rar.archive_format());
    assert!(CompressionFormat::SevenZip.archive_format());
    assert!(!CompressionFormat::Gzip.archive_format());
    assert!(!CompressionFormat::Bzip.archive_format());
    assert!(!CompressionFormat::Bzip3.archive_format());
    assert!(!CompressionFormat::Lz4.archive_format());
    assert!(!CompressionFormat::Xz.archive_format());
    assert!(!CompressionFormat::Lzma.archive_format());
    assert!(!CompressionFormat::Lzip.archive_format());
    assert!(!CompressionFormat::Snappy.archive_format());
    assert!(!CompressionFormat::Zstd.archive_format());
    assert!(!CompressionFormat::Brotli.archive_format());
}

#[test]
fn format_flag_error_details() {
    match parse_format_flag(b"tar.gz.unknown") {
        Err(ParseError::UnsupportedExtension { input, token }) => {
            assert_eq!(input, b"tar.gz.unknown".to_vec());
            assert_eq!(token, b"unknown".to_vec());
        }
        other => panic!("expected an unsupported-extension error, got {:?}", other),
    }
    match parse_format_flag(b"") {
        Err(ParseError::EmptyExtensionList { input }) => {
            assert_eq!(input, b"".to_vec());
        }
        other => panic!("expected an empty-list error, got {:?}", other),
    }
    match parse_format_flag(b".....") {
        Err(ParseError::EmptyExtensionList { input }) => {
            assert_eq!(input, b".....".to_vec());
        }
        other => panic!("expected an empty-list error, got {:?}", other),
    }
}

#[test]
fn misplaced_archive_error_details() {
    match separate_known_extensions_from_name(b"file.tar.zip") {
        Err(ParseError::ArchiveExtensionMisplaced { archive, misplaced }) => {
            assert_eq!(archive.display_text(), &b"zip".to_vec());
            assert_eq!(misplaced.display_text(), &b"tar".to_vec());
        }
        other => panic!("expected a misplaced-archive error, got {:?}", other),
    }
    match separate_known_extensions_from_name(b"file.zip.zip") {
        Err(ParseError::ArchiveExtensionMisplaced { archive, misplaced }) => {
            assert_eq!(archive.compression_formats, misplaced.compression_formats);
        }
        other => panic!("expected a misplaced-archive error, got {:?}", other),
    }
}

#[test]
fn split_first_format_of_chain() {
    let exts = extensions_from_path(b"pkg.tgz").unwrap();
    let (first, rest) = split_first_compression_format(&exts);
    assert_eq!(first, CompressionFormat::Tar);
    assert_eq!(rest, vec![CompressionFormat::Gzip]);
}

#[test]
fn extension_is_archive_checks_first_format() {
    let e = to_extension(b"tgz").unwrap();
    assert!(e.is_archive());
    let e = to_extension(b"gz").unwrap();
    assert!(!e.is_archive());
}

#[test]
fn stem_warning_trims_dots() {
    assert!(stem_is_known_token(b"..tar.."));
    assert!(stem_is_known_token(b"tgz"));
    assert!(stem_is_known_token(b".tar"));
    assert!(!stem_is_known_token(b"file"));
    assert!(!stem_is_known_token(b""));
    assert!(!stem_is_known_token(b"tbz2"));
}
