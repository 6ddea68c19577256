use ouch_core::extension::CompressionFormat;
use ouch_core::sniff::try_infer_extension;

#[test]
fn sniffs_gzip_regardless_of_name() {
    // only the content decides: a gzip magic prefix yields Gzip
    let buf = [0x1f, 0x8b, 0x08, 0x00, 0x00, 0x00, 0x00, 0x00];
    let e = try_infer_extension(&buf).unwrap();
    assert_eq!(e.compression_formats, vec![CompressionFormat::Gzip]);
    assert_eq!(e.display_text(), &b"gz".to_vec());
}

#[test]
fn sniffs_each_signature() {
    let zip = [0x50, 0x4b, 0x03, 0x04, 0x00];
    assert_eq!(
        try_infer_extension(&zip).unwrap().compression_formats,
        vec![CompressionFormat::Zip]
    );
    let zip_empty = [0x50, 0x4b, 0x05, 0x06];
    assert_eq!(
        try_infer_extension(&zip_empty).unwrap().compression_formats,
        vec![CompressionFormat::Zip]
    );

    let mut tar = [0u8; 270];
    tar[257] = 0x75;
    tar[258] = 0x73;
    tar[259] = 0x74;
    tar[260] = 0x61;
    tar[261] = 0x72;
    let e = try_infer_extension(&tar).unwrap();
    assert_eq!(e.compression_formats, vec![CompressionFormat::Tar]);
    assert_eq!(e.display_text(), &b"tar".to_vec());

    let bz2 = [0x42, 0x5a, 0x68, 0x39];
    assert_eq!(
        try_infer_extension(&bz2).unwrap().compression_formats,
        vec![CompressionFormat::Bzip]
    );

    let bz3 = *b"BZ3v1rest";
    assert_eq!(
        try_infer_extension(&bz3).unwrap().compression_formats,
        vec![CompressionFormat::Bzip3]
    );

    let mut lzma = [0u8; 14];
    lzma[0] = 0x5d;
    lzma[12] = 0x00;
    lzma[13] = 0x00;
    assert_eq!(
        try_infer_extension(&lzma).unwrap().compression_formats,
        vec![CompressionFormat::Lzma]
    );

    let xz = [0xfd, 0x37, 0x7a, 0x58, 0x5a, 0x00];
    assert_eq!(
        try_infer_extension(&xz).unwrap().compression_formats,
        vec![CompressionFormat::Xz]
    );

    let lzip = [0x4c, 0x5a, 0x49, 0x50];
    let e = try_infer_extension(&lzip).unwrap();
    assert_eq!(e.compression_formats, vec![CompressionFormat::Lzip]);
    assert_eq!(e.display_text(), &b"lzip".to_vec());

    let lz4 = [0x04, 0x22, 0x4d, 0x18];
    assert_eq!(
        try_infer_extension(&lz4).unwrap().compression_formats,
        vec![CompressionFormat::Lz4]
    );

    let sz = [0xff, 0x06, 0x00, 0x00, 0x73, 0x4e, 0x61, 0x50, 0x70, 0x59];
    assert_eq!(
        try_infer_extension(&sz).unwrap().compression_formats,
        vec![CompressionFormat::Snappy]
    );

    let zst = [0x28, 0xb5, 0x2f, 0xfd];
    assert_eq!(
        try_infer_extension(&zst).unwrap().compression_formats,
        vec![CompressionFormat::Zstd]
    );

    let rar4 = [0x52, 0x61, 0x72, 0x21, 0x1a, 0x07, 0x00];
    assert_eq!(
        try_infer_extension(&rar4).unwrap().compression_formats,
        vec![CompressionFormat::Rar]
    );
    let rar5 = [0x52, 0x61, 0x72, 0x21, 0x1a, 0x07, 0x01, 0x00];
    assert_eq!(
        try_infer_extension(&rar5).unwrap().compression_formats,
        vec![CompressionFormat::Rar]
    );

    let sevenz = [0x37, 0x7a, 0xbc, 0xaf, 0x27, 0x1c];
    assert_eq!(
        try_infer_extension(&sevenz).unwrap().compression_formats,
        vec![CompressionFormat::SevenZip]
    );
}

#[test]
fn sniffs_nothing_on_unknown_or_short_content() {
    assert!(try_infer_extension(&[]).is_none());
    assert!(try_infer_extension(&[0x1f, 0x8b]).is_none());
    assert!(try_infer_extension(b"plain text content").is_none());
    // a rar prefix without its terminator byte is not a match
    let not_rar = [0x52, 0x61, 0x72, 0x21, 0x1a, 0x07, 0x02];
    assert!(try_infer_extension(&not_rar).is_none());
}

#[test]
fn tar_signature_takes_priority_over_gzip() {
    let mut buf = [0u8; 270];
    buf[0] = 0x1f;
    buf[1] = 0x8b;
    buf[2] = 0x08;
    buf[257] = 0x75;
    buf[258] = 0x73;
    buf[259] = 0x74;
    buf[260] = 0x61;
    buf[261] = 0x72;
    let e = try_infer_extension(&buf).unwrap();
    assert_eq!(e.compression_formats, vec![CompressionFormat::Tar]);
}
