//! Detection of a compression format from a bounded prefix of file content,
//! by matching known magic-byte signatures in a fixed priority order.

use vstd::prelude::*;
use crate::extension::{
    CompressionFormat, Extension, ExtensionModel, ext_model, tok_7z, tok_bz2, tok_bz3, tok_gz,
    tok_lz4, tok_lzma, tok_rar, tok_sz, tok_tar, tok_xz, tok_zip, tok_zst,
};

verus! {

pub open spec fn sig_zip(b: Seq<u8>) -> bool {
    b.len() >= 4 && b[0] == 0x50 && b[1] == 0x4b && ((b[2] == 0x03 && b[3] == 0x04) || (b[2]
        == 0x05 && b[3] == 0x06) || (b[2] == 0x07 && b[3] == 0x08))
}

pub open spec fn sig_tar(b: Seq<u8>) -> bool {
    b.len() > 261 && b[257] == 0x75 && b[258] == 0x73 && b[259] == 0x74 && b[260] == 0x61 && b[261]
        == 0x72
}

pub open spec fn sig_gzip(b: Seq<u8>) -> bool {
    b.len() >= 3 && b[0] == 0x1f && b[1] == 0x8b && b[2] == 0x08
}

pub open spec fn sig_bzip(b: Seq<u8>) -> bool {
    b.len() >= 3 && b[0] == 0x42 && b[1] == 0x5a && b[2] == 0x68
}

pub open spec fn sig_bzip3(b: Seq<u8>) -> bool {
    b.len() >= 5 && b[0] == 0x42 && b[1] == 0x5a && b[2] == 0x33 && b[3] == 0x76 && b[4] == 0x31
}

pub open spec fn sig_lzma(b: Seq<u8>) -> bool {
    b.len() >= 14 && b[0] == 0x5d && (b[12] == 0x00 || b[12] == 0xff) && b[13] == 0x00
}

pub open spec fn sig_xz(b: Seq<u8>) -> bool {
    b.len() >= 6 && b[0] == 0xfd && b[1] == 0x37 && b[2] == 0x7a && b[3] == 0x58 && b[4] == 0x5a
        && b[5] == 0x00
}

pub open spec fn sig_lzip(b: Seq<u8>) -> bool {
    b.len() >= 4 && b[0] == 0x4c && b[1] == 0x5a && b[2] == 0x49 && b[3] == 0x50
}

pub open spec fn sig_lz4(b: Seq<u8>) -> bool {
    b.len() >= 4 && b[0] == 0x04 && b[1] == 0x22 && b[2] == 0x4d && b[3] == 0x18
}

pub open spec fn sig_snappy(b: Seq<u8>) -> bool {
    b.len() >= 10 && b[0] == 0xff && b[1] == 0x06 && b[2] == 0x00 && b[3] == 0x00 && b[4] == 0x73
        && b[5] == 0x4e && b[6] == 0x61 && b[7] == 0x50 && b[8] == 0x70 && b[9] == 0x59
}

pub open spec fn sig_zstd(b: Seq<u8>) -> bool {
    b.len() >= 4 && b[0] == 0x28 && b[1] == 0xb5 && b[2] == 0x2f && b[3] == 0xfd
}

pub open spec fn sig_rar(b: Seq<u8>) -> bool {
    b.len() >= 7 && b[0] == 0x52 && b[1] == 0x61 && b[2] == 0x72 && b[3] == 0x21 && b[4] == 0x1a
        && b[5] == 0x07 && (b[6] == 0x00 || (b.len() >= 8 && b[6] == 0x01 && b[7] == 0x00))
}

pub open spec fn sig_sevenzip(b: Seq<u8>) -> bool {
    b.len() >= 6 && b[0] == 0x37 && b[1] == 0x7a && b[2] == 0xbc && b[3] == 0xaf && b[4] == 0x27
        && b[5] == 0x1c
}

/// The token `lzip`, the display text the sniffer reports for that format.
pub open spec fn tok_lzip() -> Seq<u8> {
    seq!['l' as u8, 'z' as u8, 'i' as u8, 'p' as u8]
}

pub open spec fn single(f: CompressionFormat, text: Seq<u8>) -> ExtensionModel {
    ExtensionModel { formats: seq![f], text: text }
}

/// The sniffing table: the first matching signature, in this fixed order,
/// decides the format; no match detects nothing.
pub open spec fn sniff_spec(b: Seq<u8>) -> Option<ExtensionModel> {
    if sig_zip(b) {
        Some(single(CompressionFormat::Zip, tok_zip()))
    } else if sig_tar(b) {
        Some(single(CompressionFormat::Tar, tok_tar()))
    } else if sig_gzip(b) {
        Some(single(CompressionFormat::Gzip, tok_gz()))
    } else if sig_bzip(b) {
        Some(single(CompressionFormat::Bzip, tok_bz2()))
    } else if sig_bzip3(b) {
        Some(single(CompressionFormat::Bzip3, tok_bz3()))
    } else if sig_lzma(b) {
        Some(single(CompressionFormat::Lzma, tok_lzma()))
    } else if sig_xz(b) {
        Some(single(CompressionFormat::Xz, tok_xz()))
    } else if sig_lzip(b) {
        Some(single(CompressionFormat::Lzip, tok_lzip()))
    } else if sig_lz4(b) {
        Some(single(CompressionFormat::Lz4, tok_lz4()))
    } else if sig_snappy(b) {
        Some(single(CompressionFormat::Snappy, tok_sz()))
    } else if sig_zstd(b) {
        Some(single(CompressionFormat::Zstd, tok_zst()))
    } else if sig_rar(b) {
        Some(single(CompressionFormat::Rar, tok_rar()))
    } else if sig_sevenzip(b) {
        Some(single(CompressionFormat::SevenZip, tok_7z()))
    } else {
        None
    }
}

fn is_zip(b: &[u8]) -> (r: bool)
    ensures
        r == sig_zip(b@),
{
    b.len() >= 4 && b[0] == 0x50 && b[1] == 0x4b && ((b[2] == 0x03 && b[3] == 0x04) || (b[2]
        == 0x05 && b[3] == 0x06) || (b[2] == 0x07 && b[3] == 0x08))
}

fn is_tar(b: &[u8]) -> (r: bool)
    ensures
        r == sig_tar(b@),
{
    b.len() > 261 && b[257] == 0x75 && b[258] == 0x73 && b[259] == 0x74 && b[260] == 0x61 && b[261]
        == 0x72
}

fn is_gzip(b: &[u8]) -> (r: bool)
    ensures
        r == sig_gzip(b@),
{
    b.len() >= 3 && b[0] == 0x1f && b[1] == 0x8b && b[2] == 0x08
}

fn is_bzip(b: &[u8]) -> (r: bool)
    ensures
        r == sig_bzip(b@),
{
    b.len() >= 3 && b[0] == 0x42 && b[1] == 0x5a && b[2] == 0x68
}

fn is_bzip3(b: &[u8]) -> (r: bool)
    ensures
        r == sig_bzip3(b@),
{
    b.len() >= 5 && b[0] == 0x42 && b[1] == 0x5a && b[2] == 0x33 && b[3] == 0x76 && b[4] == 0x31
}

fn is_lzma(b: &[u8]) -> (r: bool)
    ensures
        r == sig_lzma(b@),
{
    b.len() >= 14 && b[0] == 0x5d && (b[12] == 0x00 || b[12] == 0xff) && b[13] == 0x00
}

fn is_xz(b: &[u8]) -> (r: bool)
    ensures
        r == sig_xz(b@),
{
    b.len() >= 6 && b[0] == 0xfd && b[1] == 0x37 && b[2] == 0x7a && b[3] == 0x58 && b[4] == 0x5a
        && b[5] == 0x00
}

fn is_lzip(b: &[u8]) -> (r: bool)
    ensures
        r == sig_lzip(b@),
{
    b.len() >= 4 && b[0] == 0x4c && b[1] == 0x5a && b[2] == 0x49 && b[3] == 0x50
}

fn is_lz4(b: &[u8]) -> (r: bool)
    ensures
        r == sig_lz4(b@),
{
    b.len() >= 4 && b[0] == 0x04 && b[1] == 0x22 && b[2] == 0x4d && b[3] == 0x18
}

fn is_snappy(b: &[u8]) -> (r: bool)
    ensures
        r == sig_snappy(b@),
{
    b.len() >= 10 && b[0] == 0xff && b[1] == 0x06 && b[2] == 0x00 && b[3] == 0x00 && b[4] == 0x73
        && b[5] == 0x4e && b[6] == 0x61 && b[7] == 0x50 && b[8] == 0x70 && b[9] == 0x59
}

fn is_zstd(b: &[u8]) -> (r: bool)
    ensures
        r == sig_zstd(b@),
{
    b.len() >= 4 && b[0] == 0x28 && b[1] == 0xb5 && b[2] == 0x2f && b[3] == 0xfd
}

fn is_rar(b: &[u8]) -> (r: bool)
    ensures
        r == sig_rar(b@),
{
    b.len() >= 7 && b[0] == 0x52 && b[1] == 0x61 && b[2] == 0x72 && b[3] == 0x21 && b[4] == 0x1a
        && b[5] == 0x07 && (b[6] == 0x00 || (b.len() >= 8 && b[6] == 0x01 && b[7] == 0x00))
}

fn is_sevenzip(b: &[u8]) -> (r: bool)
    ensures
        r == sig_sevenzip(b@),
{
    b.len() >= 6 && b[0] == 0x37 && b[1] == 0x7a && b[2] == 0xbc && b[3] == 0xaf && b[4] == 0x27
        && b[5] == 0x1c
}

fn one_format(f: CompressionFormat) -> (r: Vec<CompressionFormat>)
    ensures
        r@ == seq![f],
{
    let mut v: Vec<CompressionFormat> = Vec::new();
    v.push(f);
    proof {
        assert(v@ =~= seq![f]);
    }
    v
}

fn bytes2(a: u8, b: u8) -> (r: Vec<u8>)
    ensures
        r@ == seq![a, b],
{
    let mut v: Vec<u8> = Vec::new();
    v.push(a);
    v.push(b);
    proof {
        assert(v@ =~= seq![a, b]);
    }
    v
}

fn bytes3(a: u8, b: u8, c: u8) -> (r: Vec<u8>)
    ensures
        r@ == seq![a, b, c],
{
    let mut v: Vec<u8> = Vec::new();
    v.push(a);
    v.push(b);
    v.push(c);
    proof {
        assert(v@ =~= seq![a, b, c]);
    }
    v
}

fn bytes4(a: u8, b: u8, c: u8, d: u8) -> (r: Vec<u8>)
    ensures
        r@ == seq![a, b, c, d],
{
    let mut v: Vec<u8> = Vec::new();
    v.push(a);
    v.push(b);
    v.push(c);
    v.push(d);
    proof {
        assert(v@ =~= seq![a, b, c, d]);
    }
    v
}

/// Guesses the format of a file from a prefix of its content, by the signature
/// table; a short or unrecognized prefix detects nothing.
pub fn try_infer_extension(buf: &[u8]) -> (r: Option<Extension>)
    ensures
        r is Some <==> sniff_spec(buf@) is Some,
        r is Some ==> ext_model(r.unwrap()) == sniff_spec(buf@).unwrap() && r.unwrap().wf(),
{
    let t = 't' as u8;
    let a = 'a' as u8;
    let rr = 'r' as u8;
    let g = 'g' as u8;
    let z = 'z' as u8;
    let b2 = 'b' as u8;
    let l = 'l' as u8;
    let x = 'x' as u8;
    let m = 'm' as u8;
    let s = 's' as u8;
    let i = 'i' as u8;
    let p = 'p' as u8;
    let two = '2' as u8;
    let three = '3' as u8;
    let four = '4' as u8;
    let seven = '7' as u8;
    if is_zip(buf) {
        Some(Extension::new(one_format(CompressionFormat::Zip), bytes3(z, i, p)))
    } else if is_tar(buf) {
        Some(Extension::new(one_format(CompressionFormat::Tar), bytes3(t, a, rr)))
    } else if is_gzip(buf) {
        Some(Extension::new(one_format(CompressionFormat::Gzip), bytes2(g, z)))
    } else if is_bzip(buf) {
        Some(Extension::new(one_format(CompressionFormat::Bzip), bytes3(b2, z, two)))
    } else if is_bzip3(buf) {
        Some(Extension::new(one_format(CompressionFormat::Bzip3), bytes3(b2, z, three)))
    } else if is_lzma(buf) {
        Some(Extension::new(one_format(CompressionFormat::Lzma), bytes4(l, z, m, a)))
    } else if is_xz(buf) {
        Some(Extension::new(one_format(CompressionFormat::Xz), bytes2(x, z)))
    } else if is_lzip(buf) {
        Some(Extension::new(one_format(CompressionFormat::Lzip), bytes4(l, z, i, p)))
    } else if is_lz4(buf) {
        Some(Extension::new(one_format(CompressionFormat::Lz4), bytes3(l, z, four)))
    } else if is_snappy(buf) {
        Some(Extension::new(one_format(CompressionFormat::Snappy), bytes2(s, z)))
    } else if is_zstd(buf) {
        Some(Extension::new(one_format(CompressionFormat::Zstd), bytes3(z, s, t)))
    } else if is_rar(buf) {
        Some(Extension::new(one_format(CompressionFormat::Rar), bytes3(rr, a, rr)))
    } else if is_sevenzip(buf) {
        Some(Extension::new(one_format(CompressionFormat::SevenZip), bytes2(seven, z)))
    } else {
        None
    }
}

/// A buffer bearing the Gzip signature is sniffed as Gzip — independently of
/// any file name — unless it also bears the Tar signature, which the table
/// checks first.
pub proof fn lemma_sniff_gzip(b: Seq<u8>)
    requires
        sig_gzip(b),
        !sig_tar(b),
    ensures
        sniff_spec(b) is Some,
        sniff_spec(b).unwrap().formats == seq![CompressionFormat::Gzip],
        sniff_spec(b).unwrap().text == tok_gz(),
    {
    assert(!sig_zip(b));
}

} // verus!
