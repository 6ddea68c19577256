//! The catalog of supported compression formats, the `Extension` value that
//! ties a format sequence to the token the user wrote, and the parsers that
//! decode extension chains from file names and from format flags.

use vstd::prelude::*;
use vstd::slice::{slice_subrange, slice_to_vec};
use crate::byteops::{find_byte_from, find_from, lemma_find_from, lemma_rfind, rfind, rfind_byte};

verus! {

/// Accepted formats for input and output.
#[derive(Copy, Clone, PartialEq, Eq, Debug, Structural)]
pub enum CompressionFormat {
    /// .gz
    Gzip,
    /// .bz .bz2
    Bzip,
    /// .bz3
    Bzip3,
    /// .lz4
    Lz4,
    /// .xz
    Xz,
    /// .lzma
    Lzma,
    /// .lz
    Lzip,
    /// .sz
    Snappy,
    /// .tar, and the leading half of tgz, tbz, txz, ...
    Tar,
    /// .zst
    Zstd,
    /// .zip
    Zip,
    /// .rar
    Rar,
    /// .7z
    SevenZip,
    /// .br
    Brotli,
}

impl CompressionFormat {
    /// Archive formats bundle several files; every other format compresses a
    /// single stream.  The classification is total: each variant is decided
    /// explicitly.
    pub open spec fn is_archive_format(&self) -> bool {
        self is Tar || self is Zip || self is Rar || self is SevenZip
    }

    pub fn archive_format(&self) -> (r: bool)
        ensures
            r == self.is_archive_format(),
    {
        match self {
            CompressionFormat::Tar
            | CompressionFormat::Zip
            | CompressionFormat::Rar
            | CompressionFormat::SevenZip => true,
            CompressionFormat::Gzip
            | CompressionFormat::Bzip
            | CompressionFormat::Bzip3
            | CompressionFormat::Lz4
            | CompressionFormat::Xz
            | CompressionFormat::Lzma
            | CompressionFormat::Lzip
            | CompressionFormat::Snappy
            | CompressionFormat::Zstd
            | CompressionFormat::Brotli => false,
        }
    }
}

/// One filename-extension token together with the formats it denotes.  An
/// alias such as `tgz` carries several formats, outermost first.
#[derive(Debug, Clone, PartialEq)]
pub struct Extension {
    /// The formats this token stands for, outer-to-inner; never empty.
    pub compression_formats: Vec<CompressionFormat>,
    /// The literal token the user wrote, e.g. `tgz`, `tar` or `xz`.
    display_text: Vec<u8>,
}

impl Extension {
    /// The token text, as a sequence of bytes.
    pub closed spec fn text(&self) -> Seq<u8> {
        self.display_text@
    }

    /// The format sequence, outermost first.
    pub closed spec fn formats(&self) -> Seq<CompressionFormat> {
        self.compression_formats@
    }

    /// An extension always carries at least one format.
    pub open spec fn wf(&self) -> bool {
        self.formats().len() >= 1
    }

    /// Whether the outermost format is an archive format.
    pub open spec fn spec_is_archive(&self) -> bool {
        self.formats()[0].is_archive_format()
    }

    pub fn new(formats: Vec<CompressionFormat>, text: Vec<u8>) -> (r: Self)
        requires
            formats@.len() >= 1,
        ensures
            r.formats() == formats@,
            r.text() == text@,
            r.wf(),
    {
        Extension { compression_formats: formats, display_text: text }
    }

    /// Checks whether the first format in `compression_formats` is an archive.
    pub fn is_archive(&self) -> (r: bool)
        requires
            self.wf(),
        ensures
            r == self.spec_is_archive(),
    {
        self.compression_formats[0].archive_format()
    }

    /// The literal token this extension was written as.
    pub fn display_text(&self) -> (r: &Vec<u8>)
        ensures
            r@ == self.text(),
    {
        &self.display_text
    }
}

/// Ghost image of an `Extension`: the format sequence and the token text.
pub struct ExtensionModel {
    pub formats: Seq<CompressionFormat>,
    pub text: Seq<u8>,
}

impl ExtensionModel {
    pub open spec fn is_archive(&self) -> bool {
        self.formats[0].is_archive_format()
    }
}

pub open spec fn ext_model(e: Extension) -> ExtensionModel {
    ExtensionModel { formats: e.formats(), text: e.text() }
}

pub open spec fn chain_model(c: Seq<Extension>) -> Seq<ExtensionModel> {
    c.map_values(|e: Extension| ext_model(e))
}

// The token spellings of the catalog, as byte sequences.

pub open spec fn tok_tar() -> Seq<u8> {
    seq!['t' as u8, 'a' as u8, 'r' as u8]
}

pub open spec fn tok_tgz() -> Seq<u8> {
    seq!['t' as u8, 'g' as u8, 'z' as u8]
}

pub open spec fn tok_tbz() -> Seq<u8> {
    seq!['t' as u8, 'b' as u8, 'z' as u8]
}

pub open spec fn tok_tbz2() -> Seq<u8> {
    seq!['t' as u8, 'b' as u8, 'z' as u8, '2' as u8]
}

pub open spec fn tok_tbz3() -> Seq<u8> {
    seq!['t' as u8, 'b' as u8, 'z' as u8, '3' as u8]
}

pub open spec fn tok_tlz4() -> Seq<u8> {
    seq!['t' as u8, 'l' as u8, 'z' as u8, '4' as u8]
}

pub open spec fn tok_txz() -> Seq<u8> {
    seq!['t' as u8, 'x' as u8, 'z' as u8]
}

pub open spec fn tok_tlzma() -> Seq<u8> {
    seq!['t' as u8, 'l' as u8, 'z' as u8, 'm' as u8, 'a' as u8]
}

pub open spec fn tok_tlz() -> Seq<u8> {
    seq!['t' as u8, 'l' as u8, 'z' as u8]
}

pub open spec fn tok_tsz() -> Seq<u8> {
    seq!['t' as u8, 's' as u8, 'z' as u8]
}

pub open spec fn tok_tzst() -> Seq<u8> {
    seq!['t' as u8, 'z' as u8, 's' as u8, 't' as u8]
}

pub open spec fn tok_zip() -> Seq<u8> {
    seq!['z' as u8, 'i' as u8, 'p' as u8]
}

pub open spec fn tok_bz() -> Seq<u8> {
    seq!['b' as u8, 'z' as u8]
}

pub open spec fn tok_bz2() -> Seq<u8> {
    seq!['b' as u8, 'z' as u8, '2' as u8]
}

pub open spec fn tok_bz3() -> Seq<u8> {
    seq!['b' as u8, 'z' as u8, '3' as u8]
}

pub open spec fn tok_gz() -> Seq<u8> {
    seq!['g' as u8, 'z' as u8]
}

pub open spec fn tok_lz4() -> Seq<u8> {
    seq!['l' as u8, 'z' as u8, '4' as u8]
}

pub open spec fn tok_xz() -> Seq<u8> {
    seq!['x' as u8, 'z' as u8]
}

pub open spec fn tok_lzma() -> Seq<u8> {
    seq!['l' as u8, 'z' as u8, 'm' as u8, 'a' as u8]
}

pub open spec fn tok_lz() -> Seq<u8> {
    seq!['l' as u8, 'z' as u8]
}

pub open spec fn tok_sz() -> Seq<u8> {
    seq!['s' as u8, 'z' as u8]
}

pub open spec fn tok_zst() -> Seq<u8> {
    seq!['z' as u8, 's' as u8, 't' as u8]
}

pub open spec fn tok_rar() -> Seq<u8> {
    seq!['r' as u8, 'a' as u8, 'r' as u8]
}

pub open spec fn tok_7z() -> Seq<u8> {
    seq!['7' as u8, 'z' as u8]
}

pub open spec fn tok_br() -> Seq<u8> {
    seq!['b' as u8, 'r' as u8]
}

/// The catalog: which ordered format sequence a token denotes, or nothing for
/// an unknown token.  Lookup is case-sensitive and never guesses.
pub open spec fn lookup_formats(tok: Seq<u8>) -> Option<Seq<CompressionFormat>> {
    if tok == tok_tar() {
        Some(seq![CompressionFormat::Tar])
    } else if tok == tok_tgz() {
        Some(seq![CompressionFormat::Tar, CompressionFormat::Gzip])
    } else if tok == tok_tbz() || tok == tok_tbz2() {
        Some(seq![CompressionFormat::Tar, CompressionFormat::Bzip])
    } else if tok == tok_tbz3() {
        Some(seq![CompressionFormat::Tar, CompressionFormat::Bzip3])
    } else if tok == tok_tlz4() {
        Some(seq![CompressionFormat::Tar, CompressionFormat::Lz4])
    } else if tok == tok_txz() {
        Some(seq![CompressionFormat::Tar, CompressionFormat::Xz])
    } else if tok == tok_tlzma() {
        Some(seq![CompressionFormat::Tar, CompressionFormat::Lzma])
    } else if tok == tok_tlz() {
        Some(seq![CompressionFormat::Tar, CompressionFormat::Lzip])
    } else if tok == tok_tsz() {
        Some(seq![CompressionFormat::Tar, CompressionFormat::Snappy])
    } else if tok == tok_tzst() {
        Some(seq![CompressionFormat::Tar, CompressionFormat::Zstd])
    } else if tok == tok_zip() {
        Some(seq![CompressionFormat::Zip])
    } else if tok == tok_bz() || tok == tok_bz2() {
        Some(seq![CompressionFormat::Bzip])
    } else if tok == tok_bz3() {
        Some(seq![CompressionFormat::Bzip3])
    } else if tok == tok_gz() {
        Some(seq![CompressionFormat::Gzip])
    } else if tok == tok_lz4() {
        Some(seq![CompressionFormat::Lz4])
    } else if tok == tok_xz() {
        Some(seq![CompressionFormat::Xz])
    } else if tok == tok_lzma() {
        Some(seq![CompressionFormat::Lzma])
    } else if tok == tok_lz() {
        Some(seq![CompressionFormat::Lzip])
    } else if tok == tok_sz() {
        Some(seq![CompressionFormat::Snappy])
    } else if tok == tok_zst() {
        Some(seq![CompressionFormat::Zstd])
    } else if tok == tok_rar() {
        Some(seq![CompressionFormat::Rar])
    } else if tok == tok_7z() {
        Some(seq![CompressionFormat::SevenZip])
    } else if tok == tok_br() {
        Some(seq![CompressionFormat::Brotli])
    } else {
        None
    }
}

// Byte-for-byte comparisons of a token against fixed spellings.

fn eq2(t: &[u8], a: u8, b: u8) -> (r: bool)
    ensures
        r <==> t@ == seq![a, b],
{
    let r = t.len() == 2 && t[0] == a && t[1] == b;
    proof {
        if r {
            assert(t@ =~= seq![a, b]);
        }
    }
    r
}

fn eq3(t: &[u8], a: u8, b: u8, c: u8) -> (r: bool)
    ensures
        r <==> t@ == seq![a, b, c],
{
    let r = t.len() == 3 && t[0] == a && t[1] == b && t[2] == c;
    proof {
        if r {
            assert(t@ =~= seq![a, b, c]);
        }
    }
    r
}

fn eq4(t: &[u8], a: u8, b: u8, c: u8, d: u8) -> (r: bool)
    ensures
        r <==> t@ == seq![a, b, c, d],
{
    let r = t.len() == 4 && t[0] == a && t[1] == b && t[2] == c && t[3] == d;
    proof {
        if r {
            assert(t@ =~= seq![a, b, c, d]);
        }
    }
    r
}

fn eq5(t: &[u8], a: u8, b: u8, c: u8, d: u8, e: u8) -> (r: bool)
    ensures
        r <==> t@ == seq![a, b, c, d, e],
{
    let r = t.len() == 5 && t[0] == a && t[1] == b && t[2] == c && t[3] == d && t[4] == e;
    proof {
        if r {
            assert(t@ =~= seq![a, b, c, d, e]);
        }
    }
    r
}

fn fmts1(a: CompressionFormat) -> (r: Vec<CompressionFormat>)
    ensures
        r@ == seq![a],
{
    let mut v: Vec<CompressionFormat> = Vec::new();
    v.push(a);
    proof {
        assert(v@ =~= seq![a]);
    }
    v
}

fn fmts2(a: CompressionFormat, b: CompressionFormat) -> (r: Vec<CompressionFormat>)
    ensures
        r@ == seq![a, b],
{
    let mut v: Vec<CompressionFormat> = Vec::new();
    v.push(a);
    v.push(b);
    proof {
        assert(v@ =~= seq![a, b]);
    }
    v
}

/// Converts one token into an `Extension` by catalog lookup; unknown tokens
/// yield nothing.
pub fn to_extension(ext: &[u8]) -> (r: Option<Extension>)
    ensures
        r is Some <==> lookup_formats(ext@) is Some,
        r is Some ==> {
            &&& r.unwrap().wf()
            &&& r.unwrap().formats() == lookup_formats(ext@).unwrap()
            &&& r.unwrap().text() == ext@
        },
{
    let t = 't' as u8;
    let a = 'a' as u8;
    let r = 'r' as u8;
    let g = 'g' as u8;
    let z = 'z' as u8;
    let b = 'b' as u8;
    let l = 'l' as u8;
    let x = 'x' as u8;
    let m = 'm' as u8;
    let s = 's' as u8;
    let i = 'i' as u8;
    let p = 'p' as u8;
    let two = '2' as u8;
    let three = '3' as u8;
    let four = '4' as u8;
    let seven = '7' as u8;
    let formats: Vec<CompressionFormat> = if eq3(ext, t, a, r) {
        fmts1(CompressionFormat::Tar)
    } else if eq3(ext, t, g, z) {
        fmts2(CompressionFormat::Tar, CompressionFormat::Gzip)
    } else if eq3(ext, t, b, z) || eq4(ext, t, b, z, two) {
        fmts2(CompressionFormat::Tar, CompressionFormat::Bzip)
    } else if eq4(ext, t, b, z, three) {
        fmts2(CompressionFormat::Tar, CompressionFormat::Bzip3)
    } else if eq4(ext, t, l, z, four) {
        fmts2(CompressionFormat::Tar, CompressionFormat::Lz4)
    } else if eq3(ext, t, x, z) {
        fmts2(CompressionFormat::Tar, CompressionFormat::Xz)
    } else if eq5(ext, t, l, z, m, a) {
        fmts2(CompressionFormat::Tar, CompressionFormat::Lzma)
    } else if eq3(ext, t, l, z) {
        fmts2(CompressionFormat::Tar, CompressionFormat::Lzip)
    } else if eq3(ext, t, s, z) {
        fmts2(CompressionFormat::Tar, CompressionFormat::Snappy)
    } else if eq4(ext, t, z, s, t) {
        fmts2(CompressionFormat::Tar, CompressionFormat::Zstd)
    } else if eq3(ext, z, i, p) {
        fmts1(CompressionFormat::Zip)
    } else if eq2(ext, b, z) || eq3(ext, b, z, two) {
        fmts1(CompressionFormat::Bzip)
    } else if eq3(ext, b, z, three) {
        fmts1(CompressionFormat::Bzip3)
    } else if eq2(ext, g, z) {
        fmts1(CompressionFormat::Gzip)
    } else if eq3(ext, l, z, four) {
        fmts1(CompressionFormat::Lz4)
    } else if eq2(ext, x, z) {
        fmts1(CompressionFormat::Xz)
    } else if eq4(ext, l, z, m, a) {
        fmts1(CompressionFormat::Lzma)
    } else if eq2(ext, l, z) {
        fmts1(CompressionFormat::Lzip)
    } else if eq2(ext, s, z) {
        fmts1(CompressionFormat::Snappy)
    } else if eq3(ext, z, s, t) {
        fmts1(CompressionFormat::Zstd)
    } else if eq3(ext, r, a, r) {
        fmts1(CompressionFormat::Rar)
    } else if eq2(ext, seven, z) {
        fmts1(CompressionFormat::SevenZip)
    } else if eq2(ext, b, r) {
        fmts1(CompressionFormat::Brotli)
    } else {
        return None;
    };
    Some(Extension::new(formats, slice_to_vec(ext)))
}

/// Every token the catalog recognizes denotes at least one format.
pub proof fn lemma_catalog_formats_nonempty(tok: Seq<u8>)
    ensures
        lookup_formats(tok) is Some ==> lookup_formats(tok).unwrap().len() >= 1,
{
}

/// An `Extension` that stands exactly for the catalog entry of `tok`.
pub open spec fn ext_matches(e: Extension, tok: Seq<u8>) -> bool {
    &&& lookup_formats(tok) is Some
    &&& e.formats() == lookup_formats(tok).unwrap()
    &&& e.text() == tok
    &&& e.wf()
}

pub open spec fn dot() -> u8 {
    '.' as u8
}

/// Remainders on which extension stripping must stop: an empty name, `.` and
/// `..`, so that dotfiles are not mistaken for extensions.
pub open spec fn stem_stops_stripping(rem: Seq<u8>) -> bool {
    rem == Seq::<u8>::empty() || rem == seq![dot()] || rem == seq![dot(), dot()]
}

/// Splitting one trailing `.token` off a name: the remainder and the token,
/// provided the remainder may go on being split and the token is recognized.
pub open spec fn split_extension_spec(name: Seq<u8>) -> Option<(Seq<u8>, Seq<u8>)> {
    match rfind(name, dot()) {
        Some(i) => {
            if 0 <= i < name.len() {
                let rem = name.subrange(0, i);
                let tok = name.subrange(i + 1, name.len() as int);
                if stem_stops_stripping(rem) || lookup_formats(tok) is None {
                    None
                } else {
                    Some((rem, tok))
                }
            } else {
                None
            }
        }
        None => None,
    }
}

fn stops_stripping_exec(rem: &[u8]) -> (r: bool)
    ensures
        r == stem_stops_stripping(rem@),
{
    let d = '.' as u8;
    let r = rem.len() == 0 || (rem.len() == 1 && rem[0] == d) || (rem.len() == 2 && rem[0] == d
        && rem[1] == d);
    proof {
        if rem@.len() == 0 {
            assert(rem@ =~= Seq::<u8>::empty());
        }
        if rem@.len() == 1 && rem@[0] == dot() {
            assert(rem@ =~= seq![dot()]);
        }
        if rem@.len() == 2 && rem@[0] == dot() && rem@[1] == dot() {
            assert(rem@ =~= seq![dot(), dot()]);
        }
    }
    r
}

/// Peels one recognized extension token off the end of `name`.
pub fn split_extension_at_end<'a>(name: &'a [u8]) -> (r: Option<(&'a [u8], Extension)>)
    ensures
        r is Some <==> split_extension_spec(name@) is Some,
        r is Some ==> {
            &&& r.unwrap().0@ == split_extension_spec(name@).unwrap().0
            &&& ext_matches(r.unwrap().1, split_extension_spec(name@).unwrap().1)
        },
{
    proof {
        lemma_rfind(name@, dot());
    }
    match rfind_byte(name, '.' as u8) {
        None => None,
        Some(i) => {
            proof {
                assert(rfind(name@, dot()) == Some(i as int));
                assert(i < name@.len());
            }
            let n = name.len();
            let rem = slice_subrange(name, 0, i);
            let tok = slice_subrange(name, i + 1, n);
            if stops_stripping_exec(rem) {
                return None;
            }
            match to_extension(tok) {
                None => None,
                Some(e) => Some((rem, e)),
            }
        }
    }
}

/// The archive-misplacement failure: the archive token that was consumed and
/// the recognized token found to its left.
pub struct ChainErrorModel {
    pub archive: ExtensionModel,
    pub misplaced: ExtensionModel,
}

/// The chain parser: repeatedly peels trailing recognized tokens off `name`;
/// an archive token must end up outermost (leftmost), and one further
/// recognized token to its left is an error.  The result is the remaining stem
/// and the chain, outermost first.
pub open spec fn parse_chain_spec(name: Seq<u8>) -> Result<
    (Seq<u8>, Seq<ExtensionModel>),
    ChainErrorModel,
>
    decreases name.len(),
{
    match split_extension_spec(name) {
        None => Ok((name, Seq::empty())),
        Some((rem, tok)) => {
            let ext = ExtensionModel { formats: lookup_formats(tok).unwrap(), text: tok };
            if ext.is_archive() {
                match split_extension_spec(rem) {
                    Some((rem2, tok2)) => Err(
                        ChainErrorModel {
                            archive: ext,
                            misplaced: ExtensionModel {
                                formats: lookup_formats(tok2).unwrap(),
                                text: tok2,
                            },
                        },
                    ),
                    None => Ok((rem, seq![ext])),
                }
            } else {
                match parse_chain_spec(rem) {
                    Ok(sc) => Ok((sc.0, sc.1.push(ext))),
                    Err(e) => Err(e),
                }
            }
        }
    }
}

/// Errors of the two parsers.
#[derive(Debug, Clone, PartialEq)]
pub enum ParseError {
    /// A format-flag token the catalog does not know, with the whole input.
    UnsupportedExtension { input: Vec<u8>, token: Vec<u8> },
    /// A format flag that contains no token at all.
    EmptyExtensionList { input: Vec<u8> },
    /// An archive extension found anywhere but the outermost position.
    ArchiveExtensionMisplaced { archive: Extension, misplaced: Extension },
}

/// Appending further (outer) extensions to an already parsed chain.
pub open spec fn chain_extend(
    r: Result<(Seq<u8>, Seq<ExtensionModel>), ChainErrorModel>,
    tail: Seq<ExtensionModel>,
) -> Result<(Seq<u8>, Seq<ExtensionModel>), ChainErrorModel> {
    match r {
        Ok(sc) => Ok((sc.0, sc.1 + tail)),
        Err(e) => Err(e),
    }
}

proof fn lemma_chain_model_insert0(s: Seq<Extension>, e: Extension)
    ensures
        chain_model(s.insert(0, e)) =~= seq![ext_model(e)] + chain_model(s),
{
    let l = chain_model(s.insert(0, e));
    let r = seq![ext_model(e)] + chain_model(s);
    assert(l.len() == r.len());
    assert forall|i: int| 0 <= i < l.len() implies l[i] == r[i] by {
        assert(s.insert(0, e)[i] == if i == 0 {
            e
        } else {
            s[i - 1]
        });
    }
}

/// Extracts extensions from a file name (the final path component).
///
/// Returns the remaining stem and the recognized extensions, outermost first;
/// the chain may be empty.  The only failure is an archive extension that is
/// not outermost.
pub fn separate_known_extensions_from_name<'a>(name: &'a [u8]) -> (r: Result<
    (&'a [u8], Vec<Extension>),
    ParseError,
>)
    ensures
        match parse_chain_spec(name@) {
            Ok(sc) => r matches Ok(v) && v.0@ == sc.0 && chain_model(v.1@) == sc.1,
            Err(em) => r matches Err(pe) && (pe matches ParseError::ArchiveExtensionMisplaced {
                archive,
                misplaced,
            } && ext_model(archive) == em.archive && ext_model(misplaced) == em.misplaced),
        },
{
    let mut cur: &'a [u8] = name;
    let mut collected: Vec<Extension> = Vec::new();
    proof {
        assert(chain_model(collected@) =~= Seq::<ExtensionModel>::empty());
        match parse_chain_spec(name@) {
            Ok(sc) => {
                assert(sc.1 + chain_model(collected@) =~= sc.1);
            },
            Err(_) => {},
        }
    }
    loop
        invariant
            parse_chain_spec(name@) == chain_extend(
                parse_chain_spec(cur@),
                chain_model(collected@),
            ),
        decreases cur@.len(),
    {
        match split_extension_at_end(cur) {
            None => {
                proof {
                    assert(Seq::<ExtensionModel>::empty() + chain_model(collected@) =~= chain_model(
                        collected@,
                    ));
                }
                return Ok((cur, collected));
            },
            Some((rem, ext)) => {
                let ghost tok = split_extension_spec(cur@).unwrap().1;
                let ghost em = ExtensionModel { formats: lookup_formats(tok).unwrap(), text: tok };
                proof {
                    assert(ext_model(ext) == em);
                }
                if ext.is_archive() {
                    match split_extension_at_end(rem) {
                        Some((_, misplaced)) => {
                            return Err(
                                ParseError::ArchiveExtensionMisplaced {
                                    archive: ext,
                                    misplaced,
                                },
                            );
                        },
                        None => {
                            collected.insert(0, ext);
                            proof {
                                lemma_chain_model_insert0(collected@.drop_first(), ext);
                                assert(collected@.drop_first().insert(0, ext) =~= collected@);
                            }
                            proof {
                                match parse_chain_spec(name@) {
                                    Ok(sc) => {
                                        assert(sc.1 =~= seq![em] + chain_model(
                                            collected@.drop_first(),
                                        ));
                                        assert(chain_model(collected@) =~= seq![em] + chain_model(
                                            collected@.drop_first(),
                                        ));
                                    },
                                    Err(_) => {},
                                }
                            }
                            return Ok((rem, collected));
                        },
                    }
                } else {
                    let ghost old_collected = collected@;
                    collected.insert(0, ext);
                    proof {
                        lemma_chain_model_insert0(old_collected, ext);
                        match parse_chain_spec(rem@) {
                            Ok(sc) => {
                                assert(sc.1.push(em) =~= sc.1 + seq![em]);
                                assert((sc.1 + seq![em]) + chain_model(old_collected) =~= sc.1 + (
                                seq![em] + chain_model(old_collected)));
                            },
                            Err(_) => {},
                        }
                    }
                    cur = rem;
                }
            },
        }
    }
}

/// A name without any dot — a bare word, recognized or not — parses to an
/// empty chain with the stem unchanged.
pub proof fn lemma_chain_of_dotless_name(name: Seq<u8>)
    requires
        forall|j: int| 0 <= j < name.len() ==> name[j] != dot(),
    ensures
        parse_chain_spec(name) == Ok::<(Seq<u8>, Seq<ExtensionModel>), ChainErrorModel>(
            (name, Seq::<ExtensionModel>::empty()),
        ),
{
    crate::byteops::lemma_rfind_none(name, dot());
}

/// Placement rule: in any chain the parser accepts, only the outermost
/// (first) extension can be an archive.
pub proof fn lemma_archive_only_outermost(name: Seq<u8>)
    ensures
        parse_chain_spec(name) matches Ok(sc) ==> forall|i: int|
            1 <= i < sc.1.len() ==> !(#[trigger] sc.1[i]).is_archive(),
    decreases name.len(),
{
    lemma_rfind(name, dot());
    match split_extension_spec(name) {
        None => {},
        Some((rem, tok)) => {
            let ext = ExtensionModel { formats: lookup_formats(tok).unwrap(), text: tok };
            if ext.is_archive() {
            } else {
                lemma_archive_only_outermost(rem);
                match parse_chain_spec(rem) {
                    Ok(sc) => {
                        assert forall|i: int| 1 <= i < sc.1.push(ext).len() implies !(
                        #[trigger] sc.1.push(ext)[i]).is_archive() by {
                            if i < sc.1.len() {
                                assert(sc.1.push(ext)[i] == sc.1[i]);
                            } else {
                                assert(sc.1.push(ext)[i] == ext);
                            }
                        }
                    },
                    Err(_) => {},
                }
            }
        },
    }
}

/// The dot-separated segments of a format flag, empty segments included.
pub open spec fn split_segments(s: Seq<u8>) -> Seq<Seq<u8>>
    decreases s.len(),
    via split_segments_decreases
{
    match find_from(s, 0, dot()) {
        None => seq![s],
        Some(i) => seq![s.subrange(0, i)] + split_segments(s.subrange(i + 1, s.len() as int)),
    }
}

#[via_fn]
proof fn split_segments_decreases(s: Seq<u8>) {
    lemma_find_from(s, 0, dot());
}

/// Maps every non-empty segment through the catalog; the first unknown
/// segment is the error.
pub open spec fn flag_chain(segs: Seq<Seq<u8>>) -> Result<Seq<ExtensionModel>, Seq<u8>>
    decreases segs.len(),
{
    if segs.len() == 0 {
        Ok(Seq::empty())
    } else {
        let seg = segs[0];
        if seg.len() == 0 {
            flag_chain(segs.drop_first())
        } else {
            match lookup_formats(seg) {
                None => Err(seg),
                Some(f) => match flag_chain(segs.drop_first()) {
                    Ok(chain) => Ok(seq![ExtensionModel { formats: f, text: seg }] + chain),
                    Err(e) => Err(e),
                },
            }
        }
    }
}

/// Failures of the format-flag parser.
pub enum FlagErrorModel {
    Unsupported { token: Seq<u8> },
    Empty,
}

/// The format-flag parser: dot-separated tokens, empty segments tolerated,
/// every non-empty token must be recognized, and at least one token must
/// remain.
pub open spec fn parse_flag_spec(s: Seq<u8>) -> Result<Seq<ExtensionModel>, FlagErrorModel> {
    match flag_chain(split_segments(s)) {
        Err(tok) => Err(FlagErrorModel::Unsupported { token: tok }),
        Ok(chain) => if chain.len() == 0 {
            Err(FlagErrorModel::Empty)
        } else {
            Ok(chain)
        },
    }
}

fn parse_flag_tail(s: &[u8]) -> (r: Result<Vec<Extension>, Vec<u8>>)
    ensures
        match flag_chain(split_segments(s@)) {
            Ok(chain) => r matches Ok(v) && chain_model(v@) == chain,
            Err(tok) => r matches Err(t) && t@ == tok,
        },
    decreases s@.len(),
{
    proof {
        lemma_find_from(s@, 0, dot());
    }
    match find_byte_from(s, 0, '.' as u8) {
        None => {
            proof {
                assert(split_segments(s@) == seq![s@]);
                assert(seq![s@][0] == s@);
                assert(seq![s@].drop_first() =~= Seq::<Seq<u8>>::empty());
                assert(flag_chain(Seq::<Seq<u8>>::empty()) == Ok::<_, Seq<u8>>(Seq::<
                    ExtensionModel,
                >::empty()));
            }
            if s.len() == 0 {
                proof {
                    assert(chain_model(Seq::<Extension>::empty()) =~= Seq::<
                        ExtensionModel,
                    >::empty());
                }
                Ok(Vec::new())
            } else {
                match to_extension(s) {
                    None => Err(slice_to_vec(s)),
                    Some(e) => {
                        let mut v: Vec<Extension> = Vec::new();
                        v.push(e);
                        proof {
                            assert(chain_model(v@) =~= seq![ext_model(e)] + Seq::<
                                ExtensionModel,
                            >::empty());
                        }
                        Ok(v)
                    },
                }
            }
        },
        Some(i) => {
            let n = s.len();
            let seg = slice_subrange(s, 0, i);
            let rest = slice_subrange(s, i + 1, n);
            proof {
                assert(split_segments(s@) == seq![s@.subrange(0, i as int)] + split_segments(
                    s@.subrange(i + 1, s@.len() as int),
                ));
                assert(split_segments(s@)[0] == seg@);
                assert(split_segments(s@).len() >= 1);
                assert(split_segments(s@).drop_first() =~= split_segments(rest@));
            }
            if seg.len() == 0 {
                parse_flag_tail(rest)
            } else {
                match to_extension(seg) {
                    None => Err(slice_to_vec(seg)),
                    Some(e) => {
                        match parse_flag_tail(rest) {
                            Err(t) => Err(t),
                            Ok(mut v) => {
                                let ghost old_v = v@;
                                v.insert(0, e);
                                proof {
                                    lemma_chain_model_insert0(old_v, e);
                                }
                                Ok(v)
                            },
                        }
                    },
                }
            }
        },
    }
}

/// Decodes a `--format`-style flag into an ordered extension list.
pub fn parse_format_flag(input: &[u8]) -> (r: Result<Vec<Extension>, ParseError>)
    ensures
        match parse_flag_spec(input@) {
            Ok(chain) => r matches Ok(v) && chain_model(v@) == chain,
            Err(FlagErrorModel::Unsupported { token }) => r matches Err(pe) && (pe
                matches ParseError::UnsupportedExtension { input: fi, token: ft } && fi@ == input@
                && ft@ == token),
            Err(FlagErrorModel::Empty) => r matches Err(pe) && (pe
                matches ParseError::EmptyExtensionList { input: fi } && fi@ == input@),
        },
{
    match parse_flag_tail(input) {
        Err(t) => Err(
            ParseError::UnsupportedExtension { input: slice_to_vec(input), token: t },
        ),
        Ok(v) => {
            if v.len() == 0 {
                Err(ParseError::EmptyExtensionList { input: slice_to_vec(input) })
            } else {
                Ok(v)
            }
        },
    }
}

/// The linear pipeline of formats an extension chain stands for, outermost
/// first.
pub open spec fn flatten_formats(chain: Seq<ExtensionModel>) -> Seq<CompressionFormat>
    decreases chain.len(),
{
    if chain.len() == 0 {
        Seq::empty()
    } else {
        chain[0].formats + flatten_formats(chain.drop_first())
    }
}

proof fn lemma_flatten_push(c: Seq<ExtensionModel>, m: ExtensionModel)
    ensures
        flatten_formats(c.push(m)) == flatten_formats(c) + m.formats,
    decreases c.len(),
{
    if c.len() == 0 {
        assert(c.push(m)[0] == m);
        assert(c.push(m).drop_first() =~= Seq::<ExtensionModel>::empty());
        assert(flatten_formats(Seq::<ExtensionModel>::empty()) =~= Seq::<
            CompressionFormat,
        >::empty());
        assert(flatten_formats(c.push(m)) == m.formats + Seq::<CompressionFormat>::empty());
        assert(m.formats + Seq::<CompressionFormat>::empty() =~= m.formats);
        assert(Seq::<CompressionFormat>::empty() + m.formats =~= m.formats);
    } else {
        lemma_flatten_push(c.drop_first(), m);
        assert(c.push(m).drop_first() =~= c.drop_first().push(m));
        assert(c.push(m)[0] == c[0]);
        assert(c[0].formats + (flatten_formats(c.drop_first()) + m.formats) =~= (c[0].formats
            + flatten_formats(c.drop_first())) + m.formats);
    }
}

/// Concatenates the format sequences of all extensions, in order.
pub fn flatten_compression_formats(extensions: &[Extension]) -> (r: Vec<CompressionFormat>)
    ensures
        r@ == flatten_formats(chain_model(extensions@)),
{
    let mut r: Vec<CompressionFormat> = Vec::new();
    let n = extensions.len();
    let mut i: usize = 0;
    proof {
        assert(chain_model(extensions@.subrange(0, 0)) =~= Seq::<ExtensionModel>::empty());
    }
    while i < n
        invariant
            n == extensions@.len(),
            i <= n,
            r@ == flatten_formats(chain_model(extensions@.subrange(0, i as int))),
        decreases n - i,
    {
        let e: &Extension = &extensions[i];
        r.extend_from_slice(e.compression_formats.as_slice());
        proof {
            let pre = chain_model(extensions@.subrange(0, i as int));
            lemma_flatten_push(pre, ext_model(extensions@[i as int]));
            assert(pre.push(ext_model(extensions@[i as int])) =~= chain_model(
                extensions@.subrange(0, i + 1),
            ));
        }
        i = i + 1;
    }
    proof {
        assert(extensions@.subrange(0, n as int) =~= extensions@);
    }
    r
}

/// Splits the flattened pipeline into its first format and the rest.
pub fn split_first_compression_format(formats: &[Extension]) -> (r: (
    CompressionFormat,
    Vec<CompressionFormat>,
))
    requires
        flatten_formats(chain_model(formats@)).len() >= 1,
    ensures
        r.0 == flatten_formats(chain_model(formats@))[0],
        r.1@ == flatten_formats(chain_model(formats@)).drop_first(),
{
    let mut extensions = flatten_compression_formats(formats);
    let first_extension = extensions.remove(0);
    proof {
        assert(extensions@ =~= flatten_formats(chain_model(formats@)).drop_first());
    }
    (first_extension, extensions)
}

// The listed extension and alias spellings, used by the suggestion builder
// and by the stem diagnostic.

/// The single-token extension strings of the catalog.
pub open spec fn is_listed_extension(tok: Seq<u8>) -> bool {
    tok == tok_tar() || tok == tok_zip() || tok == tok_bz() || tok == tok_bz2() || tok == tok_bz3()
        || tok == tok_gz() || tok == tok_lz4() || tok == tok_xz() || tok == tok_lzma() || tok
        == tok_lz() || tok == tok_sz() || tok == tok_zst() || tok == tok_rar() || tok == tok_7z()
        || tok == tok_br()
}

/// The multi-format alias strings of the catalog.
pub open spec fn is_listed_alias(tok: Seq<u8>) -> bool {
    tok == tok_tgz() || tok == tok_tbz() || tok == tok_tlz4() || tok == tok_txz() || tok
        == tok_tlzma() || tok == tok_tsz() || tok == tok_tzst() || tok == tok_tlz()
}

pub open spec fn is_listed_token(tok: Seq<u8>) -> bool {
    is_listed_extension(tok) || is_listed_alias(tok)
}

/// Whether `tok` is one of the listed extension or alias spellings.
pub fn is_listed_token_exec(tok: &[u8]) -> (r: bool)
    ensures
        r == is_listed_token(tok@),
{
    let t = 't' as u8;
    let a = 'a' as u8;
    let rr = 'r' as u8;
    let g = 'g' as u8;
    let z = 'z' as u8;
    let b = 'b' as u8;
    let l = 'l' as u8;
    let x = 'x' as u8;
    let m = 'm' as u8;
    let s = 's' as u8;
    let i = 'i' as u8;
    let p = 'p' as u8;
    let two = '2' as u8;
    let three = '3' as u8;
    let four = '4' as u8;
    let seven = '7' as u8;
    eq3(tok, t, a, rr) || eq3(tok, z, i, p) || eq2(tok, b, z) || eq3(tok, b, z, two) || eq3(
        tok,
        b,
        z,
        three,
    ) || eq2(tok, g, z) || eq3(tok, l, z, four) || eq2(tok, x, z) || eq4(tok, l, z, m, a) || eq2(
        tok,
        l,
        z,
    ) || eq2(tok, s, z) || eq3(tok, z, s, t) || eq3(tok, rr, a, rr) || eq2(tok, seven, z) || eq2(
        tok,
        b,
        rr,
    ) || eq3(tok, t, g, z) || eq3(tok, t, b, z) || eq4(tok, t, l, z, four) || eq3(tok, t, x, z)
        || eq5(tok, t, l, z, m, a) || eq3(tok, t, s, z) || eq4(tok, t, z, s, t) || eq3(tok, t, l, z)
}

pub open spec fn trim_leading_dots(s: Seq<u8>) -> Seq<u8>
    decreases s.len(),
{
    if s.len() > 0 && s[0] == dot() {
        trim_leading_dots(s.drop_first())
    } else {
        s
    }
}

pub open spec fn trim_trailing_dots(s: Seq<u8>) -> Seq<u8>
    decreases s.len(),
{
    if s.len() > 0 && s[s.len() - 1] == dot() {
        trim_trailing_dots(s.drop_last())
    } else {
        s
    }
}

/// The stem with leading and trailing dots removed.
pub open spec fn trim_dots(s: Seq<u8>) -> Seq<u8> {
    trim_trailing_dots(trim_leading_dots(s))
}

fn trim_leading_dots_exec<'a>(s: &'a [u8]) -> (r: &'a [u8])
    ensures
        r@ == trim_leading_dots(s@),
    decreases s@.len(),
{
    if s.len() > 0 && s[0] == '.' as u8 {
        let n = s.len();
        let rest = slice_subrange(s, 1, n);
        proof {
            assert(rest@ =~= s@.drop_first());
        }
        trim_leading_dots_exec(rest)
    } else {
        s
    }
}

fn trim_trailing_dots_exec<'a>(s: &'a [u8]) -> (r: &'a [u8])
    ensures
        r@ == trim_trailing_dots(s@),
    decreases s@.len(),
{
    let n = s.len();
    if n > 0 && s[n - 1] == '.' as u8 {
        let rest = slice_subrange(s, 0, n - 1);
        proof {
            assert(rest@ =~= s@.drop_last());
        }
        trim_trailing_dots_exec(rest)
    } else {
        s
    }
}

/// After parsing stops, a stem that — trimmed of dots — is itself a listed
/// extension or alias suggests the user meant it as an extension; the caller
/// may emit a warning.
pub fn stem_is_known_token(stem: &[u8]) -> (r: bool)
    ensures
        r == is_listed_token(trim_dots(stem@)),
{
    is_listed_token_exec(trim_trailing_dots_exec(trim_leading_dots_exec(stem)))
}

/// The index of the first dot boundary whose following segment (up to the
/// next dot or the end) is a listed token.
pub open spec fn first_listed_boundary(path: Seq<u8>, from: int) -> Option<int>
    decreases path.len() - from,
    via first_listed_boundary_decreases
{
    match find_from(path, from, dot()) {
        None => None,
        Some(i) => {
            let j = match find_from(path, i + 1, dot()) {
                Some(k) => k,
                None => path.len() as int,
            };
            let seg = path.subrange(i + 1, j);
            if is_listed_token(seg) {
                Some(i)
            } else {
                first_listed_boundary(path, i + 1)
            }
        },
    }
}

#[via_fn]
proof fn first_listed_boundary_decreases(path: Seq<u8>, from: int) {
    if 0 <= from {
        lemma_find_from(path, from, dot());
    } else {
        if from < 0 {
            assert(find_from(path, from, dot()) is None);
        }
    }
}

/// The corrected path for a compress target that lacks its archive extension:
/// `archive_ext` (e.g. `.tar`) inserted right before the first boundary whose
/// segment is a listed token, or nothing when no segment matches.
pub open spec fn suggestion_spec(path: Seq<u8>, sug: Seq<u8>) -> Option<Seq<u8>> {
    match first_listed_boundary(path, 0) {
        Some(i) => Some(path.subrange(0, i) + sug + path.subrange(i, path.len() as int)),
        None => None,
    }
}

/// Builds a suggested output path when the user tried to compress into a
/// non-archive format, for error-message purposes.
pub fn build_archive_file_suggestion(path: &[u8], suggested_extension: &[u8]) -> (r: Option<
    Vec<u8>,
>)
    ensures
        r is Some <==> suggestion_spec(path@, suggested_extension@) is Some,
        r is Some ==> r.unwrap()@ == suggestion_spec(path@, suggested_extension@).unwrap(),
{
    let mut from: usize = 0;
    loop
        invariant
            first_listed_boundary(path@, 0) == first_listed_boundary(path@, from as int),
        decreases path@.len() - from,
    {
        proof {
            lemma_find_from(path@, from as int, dot());
        }
        match find_byte_from(path, from, '.' as u8) {
            None => {
                return None;
            },
            Some(i) => {
                let n = path.len();
                proof {
                    lemma_find_from(path@, i + 1, dot());
                }
                let j = match find_byte_from(path, i + 1, '.' as u8) {
                    Some(k) => k,
                    None => n,
                };
                let seg = slice_subrange(path, i + 1, j);
                if is_listed_token_exec(seg) {
                    let mut out: Vec<u8> = Vec::new();
                    out.extend_from_slice(slice_subrange(path, 0, i));
                    out.extend_from_slice(suggested_extension);
                    out.extend_from_slice(slice_subrange(path, i, n));
                    proof {
                        assert(out@ =~= path@.subrange(0, i as int) + suggested_extension@
                            + path@.subrange(i as int, path@.len() as int));
                    }
                    return Some(out);
                }
                from = i + 1;
            },
        }
    }
}

/// Extracts extensions from a file name, returning only the extension list.
pub fn extensions_from_path(path: &[u8]) -> (r: Result<Vec<Extension>, ParseError>)
    ensures
        match parse_chain_spec(path@) {
            Ok(sc) => r matches Ok(v) && chain_model(v@) == sc.1,
            Err(em) => r matches Err(pe) && (pe matches ParseError::ArchiveExtensionMisplaced {
                archive,
                misplaced,
            } && ext_model(archive) == em.archive && ext_model(misplaced) == em.misplaced),
        },
{
    match separate_known_extensions_from_name(path) {
        Ok((_, extensions)) => Ok(extensions),
        Err(e) => Err(e),
    }
}

} // verus!

