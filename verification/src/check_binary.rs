//! Telling text from binary content before a file is indexed: by the
//! signature that files with the name's extension start with, and by byte
//! order marks.

use crate::matcher::any_occurs;
use crate::matcher::build_matcher;
use crate::matcher::matcher_finds;
use crate::matcher::matcher_patterns;
use aho_corasick::AhoCorasick;
use vstd::prelude::*;
use vstd::slice::slice_subrange;

verus! {

/// The bytes that a kind of file has at an offset.
#[derive(Debug)]
pub struct Signature {
    /// The extension of the file names of the kind.
    pub ext: Vec<u8>,
    pub offset: usize,
    pub bytes: Vec<u8>,
}

pub struct SignatureModel {
    pub ext: Seq<u8>,
    pub offset: usize,
    pub bytes: Seq<u8>,
}

impl View for Signature {
    type V = SignatureModel;

    open spec fn view(&self) -> SignatureModel {
        SignatureModel { ext: self.ext@, offset: self.offset, bytes: self.bytes@ }
    }
}

pub open spec fn table_view(table: Seq<Signature>) -> Seq<SignatureModel> {
    Seq::new(table.len(), |i: int| table[i]@)
}

pub struct Utf8FileChecker {
    pub marks: AhoCorasick,
    pub signatures: Vec<Signature>,
}

/// As many bytes from the start of a file are searched for a byte order mark.
pub const NUM_BYTES_TO_CHECK: usize = 8192;

/// The byte order marks of UTF-8 and of UTF-16, big and little endian.
pub open spec fn byte_order_marks() -> Seq<Seq<u8>> {
    seq![seq![0xefu8, 0xbb, 0xbf], seq![0xfeu8, 0xff], seq![0xffu8, 0xfe]]
}

/// The signatures of pictures: for each extension the bytes that such a file
/// has at an offset.
pub open spec fn images() -> Seq<SignatureModel> {
    seq![
        // png: \x89PNG\x0d\x0a\x1a\x0a
        SignatureModel {
            ext: seq![0x70u8, 0x6e, 0x67],
            offset: 0,
            bytes: seq![0x89u8, 0x50, 0x4e, 0x47, 0x0d, 0x0a, 0x1a, 0x0a],
        },
        // jpg: \xff\xd8\xff
        SignatureModel {
            ext: seq![0x6au8, 0x70, 0x67],
            offset: 0,
            bytes: seq![0xffu8, 0xd8, 0xff],
        },
        // jpeg: \xff\xd8\xff
        SignatureModel {
            ext: seq![0x6au8, 0x70, 0x65, 0x67],
            offset: 0,
            bytes: seq![0xffu8, 0xd8, 0xff],
        },
        // gif: GIF87a
        SignatureModel {
            ext: seq![0x67u8, 0x69, 0x66],
            offset: 0,
            bytes: seq![0x47u8, 0x49, 0x46, 0x38, 0x37, 0x61],
        },
        // gif: GIF89a
        SignatureModel {
            ext: seq![0x67u8, 0x69, 0x66],
            offset: 0,
            bytes: seq![0x47u8, 0x49, 0x46, 0x38, 0x39, 0x61],
        },
        // bmp: BM
        SignatureModel {
            ext: seq![0x62u8, 0x6d, 0x70],
            offset: 0,
            bytes: seq![0x42u8, 0x4d],
        },
        // tif: II*\x00
        SignatureModel {
            ext: seq![0x74u8, 0x69, 0x66],
            offset: 0,
            bytes: seq![0x49u8, 0x49, 0x2a, 0x00],
        },
        // tif: MM\x00*
        SignatureModel {
            ext: seq![0x74u8, 0x69, 0x66],
            offset: 0,
            bytes: seq![0x4du8, 0x4d, 0x00, 0x2a],
        },
        // tiff: II*\x00
        SignatureModel {
            ext: seq![0x74u8, 0x69, 0x66, 0x66],
            offset: 0,
            bytes: seq![0x49u8, 0x49, 0x2a, 0x00],
        },
        // tiff: MM\x00*
        SignatureModel {
            ext: seq![0x74u8, 0x69, 0x66, 0x66],
            offset: 0,
            bytes: seq![0x4du8, 0x4d, 0x00, 0x2a],
        },
        // ico: \x00\x00\x01\x00
        SignatureModel {
            ext: seq![0x69u8, 0x63, 0x6f],
            offset: 0,
            bytes: seq![0x00u8, 0x00, 0x01, 0x00],
        },
        // webp: RIFF
        SignatureModel {
            ext: seq![0x77u8, 0x65, 0x62, 0x70],
            offset: 0,
            bytes: seq![0x52u8, 0x49, 0x46, 0x46],
        },
        // webp: WEBP
        SignatureModel {
            ext: seq![0x77u8, 0x65, 0x62, 0x70],
            offset: 8,
            bytes: seq![0x57u8, 0x45, 0x42, 0x50],
        },
    ]
}

/// The signatures of programs and libraries: for each extension the bytes that such a file
/// has at an offset.
pub open spec fn programs() -> Seq<SignatureModel> {
    seq![
        // elf: \x7fELF
        SignatureModel {
            ext: seq![0x65u8, 0x6c, 0x66],
            offset: 0,
            bytes: seq![0x7fu8, 0x45, 0x4c, 0x46],
        },
        // so: \x7fELF
        SignatureModel {
            ext: seq![0x73u8, 0x6f],
            offset: 0,
            bytes: seq![0x7fu8, 0x45, 0x4c, 0x46],
        },
        // o: \x7fELF
        SignatureModel {
            ext: seq![0x6fu8],
            offset: 0,
            bytes: seq![0x7fu8, 0x45, 0x4c, 0x46],
        },
        // exe: MZ
        SignatureModel {
            ext: seq![0x65u8, 0x78, 0x65],
            offset: 0,
            bytes: seq![0x4du8, 0x5a],
        },
        // dll: MZ
        SignatureModel {
            ext: seq![0x64u8, 0x6c, 0x6c],
            offset: 0,
            bytes: seq![0x4du8, 0x5a],
        },
        // sys: MZ
        SignatureModel {
            ext: seq![0x73u8, 0x79, 0x73],
            offset: 0,
            bytes: seq![0x4du8, 0x5a],
        },
        // class: \xca\xfe\xba\xbe
        SignatureModel {
            ext: seq![0x63u8, 0x6c, 0x61, 0x73, 0x73],
            offset: 0,
            bytes: seq![0xcau8, 0xfe, 0xba, 0xbe],
        },
        // wasm: \x00asm
        SignatureModel {
            ext: seq![0x77u8, 0x61, 0x73, 0x6d],
            offset: 0,
            bytes: seq![0x00u8, 0x61, 0x73, 0x6d],
        },
    ]
}

/// The signatures of archives and packed files: for each extension the bytes that such a file
/// has at an offset.
pub open spec fn archives() -> Seq<SignatureModel> {
    seq![
        // zip: PK\x03\x04
        SignatureModel {
            ext: seq![0x7au8, 0x69, 0x70],
            offset: 0,
            bytes: seq![0x50u8, 0x4b, 0x03, 0x04],
        },
        // zip: PK\x05\x06
        SignatureModel {
            ext: seq![0x7au8, 0x69, 0x70],
            offset: 0,
            bytes: seq![0x50u8, 0x4b, 0x05, 0x06],
        },
        // zip: PK\x07\x08
        SignatureModel {
            ext: seq![0x7au8, 0x69, 0x70],
            offset: 0,
            bytes: seq![0x50u8, 0x4b, 0x07, 0x08],
        },
        // jar: PK\x03\x04
        SignatureModel {
            ext: seq![0x6au8, 0x61, 0x72],
            offset: 0,
            bytes: seq![0x50u8, 0x4b, 0x03, 0x04],
        },
        // apk: PK\x03\x04
        SignatureModel {
            ext: seq![0x61u8, 0x70, 0x6b],
            offset: 0,
            bytes: seq![0x50u8, 0x4b, 0x03, 0x04],
        },
        // docx: PK\x03\x04
        SignatureModel {
            ext: seq![0x64u8, 0x6f, 0x63, 0x78],
            offset: 0,
            bytes: seq![0x50u8, 0x4b, 0x03, 0x04],
        },
        // xlsx: PK\x03\x04
        SignatureModel {
            ext: seq![0x78u8, 0x6c, 0x73, 0x78],
            offset: 0,
            bytes: seq![0x50u8, 0x4b, 0x03, 0x04],
        },
        // pptx: PK\x03\x04
        SignatureModel {
            ext: seq![0x70u8, 0x70, 0x74, 0x78],
            offset: 0,
            bytes: seq![0x50u8, 0x4b, 0x03, 0x04],
        },
        // gz: \x1f\x8b
        SignatureModel {
            ext: seq![0x67u8, 0x7a],
            offset: 0,
            bytes: seq![0x1fu8, 0x8b],
        },
        // bz2: BZh
        SignatureModel {
            ext: seq![0x62u8, 0x7a, 0x32],
            offset: 0,
            bytes: seq![0x42u8, 0x5a, 0x68],
        },
        // 7z: 7z\xbc\xaf'\x1c
        SignatureModel {
            ext: seq![0x37u8, 0x7a],
            offset: 0,
            bytes: seq![0x37u8, 0x7a, 0xbc, 0xaf, 0x27, 0x1c],
        },
        // rar: Rar!\x1a\x07\x00
        SignatureModel {
            ext: seq![0x72u8, 0x61, 0x72],
            offset: 0,
            bytes: seq![0x52u8, 0x61, 0x72, 0x21, 0x1a, 0x07, 0x00],
        },
        // rar: Rar!\x1a\x07\x01\x00
        SignatureModel {
            ext: seq![0x72u8, 0x61, 0x72],
            offset: 0,
            bytes: seq![0x52u8, 0x61, 0x72, 0x21, 0x1a, 0x07, 0x01, 0x00],
        },
        // xz: \xfd7zXZ\x00
        SignatureModel {
            ext: seq![0x78u8, 0x7a],
            offset: 0,
            bytes: seq![0xfdu8, 0x37, 0x7a, 0x58, 0x5a, 0x00],
        },
    ]
}

/// The signatures of sound and film: for each extension the bytes that such a file
/// has at an offset.
pub open spec fn media() -> Seq<SignatureModel> {
    seq![
        // wav: RIFF
        SignatureModel {
            ext: seq![0x77u8, 0x61, 0x76],
            offset: 0,
            bytes: seq![0x52u8, 0x49, 0x46, 0x46],
        },
        // wav: WAVE
        SignatureModel {
            ext: seq![0x77u8, 0x61, 0x76],
            offset: 8,
            bytes: seq![0x57u8, 0x41, 0x56, 0x45],
        },
        // avi: RIFF
        SignatureModel {
            ext: seq![0x61u8, 0x76, 0x69],
            offset: 0,
            bytes: seq![0x52u8, 0x49, 0x46, 0x46],
        },
        // avi: AVI 
        SignatureModel {
            ext: seq![0x61u8, 0x76, 0x69],
            offset: 8,
            bytes: seq![0x41u8, 0x56, 0x49, 0x20],
        },
        // ogg: OggS
        SignatureModel {
            ext: seq![0x6fu8, 0x67, 0x67],
            offset: 0,
            bytes: seq![0x4fu8, 0x67, 0x67, 0x53],
        },
        // opus: OggS
        SignatureModel {
            ext: seq![0x6fu8, 0x70, 0x75, 0x73],
            offset: 0,
            bytes: seq![0x4fu8, 0x67, 0x67, 0x53],
        },
        // ogv: OggS
        SignatureModel {
            ext: seq![0x6fu8, 0x67, 0x76],
            offset: 0,
            bytes: seq![0x4fu8, 0x67, 0x67, 0x53],
        },
        // mp3: ID3
        SignatureModel {
            ext: seq![0x6du8, 0x70, 0x33],
            offset: 0,
            bytes: seq![0x49u8, 0x44, 0x33],
        },
        // mp3: \xff\xfb
        SignatureModel {
            ext: seq![0x6du8, 0x70, 0x33],
            offset: 0,
            bytes: seq![0xffu8, 0xfb],
        },
        // mp3: \xff\xf3
        SignatureModel {
            ext: seq![0x6du8, 0x70, 0x33],
            offset: 0,
            bytes: seq![0xffu8, 0xf3],
        },
        // mp3: \xff\xf2
        SignatureModel {
            ext: seq![0x6du8, 0x70, 0x33],
            offset: 0,
            bytes: seq![0xffu8, 0xf2],
        },
        // mp4: ftyp
        SignatureModel {
            ext: seq![0x6du8, 0x70, 0x34],
            offset: 4,
            bytes: seq![0x66u8, 0x74, 0x79, 0x70],
        },
        // mov: ftyp
        SignatureModel {
            ext: seq![0x6du8, 0x6f, 0x76],
            offset: 4,
            bytes: seq![0x66u8, 0x74, 0x79, 0x70],
        },
        // 3gp: ftyp
        SignatureModel {
            ext: seq![0x33u8, 0x67, 0x70],
            offset: 4,
            bytes: seq![0x66u8, 0x74, 0x79, 0x70],
        },
        // 3g2: ftyp
        SignatureModel {
            ext: seq![0x33u8, 0x67, 0x32],
            offset: 4,
            bytes: seq![0x66u8, 0x74, 0x79, 0x70],
        },
        // m4a: ftyp
        SignatureModel {
            ext: seq![0x6du8, 0x34, 0x61],
            offset: 4,
            bytes: seq![0x66u8, 0x74, 0x79, 0x70],
        },
        // mkv: \x1aE\xdf\xa3
        SignatureModel {
            ext: seq![0x6du8, 0x6b, 0x76],
            offset: 0,
            bytes: seq![0x1au8, 0x45, 0xdf, 0xa3],
        },
        // webm: \x1aE\xdf\xa3
        SignatureModel {
            ext: seq![0x77u8, 0x65, 0x62, 0x6d],
            offset: 0,
            bytes: seq![0x1au8, 0x45, 0xdf, 0xa3],
        },
    ]
}

/// The signatures of documents: for each extension the bytes that such a file
/// has at an offset.
pub open spec fn papers() -> Seq<SignatureModel> {
    seq![
        // pdf: %PDF
        SignatureModel {
            ext: seq![0x70u8, 0x64, 0x66],
            offset: 0,
            bytes: seq![0x25u8, 0x50, 0x44, 0x46],
        },
        // ps: %!PS
        SignatureModel {
            ext: seq![0x70u8, 0x73],
            offset: 0,
            bytes: seq![0x25u8, 0x21, 0x50, 0x53],
        },
        // rtf: {\x5crtf
        SignatureModel {
            ext: seq![0x72u8, 0x74, 0x66],
            offset: 0,
            bytes: seq![0x7bu8, 0x5c, 0x72, 0x74, 0x66],
        },
        // doc: \xd0\xcf\x11\xe0\xa1\xb1\x1a\xe1
        SignatureModel {
            ext: seq![0x64u8, 0x6f, 0x63],
            offset: 0,
            bytes: seq![0xd0u8, 0xcf, 0x11, 0xe0, 0xa1, 0xb1, 0x1a, 0xe1],
        },
        // xls: \xd0\xcf\x11\xe0\xa1\xb1\x1a\xe1
        SignatureModel {
            ext: seq![0x78u8, 0x6c, 0x73],
            offset: 0,
            bytes: seq![0xd0u8, 0xcf, 0x11, 0xe0, 0xa1, 0xb1, 0x1a, 0xe1],
        },
        // ppt: \xd0\xcf\x11\xe0\xa1\xb1\x1a\xe1
        SignatureModel {
            ext: seq![0x70u8, 0x70, 0x74],
            offset: 0,
            bytes: seq![0xd0u8, 0xcf, 0x11, 0xe0, 0xa1, 0xb1, 0x1a, 0xe1],
        },
    ]
}

/// The signatures that the checker knows.
pub open spec fn default_signatures() -> Seq<SignatureModel> {
    images() + programs() + archives() + media() + papers()
}

fn single(byte: u8) -> (v: Vec<u8>)
    ensures
        v@ == seq![byte],
{
    let mut v: Vec<u8> = Vec::new();
    v.push(byte);
    v
}

fn entry(ext: Vec<u8>, offset: usize, bytes: Vec<u8>) -> (s: Signature)
    ensures
        s@ == (SignatureModel { ext: ext@, offset, bytes: bytes@ }),
{
    Signature { ext, offset, bytes }
}

fn push_images(table: &mut Vec<Signature>)
    ensures
        table_view(final(table)@) == table_view(old(table)@) + images(),
{
    table.push(entry(vec![0x70u8, 0x6e, 0x67], 0, vec![0x89u8, 0x50, 0x4e, 0x47, 0x0d, 0x0a, 0x1a, 0x0a]));
    proof {
        assert(table_view(table@) =~= table_view(old(table)@) + images().take(1));
    }
    table.push(entry(vec![0x6au8, 0x70, 0x67], 0, vec![0xffu8, 0xd8, 0xff]));
    proof {
        assert(table_view(table@) =~= table_view(old(table)@) + images().take(2));
    }
    table.push(entry(vec![0x6au8, 0x70, 0x65, 0x67], 0, vec![0xffu8, 0xd8, 0xff]));
    proof {
        assert(table_view(table@) =~= table_view(old(table)@) + images().take(3));
    }
    table.push(entry(vec![0x67u8, 0x69, 0x66], 0, vec![0x47u8, 0x49, 0x46, 0x38, 0x37, 0x61]));
    proof {
        assert(table_view(table@) =~= table_view(old(table)@) + images().take(4));
    }
    table.push(entry(vec![0x67u8, 0x69, 0x66], 0, vec![0x47u8, 0x49, 0x46, 0x38, 0x39, 0x61]));
    proof {
        assert(table_view(table@) =~= table_view(old(table)@) + images().take(5));
    }
    table.push(entry(vec![0x62u8, 0x6d, 0x70], 0, vec![0x42u8, 0x4d]));
    proof {
        assert(table_view(table@) =~= table_view(old(table)@) + images().take(6));
    }
    table.push(entry(vec![0x74u8, 0x69, 0x66], 0, vec![0x49u8, 0x49, 0x2a, 0x00]));
    proof {
        assert(table_view(table@) =~= table_view(old(table)@) + images().take(7));
    }
    table.push(entry(vec![0x74u8, 0x69, 0x66], 0, vec![0x4du8, 0x4d, 0x00, 0x2a]));
    proof {
        assert(table_view(table@) =~= table_view(old(table)@) + images().take(8));
    }
    table.push(entry(vec![0x74u8, 0x69, 0x66, 0x66], 0, vec![0x49u8, 0x49, 0x2a, 0x00]));
    proof {
        assert(table_view(table@) =~= table_view(old(table)@) + images().take(9));
    }
    table.push(entry(vec![0x74u8, 0x69, 0x66, 0x66], 0, vec![0x4du8, 0x4d, 0x00, 0x2a]));
    proof {
        assert(table_view(table@) =~= table_view(old(table)@) + images().take(10));
    }
    table.push(entry(vec![0x69u8, 0x63, 0x6f], 0, vec![0x00u8, 0x00, 0x01, 0x00]));
    proof {
        assert(table_view(table@) =~= table_view(old(table)@) + images().take(11));
    }
    table.push(entry(vec![0x77u8, 0x65, 0x62, 0x70], 0, vec![0x52u8, 0x49, 0x46, 0x46]));
    proof {
        assert(table_view(table@) =~= table_view(old(table)@) + images().take(12));
    }
    table.push(entry(vec![0x77u8, 0x65, 0x62, 0x70], 8, vec![0x57u8, 0x45, 0x42, 0x50]));
    proof {
        assert(table_view(table@) =~= table_view(old(table)@) + images().take(13));
    }
    proof {
        assert(images().take(images().len() as int) =~= images());
        assert(table_view(table@) =~= table_view(old(table)@) + images());
    }
}

fn push_programs(table: &mut Vec<Signature>)
    ensures
        table_view(final(table)@) == table_view(old(table)@) + programs(),
{
    table.push(entry(vec![0x65u8, 0x6c, 0x66], 0, vec![0x7fu8, 0x45, 0x4c, 0x46]));
    proof {
        assert(table_view(table@) =~= table_view(old(table)@) + programs().take(1));
    }
    table.push(entry(vec![0x73u8, 0x6f], 0, vec![0x7fu8, 0x45, 0x4c, 0x46]));
    proof {
        assert(table_view(table@) =~= table_view(old(table)@) + programs().take(2));
    }
    table.push(entry(single(0x6f), 0, vec![0x7fu8, 0x45, 0x4c, 0x46]));
    proof {
        assert(table_view(table@) =~= table_view(old(table)@) + programs().take(3));
    }
    table.push(entry(vec![0x65u8, 0x78, 0x65], 0, vec![0x4du8, 0x5a]));
    proof {
        assert(table_view(table@) =~= table_view(old(table)@) + programs().take(4));
    }
    table.push(entry(vec![0x64u8, 0x6c, 0x6c], 0, vec![0x4du8, 0x5a]));
    proof {
        assert(table_view(table@) =~= table_view(old(table)@) + programs().take(5));
    }
    table.push(entry(vec![0x73u8, 0x79, 0x73], 0, vec![0x4du8, 0x5a]));
    proof {
        assert(table_view(table@) =~= table_view(old(table)@) + programs().take(6));
    }
    table.push(entry(vec![0x63u8, 0x6c, 0x61, 0x73, 0x73], 0, vec![0xcau8, 0xfe, 0xba, 0xbe]));
    proof {
        assert(table_view(table@) =~= table_view(old(table)@) + programs().take(7));
    }
    table.push(entry(vec![0x77u8, 0x61, 0x73, 0x6d], 0, vec![0x00u8, 0x61, 0x73, 0x6d]));
    proof {
        assert(table_view(table@) =~= table_view(old(table)@) + programs().take(8));
    }
    proof {
        assert(programs().take(programs().len() as int) =~= programs());
        assert(table_view(table@) =~= table_view(old(table)@) + programs());
    }
}

fn push_archives(table: &mut Vec<Signature>)
    ensures
        table_view(final(table)@) == table_view(old(table)@) + archives(),
{
    table.push(entry(vec![0x7au8, 0x69, 0x70], 0, vec![0x50u8, 0x4b, 0x03, 0x04]));
    proof {
        assert(table_view(table@) =~= table_view(old(table)@) + archives().take(1));
    }
    table.push(entry(vec![0x7au8, 0x69, 0x70], 0, vec![0x50u8, 0x4b, 0x05, 0x06]));
    proof {
        assert(table_view(table@) =~= table_view(old(table)@) + archives().take(2));
    }
    table.push(entry(vec![0x7au8, 0x69, 0x70], 0, vec![0x50u8, 0x4b, 0x07, 0x08]));
    proof {
        assert(table_view(table@) =~= table_view(old(table)@) + archives().take(3));
    }
    table.push(entry(vec![0x6au8, 0x61, 0x72], 0, vec![0x50u8, 0x4b, 0x03, 0x04]));
    proof {
        assert(table_view(table@) =~= table_view(old(table)@) + archives().take(4));
    }
    table.push(entry(vec![0x61u8, 0x70, 0x6b], 0, vec![0x50u8, 0x4b, 0x03, 0x04]));
    proof {
        assert(table_view(table@) =~= table_view(old(table)@) + archives().take(5));
    }
    table.push(entry(vec![0x64u8, 0x6f, 0x63, 0x78], 0, vec![0x50u8, 0x4b, 0x03, 0x04]));
    proof {
        assert(table_view(table@) =~= table_view(old(table)@) + archives().take(6));
    }
    table.push(entry(vec![0x78u8, 0x6c, 0x73, 0x78], 0, vec![0x50u8, 0x4b, 0x03, 0x04]));
    proof {
        assert(table_view(table@) =~= table_view(old(table)@) + archives().take(7));
    }
    table.push(entry(vec![0x70u8, 0x70, 0x74, 0x78], 0, vec![0x50u8, 0x4b, 0x03, 0x04]));
    proof {
        assert(table_view(table@) =~= table_view(old(table)@) + archives().take(8));
    }
    table.push(entry(vec![0x67u8, 0x7a], 0, vec![0x1fu8, 0x8b]));
    proof {
        assert(table_view(table@) =~= table_view(old(table)@) + archives().take(9));
    }
    table.push(entry(vec![0x62u8, 0x7a, 0x32], 0, vec![0x42u8, 0x5a, 0x68]));
    proof {
        assert(table_view(table@) =~= table_view(old(table)@) + archives().take(10));
    }
    table.push(entry(vec![0x37u8, 0x7a], 0, vec![0x37u8, 0x7a, 0xbc, 0xaf, 0x27, 0x1c]));
    proof {
        assert(table_view(table@) =~= table_view(old(table)@) + archives().take(11));
    }
    table.push(entry(vec![0x72u8, 0x61, 0x72], 0, vec![0x52u8, 0x61, 0x72, 0x21, 0x1a, 0x07, 0x00]));
    proof {
        assert(table_view(table@) =~= table_view(old(table)@) + archives().take(12));
    }
    table.push(entry(vec![0x72u8, 0x61, 0x72], 0, vec![0x52u8, 0x61, 0x72, 0x21, 0x1a, 0x07, 0x01, 0x00]));
    proof {
        assert(table_view(table@) =~= table_view(old(table)@) + archives().take(13));
    }
    table.push(entry(vec![0x78u8, 0x7a], 0, vec![0xfdu8, 0x37, 0x7a, 0x58, 0x5a, 0x00]));
    proof {
        assert(table_view(table@) =~= table_view(old(table)@) + archives().take(14));
    }
    proof {
        assert(archives().take(archives().len() as int) =~= archives());
        assert(table_view(table@) =~= table_view(old(table)@) + archives());
    }
}

fn push_media(table: &mut Vec<Signature>)
    ensures
        table_view(final(table)@) == table_view(old(table)@) + media(),
{
    table.push(entry(vec![0x77u8, 0x61, 0x76], 0, vec![0x52u8, 0x49, 0x46, 0x46]));
    proof {
        assert(table_view(table@) =~= table_view(old(table)@) + media().take(1));
    }
    table.push(entry(vec![0x77u8, 0x61, 0x76], 8, vec![0x57u8, 0x41, 0x56, 0x45]));
    proof {
        assert(table_view(table@) =~= table_view(old(table)@) + media().take(2));
    }
    table.push(entry(vec![0x61u8, 0x76, 0x69], 0, vec![0x52u8, 0x49, 0x46, 0x46]));
    proof {
        assert(table_view(table@) =~= table_view(old(table)@) + media().take(3));
    }
    table.push(entry(vec![0x61u8, 0x76, 0x69], 8, vec![0x41u8, 0x56, 0x49, 0x20]));
    proof {
        assert(table_view(table@) =~= table_view(old(table)@) + media().take(4));
    }
    table.push(entry(vec![0x6fu8, 0x67, 0x67], 0, vec![0x4fu8, 0x67, 0x67, 0x53]));
    proof {
        assert(table_view(table@) =~= table_view(old(table)@) + media().take(5));
    }
    table.push(entry(vec![0x6fu8, 0x70, 0x75, 0x73], 0, vec![0x4fu8, 0x67, 0x67, 0x53]));
    proof {
        assert(table_view(table@) =~= table_view(old(table)@) + media().take(6));
    }
    table.push(entry(vec![0x6fu8, 0x67, 0x76], 0, vec![0x4fu8, 0x67, 0x67, 0x53]));
    proof {
        assert(table_view(table@) =~= table_view(old(table)@) + media().take(7));
    }
    table.push(entry(vec![0x6du8, 0x70, 0x33], 0, vec![0x49u8, 0x44, 0x33]));
    proof {
        assert(table_view(table@) =~= table_view(old(table)@) + media().take(8));
    }
    table.push(entry(vec![0x6du8, 0x70, 0x33], 0, vec![0xffu8, 0xfb]));
    proof {
        assert(table_view(table@) =~= table_view(old(table)@) + media().take(9));
    }
    table.push(entry(vec![0x6du8, 0x70, 0x33], 0, vec![0xffu8, 0xf3]));
    proof {
        assert(table_view(table@) =~= table_view(old(table)@) + media().take(10));
    }
    table.push(entry(vec![0x6du8, 0x70, 0x33], 0, vec![0xffu8, 0xf2]));
    proof {
        assert(table_view(table@) =~= table_view(old(table)@) + media().take(11));
    }
    table.push(entry(vec![0x6du8, 0x70, 0x34], 4, vec![0x66u8, 0x74, 0x79, 0x70]));
    proof {
        assert(table_view(table@) =~= table_view(old(table)@) + media().take(12));
    }
    table.push(entry(vec![0x6du8, 0x6f, 0x76], 4, vec![0x66u8, 0x74, 0x79, 0x70]));
    proof {
        assert(table_view(table@) =~= table_view(old(table)@) + media().take(13));
    }
    table.push(entry(vec![0x33u8, 0x67, 0x70], 4, vec![0x66u8, 0x74, 0x79, 0x70]));
    proof {
        assert(table_view(table@) =~= table_view(old(table)@) + media().take(14));
    }
    table.push(entry(vec![0x33u8, 0x67, 0x32], 4, vec![0x66u8, 0x74, 0x79, 0x70]));
    proof {
        assert(table_view(table@) =~= table_view(old(table)@) + media().take(15));
    }
    table.push(entry(vec![0x6du8, 0x34, 0x61], 4, vec![0x66u8, 0x74, 0x79, 0x70]));
    proof {
        assert(table_view(table@) =~= table_view(old(table)@) + media().take(16));
    }
    table.push(entry(vec![0x6du8, 0x6b, 0x76], 0, vec![0x1au8, 0x45, 0xdf, 0xa3]));
    proof {
        assert(table_view(table@) =~= table_view(old(table)@) + media().take(17));
    }
    table.push(entry(vec![0x77u8, 0x65, 0x62, 0x6d], 0, vec![0x1au8, 0x45, 0xdf, 0xa3]));
    proof {
        assert(table_view(table@) =~= table_view(old(table)@) + media().take(18));
    }
    proof {
        assert(media().take(media().len() as int) =~= media());
        assert(table_view(table@) =~= table_view(old(table)@) + media());
    }
}

fn push_papers(table: &mut Vec<Signature>)
    ensures
        table_view(final(table)@) == table_view(old(table)@) + papers(),
{
    table.push(entry(vec![0x70u8, 0x64, 0x66], 0, vec![0x25u8, 0x50, 0x44, 0x46]));
    proof {
        assert(table_view(table@) =~= table_view(old(table)@) + papers().take(1));
    }
    table.push(entry(vec![0x70u8, 0x73], 0, vec![0x25u8, 0x21, 0x50, 0x53]));
    proof {
        assert(table_view(table@) =~= table_view(old(table)@) + papers().take(2));
    }
    table.push(entry(vec![0x72u8, 0x74, 0x66], 0, vec![0x7bu8, 0x5c, 0x72, 0x74, 0x66]));
    proof {
        assert(table_view(table@) =~= table_view(old(table)@) + papers().take(3));
    }
    table.push(entry(vec![0x64u8, 0x6f, 0x63], 0, vec![0xd0u8, 0xcf, 0x11, 0xe0, 0xa1, 0xb1, 0x1a, 0xe1]));
    proof {
        assert(table_view(table@) =~= table_view(old(table)@) + papers().take(4));
    }
    table.push(entry(vec![0x78u8, 0x6c, 0x73], 0, vec![0xd0u8, 0xcf, 0x11, 0xe0, 0xa1, 0xb1, 0x1a, 0xe1]));
    proof {
        assert(table_view(table@) =~= table_view(old(table)@) + papers().take(5));
    }
    table.push(entry(vec![0x70u8, 0x70, 0x74], 0, vec![0xd0u8, 0xcf, 0x11, 0xe0, 0xa1, 0xb1, 0x1a, 0xe1]));
    proof {
        assert(table_view(table@) =~= table_view(old(table)@) + papers().take(6));
    }
    proof {
        assert(papers().take(papers().len() as int) =~= papers());
        assert(table_view(table@) =~= table_view(old(table)@) + papers());
    }
}

/// A signature for the extension is found in the content.
pub open spec fn magic_matches(table: Seq<SignatureModel>, content: Seq<u8>, ext: Seq<u8>) -> bool {
    exists|i: int|
        0 <= i < table.len() && (#[trigger] table[i]).ext == ext && table[i].offset
            + table[i].bytes.len() <= content.len() && content.subrange(
            table[i].offset as int,
            table[i].offset + table[i].bytes.len(),
        ) == table[i].bytes
}

/// The first bytes of the content, as many as are searched for a mark.
pub open spec fn head_of(content: Seq<u8>) -> Seq<u8> {
    if content.len() <= NUM_BYTES_TO_CHECK {
        content
    } else {
        content.subrange(0, NUM_BYTES_TO_CHECK as int)
    }
}

/// Whether two byte strings are the same.
pub fn same_bytes(a: &[u8], b: &[u8]) -> (same: bool)
    ensures
        same == (a@ == b@),
{
    if a.len() != b.len() {
        return false;
    }
    let mut i: usize = 0;
    while i < a.len()
        invariant
            i <= a@.len(),
            a@.len() == b@.len(),
            forall|k: int| 0 <= k < i ==> a@[k] == b@[k],
        decreases a@.len() - i,
    {
        if a[i] != b[i] {
            return false;
        }
        i += 1;
    }
    proof {
        assert(a@ =~= b@);
    }
    true
}

impl Utf8FileChecker {
    /// A checker with the known signatures. `None` when the matcher for the
    /// byte order marks could not be built.
    pub fn new() -> (out: Option<Self>)
        ensures
            out is Some <==> crate::matcher::standard_builds(byte_order_marks()),
            out matches Some(checker) ==> table_view(checker.signatures@) == default_signatures()
                && matcher_patterns(checker.marks) == byte_order_marks(),
    {
        let mut marks: Vec<Vec<u8>> = Vec::new();
        marks.push(vec![0xefu8, 0xbb, 0xbf]);
        marks.push(vec![0xfeu8, 0xff]);
        marks.push(vec![0xffu8, 0xfe]);
        proof {
            assert(crate::matcher::bytes_view(marks@) =~= byte_order_marks());
        }
        match build_matcher(&marks) {
            Some(matcher) => Some(Self::with_marks(matcher)),
            None => None,
        }
    }

    /// A checker with the known signatures that finds byte order marks with
    /// the given matcher.
    pub fn with_marks(marks: AhoCorasick) -> (checker: Self)
        ensures
            checker.marks == marks,
            table_view(checker.signatures@) == default_signatures(),
    {
        let mut signatures: Vec<Signature> = Vec::new();
        proof {
            assert(table_view(signatures@) =~= Seq::<SignatureModel>::empty());
        }
        push_images(&mut signatures);
        push_programs(&mut signatures);
        push_archives(&mut signatures);
        push_media(&mut signatures);
        push_papers(&mut signatures);
        proof {
            assert(table_view(signatures@) =~= default_signatures());
        }
        Self { marks, signatures }
    }

    /// Whether a signature for the extension `file_ext` is found in the
    /// content.
    pub fn check_magic(&self, content: &[u8], file_ext: &str) -> (found: bool)
        ensures
            found == magic_matches(
                table_view(self.signatures@),
                content@,
                vstd::utf8::encode_utf8(file_ext@),
            ),
    {
        let ext = file_ext.as_bytes();
        let ghost table = table_view(self.signatures@);
        let mut i: usize = 0;
        while i < self.signatures.len()
            invariant
                i <= self.signatures@.len(),
                table == table_view(self.signatures@),
                ext@ == vstd::utf8::encode_utf8(file_ext@),
                forall|k: int|
                    0 <= k < i ==> !((#[trigger] table[k]).ext == ext@ && table[k].offset
                        + table[k].bytes.len() <= content@.len() && content@.subrange(
                        table[k].offset as int,
                        table[k].offset + table[k].bytes.len(),
                    ) == table[k].bytes),
            decreases self.signatures@.len() - i,
        {
            let signature = &self.signatures[i];
            proof {
                assert(table[i as int] == signature@);
            }
            if same_bytes(signature.ext.as_slice(), ext) && signature.offset <= content.len()
                && signature.bytes.len() <= content.len() - signature.offset {
                let part = slice_subrange(
                    content,
                    signature.offset,
                    signature.offset + signature.bytes.len(),
                );
                if same_bytes(part, signature.bytes.as_slice()) {
                    return true;
                }
            }
            i += 1;
        }
        false
    }

    /// Whether a file is taken as text: it does not start like the files that
    /// its extension stands for, and there is no byte order mark among its
    /// first bytes.
    pub fn is_utf8_document(&self, content: &[u8], file_ext: &str) -> (text: bool)
        ensures
            text == (!magic_matches(
                table_view(self.signatures@),
                content@,
                vstd::utf8::encode_utf8(file_ext@),
            ) && !any_occurs(head_of(content@), matcher_patterns(self.marks))),
    {
        if self.check_magic(content, file_ext) {
            return false;
        }
        let head = if content.len() <= NUM_BYTES_TO_CHECK {
            content
        } else {
            slice_subrange(content, 0, NUM_BYTES_TO_CHECK)
        };
        !matcher_finds(&self.marks, head)
    }
}

} // verus!
