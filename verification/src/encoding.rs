//! Decoding interchange bytes to text, with byte-order-mark handling.

use vstd::prelude::*;

verus! {


/// The encodings a byte-order mark can announce.
#[derive(Debug, Clone, Copy, PartialEq, Eq, Structural)]
pub enum TextEncoding {
    Utf8,
    Utf16Le,
    Utf16Be,
}

/// The encoding a leading byte-order mark announces and the mark's length:
/// three bytes for the eight-bit form, two for either sixteen-bit form,
/// and the eight-bit default with no mark otherwise.
pub open spec fn bom_spec(bytes: Seq<u8>) -> (TextEncoding, nat) {
    if bytes.len() >= 3 && bytes[0] == 0xefu8 && bytes[1] == 0xbbu8 && bytes[2] == 0xbfu8 {
        (TextEncoding::Utf8, 3nat)
    } else if bytes.len() >= 2 && bytes[0] == 0xffu8 && bytes[1] == 0xfeu8 {
        (TextEncoding::Utf16Le, 2nat)
    } else if bytes.len() >= 2 && bytes[0] == 0xfeu8 && bytes[1] == 0xffu8 {
        (TextEncoding::Utf16Be, 2nat)
    } else {
        (TextEncoding::Utf8, 0nat)
    }
}

/// Sniff the byte-order mark of `bytes`.
pub fn sniff_bom(bytes: &Vec<u8>) -> (r: (TextEncoding, usize))
    ensures
        (r.0, r.1 as nat) == bom_spec(bytes@),
        r.1 <= bytes@.len(),
{
    if bytes.len() >= 3 && bytes[0] == 0xef && bytes[1] == 0xbb && bytes[2] == 0xbf {
        (TextEncoding::Utf8, 3)
    } else if bytes.len() >= 2 && bytes[0] == 0xff && bytes[1] == 0xfe {
        (TextEncoding::Utf16Le, 2)
    } else if bytes.len() >= 2 && bytes[0] == 0xfe && bytes[1] == 0xff {
        (TextEncoding::Utf16Be, 2)
    } else {
        (TextEncoding::Utf8, 0)
    }
}

/// What the decoder produces for an encoding and a byte stream: the text
/// and whether malformed sequences were replaced. The result is a function
/// of the encoding and the bytes alone.
pub uninterp spec fn decoded_text(enc: TextEncoding, bytes: Seq<u8>) -> (Seq<char>, bool);

/// Relies on encoding_rs::Encoding::decode for UTF_8, UTF_16LE and
/// UTF_16BE: the decoded text and the malformed-input flag depend on the
/// encoding and the input bytes alone.
#[verifier::external_body]
fn decode_bytes(enc: &TextEncoding, bytes: &Vec<u8>) -> (r: (String, bool))
    ensures
        (r.0@, r.1) == decoded_text(*enc, bytes@),
{
    let e = match enc {
        TextEncoding::Utf8 => encoding_rs::UTF_8,
        TextEncoding::Utf16Le => encoding_rs::UTF_16LE,
        TextEncoding::Utf16Be => encoding_rs::UTF_16BE,
    };
    let (cow, _, had_errors) = e.decode(bytes.as_slice());
    (cow.into_owned(), had_errors)
}

/// The bytes after the byte-order mark.
fn bytes_after(bytes: &Vec<u8>, n: usize) -> (r: Vec<u8>)
    requires
        n <= bytes@.len(),
    ensures
        r@ == bytes@.skip(n as int),
{
    let mut out: Vec<u8> = Vec::new();
    let mut i: usize = n;
    proof {
        assert(out@ =~= bytes@.subrange(n as int, n as int));
    }
    while i < bytes.len()
        invariant
            n <= i <= bytes@.len(),
            out@ == bytes@.subrange(n as int, i as int),
        decreases bytes@.len() - i,
    {
        out.push(bytes[i]);
        proof {
            assert(out@ =~= bytes@.subrange(n as int, i + 1));
        }
        i += 1;
    }
    proof {
        assert(bytes@.subrange(n as int, bytes@.len() as int) =~= bytes@.skip(n as int));
    }
    out
}

/// Decode interchange bytes to text: the byte-order mark picks the
/// encoding and is stripped, the rest is decoded, and any malformed
/// content is an error.
pub fn decode_json_text(bytes: &Vec<u8>) -> (r: Result<String, crate::error::Error>)
    ensures
        ({
            let (enc, n) = bom_spec(bytes@);
            let (text, bad) = decoded_text(enc, bytes@.skip(n as int));
            match r {
                Ok(t) => t@ == text && !bad,
                Err(e) => bad && e is JsonFileRead,
            }
        }),
{
    let (enc, n) = sniff_bom(bytes);
    let body = bytes_after(bytes, n);
    let (text, bad) = decode_bytes(&enc, &body);
    if bad {
        proof {
            reveal_strlit("");
            reveal_strlit("unable to decode file contents");
        }
        Err(
            crate::error::Error::JsonFileRead {
                file: "".to_owned(),
                msg: "unable to decode file contents".to_owned(),
            },
        )
    } else {
        Ok(text)
    }
}

} // verus!
