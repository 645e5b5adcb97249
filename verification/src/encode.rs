//! Data-URL assembly for captured images and embedded album art.
//!
//! The capture itself and the tag reading are I/O outside the library;
//! callers hand in the raw image bytes. The base64 transform is the base64
//! crate's, behind one trusted wrapper; the URL around it is verified.

use vstd::prelude::*;

verus! {

/// The standard-alphabet, padded base64 encoding of a byte sequence, as the
/// base64 crate computes it. It is a function of the input bytes alone.
pub uninterp spec fn base64_std(s: Seq<u8>) -> Seq<u8>;

/// Relies on base64's `STANDARD` engine (`Engine::encode`): the encoding
/// depends on the input bytes alone, and with padding its length is four
/// bytes for every started group of three. The size bound keeps the
/// engine's own buffer arithmetic from overflowing.
#[verifier::external_body]
fn base64_encode(data: &Vec<u8>) -> (r: Vec<u8>)
    requires
        data@.len() <= 0xffff_ffff,
    ensures
        r@ == base64_std(data@),
        r@.len() == 4 * ((data@.len() + 2) / 3),
{
    base64::Engine::encode(&base64::engine::general_purpose::STANDARD, data).into_bytes()
}

/// The bytes `"data:"`.
pub open spec fn url_head() -> Seq<u8> {
    seq![0x64u8, 0x61u8, 0x74u8, 0x61u8, 0x3au8]
}

/// The bytes `";base64,"`.
pub open spec fn url_marker() -> Seq<u8> {
    seq![0x3bu8, 0x62u8, 0x61u8, 0x73u8, 0x65u8, 0x36u8, 0x34u8, 0x2cu8]
}

/// The bytes `"image/png"`.
pub open spec fn png_mime() -> Seq<u8> {
    seq![0x69u8, 0x6du8, 0x61u8, 0x67u8, 0x65u8, 0x2fu8, 0x70u8, 0x6eu8, 0x67u8]
}

/// The bytes `"image/jpeg"`, the fallback for art without a stated type.
pub open spec fn jpeg_mime() -> Seq<u8> {
    seq![0x69u8, 0x6du8, 0x61u8, 0x67u8, 0x65u8, 0x2fu8, 0x6au8, 0x70u8, 0x65u8, 0x67u8]
}

/// A complete data URL: `data:` mime `;base64,` encoded payload.
pub open spec fn data_url_bytes(mime: Seq<u8>, data: Seq<u8>) -> Seq<u8> {
    url_head() + mime + url_marker() + base64_std(data)
}

/// Assemble a data URL from a media type and a payload.
pub fn data_url(mime: &Vec<u8>, data: &Vec<u8>) -> (r: Vec<u8>)
    requires
        data@.len() <= 0xffff_ffff,
    ensures
        r@ == data_url_bytes(mime@, data@),
{
    let mut out: Vec<u8> = Vec::new();
    out.push(0x64);
    out.push(0x61);
    out.push(0x74);
    out.push(0x61);
    out.push(0x3a);
    out.extend_from_slice(mime.as_slice());
    out.push(0x3b);
    out.push(0x62);
    out.push(0x61);
    out.push(0x73);
    out.push(0x65);
    out.push(0x36);
    out.push(0x34);
    out.push(0x2c);
    let mut encoded = base64_encode(data);
    let ghost before = out@;
    out.append(&mut encoded);
    proof {
        assert(before =~= url_head() + mime@ + url_marker());
        assert(out@ =~= data_url_bytes(mime@, data@));
    }
    out
}

/// The data URL of a captured screen image, always sent as PNG.
pub fn png_data_url(png: &Vec<u8>) -> (r: Vec<u8>)
    requires
        png@.len() <= 0xffff_ffff,
    ensures
        r@ == data_url_bytes(png_mime(), png@),
{
    let mut mime: Vec<u8> = Vec::new();
    mime.push(0x69);
    mime.push(0x6d);
    mime.push(0x61);
    mime.push(0x67);
    mime.push(0x65);
    mime.push(0x2f);
    mime.push(0x70);
    mime.push(0x6e);
    mime.push(0x67);
    proof {
        assert(mime@ =~= png_mime());
    }
    data_url(&mime, png)
}

/// Position of the first comma, or the length when there is none.
pub open spec fn first_comma(s: Seq<u8>) -> int
    decreases s.len(),
{
    if s.len() == 0 {
        0
    } else if s[0] == 0x2c {
        0
    } else {
        1 + first_comma(s.skip(1))
    }
}

/// The comma stands where it stands.
proof fn lemma_first_comma_scan(s: Seq<u8>, k: int)
    requires
        0 <= k <= s.len(),
        k == s.len() || s[k] == 0x2c,
        forall|m: int| 0 <= m < k ==> s[m] != 0x2c,
    ensures
        first_comma(s) == k,
    decreases k,
{
    if s.len() > 0 && s[0] != 0x2c {
        lemma_first_comma_scan(s.skip(1), k - 1);
    }
}

/// Split a data URL at its first comma: the header naming the media type
/// and encoding, and the encoded payload after it. Bytes without a comma
/// are no data URL.
pub fn split_data_url(url: &[u8]) -> (r: Option<(Vec<u8>, Vec<u8>)>)
    ensures
        match r {
            Some((head, payload)) => {
                &&& 0 <= first_comma(url@) < url@.len()
                &&& head@ == url@.take(first_comma(url@))
                &&& payload@ == url@.skip(first_comma(url@) + 1)
            },
            None => first_comma(url@) == url@.len(),
        },
{
    let n = url.len();
    let mut k: usize = 0;
    while k < n && url[k] != 0x2c
        invariant
            k <= n,
            n == url@.len(),
            forall|m: int| 0 <= m < k ==> url@[m] != 0x2c,
        decreases n - k,
    {
        k = k + 1;
    }
    proof {
        lemma_first_comma_scan(url@, k as int);
    }
    if k == n {
        return None;
    }
    let mut head: Vec<u8> = Vec::new();
    let mut m: usize = 0;
    while m < k
        invariant
            m <= k < n,
            n == url@.len(),
            head@ == url@.take(m as int),
        decreases k - m,
    {
        head.push(url[m]);
        m = m + 1;
        proof {
            assert(head@ =~= url@.take(m as int));
        }
    }
    let mut payload: Vec<u8> = Vec::new();
    let mut m = k + 1;
    while m < n
        invariant
            k < m <= n,
            n == url@.len(),
            payload@ == url@.subrange(k as int + 1, m as int),
        decreases n - m,
    {
        payload.push(url[m]);
        m = m + 1;
        proof {
            assert(payload@ =~= url@.subrange(k as int + 1, m as int));
        }
    }
    proof {
        assert(head@ =~= url@.take(k as int));
        assert(payload@ =~= url@.skip(k as int + 1));
    }
    Some((head, payload))
}

/// The data URL of a piece of embedded album art: its stated media type,
/// or JPEG when the tag does not state one.
pub fn art_data_url(mime: &Option<Vec<u8>>, data: &Vec<u8>) -> (r: Vec<u8>)
    requires
        data@.len() <= 0xffff_ffff,
    ensures
        r@ == data_url_bytes(
            match mime {
                Some(m) => m@,
                None => jpeg_mime(),
            },
            data@,
        ),
{
    match mime {
        Some(m) => data_url(m, data),
        None => {
            let mut fallback: Vec<u8> = Vec::new();
            fallback.push(0x69);
            fallback.push(0x6d);
            fallback.push(0x61);
            fallback.push(0x67);
            fallback.push(0x65);
            fallback.push(0x2f);
            fallback.push(0x6a);
            fallback.push(0x70);
            fallback.push(0x65);
            fallback.push(0x67);
            proof {
                assert(fallback@ =~= jpeg_mime());
            }
            data_url(&fallback, data)
        },
    }
}

} // verus!
