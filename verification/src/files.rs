//! File-inspection helpers: classify a file by its extension and count the
//! lines and words of a text file. The filesystem reads stay outside; the
//! bytes are handed in.

use vstd::prelude::*;
use crate::text::{NEWLINE, is_space_byte, lower_seq, to_lower};

verus! {

/// The bytes `"image/"`.
pub open spec fn image_prefix() -> Seq<u8> {
    seq![0x69u8, 0x6du8, 0x61u8, 0x67u8, 0x65u8, 0x2fu8]
}

/// The bytes `"text/plain"`.
pub open spec fn text_plain() -> Seq<u8> {
    seq![0x74u8, 0x65u8, 0x78u8, 0x74u8, 0x2fu8, 0x70u8, 0x6cu8, 0x61u8, 0x69u8, 0x6eu8]
}

/// The bytes `"application/octet-stream"`.
pub open spec fn octet_stream() -> Seq<u8> {
    seq![
        0x61u8, 0x70u8, 0x70u8, 0x6cu8, 0x69u8, 0x63u8, 0x61u8, 0x74u8, 0x69u8, 0x6fu8, 0x6eu8,
        0x2fu8, 0x6fu8, 0x63u8, 0x74u8, 0x65u8, 0x74u8, 0x2du8, 0x73u8, 0x74u8, 0x72u8, 0x65u8,
        0x61u8, 0x6du8,
    ]
}

/// A lower-cased extension of an image format: jpg, jpeg, png, gif, bmp or
/// webp.
pub open spec fn is_image_ext(e: Seq<u8>) -> bool {
    ||| e == seq![0x6au8, 0x70u8, 0x67u8]
    ||| e == seq![0x6au8, 0x70u8, 0x65u8, 0x67u8]
    ||| e == seq![0x70u8, 0x6eu8, 0x67u8]
    ||| e == seq![0x67u8, 0x69u8, 0x66u8]
    ||| e == seq![0x62u8, 0x6du8, 0x70u8]
    ||| e == seq![0x77u8, 0x65u8, 0x62u8, 0x70u8]
}

/// A lower-cased extension of a plain-text format: txt, md, rs, ts, js,
/// json, html, css, py, c, cpp or h.
pub open spec fn is_text_ext(e: Seq<u8>) -> bool {
    ||| e == seq![0x74u8, 0x78u8, 0x74u8]
    ||| e == seq![0x6du8, 0x64u8]
    ||| e == seq![0x72u8, 0x73u8]
    ||| e == seq![0x74u8, 0x73u8]
    ||| e == seq![0x6au8, 0x73u8]
    ||| e == seq![0x6au8, 0x73u8, 0x6fu8, 0x6eu8]
    ||| e == seq![0x68u8, 0x74u8, 0x6du8, 0x6cu8]
    ||| e == seq![0x63u8, 0x73u8, 0x73u8]
    ||| e == seq![0x70u8, 0x79u8]
    ||| e == seq![0x63u8]
    ||| e == seq![0x63u8, 0x70u8, 0x70u8]
    ||| e == seq![0x68u8]
}

/// The media type an extension stands for: `image/` and the extension for
/// the image formats, plain text for the text formats, an opaque stream
/// for everything else.
pub open spec fn mime_of(e: Seq<u8>) -> Seq<u8> {
    if is_image_ext(e) {
        image_prefix() + e
    } else if is_text_ext(e) {
        text_plain()
    } else {
        octet_stream()
    }
}

/// Classify a file extension, case blind, into its media type.
pub fn mime_for_extension(ext: &[u8]) -> (r: Vec<u8>)
    ensures
        r@ == mime_of(lower_seq(ext@)),
{
    let low = to_lower(ext);
    let e = low.as_slice();
    let n = e.len();
    let image = (n == 3 && e[0] == 0x6a && e[1] == 0x70 && e[2] == 0x67) || (n == 4 && e[0] == 0x6a
        && e[1] == 0x70 && e[2] == 0x65 && e[3] == 0x67) || (n == 3 && e[0] == 0x70 && e[1] == 0x6e
        && e[2] == 0x67) || (n == 3 && e[0] == 0x67 && e[1] == 0x69 && e[2] == 0x66) || (n == 3
        && e[0] == 0x62 && e[1] == 0x6d && e[2] == 0x70) || (n == 4 && e[0] == 0x77 && e[1] == 0x65
        && e[2] == 0x62 && e[3] == 0x70);
    proof {
        if image {
            assert(is_image_ext(e@)) by {
                if n == 3 && e[0] == 0x6a {
                    assert(e@ =~= seq![0x6au8, 0x70u8, 0x67u8]);
                } else if n == 4 && e[0] == 0x6a {
                    assert(e@ =~= seq![0x6au8, 0x70u8, 0x65u8, 0x67u8]);
                } else if e[0] == 0x70 {
                    assert(e@ =~= seq![0x70u8, 0x6eu8, 0x67u8]);
                } else if e[0] == 0x67 {
                    assert(e@ =~= seq![0x67u8, 0x69u8, 0x66u8]);
                } else if e[0] == 0x62 {
                    assert(e@ =~= seq![0x62u8, 0x6du8, 0x70u8]);
                } else {
                    assert(e@ =~= seq![0x77u8, 0x65u8, 0x62u8, 0x70u8]);
                }
            }
        } else {
            assert(!is_image_ext(e@));
        }
    }
    if image {
        let mut out: Vec<u8> = Vec::new();
        out.push(0x69);
        out.push(0x6d);
        out.push(0x61);
        out.push(0x67);
        out.push(0x65);
        out.push(0x2f);
        out.extend_from_slice(e);
        proof {
            assert(out@ =~= image_prefix() + e@);
        }
        return out;
    }
    let text = (n == 3 && e[0] == 0x74 && e[1] == 0x78 && e[2] == 0x74) || (n == 2 && e[0] == 0x6d
        && e[1] == 0x64) || (n == 2 && e[0] == 0x72 && e[1] == 0x73) || (n == 2 && e[0] == 0x74
        && e[1] == 0x73) || (n == 2 && e[0] == 0x6a && e[1] == 0x73) || (n == 4 && e[0] == 0x6a
        && e[1] == 0x73 && e[2] == 0x6f && e[3] == 0x6e) || (n == 4 && e[0] == 0x68 && e[1] == 0x74
        && e[2] == 0x6d && e[3] == 0x6c) || (n == 3 && e[0] == 0x63 && e[1] == 0x73 && e[2] == 0x73)
        || (n == 2 && e[0] == 0x70 && e[1] == 0x79) || (n == 1 && e[0] == 0x63) || (n == 3 && e[0]
        == 0x63 && e[1] == 0x70 && e[2] == 0x70) || (n == 1 && e[0] == 0x68);
    proof {
        if text {
            assert(is_text_ext(e@)) by {
                if n == 3 && e[0] == 0x74 {
                    assert(e@ =~= seq![0x74u8, 0x78u8, 0x74u8]);
                } else if n == 2 && e[0] == 0x6d {
                    assert(e@ =~= seq![0x6du8, 0x64u8]);
                } else if n == 2 && e[0] == 0x72 {
                    assert(e@ =~= seq![0x72u8, 0x73u8]);
                } else if n == 2 && e[0] == 0x74 {
                    assert(e@ =~= seq![0x74u8, 0x73u8]);
                } else if n == 2 && e[0] == 0x6a {
                    assert(e@ =~= seq![0x6au8, 0x73u8]);
                } else if n == 4 && e[0] == 0x6a {
                    assert(e@ =~= seq![0x6au8, 0x73u8, 0x6fu8, 0x6eu8]);
                } else if n == 4 && e[0] == 0x68 {
                    assert(e@ =~= seq![0x68u8, 0x74u8, 0x6du8, 0x6cu8]);
                } else if n == 3 && e[0] == 0x63 && e[1] == 0x73 {
                    assert(e@ =~= seq![0x63u8, 0x73u8, 0x73u8]);
                } else if n == 2 {
                    assert(e@ =~= seq![0x70u8, 0x79u8]);
                } else if n == 1 && e[0] == 0x63 {
                    assert(e@ =~= seq![0x63u8]);
                } else if n == 3 {
                    assert(e@ =~= seq![0x63u8, 0x70u8, 0x70u8]);
                } else {
                    assert(e@ =~= seq![0x68u8]);
                }
            }
        } else {
            assert(!is_text_ext(e@));
        }
    }
    if text {
        let mut out: Vec<u8> = Vec::new();
        out.push(0x74);
        out.push(0x65);
        out.push(0x78);
        out.push(0x74);
        out.push(0x2f);
        out.push(0x70);
        out.push(0x6c);
        out.push(0x61);
        out.push(0x69);
        out.push(0x6e);
        proof {
            assert(out@ =~= text_plain());
        }
        return out;
    }
    let mut out: Vec<u8> = Vec::new();
    out.push(0x61);
    out.push(0x70);
    out.push(0x70);
    out.push(0x6c);
    out.push(0x69);
    out.push(0x63);
    out.push(0x61);
    out.push(0x74);
    out.push(0x69);
    out.push(0x6f);
    out.push(0x6e);
    out.push(0x2f);
    out.push(0x6f);
    out.push(0x63);
    out.push(0x74);
    out.push(0x65);
    out.push(0x74);
    out.push(0x2d);
    out.push(0x73);
    out.push(0x74);
    out.push(0x72);
    out.push(0x65);
    out.push(0x61);
    out.push(0x6d);
    proof {
        assert(out@ =~= octet_stream());
    }
    out
}

/// How many newlines stand in the bytes.
pub open spec fn nl_tally(s: Seq<u8>) -> int
    decreases s.len(),
{
    if s.len() == 0 {
        0
    } else {
        (if s[0] == NEWLINE {
            1int
        } else {
            0int
        }) + nl_tally(s.skip(1))
    }
}

/// How many lines a text file has: one per newline, and one more for a
/// final line left unterminated.
pub open spec fn line_tally(s: Seq<u8>) -> int {
    nl_tally(s) + if s.len() > 0 && s[s.len() - 1] != NEWLINE {
        1int
    } else {
        0int
    }
}

/// How many words follow, entering with or without a word in progress: a
/// word is a maximal run of non-whitespace bytes.
pub open spec fn word_tally(s: Seq<u8>, in_word: bool) -> int
    decreases s.len(),
{
    if s.len() == 0 {
        0
    } else if is_space_byte(s[0]) {
        word_tally(s.skip(1), false)
    } else {
        (if in_word {
            0int
        } else {
            1int
        }) + word_tally(s.skip(1), true)
    }
}

/// Count the lines and the whitespace-separated words of a text file.
pub fn text_stats(content: &[u8]) -> (r: (usize, usize))
    ensures
        r.0 == line_tally(content@),
        r.1 == word_tally(content@, false),
{
    let n = content.len();
    let mut lines: usize = 0;
    let mut words: usize = 0;
    let mut in_word = false;
    let mut i: usize = 0;
    proof {
        assert(content@.skip(0) =~= content@);
    }
    while i < n
        invariant
            i <= n,
            n == content@.len(),
            lines <= i,
            words <= i,
            nl_tally(content@) == lines + nl_tally(content@.skip(i as int)),
            word_tally(content@, false) == words + word_tally(content@.skip(i as int), in_word),
        decreases n - i,
    {
        let b = content[i];
        proof {
            assert(content@.skip(i as int)[0] == content@[i as int]);
            assert(content@.skip(i as int).skip(1) =~= content@.skip(i as int + 1));
        }
        if b == NEWLINE {
            lines = lines + 1;
        }
        if b == crate::text::SPACE || b == crate::text::TAB || b == NEWLINE
            || b == crate::text::CARRIAGE {
            in_word = false;
        } else {
            if !in_word {
                words = words + 1;
            }
            in_word = true;
        }
        i = i + 1;
    }
    proof {
        assert(content@.skip(n as int) =~= Seq::<u8>::empty());
    }
    let total_lines = if n > 0 && content[n - 1] != NEWLINE {
        proof {
            lemma_nl_tally_bound(content@);
        }
        lines + 1
    } else {
        lines
    };
    (total_lines, words)
}

/// A text not ending in a newline has fewer newlines than bytes.
proof fn lemma_nl_tally_bound(s: Seq<u8>)
    requires
        s.len() > 0,
        s[s.len() - 1] != NEWLINE,
    ensures
        nl_tally(s) < s.len(),
    decreases s.len(),
{
    if s.len() == 1 {
        assert(s.skip(1).len() == 0);
        assert(nl_tally(s.skip(1)) == 0);
    } else {
        assert(s.skip(1)[s.skip(1).len() - 1] == s[s.len() - 1]);
        lemma_nl_tally_bound(s.skip(1));
    }
}

} // verus!
