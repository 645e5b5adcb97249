//! Media-task helpers around the external converter: aggregate results of
//! a batch run, recognise audio files by extension, and the guard that
//! keeps destructive words out of a raw converter command line.

use vstd::prelude::*;
use crate::text::{
    lower_seq, contains_seq, occurs_at, to_lower, contains_bytes, starts_with, trim_bytes,
    trimmed, trim_start_idx, trim_end_idx, views_of, strip_all, strip_all_bytes,
    lemma_trim_start_bounds, lemma_trim_end_bounds,
};
use crate::stream::{all_lines, complete_lines, line_rest, first_nl, split_all_lines};

verus! {

/// Result of one conversion by the external helper.
#[derive(Debug, Clone)]
pub struct ConversionResult {
    pub success: bool,
    pub output_path: Option<String>,
    pub error: Option<String>,
    pub file_size: Option<u64>,
}

/// One input's outcome within a batch run.
#[derive(Debug, Clone)]
pub struct BatchItemResult {
    pub input: String,
    pub result: ConversionResult,
}

/// What a whole batch run reports.
#[derive(Debug, Clone)]
pub struct BatchResult {
    pub success: bool,
    pub total: usize,
    pub success_count: usize,
    pub fail_count: usize,
    pub results: Vec<BatchItemResult>,
}

/// How many of the first `i` items succeeded.
pub open spec fn successes(items: Seq<BatchItemResult>, i: int) -> int
    decreases i,
{
    if i <= 0 {
        0
    } else {
        successes(items, i - 1) + if items[i - 1].result.success {
            1int
        } else {
            0int
        }
    }
}

/// Sum up a batch run: the totals count every item, successes and failures
/// partition them, and the whole batch succeeds exactly when nothing
/// failed.
pub fn batch_summary(results: Vec<BatchItemResult>) -> (r: BatchResult)
    ensures
        r.results@ == results@,
        r.total == results@.len(),
        r.success_count == successes(results@, results@.len() as int),
        r.fail_count == results@.len() - successes(results@, results@.len() as int),
        r.success <==> successes(results@, results@.len() as int) == results@.len(),
{
    let n = results.len();
    let mut ok: usize = 0;
    let mut i: usize = 0;
    while i < n
        invariant
            i <= n,
            n == results@.len(),
            ok == successes(results@, i as int),
            ok <= i,
        decreases n - i,
    {
        if results[i].result.success {
            ok = ok + 1;
        }
        i = i + 1;
    }
    BatchResult {
        success: ok == n,
        total: n,
        success_count: ok,
        fail_count: n - ok,
        results,
    }
}

/// The extensions the music scanner accepts, already lower case.
pub open spec fn audio_extensions() -> Seq<Seq<u8>> {
    seq![
        seq![0x6du8, 0x70u8, 0x33u8],
        seq![0x77u8, 0x61u8, 0x76u8],
        seq![0x66u8, 0x6cu8, 0x61u8, 0x63u8],
        seq![0x6fu8, 0x67u8, 0x67u8],
        seq![0x6du8, 0x34u8, 0x61u8],
    ]
}

/// Whether a lower-cased file extension names an audio format the scanner
/// takes: mp3, wav, flac, ogg or m4a.
pub fn is_audio_extension(ext: &[u8]) -> (r: bool)
    ensures
        r == audio_extensions().contains(lower_seq(ext@)),
{
    let low = to_lower(ext);
    let e = low.as_slice();
    let n = e.len();
    let hit = (n == 3 && e[0] == 0x6d && e[1] == 0x70 && e[2] == 0x33) || (n == 3 && e[0] == 0x77
        && e[1] == 0x61 && e[2] == 0x76) || (n == 4 && e[0] == 0x66 && e[1] == 0x6c && e[2] == 0x61
        && e[3] == 0x63) || (n == 3 && e[0] == 0x6f && e[1] == 0x67 && e[2] == 0x67) || (n == 3
        && e[0] == 0x6d && e[1] == 0x34 && e[2] == 0x61);
    proof {
        if hit {
            assert(audio_extensions().contains(e@)) by {
                if n == 4 {
                    assert(e@ =~= audio_extensions()[2]);
                } else if e[0] == 0x77 {
                    assert(e@ =~= audio_extensions()[1]);
                } else if e[0] == 0x6f {
                    assert(e@ =~= audio_extensions()[3]);
                } else if e[1] == 0x70 {
                    assert(e@ =~= audio_extensions()[0]);
                } else {
                    assert(e@ =~= audio_extensions()[4]);
                }
            }
        } else {
            assert(!audio_extensions().contains(e@)) by {
                if audio_extensions().contains(e@) {
                    let i = choose|i: int|
                        0 <= i < audio_extensions().len() && audio_extensions()[i] == e@;
                    if i == 0 {
                        assert(e@[0] == 0x6d && e@[1] == 0x70 && e@[2] == 0x33);
                    } else if i == 1 {
                        assert(e@[0] == 0x77 && e@[1] == 0x61 && e@[2] == 0x76);
                    } else if i == 2 {
                        assert(e@[0] == 0x66 && e@[1] == 0x6c && e@[2] == 0x61 && e@[3] == 0x63);
                    } else if i == 3 {
                        assert(e@[0] == 0x6f && e@[1] == 0x67 && e@[2] == 0x67);
                    } else {
                        assert(e@[0] == 0x6d && e@[1] == 0x34 && e@[2] == 0x61);
                    }
                }
            }
        }
    }
    hit
}

/// The words a raw converter command line may not contain, lower case,
/// each followed by a space as the guard matches them.
pub open spec fn forbidden_words() -> Seq<Seq<u8>> {
    seq![
        seq![0x72u8, 0x6du8, 0x20u8],
        seq![0x64u8, 0x65u8, 0x6cu8, 0x20u8],
        seq![0x66u8, 0x6fu8, 0x72u8, 0x6du8, 0x61u8, 0x74u8, 0x20u8],
        seq![0x72u8, 0x6du8, 0x64u8, 0x69u8, 0x72u8, 0x20u8],
        seq![0x72u8, 0x64u8, 0x20u8],
    ]
}

/// Whether a raw converter command line contains a destructive word and
/// must be refused: the line is folded to lower case and each forbidden
/// word is sought anywhere in it.
pub fn command_is_forbidden(command: &[u8]) -> (r: bool)
    ensures
        r == exists|k: int|
            0 <= k < forbidden_words().len() && contains_seq(
                lower_seq(command@),
                #[trigger] forbidden_words()[k],
            ),
{
    let low = to_lower(command);
    let h = low.as_slice();
    let mut w: Vec<u8> = Vec::new();
    w.push(0x72);
    w.push(0x6d);
    w.push(0x20);
    proof {
        assert(w@ =~= forbidden_words()[0]);
    }
    if contains_bytes(h, w.as_slice()) {
        return true;
    }
    let mut w: Vec<u8> = Vec::new();
    w.push(0x64);
    w.push(0x65);
    w.push(0x6c);
    w.push(0x20);
    proof {
        assert(w@ =~= forbidden_words()[1]);
    }
    if contains_bytes(h, w.as_slice()) {
        return true;
    }
    let mut w: Vec<u8> = Vec::new();
    w.push(0x66);
    w.push(0x6f);
    w.push(0x72);
    w.push(0x6d);
    w.push(0x61);
    w.push(0x74);
    w.push(0x20);
    proof {
        assert(w@ =~= forbidden_words()[2]);
    }
    if contains_bytes(h, w.as_slice()) {
        return true;
    }
    let mut w: Vec<u8> = Vec::new();
    w.push(0x72);
    w.push(0x6d);
    w.push(0x64);
    w.push(0x69);
    w.push(0x72);
    w.push(0x20);
    proof {
        assert(w@ =~= forbidden_words()[3]);
    }
    if contains_bytes(h, w.as_slice()) {
        return true;
    }
    let mut w: Vec<u8> = Vec::new();
    w.push(0x72);
    w.push(0x64);
    w.push(0x20);
    proof {
        assert(w@ =~= forbidden_words()[4]);
    }
    if contains_bytes(h, w.as_slice()) {
        return true;
    }
    proof {
        assert forall|k: int| 0 <= k < forbidden_words().len() implies !contains_seq(
            lower_seq(command@),
            #[trigger] forbidden_words()[k],
        ) by {
            if k == 0 {
            } else if k == 1 {
            } else if k == 2 {
            } else if k == 3 {
            } else {
            }
        }
    }
    false
}

// ------------------------------------------------------------------
// Picking the converter command out of a generated answer
// ------------------------------------------------------------------

/// The bytes `"ffmpeg"`.
pub open spec fn converter_word() -> Seq<u8> {
    seq![0x66u8, 0x66u8, 0x6du8, 0x70u8, 0x65u8, 0x67u8]
}

/// The bytes `"ffprobe"`.
pub open spec fn prober_word() -> Seq<u8> {
    seq![0x66u8, 0x66u8, 0x70u8, 0x72u8, 0x6fu8, 0x62u8, 0x65u8]
}

/// The bytes of a code fence, three backticks.
pub open spec fn fence_word() -> Seq<u8> {
    seq![0x60u8, 0x60u8, 0x60u8]
}

/// The bytes of a fence opening a shell block, ```` ```bash ````.
pub open spec fn fence_bash() -> Seq<u8> {
    seq![0x60u8, 0x60u8, 0x60u8, 0x62u8, 0x61u8, 0x73u8, 0x68u8]
}

/// The bytes of a fence opening a shell block, ```` ```shell ````.
pub open spec fn fence_shell() -> Seq<u8> {
    seq![0x60u8, 0x60u8, 0x60u8, 0x73u8, 0x68u8, 0x65u8, 0x6cu8, 0x6cu8]
}

/// A generated answer with every code-fence marker removed: the named
/// shell fences first, then every bare fence.
pub open spec fn cleaned_answer(s: Seq<u8>) -> Seq<u8> {
    strip_all(strip_all(strip_all(s, fence_bash()), fence_shell()), fence_word())
}

/// Removing every bare fence leaves no fence behind: an emitted byte never
/// begins a fence, since three backticks at an emitted position would have
/// been removed there.
proof fn lemma_strip_fence_clean(s: Seq<u8>)
    ensures
        !contains_seq(strip_all(s, fence_word()), fence_word()),
    decreases s.len(),
{
    let f = fence_word();
    let r = strip_all(s, f);
    if s.len() < 3 {
        assert(!contains_seq(r, f)) by {
            if contains_seq(r, f) {
                let i = choose|i: int| occurs_at(r, f, i);
            }
        }
    } else if s.subrange(0, 3) == f {
        lemma_strip_fence_clean(s.skip(3));
    } else {
        lemma_strip_fence_clean(s.skip(1));
        let rp = strip_all(s.skip(1), f);
        assert(r == seq![s[0]] + rp);
        assert(!contains_seq(r, f)) by {
            if contains_seq(r, f) {
                let i = choose|i: int| occurs_at(r, f, i);
                assert(r[i] == 0x60 && r[i + 1] == 0x60 && r[i + 2] == 0x60) by {
                    assert(r.subrange(i, i + 3)[0] == f[0]);
                    assert(r.subrange(i, i + 3)[1] == f[1]);
                    assert(r.subrange(i, i + 3)[2] == f[2]);
                }
                if i >= 1 {
                    assert(occurs_at(rp, f, i - 1)) by {
                        assert(rp.subrange(i - 1, i + 2) =~= f) by {
                            assert(rp[i - 1] == r[i] && rp[i] == r[i + 1] && rp[i + 1] == r[i + 2]);
                            assert(forall|m: int| 0 <= m < 3 ==> r.subrange(i, i + 3)[m]
                                == #[trigger] f[m]);
                        }
                    }
                    assert(contains_seq(rp, f));
                } else {
                    assert(s[0] == 0x60);
                    assert(rp[0] == r[1] && rp[1] == r[2]);
                    if s.skip(1).len() < 3 {
                        assert(rp == s.skip(1));
                        assert(s[1] == rp[0] && s[2] == rp[1]);
                        assert(s.subrange(0, 3) =~= f);
                    } else if s.skip(1).subrange(0, 3) == f {
                        assert(s[1] == s.skip(1).subrange(0, 3)[0]);
                        assert(s[2] == s.skip(1).subrange(0, 3)[1]);
                        assert(s.subrange(0, 3) =~= f);
                    } else {
                        assert(rp == seq![s.skip(1)[0]] + strip_all(s.skip(1).skip(1), f));
                        assert(rp[0] == s[1]);
                        assert(s[1] == 0x60);
                        let rq = strip_all(s.skip(2), f);
                        assert(s.skip(1).skip(1) =~= s.skip(2));
                        assert(rp[1] == rq[0]);
                        if s.skip(2).len() < 3 {
                            assert(rq == s.skip(2));
                            assert(rq[0] == s[2]);
                        } else if s.skip(2).subrange(0, 3) == f {
                            assert(s[2] == s.skip(2).subrange(0, 3)[0]);
                        } else {
                            assert(rq == seq![s.skip(2)[0]] + strip_all(s.skip(2).skip(1), f));
                            assert(rq[0] == s[2]);
                        }
                        assert(s[2] == 0x60);
                        assert(s.subrange(0, 3) =~= f);
                    }
                }
            }
        }
    }
}

/// An occurrence within one line of a text occurs within the text.
proof fn lemma_line_carries(s: Seq<u8>, k: int, p: Seq<u8>)
    requires
        0 <= k < all_lines(s).len(),
        contains_seq(all_lines(s)[k], p),
    ensures
        contains_seq(s, p),
    decreases s.len(),
{
    let k0 = first_nl(s);
    if 0 <= k0 < s.len() {
        assert(all_lines(s) =~= seq![s.take(k0)] + all_lines(s.skip(k0 + 1)));
        if k == 0 {
            let i = choose|i: int| #[trigger] occurs_at(s.take(k0), p, i);
            assert(s.subrange(i, i + p.len() as int) =~= s.take(k0).subrange(
                i,
                i + p.len() as int,
            ));
            assert(occurs_at(s, p, i));
        } else {
            lemma_line_carries(s.skip(k0 + 1), k - 1, p);
            let i = choose|i: int| #[trigger] occurs_at(s.skip(k0 + 1), p, i);
            assert(s.subrange(k0 + 1 + i, k0 + 1 + i + p.len() as int) =~= s.skip(
                k0 + 1,
            ).subrange(i, i + p.len() as int));
            assert(occurs_at(s, p, k0 + 1 + i));
        }
    } else {
        assert(all_lines(s)[k] == s);
    }
}

/// An occurrence within a trimmed text occurs within the text.
proof fn lemma_trim_carries(l: Seq<u8>, p: Seq<u8>)
    requires
        contains_seq(trimmed(l), p),
    ensures
        contains_seq(l, p),
{
    let i = choose|i: int| #[trigger] occurs_at(trimmed(l), p, i);
    let a = trim_start_idx(l, 0);
    let b = trim_end_idx(l, l.len() as int);
    lemma_trim_start_bounds(l, 0);
    lemma_trim_end_bounds(l, l.len() as int);
    if a <= b {
        assert(l.subrange(a + i, a + i + p.len() as int) =~= trimmed(l).subrange(
            i,
            i + p.len() as int,
        ));
        assert(occurs_at(l, p, a + i));
    } else {
        assert(p.len() == 0);
        assert(l.subrange(0, 0) =~= p);
        assert(occurs_at(l, p, 0));
    }
}

/// A line that is a converter invocation: trimmed, it starts with the
/// converter's or the prober's name.
pub open spec fn is_command_line(l: Seq<u8>) -> bool {
    occurs_at(trimmed(l), converter_word(), 0) || occurs_at(trimmed(l), prober_word(), 0)
}

/// A line with no command to offer: blank once trimmed, or a code fence.
pub open spec fn is_filler_line(l: Seq<u8>) -> bool {
    trimmed(l).len() == 0 || occurs_at(trimmed(l), fence_word(), 0)
}

/// The first index whose line is a converter invocation.
pub open spec fn first_command(ls: Seq<Seq<u8>>) -> Option<int>
    decreases ls.len(),
{
    if ls.len() == 0 {
        None
    } else if is_command_line(ls[0]) {
        Some(0)
    } else {
        match first_command(ls.skip(1)) {
            Some(i) => Some(i + 1),
            None => None,
        }
    }
}

/// The first index whose line is no filler.
pub open spec fn first_content(ls: Seq<Seq<u8>>) -> Option<int>
    decreases ls.len(),
{
    if ls.len() == 0 {
        None
    } else if !is_filler_line(ls[0]) {
        Some(0)
    } else {
        match first_content(ls.skip(1)) {
            Some(i) => Some(i + 1),
            None => None,
        }
    }
}

/// What a generated answer yields: its first converter invocation, trimmed;
/// failing one, its first line that is neither blank nor a code fence; and
/// failing that, nothing.
pub open spec fn picked_command(ls: Seq<Seq<u8>>) -> Seq<u8> {
    match first_command(ls) {
        Some(i) => trimmed(ls[i]),
        None => match first_content(ls) {
            Some(i) => trimmed(ls[i]),
            None => Seq::empty(),
        },
    }
}

/// The found index of a command line is the first one.
proof fn lemma_first_command_at(ls: Seq<Seq<u8>>, k: int)
    requires
        0 <= k < ls.len(),
        is_command_line(ls[k]),
        forall|m: int| 0 <= m < k ==> !is_command_line(#[trigger] ls[m]),
    ensures
        first_command(ls) == Some(k),
    decreases ls.len(),
{
    if k > 0 {
        lemma_first_command_at(ls.skip(1), k - 1);
    }
}

/// With no command line anywhere, none is found.
proof fn lemma_first_command_none(ls: Seq<Seq<u8>>)
    requires
        forall|m: int| 0 <= m < ls.len() ==> !is_command_line(#[trigger] ls[m]),
    ensures
        first_command(ls) is None,
    decreases ls.len(),
{
    if ls.len() > 0 {
        lemma_first_command_none(ls.skip(1));
    }
}

/// The found index of a content line is the first one.
proof fn lemma_first_content_at(ls: Seq<Seq<u8>>, k: int)
    requires
        0 <= k < ls.len(),
        !is_filler_line(ls[k]),
        forall|m: int| 0 <= m < k ==> is_filler_line(#[trigger] ls[m]),
    ensures
        first_content(ls) == Some(k),
    decreases ls.len(),
{
    if k > 0 {
        lemma_first_content_at(ls.skip(1), k - 1);
    }
}

/// With nothing but filler, no content line is found.
proof fn lemma_first_content_none(ls: Seq<Seq<u8>>)
    requires
        forall|m: int| 0 <= m < ls.len() ==> is_filler_line(#[trigger] ls[m]),
    ensures
        first_content(ls) is None,
    decreases ls.len(),
{
    if ls.len() > 0 {
        lemma_first_content_none(ls.skip(1));
    }
}

/// Whether a trimmed line begins a converter invocation.
fn trimmed_is_command(line: &[u8]) -> (r: bool)
    ensures
        r == is_command_line(line@),
{
    let t = trim_bytes(line);
    let mut w: Vec<u8> = Vec::new();
    w.push(0x66);
    w.push(0x66);
    w.push(0x6d);
    w.push(0x70);
    w.push(0x65);
    w.push(0x67);
    proof {
        assert(w@ =~= converter_word());
    }
    if starts_with(t.as_slice(), w.as_slice()) {
        return true;
    }
    let mut w: Vec<u8> = Vec::new();
    w.push(0x66);
    w.push(0x66);
    w.push(0x70);
    w.push(0x72);
    w.push(0x6f);
    w.push(0x62);
    w.push(0x65);
    proof {
        assert(w@ =~= prober_word());
    }
    starts_with(t.as_slice(), w.as_slice())
}

/// Whether a line is filler: blank once trimmed, or a code fence.
fn trimmed_is_filler(line: &[u8]) -> (r: bool)
    ensures
        r == is_filler_line(line@),
{
    let t = trim_bytes(line);
    if t.len() == 0 {
        return true;
    }
    let mut w: Vec<u8> = Vec::new();
    w.push(0x60);
    w.push(0x60);
    w.push(0x60);
    proof {
        assert(w@ =~= fence_word());
    }
    starts_with(t.as_slice(), w.as_slice())
}

/// Pick the converter command line out of a generated answer: every code
/// fence is first removed from the whole answer, then the first line that
/// invokes the converter or the prober is taken, trimmed; failing one, the
/// first remaining line that is not blank; failing that, an empty command.
/// Whatever is picked never carries a fence marker.
pub fn extract_command_line(response: &[u8]) -> (r: Vec<u8>)
    ensures
        r@ == picked_command(all_lines(cleaned_answer(response@))),
        !contains_seq(r@, fence_word()),
{
    broadcast use crate::text::lemma_views_of_len, crate::text::lemma_views_of_index;

    let mut marker: Vec<u8> = Vec::new();
    marker.push(0x60);
    marker.push(0x60);
    marker.push(0x60);
    let mut bash_marker = crate::text::copy_bytes(&marker);
    bash_marker.push(0x62);
    bash_marker.push(0x61);
    bash_marker.push(0x73);
    bash_marker.push(0x68);
    let mut shell_marker = crate::text::copy_bytes(&marker);
    shell_marker.push(0x73);
    shell_marker.push(0x68);
    shell_marker.push(0x65);
    shell_marker.push(0x6c);
    shell_marker.push(0x6c);
    proof {
        assert(marker@ =~= fence_word());
        assert(bash_marker@ =~= fence_bash());
        assert(shell_marker@ =~= fence_shell());
    }
    let pass1 = strip_all_bytes(response, bash_marker.as_slice());
    let pass2 = strip_all_bytes(pass1.as_slice(), shell_marker.as_slice());
    let cleaned = strip_all_bytes(pass2.as_slice(), marker.as_slice());
    let ghost cs = cleaned_answer(response@);
    proof {
        lemma_strip_fence_clean(pass2@);
    }
    let lines = split_all_lines(cleaned.as_slice());
    let ghost ls = views_of(lines@);
    let n = lines.len();
    let mut i: usize = 0;
    while i < n
        invariant
            i <= n,
            n == lines@.len(),
            ls == views_of(lines@),
            ls == all_lines(cs),
            cs == cleaned_answer(response@),
            !contains_seq(cs, fence_word()),
            forall|m: int| 0 <= m < i ==> !is_command_line(#[trigger] ls[m]),
        decreases n - i,
    {
        if trimmed_is_command(lines[i].as_slice()) {
            proof {
                lemma_first_command_at(ls, i as int);
                assert(!contains_seq(trimmed(ls[i as int]), fence_word())) by {
                    if contains_seq(trimmed(ls[i as int]), fence_word()) {
                        lemma_trim_carries(ls[i as int], fence_word());
                        lemma_line_carries(cs, i as int, fence_word());
                    }
                }
            }
            return trim_bytes(lines[i].as_slice());
        }
        i = i + 1;
    }
    proof {
        lemma_first_command_none(ls);
    }
    let mut i: usize = 0;
    while i < n
        invariant
            i <= n,
            n == lines@.len(),
            ls == views_of(lines@),
            ls == all_lines(cs),
            cs == cleaned_answer(response@),
            !contains_seq(cs, fence_word()),
            first_command(ls) is None,
            forall|m: int| 0 <= m < i ==> is_filler_line(#[trigger] ls[m]),
        decreases n - i,
    {
        if !trimmed_is_filler(lines[i].as_slice()) {
            proof {
                lemma_first_content_at(ls, i as int);
                assert(!contains_seq(trimmed(ls[i as int]), fence_word())) by {
                    if contains_seq(trimmed(ls[i as int]), fence_word()) {
                        lemma_trim_carries(ls[i as int], fence_word());
                        lemma_line_carries(cs, i as int, fence_word());
                    }
                }
            }
            return trim_bytes(lines[i].as_slice());
        }
        i = i + 1;
    }
    proof {
        lemma_first_content_none(ls);
        assert(!contains_seq(Seq::<u8>::empty(), fence_word())) by {
            if contains_seq(Seq::<u8>::empty(), fence_word()) {
                let q = choose|q: int| #[trigger] occurs_at(Seq::<u8>::empty(), fence_word(), q);
            }
        }
    }
    Vec::new()
}

// ------------------------------------------------------------------
// Choosing a generation model
// ------------------------------------------------------------------

/// Position of the first colon, or the length when there is none.
pub open spec fn first_colon(s: Seq<u8>) -> int
    decreases s.len(),
{
    if s.len() == 0 {
        0
    } else if s[0] == 0x3a {
        0
    } else {
        1 + first_colon(s.skip(1))
    }
}

/// The colon never stands past the end.
proof fn lemma_first_colon_bounds(s: Seq<u8>)
    ensures
        0 <= first_colon(s) <= s.len(),
    decreases s.len(),
{
    if s.len() > 0 && s[0] != 0x3a {
        lemma_first_colon_bounds(s.skip(1));
    }
}

/// The colon stands where it stands.
proof fn lemma_first_colon_scan(s: Seq<u8>, k: int)
    requires
        0 <= k <= s.len(),
        k == s.len() || s[k] == 0x3a,
        forall|m: int| 0 <= m < k ==> s[m] != 0x3a,
    ensures
        first_colon(s) == k,
    decreases k,
{
    if s.len() > 0 && s[0] != 0x3a {
        lemma_first_colon_scan(s.skip(1), k - 1);
    }
}

/// A preferred model's family: its name up to the first colon, where the
/// tag begins.
pub open spec fn model_family(p: Seq<u8>) -> Seq<u8> {
    p.take(first_colon(p))
}

/// Whether some installed model belongs to the preferred family, that is,
/// its name starts with it.
pub open spec fn family_installed(installed: Seq<Seq<u8>>, p: Seq<u8>) -> bool {
    exists|i: int| 0 <= i < installed.len() && occurs_at(#[trigger] installed[i], model_family(p), 0)
}

/// The model the generator uses: the first preferred one whose family is
/// installed; failing one, the first installed model; failing that, the
/// fallback.
pub open spec fn chosen_model(
    preferred: Seq<Seq<u8>>,
    installed: Seq<Seq<u8>>,
    fallback: Seq<u8>,
) -> Seq<u8>
    decreases preferred.len(),
{
    if preferred.len() == 0 {
        if installed.len() > 0 {
            installed[0]
        } else {
            fallback
        }
    } else if family_installed(installed, preferred[0]) {
        preferred[0]
    } else {
        chosen_model(preferred.skip(1), installed, fallback)
    }
}

/// Whether any installed model starts with the family.
fn any_family_match(installed: &Vec<Vec<u8>>, family: &[u8]) -> (r: bool)
    ensures
        r == exists|i: int|
            0 <= i < installed@.len() && occurs_at(#[trigger] installed@[i]@, family@, 0),
{
    let n = installed.len();
    let mut i: usize = 0;
    while i < n
        invariant
            i <= n,
            n == installed@.len(),
            forall|m: int| 0 <= m < i ==> !occurs_at(#[trigger] installed@[m]@, family@, 0),
        decreases n - i,
    {
        if starts_with(installed[i].as_slice(), family) {
            return true;
        }
        i = i + 1;
    }
    false
}

/// The family prefix of a model name.
fn family_of(p: &[u8]) -> (r: Vec<u8>)
    ensures
        r@ == model_family(p@),
{
    let n = p.len();
    let mut k: usize = 0;
    while k < n && p[k] != 0x3a
        invariant
            k <= n,
            n == p@.len(),
            forall|m: int| 0 <= m < k ==> p@[m] != 0x3a,
        decreases n - k,
    {
        k = k + 1;
    }
    proof {
        lemma_first_colon_scan(p@, k as int);
    }
    let mut out: Vec<u8> = Vec::new();
    let mut m: usize = 0;
    while m < k
        invariant
            m <= k <= n,
            n == p@.len(),
            out@ == p@.subrange(0, m as int),
        decreases k - m,
    {
        out.push(p[m]);
        m = m + 1;
        proof {
            assert(out@ =~= p@.subrange(0, m as int));
        }
    }
    out
}

/// Choose the generation model: the first preferred one whose family is
/// installed, else the first installed one, else the fallback.
pub fn choose_model(
    preferred: &Vec<Vec<u8>>,
    installed: &Vec<Vec<u8>>,
    fallback: &Vec<u8>,
) -> (r: Vec<u8>)
    ensures
        r@ == chosen_model(views_of(preferred@), views_of(installed@), fallback@),
{
    broadcast use crate::text::lemma_views_of_len, crate::text::lemma_views_of_index;

    let ghost ps = views_of(preferred@);
    let ghost ins = views_of(installed@);
    let n = preferred.len();
    let mut i: usize = 0;
    proof {
        assert(ps.skip(0) =~= ps);
    }
    while i < n
        invariant
            i <= n,
            n == preferred@.len(),
            ps == views_of(preferred@),
            ins == views_of(installed@),
            chosen_model(ps, ins, fallback@) == chosen_model(ps.skip(i as int), ins, fallback@),
        decreases n - i,
    {
        proof {
            assert(ps.skip(i as int)[0] == ps[i as int]);
            assert(ps.skip(i as int).skip(1) =~= ps.skip(i as int + 1));
        }
        let family = family_of(preferred[i].as_slice());
        if any_family_match(installed, family.as_slice()) {
            proof {
                assert(family_installed(ins, ps[i as int])) by {
                    let w = choose|w: int|
                        0 <= w < installed@.len() && occurs_at(installed@[w]@, family@, 0);
                    assert(occurs_at(ins[w], model_family(ps[i as int]), 0));
                }
            }
            return crate::text::copy_bytes(&preferred[i]);
        }
        proof {
            assert(!family_installed(ins, ps[i as int])) by {
                if family_installed(ins, ps[i as int]) {
                    let w = choose|w: int|
                        0 <= w < ins.len() && occurs_at(#[trigger] ins[w], model_family(
                            ps[i as int],
                        ), 0);
                    assert(occurs_at(installed@[w]@, family@, 0));
                }
            }
        }
        i = i + 1;
    }
    proof {
        assert(ps.skip(n as int) =~= Seq::<Seq<u8>>::empty());
    }
    if installed.len() > 0 {
        crate::text::copy_bytes(&installed[0])
    } else {
        crate::text::copy_bytes(fallback)
    }
}

} // verus!
