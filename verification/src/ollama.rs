//! Model-runtime bookkeeping around the local model server: the status
//! gate that orders its probes, the per-platform installer source, and the
//! once-per-percent rule that paces download progress events.
//!
//! The probes themselves — a path lookup, an HTTP ping, a version query —
//! are I/O outside the library; their results are handed in.

use vstd::prelude::*;
use crate::stream::{all_lines, split_all_lines};
use crate::text::{SPACE, is_space_byte, views_of};

verus! {

/// Whether the model server is present and reachable.
#[derive(Debug, Clone)]
pub struct OllamaStatus {
    pub installed: bool,
    pub running: bool,
    pub version: Option<String>,
}

/// One installed model as the server lists it.
#[derive(Debug, Clone)]
pub struct OllamaModel {
    pub name: String,
    pub size: u64,
    pub digest: String,
    pub modified_at: String,
    pub details: Option<OllamaModelDetails>,
}

/// The detail block of a listed model.
#[derive(Debug, Clone)]
pub struct OllamaModelDetails {
    pub format: String,
    pub family: String,
    pub families: Option<Vec<String>>,
    pub parameter_size: String,
    pub quantization_level: String,
}

/// One step of a model download as the server streams it.
#[derive(Debug, Clone)]
pub struct ModelDownloadProgress {
    pub status: String,
    pub digest: String,
    pub total: u64,
    pub completed: u64,
}

/// Assemble the server's status from its probes, in their gated order: the
/// running probe counts only on an installed server, and a version is
/// reported only while the server is installed and running.
pub fn ollama_status(installed: bool, running_probe: bool, version_probe: Option<String>) -> (r:
    OllamaStatus)
    ensures
        r.installed == installed,
        r.running == (installed && running_probe),
        installed && running_probe ==> r.version == version_probe,
        !(installed && running_probe) ==> r.version is None,
{
    let running = installed && running_probe;
    let version = if running {
        version_probe
    } else {
        None
    };
    OllamaStatus { installed, running, version }
}

/// Where the installer is fetched from.
#[derive(Debug, Clone, PartialEq, Eq)]
pub enum InstallPlatform {
    Windows,
    MacArm,
    MacIntel,
    Linux,
}

/// The installer source for each platform.
pub fn ollama_download_url(platform: &InstallPlatform) -> (r: &'static str)
    ensures
        platform is Windows ==> r@ == "https://ollama.com/download/OllamaSetup.exe"@,
        platform is MacArm ==> r@ == "https://ollama.com/download/Ollama-darwin-arm64.zip"@,
        platform is MacIntel ==> r@ == "https://ollama.com/download/Ollama-darwin.zip"@,
        platform is Linux ==> r@ == "https://ollama.com/install.sh"@,
{
    match platform {
        InstallPlatform::Windows => "https://ollama.com/download/OllamaSetup.exe",
        InstallPlatform::MacArm => "https://ollama.com/download/Ollama-darwin-arm64.zip",
        InstallPlatform::MacIntel => "https://ollama.com/download/Ollama-darwin.zip",
        InstallPlatform::Linux => "https://ollama.com/install.sh",
    }
}

/// The reporting step of an installer download: one hundredth of the total,
/// at least one byte.
pub open spec fn emit_step(total: nat) -> nat {
    if total / 100 >= 1 {
        total / 100
    } else {
        1
    }
}

/// Whether a progress event is due: once every hundredth of the total, and
/// always at the end.
pub fn should_emit_progress(downloaded: u64, total: u64) -> (r: bool)
    ensures
        r == (downloaded as nat % emit_step(total as nat) == 0 || downloaded == total),
{
    let step = if total / 100 >= 1 {
        total / 100
    } else {
        1
    };
    downloaded % step == 0 || downloaded == total
}

// ------------------------------------------------------------------
// The model table the command-line lister prints
// ------------------------------------------------------------------

/// One row of the printed model table.
#[derive(Debug, Clone, PartialEq, Eq)]
pub struct ModelListing {
    pub name: Vec<u8>,
    pub size: Vec<u8>,
    pub modified: Vec<u8>,
}

/// End of the run of non-space bytes that starts at `i`.
pub open spec fn nonspace_end(s: Seq<u8>, i: int) -> int
    decreases s.len() - i,
{
    if 0 <= i < s.len() && !is_space_byte(s[i]) {
        nonspace_end(s, i + 1)
    } else {
        i
    }
}

/// The whitespace-separated words from position `i` on. The bound check on
/// the recursion position only justifies termination; a word always ends
/// past where it began.
pub open spec fn words_from(s: Seq<u8>, i: int) -> Seq<Seq<u8>>
    decreases s.len() - i,
{
    if i < 0 || i >= s.len() {
        Seq::empty()
    } else if is_space_byte(s[i]) {
        words_from(s, i + 1)
    } else {
        let j = nonspace_end(s, i);
        if i < j <= s.len() {
            seq![s.subrange(i, j)] + words_from(s, j)
        } else {
            Seq::empty()
        }
    }
}

/// The whitespace-separated words of a line.
pub open spec fn words_of(s: Seq<u8>) -> Seq<Seq<u8>> {
    words_from(s, 0)
}

/// The words joined back with single spaces.
pub open spec fn joined(ws: Seq<Seq<u8>>) -> Seq<u8>
    decreases ws.len(),
{
    if ws.len() == 0 {
        Seq::empty()
    } else if ws.len() == 1 {
        ws[0]
    } else {
        ws[0] + seq![SPACE] + joined(ws.skip(1))
    }
}

/// Mathematical model of one table row.
pub ghost struct ListingModel {
    pub name: Seq<u8>,
    pub size: Seq<u8>,
    pub modified: Seq<u8>,
}

/// The row one line stands for: its first word names the model, its second
/// is the size, and everything after rejoins as the modification time. A
/// line of fewer than three words is no row.
pub open spec fn row_of(line: Seq<u8>) -> Option<ListingModel> {
    let ws = words_of(line);
    if ws.len() >= 3 {
        Some(ListingModel { name: ws[0], size: ws[1], modified: joined(ws.skip(2)) })
    } else {
        None
    }
}

impl View for ModelListing {
    type V = ListingModel;

    open spec fn view(&self) -> ListingModel {
        ListingModel { name: self.name@, size: self.size@, modified: self.modified@ }
    }
}

/// The models of a listing, in order.
pub open spec fn listing_views(rs: Seq<ModelListing>) -> Seq<ListingModel> {
    rs.map_values(|r: ModelListing| r@)
}

/// Taking listing views keeps the length.
pub broadcast proof fn lemma_listing_views_len(rs: Seq<ModelListing>)
    ensures
        #[trigger] listing_views(rs).len() == rs.len(),
{
}

/// Taking listing views keeps each position.
pub broadcast proof fn lemma_listing_views_index(rs: Seq<ModelListing>, k: int)
    requires
        0 <= k < rs.len(),
    ensures
        #[trigger] listing_views(rs)[k] == rs[k]@,
{
}

/// The rows of a list of lines, in order, lines of no row skipped.
pub open spec fn table_rows(ls: Seq<Seq<u8>>) -> Seq<ListingModel>
    decreases ls.len(),
{
    if ls.len() == 0 {
        Seq::empty()
    } else {
        match row_of(ls[0]) {
            Some(r) => seq![r] + table_rows(ls.skip(1)),
            None => table_rows(ls.skip(1)),
        }
    }
}

/// The rows of a whole printout: every line after the header, in order.
pub open spec fn printed_rows(s: Seq<u8>) -> Seq<ListingModel> {
    if all_lines(s).len() >= 1 {
        table_rows(all_lines(s).skip(1))
    } else {
        Seq::empty()
    }
}

/// The run of non-space bytes ends where the spaces resume.
proof fn lemma_nonspace_end_scan(s: Seq<u8>, i: int, k: int)
    requires
        0 <= i <= k <= s.len(),
        k == s.len() || is_space_byte(s[k]),
        forall|m: int| i <= m < k ==> !is_space_byte(#[trigger] s[m]),
    ensures
        nonspace_end(s, i) == k,
    decreases k - i,
{
    if i < k {
        lemma_nonspace_end_scan(s, i + 1, k);
    }
}

/// Split a line into its whitespace-separated words.
fn split_words(line: &[u8]) -> (r: Vec<Vec<u8>>)
    ensures
        views_of(r@) == words_of(line@),
{
    broadcast use crate::text::lemma_views_of_len, crate::text::lemma_views_of_index;

    let n = line.len();
    let mut out: Vec<Vec<u8>> = Vec::new();
    let mut i: usize = 0;
    while i < n
        invariant
            i <= n,
            n == line@.len(),
            words_of(line@) == views_of(out@) + words_from(line@, i as int),
        decreases n - i,
    {
        let b = line[i];
        if b == SPACE || b == crate::text::TAB || b == crate::text::NEWLINE || b
            == crate::text::CARRIAGE {
            i = i + 1;
        } else {
            let mut j = i + 1;
            while j < n && line[j] != SPACE && line[j] != crate::text::TAB && line[j]
                != crate::text::NEWLINE && line[j] != crate::text::CARRIAGE
                invariant
                    i < j <= n,
                    n == line@.len(),
                    forall|m: int| i <= m < j ==> !is_space_byte(#[trigger] line@[m]),
                decreases n - j,
            {
                j = j + 1;
            }
            proof {
                lemma_nonspace_end_scan(line@, i as int, j as int);
            }
            let mut word: Vec<u8> = Vec::new();
            let mut m = i;
            while m < j
                invariant
                    i <= m <= j <= n,
                    n == line@.len(),
                    word@ == line@.subrange(i as int, m as int),
                decreases j - m,
            {
                word.push(line[m]);
                m = m + 1;
                proof {
                    assert(word@ =~= line@.subrange(i as int, m as int));
                }
            }
            let ghost prev = out@;
            out.push(word);
            proof {
                assert(views_of(out@) =~= views_of(prev).push(line@.subrange(i as int, j as int)));
                assert(words_of(line@) =~= views_of(out@) + words_from(line@, j as int));
            }
            i = j;
        }
    }
    proof {
        assert(views_of(out@) =~= words_of(line@));
    }
    out
}

/// Join words back with single spaces, from the given position on.
fn join_words(ws: &Vec<Vec<u8>>, from: usize) -> (r: Vec<u8>)
    requires
        from <= ws@.len(),
    ensures
        r@ == joined(views_of(ws@).skip(from as int)),
    decreases ws@.len() - from,
{
    broadcast use crate::text::lemma_views_of_len, crate::text::lemma_views_of_index;

    proof {
        assert(views_of(ws@).skip(from as int).len() == ws@.len() - from);
    }
    if from == ws.len() {
        proof {
            assert(joined(views_of(ws@).skip(from as int)) =~= Seq::<u8>::empty());
        }
        Vec::new()
    } else if from + 1 == ws.len() {
        proof {
            assert(views_of(ws@).skip(from as int)[0] == ws@[from as int]@);
        }
        crate::text::copy_bytes(&ws[from])
    } else {
        let mut out = crate::text::copy_bytes(&ws[from]);
        out.push(SPACE);
        let mut rest = join_words(ws, from + 1);
        let ghost head = out@;
        out.append(&mut rest);
        proof {
            assert(views_of(ws@).skip(from as int)[0] == ws@[from as int]@);
            assert(views_of(ws@).skip(from as int).skip(1) =~= views_of(ws@).skip(from as int + 1));
            assert(out@ =~= joined(views_of(ws@).skip(from as int)));
        }
        out
    }
}

/// Parse the printed model table: one row per line after the header.
pub fn parse_model_table(out: &[u8]) -> (r: Vec<ModelListing>)
    ensures
        listing_views(r@) == printed_rows(out@),
{
    broadcast use crate::text::lemma_views_of_len, crate::text::lemma_views_of_index;
    broadcast use lemma_listing_views_len, lemma_listing_views_index;

    let lines = split_all_lines(out);
    let mut rows: Vec<ModelListing> = Vec::new();
    let n = lines.len();
    if n == 0 {
        proof {
            assert(listing_views(rows@) =~= printed_rows(out@));
        }
        return rows;
    }
    let ghost body = views_of(lines@).skip(1);
    let mut i: usize = 1;
    proof {
        assert(body.skip(0) =~= body);
    }
    while i < n
        invariant
            1 <= i <= n,
            n == lines@.len(),
            n >= 1,
            body == views_of(lines@).skip(1),
            table_rows(body) == listing_views(rows@) + table_rows(body.skip(i as int - 1)),
        decreases n - i,
    {
        proof {
            assert(body.skip(i as int - 1)[0] == body[i as int - 1]);
            assert(body[i as int - 1] == views_of(lines@)[i as int]);
            assert(body.skip(i as int - 1).skip(1) =~= body.skip(i as int));
        }
        let words = split_words(lines[i].as_slice());
        if words.len() >= 3 {
            let name = crate::text::copy_bytes(&words[0]);
            let size = crate::text::copy_bytes(&words[1]);
            let modified = join_words(&words, 2);
            let row = ModelListing { name, size, modified };
            let ghost prev = rows@;
            rows.push(row);
            proof {
                assert(views_of(words@)[0] == words@[0]@);
                assert(views_of(words@)[1] == words@[1]@);
                assert(views_of(words@).skip(2) =~= views_of(words@).skip(2));
                assert(row@ == row_of(body[i as int - 1])->Some_0);
                assert(listing_views(rows@) =~= listing_views(prev).push(row@));
                assert(table_rows(body) =~= listing_views(rows@) + table_rows(
                    body.skip(i as int),
                ));
            }
        }
        i = i + 1;
    }
    proof {
        assert(body.skip(n as int - 1) =~= Seq::<Seq<u8>>::empty());
        assert(listing_views(rows@) =~= table_rows(body));
    }
    rows
}

} // verus!
