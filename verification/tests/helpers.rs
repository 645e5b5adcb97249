//! The byte helpers and file-inspection functions.

use task_bridge::files::{mime_for_extension, text_stats};
use task_bridge::media::{choose_model, extract_command_line};
use task_bridge::ollama::parse_model_table;
use task_bridge::text::{contains_bytes, starts_with, to_lower, trim_bytes};

#[test]
fn trims_ascii_whitespace() {
    assert_eq!(trim_bytes(b"  hello \r\n"), b"hello".to_vec());
    assert_eq!(trim_bytes(b"hello"), b"hello".to_vec());
    assert_eq!(trim_bytes(b" \t\r\n "), Vec::<u8>::new());
    assert_eq!(trim_bytes(b""), Vec::<u8>::new());
    assert_eq!(trim_bytes(b"a b"), b"a b".to_vec());
}

#[test]
fn folds_ascii_case_only() {
    assert_eq!(to_lower(b"MiXeD 123 \xc3\x84"), b"mixed 123 \xc3\x84".to_vec());
}

#[test]
fn finds_substrings() {
    assert!(contains_bytes(b"the quick fox", b"quick"));
    assert!(contains_bytes(b"abc", b""));
    assert!(!contains_bytes(b"abc", b"abcd"));
    assert!(!contains_bytes(b"abc", b"cb"));
    assert!(starts_with(b"ffmpeg -i x", b"ffmpeg"));
    assert!(!starts_with(b" ffmpeg", b"ffmpeg"));
}

#[test]
fn classifies_extensions() {
    assert_eq!(mime_for_extension(b"png"), b"image/png".to_vec());
    assert_eq!(mime_for_extension(b"JPEG"), b"image/jpeg".to_vec());
    assert_eq!(mime_for_extension(b"md"), b"text/plain".to_vec());
    assert_eq!(mime_for_extension(b"rs"), b"text/plain".to_vec());
    assert_eq!(mime_for_extension(b"exe"), b"application/octet-stream".to_vec());
    assert_eq!(mime_for_extension(b""), b"application/octet-stream".to_vec());
}

#[test]
fn counts_lines_and_words() {
    assert_eq!(text_stats(b""), (0, 0));
    assert_eq!(text_stats(b"one two three"), (1, 3));
    assert_eq!(text_stats(b"a\nb\n"), (2, 2));
    assert_eq!(text_stats(b"a\nb"), (2, 2));
    assert_eq!(text_stats(b"\n\n"), (2, 0));
    assert_eq!(text_stats(b"  spaced\tout \n words\n"), (2, 3));
}

#[test]
fn reads_the_model_table() {
    let printout = b"NAME            ID        SIZE    MODIFIED\n\
                     llama3.2:1b     a80c4f17  1.3 GB  2 weeks ago\n\
                     qwen2.5:3b      b52e11aa  1.9 GB  3 days ago\n";
    let rows = parse_model_table(printout);
    assert_eq!(rows.len(), 2);
    assert_eq!(rows[0].name, b"llama3.2:1b".to_vec());
    assert_eq!(rows[0].size, b"a80c4f17".to_vec());
    assert_eq!(rows[0].modified, b"1.3 GB 2 weeks ago".to_vec());
    assert_eq!(rows[1].name, b"qwen2.5:3b".to_vec());
}

#[test]
fn picks_the_converter_line_out_of_an_answer() {
    let answer = b"```bash\n  ffmpeg -i {input} -c copy {output}  \n```\n";
    assert_eq!(
        extract_command_line(answer),
        b"ffmpeg -i {input} -c copy {output}".to_vec()
    );
    let chatty = b"Here is the command:\nffprobe -i {input}\n";
    assert_eq!(extract_command_line(chatty), b"ffprobe -i {input}".to_vec());
    // no invocation anywhere: the first substantive line is taken
    let prose = b"```\nno command here\n```\n";
    assert_eq!(extract_command_line(prose), b"no command here".to_vec());
    assert_eq!(extract_command_line(b"\n```\n  \n"), Vec::<u8>::new());
}

#[test]
fn fence_markers_never_reach_the_command() {
    // fences glued to the command line itself are removed, not returned
    assert_eq!(extract_command_line(b"ffmpeg -i x ```\n"), b"ffmpeg -i x".to_vec());
    assert_eq!(
        extract_command_line(b"```bash ffmpeg -i y```\n"),
        b"ffmpeg -i y".to_vec()
    );
    assert_eq!(
        extract_command_line(b"```shell\nffprobe -i z```"),
        b"ffprobe -i z".to_vec()
    );
    // fences around a fallback line vanish too
    assert_eq!(extract_command_line(b"``` advice ```"), b"advice".to_vec());
}

#[test]
fn chooses_the_first_installed_family() {
    let preferred = vec![b"deepseek-r1:1.5b".to_vec(), b"qwen2.5:3b".to_vec()];
    let installed = vec![b"llama3.2:1b".to_vec(), b"qwen2.5:7b".to_vec()];
    assert_eq!(
        choose_model(&preferred, &installed, &b"llama3.2:1b".to_vec()),
        b"qwen2.5:3b".to_vec()
    );
    // none of the preferred families installed: the first installed model
    let installed = vec![b"mistral:7b".to_vec()];
    assert_eq!(
        choose_model(&preferred, &installed, &b"llama3.2:1b".to_vec()),
        b"mistral:7b".to_vec()
    );
    // nothing installed at all: the fallback
    assert_eq!(
        choose_model(&preferred, &Vec::new(), &b"llama3.2:1b".to_vec()),
        b"llama3.2:1b".to_vec()
    );
}

#[test]
fn short_table_lines_are_no_rows() {
    let printout = b"NAME SIZE MODIFIED\nlonely\nname size\n";
    assert_eq!(parse_model_table(printout).len(), 0);
    assert_eq!(parse_model_table(b"").len(), 0);
    // a final line without its newline still counts
    let rows = parse_model_table(b"HEADER X Y\nm s yesterday");
    assert_eq!(rows.len(), 1);
    assert_eq!(rows[0].modified, b"yesterday".to_vec());
}
