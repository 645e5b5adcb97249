//! The plain record types the assistant's commands exchange with its user
//! interface: capture results, context snapshots, media descriptions,
//! search hits and persistence rows. They carry data only; the verified
//! executors elsewhere in the crate produce and consume them.

use vstd::prelude::*;

verus! {

// ------------------------------------------------------------------
// Helper-process results
// ------------------------------------------------------------------

/// Which speech models the helper found installed.
#[derive(Debug, Clone)]
pub struct ModelStatus {
    pub whisper_models: Vec<String>,
    pub diarization_installed: bool,
    pub denoiser_installed: bool,
}

/// Result of exporting a transcript.
#[derive(Debug, Clone)]
pub struct ExportResult {
    pub success: bool,
    pub output_path: Option<String>,
    pub error: Option<String>,
}

/// Result of a denoising run.
#[derive(Debug, Clone)]
pub struct DenoiseResult {
    pub success: bool,
    pub output_path: Option<String>,
    pub error: Option<String>,
}

/// Result of one raw converter command.
#[derive(Debug, Clone)]
pub struct FFmpegCommandResult {
    pub success: bool,
    pub output: Option<String>,
    pub error: Option<String>,
}

// ------------------------------------------------------------------
// Desktop context snapshots
// ------------------------------------------------------------------

/// The window in the foreground.
#[derive(Debug, Clone)]
pub struct WindowInfo {
    pub process_name: String,
    pub window_title: String,
    pub executable: String,
}

/// What a browser window showed.
#[derive(Debug, Clone)]
pub struct BrowserContextData {
    pub url: Option<String>,
    pub title: Option<String>,
    pub selected_text: Option<String>,
}

/// What an editor window showed.
#[derive(Debug, Clone)]
pub struct EditorContextData {
    pub file_path: Option<String>,
    pub file_name: Option<String>,
    pub language: Option<String>,
    pub selected_code: Option<String>,
    pub project_path: Option<String>,
}

/// What an office document window showed.
#[derive(Debug, Clone)]
pub struct OfficeContextData {
    pub document_path: Option<String>,
    pub document_name: Option<String>,
    pub selected_text: Option<String>,
    pub current_slide: Option<i32>,
    pub active_cell: Option<String>,
}

/// What a file-manager window showed.
#[derive(Debug, Clone)]
pub struct FileExplorerContextData {
    pub current_path: String,
    pub selected_files: Option<Vec<String>>,
}

/// What a terminal window showed.
#[derive(Debug, Clone)]
pub struct TerminalContextData {
    pub current_directory: Option<String>,
    pub last_command: Option<String>,
    pub shell_type: Option<String>,
}

// ------------------------------------------------------------------
// Media descriptions
// ------------------------------------------------------------------

/// One audio stream of a media file.
#[derive(Debug, Clone)]
pub struct AudioStream {
    pub index: Option<i32>,
    pub codec_name: Option<String>,
    pub codec_long_name: Option<String>,
    pub sample_rate: Option<String>,
    pub channels: Option<i32>,
    pub channel_layout: Option<String>,
    pub bit_rate: Option<String>,
    pub duration: Option<String>,
}

/// One subtitle stream of a media file.
#[derive(Debug, Clone)]
pub struct SubtitleStream {
    pub index: Option<i32>,
    pub codec_name: Option<String>,
    pub language: Option<String>,
    pub title: Option<String>,
}

/// Result of muxing streams into one container.
#[derive(Debug, Clone)]
pub struct MuxResult {
    pub success: bool,
    pub output_path: Option<String>,
    pub file_size: Option<u64>,
    pub error: Option<String>,
}

/// Result of merging several files.
#[derive(Debug, Clone)]
pub struct MergeResult {
    pub success: bool,
    pub output_path: Option<String>,
    pub file_size: Option<u64>,
    pub merged_count: Option<usize>,
    pub error: Option<String>,
}

/// What to mux: the chosen streams and their destination.
#[derive(Debug, Clone)]
pub struct MuxParams {
    pub video_file: Option<String>,
    pub audio_files: Vec<String>,
    pub subtitle_files: Vec<String>,
    pub output_path: String,
    pub options: Option<MuxOptions>,
}

/// Codec choices for a mux.
#[derive(Debug, Clone)]
pub struct MuxOptions {
    pub video_codec: Option<String>,
    pub audio_codec: Option<String>,
    pub subtitle_codec: Option<String>,
}

/// Settings of a conversion.
#[derive(Debug, Clone)]
pub struct ConvertOptions {
    pub quality: Option<i32>,
    pub bitrate: Option<String>,
    pub video_codec: Option<String>,
    pub crf: Option<i32>,
    pub preset: Option<String>,
    pub fps: Option<i32>,
    pub scale: Option<i32>,
}

/// Codec choices for a merge.
#[derive(Debug, Clone)]
pub struct MergeOptions {
    pub video_codec: Option<String>,
    pub audio_codec: Option<String>,
}

// ------------------------------------------------------------------
// File operations and search
// ------------------------------------------------------------------

/// Result of renaming or moving a file.
#[derive(Debug, Clone)]
pub struct FileOperationResult {
    pub success: bool,
    pub message: Option<String>,
    pub path: String,
}

/// What a file looks like up close.
#[derive(Debug, Clone)]
pub struct FileMetadata {
    pub mime_type: String,
    pub width: Option<u32>,
    pub height: Option<u32>,
    pub line_count: Option<usize>,
    pub word_count: Option<usize>,
    pub created: Option<u64>,
    pub accessed: Option<u64>,
}

/// One hit of a file search.
#[derive(Debug, Clone)]
pub struct SearchResult {
    pub path: String,
    pub name: String,
    pub size: u64,
    pub modified: u64,
    pub is_dir: bool,
    pub snippet: Option<String>,
}

/// What to search for and where.
#[derive(Debug, Clone)]
pub struct FileSearchOptions {
    pub query: String,
    pub path: Option<String>,
    pub max_results: usize,
    pub file_types: Option<Vec<String>>,
}

// ------------------------------------------------------------------
// Capture and persistence rows
// ------------------------------------------------------------------

/// One recent capture as the tray menu lists it.
#[derive(Debug, Clone)]
pub struct RecentCapture {
    pub id: i64,
    pub timestamp: String,
    pub text: String,
}

/// Recognized text handed to the result popup.
#[derive(Debug, Clone)]
pub struct OcrResultData {
    pub text: String,
    pub language: String,
}

/// One applied schema migration.
#[derive(Debug, Clone)]
pub struct Migration {
    pub version: i32,
    pub name: String,
    pub applied_at: i64,
}

/// One stored model row.
#[derive(Debug, Clone)]
pub struct ModelRecord {
    pub id: Option<i64>,
    pub name: String,
    pub path: String,
    pub version: String,
    pub hash: String,
    pub installed_at: i64,
    pub size_bytes: Option<i64>,
    pub model_type: String,
    pub is_active: bool,
    pub created_at: i64,
    pub updated_at: i64,
}

/// One stored setting row.
#[derive(Debug, Clone)]
pub struct Setting {
    pub id: Option<i64>,
    pub key: String,
    pub value: String,
    pub value_type: String,
    pub category: Option<String>,
    pub description: Option<String>,
    pub created_at: i64,
    pub updated_at: i64,
}

// ------------------------------------------------------------------
// Screen capture
// ------------------------------------------------------------------

/// A rectangle of the screen.
#[derive(Debug, Clone)]
pub struct ScreenshotRegion {
    pub x: i32,
    pub y: i32,
    pub width: u32,
    pub height: u32,
}

/// What a capture attempt reports.
#[derive(Debug, Clone)]
pub struct ScreenshotResult {
    pub success: bool,
    pub image_data: Option<String>,
    pub image_path: Option<String>,
    pub error: Option<String>,
}

/// How a capture is taken.
#[derive(Debug, Clone)]
pub enum ScreenshotMode {
    Fullscreen,
    Window,
    Region { region: ScreenshotRegion },
}

} // verus!
