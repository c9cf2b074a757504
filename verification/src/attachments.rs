//! Files that an agent sends back to its user: which may be read, which are
//! refused, and what the user is told.

use vstd::prelude::*;

use crate::config::AttachmentsConfig;
use crate::delivery::MAX_FILES_PER_MESSAGE;
use crate::directives::OutputDirectives;
use crate::format::truncate_chars_tail;
use crate::text::{
    chars_of, copy_opt, copy_strings, push_decimal,
};

verus! {

broadcast use vstd::seq_lib::group_seq_properties;

/// How much of a path a warning shows, in characters.
pub const MAX_LABEL_CHARS: usize = 160;

/// A file that is ready to be uploaded.
#[derive(Debug, PartialEq, Eq)]
pub struct OutboundAttachment {
    pub filename: String,
    pub data: Vec<u8>,
}

pub struct FileView {
    pub filename: Seq<char>,
    pub data: Seq<u8>,
}

impl View for OutboundAttachment {
    type V = FileView;

    open spec fn view(&self) -> FileView {
        FileView { filename: self.filename@, data: self.data@ }
    }
}

impl Clone for OutboundAttachment {
    fn clone(&self) -> (r: Self)
        ensures
            r@ == self@,
    {
        let data = self.data.clone();
        assert(data@ =~= self.data@);
        OutboundAttachment { filename: self.filename.clone(), data }
    }
}

pub open spec fn file_views(files: Seq<OutboundAttachment>) -> Seq<FileView> {
    files.map_values(|f: OutboundAttachment| f@)
}

/// Why a file is not attached.
#[derive(Debug, PartialEq, Eq)]
pub enum AttachmentError {
    /// There is no such path.
    Unresolved { path: String, reason: String },
    /// The path leads out of the allowed directories.
    Outside,
    /// The file system failed.
    Io { reason: String },
    /// The path is not that of a regular file.
    NotAFile,
    /// The file is larger than allowed.
    TooLarge { len: u64, limit: u64 },
    /// The file is not an image of a supported format.
    NotAnImage,
    /// The image cannot be decoded.
    Undecodable { reason: String },
    /// The path has no last part.
    NoFilename,
}

pub enum ErrorView {
    Unresolved { path: Seq<char>, reason: Seq<char> },
    Outside,
    Io { reason: Seq<char> },
    NotAFile,
    TooLarge { len: u64, limit: u64 },
    NotAnImage,
    Undecodable { reason: Seq<char> },
    NoFilename,
}

impl View for AttachmentError {
    type V = ErrorView;

    open spec fn view(&self) -> ErrorView {
        match self {
            AttachmentError::Unresolved { path, reason } => ErrorView::Unresolved {
                path: path@,
                reason: reason@,
            },
            AttachmentError::Outside => ErrorView::Outside,
            AttachmentError::Io { reason } => ErrorView::Io { reason: reason@ },
            AttachmentError::NotAFile => ErrorView::NotAFile,
            AttachmentError::TooLarge { len, limit } => ErrorView::TooLarge {
                len: *len,
                limit: *limit,
            },
            AttachmentError::NotAnImage => ErrorView::NotAnImage,
            AttachmentError::Undecodable { reason } => ErrorView::Undecodable { reason: reason@ },
            AttachmentError::NoFilename => ErrorView::NoFilename,
        }
    }
}

/// What the user is told of an error.
pub open spec fn error_text(error: ErrorView) -> Seq<char> {
    match error {
        ErrorView::Unresolved { path, reason } => "cannot resolve path "@ + path + ": "@ + reason,
        ErrorView::Outside => {
            "path is outside attachments.allowed_dirs (default: agent.working_dir)"@
        },
        ErrorView::Io { reason } => reason,
        ErrorView::NotAFile => "path is not a regular file"@,
        ErrorView::TooLarge { len, limit } => "file is "@ + crate::text::decimal(len as nat)
            + " bytes, over the "@ + crate::text::decimal(limit as nat) + " byte limit"@,
        ErrorView::NotAnImage => "file is not a supported image (png, jpg, jpeg, gif, webp)"@,
        ErrorView::Undecodable { reason } => reason,
        ErrorView::NoFilename => "path has no valid filename"@,
    }
}

impl AttachmentError {
    /// What the user is told of the error.
    pub fn message(&self) -> (r: String)
        ensures
            r@ == error_text(self@),
    {
        match self {
            AttachmentError::Unresolved { path, reason } => {
                let mut out = "cannot resolve path ".to_owned();
                out.push_str(path.as_str());
                out.push_str(": ");
                out.push_str(reason.as_str());
                out
            },
            AttachmentError::Outside =>
                "path is outside attachments.allowed_dirs (default: agent.working_dir)".to_owned(),
            AttachmentError::Io { reason } => reason.clone(),
            AttachmentError::NotAFile => "path is not a regular file".to_owned(),
            AttachmentError::TooLarge { len, limit } => {
                let mut out = "file is ".to_owned();
                push_decimal(&mut out, *len);
                out.push_str(" bytes, over the ");
                push_decimal(&mut out, *limit);
                out.push_str(" byte limit");
                out
            },
            AttachmentError::NotAnImage =>
                "file is not a supported image (png, jpg, jpeg, gif, webp)".to_owned(),
            AttachmentError::Undecodable { reason } => reason.clone(),
            AttachmentError::NoFilename => "path has no valid filename".to_owned(),
        }
    }
}

// ---------------------------------------------------------------------------
// Images
// ---------------------------------------------------------------------------

/// The image formats that are sent.
#[derive(Debug, Clone, Copy, PartialEq, Eq, Structural)]
pub enum ImageKind {
    Png,
    Jpeg,
    Gif,
    WebP,
    Unsupported,
}

pub open spec fn starts_with_bytes(data: Seq<u8>, signature: Seq<u8>) -> bool {
    data.len() >= signature.len() && data.take(signature.len() as int) == signature
}

/// The format that the first bytes announce.
pub open spec fn image_kind(data: Seq<u8>) -> ImageKind {
    if starts_with_bytes(data, seq![0x89u8, 0x50, 0x4e, 0x47, 0x0d, 0x0a, 0x1a, 0x0a]) {
        ImageKind::Png
    } else if starts_with_bytes(data, seq![0xffu8, 0xd8, 0xff]) {
        ImageKind::Jpeg
    } else if starts_with_bytes(data, seq![0x47u8, 0x49, 0x46, 0x38, 0x39, 0x61])
        || starts_with_bytes(data, seq![0x47u8, 0x49, 0x46, 0x38, 0x37, 0x61]) {
        ImageKind::Gif
    } else if starts_with_bytes(data, seq![0x52u8, 0x49, 0x46, 0x46]) && data.len() >= 12
        && data.subrange(8, 12) == seq![0x57u8, 0x45, 0x42, 0x50] {
        ImageKind::WebP
    } else {
        ImageKind::Unsupported
    }
}

/// `image::guess_format` tells the format by the signature at the start of the
/// data. Of its formats the four that are sent are told apart.
#[verifier::external_body]
fn guessed_kind(data: &[u8]) -> (r: ImageKind)
    ensures
        r == image_kind(data@),
{
    match image::guess_format(data) {
        Ok(image::ImageFormat::Png) => ImageKind::Png,
        Ok(image::ImageFormat::Jpeg) => ImageKind::Jpeg,
        Ok(image::ImageFormat::Gif) => ImageKind::Gif,
        Ok(image::ImageFormat::WebP) => ImageKind::WebP,
        Ok(_) => ImageKind::Unsupported,
        Err(_) => ImageKind::Unsupported,
    }
}

/// Why data cannot be decoded as an image of the format that its first bytes
/// announce; nothing if it can.
pub uninterp spec fn decode_failure(data: Seq<u8>) -> Option<Seq<char>>;

/// `image::load_from_memory_with_format` decodes the data as the format that
/// `image::guess_format` tells. Whether it succeeds, and the text of the error
/// if not, is a function of the data.
#[verifier::external_body]
fn decoded(data: &[u8]) -> (r: Option<String>)
    ensures
        crate::text::opt_text(r) == decode_failure(data@),
{
    match image::guess_format(data).and_then(|f| image::load_from_memory_with_format(data, f)) {
        Ok(_) => None,
        Err(e) => Some(e.to_string()),
    }
}

/// Why data is refused as an image, given how its decoding went.
pub open spec fn image_error(data: Seq<u8>, failure: Option<Seq<char>>) -> Option<ErrorView> {
    if image_kind(data) == ImageKind::Unsupported {
        Some(ErrorView::NotAnImage)
    } else {
        match failure {
            Some(reason) => Some(ErrorView::Undecodable { reason }),
            None => None,
        }
    }
}

/// Whether data of a kind is an image that is sent, given how its decoding
/// went.
pub fn check_image(kind: ImageKind, failure: Option<String>) -> (r: Result<(), AttachmentError>)
    ensures
        match r {
            Ok(()) => kind != ImageKind::Unsupported && failure is None,
            Err(e) => if kind == ImageKind::Unsupported {
                e@ == ErrorView::NotAnImage
            } else {
                failure is Some && e@ == (ErrorView::Undecodable { reason: failure->0@ })
            },
        },
{
    match kind {
        ImageKind::Unsupported => Err(AttachmentError::NotAnImage),
        _ => match failure {
            Some(reason) => Err(AttachmentError::Undecodable { reason }),
            None => Ok(()),
        },
    }
}

/// Whether data is an image of a supported format that can be decoded.
pub fn ensure_supported_image(data: &[u8]) -> (r: Result<(), AttachmentError>)
    ensures
        match r {
            Ok(()) => image_error(data@, decode_failure(data@)) is None,
            Err(e) => image_error(data@, decode_failure(data@)) == Some(e@),
        },
{
    let kind = guessed_kind(data);
    match kind {
        ImageKind::Unsupported => check_image(kind, None),
        _ => check_image(kind, decoded(data)),
    }
}

// ---------------------------------------------------------------------------
// Paths
// ---------------------------------------------------------------------------

/// A part of a path, as the file system's rules divide it.
#[derive(Debug, PartialEq, Eq)]
pub enum PathPart {
    /// A part that is no name: a root, a drive.
    Anchor { bytes: Vec<u8> },
    /// A name, with its text if its bytes are one.
    Name { bytes: Vec<u8>, text: Option<String> },
}

/// What tells parts apart: whether they are names, and their bytes.
pub open spec fn part_key(part: PathPart) -> (bool, Seq<u8>) {
    match part {
        PathPart::Anchor { bytes } => (false, bytes@),
        PathPart::Name { bytes, text } => (true, bytes@),
    }
}

pub open spec fn part_keys(parts: Seq<PathPart>) -> Seq<(bool, Seq<u8>)> {
    parts.map_values(|p: PathPart| part_key(p))
}

/// An absolute path without links and detours, in its parts.
#[derive(Debug, PartialEq, Eq)]
pub struct CanonicalPath {
    pub parts: Vec<PathPart>,
}

impl CanonicalPath {
    pub open spec fn keys(&self) -> Seq<(bool, Seq<u8>)> {
        part_keys(self.parts@)
    }

    /// The name of the file: the last part, if it is a name and a text.
    pub open spec fn name(&self) -> Option<Seq<char>> {
        if self.parts@.len() == 0 {
            None
        } else {
            match self.parts@.last() {
                PathPart::Name { bytes, text } => crate::text::opt_text(text),
                PathPart::Anchor { bytes } => None,
            }
        }
    }

    /// Whether the path is that of a directory or leads into it.
    pub fn starts_with(&self, dir: &CanonicalPath) -> (r: bool)
        ensures
            r == lies_under(self.keys(), dir.keys()),
    {
        assert(self.keys().len() == self.parts@.len());
        assert(dir.keys().len() == dir.parts@.len());
        if dir.parts.len() > self.parts.len() {
            return false;
        }
        let mut i: usize = 0;
        while i < dir.parts.len()
            invariant
                i <= dir.parts@.len() <= self.parts@.len(),
                forall|j: int| 0 <= j < i ==> self.keys()[j] == dir.keys()[j],
            decreases dir.parts.len() - i,
        {
            if !same_part(&self.parts[i], &dir.parts[i]) {
                assert(self.keys().take(dir.keys().len() as int)[i as int] != dir.keys()[i as int]);
                return false;
            }
            i += 1;
        }
        assert(self.keys().take(dir.keys().len() as int) =~= dir.keys());
        true
    }

    /// The name of the file.
    pub fn file_name(&self) -> (r: Option<String>)
        ensures
            crate::text::opt_text(r) == self.name(),
    {
        let n: usize = self.parts.len();
        if n == 0 {
            return None;
        }
        match &self.parts[n - 1] {
            PathPart::Name { text, .. } => copy_opt(text),
            PathPart::Anchor { .. } => None,
        }
    }
}

fn same_bytes(a: &Vec<u8>, b: &Vec<u8>) -> (r: bool)
    ensures
        r == (a@ == b@),
{
    if a.len() != b.len() {
        return false;
    }
    let mut i: usize = 0;
    while i < a.len()
        invariant
            i <= a@.len(),
            a@.len() == b@.len(),
            forall|j: int| 0 <= j < i ==> a@[j] == b@[j],
        decreases a.len() - i,
    {
        if a[i] != b[i] {
            return false;
        }
        i += 1;
    }
    assert(a@ =~= b@);
    true
}

fn same_part(a: &PathPart, b: &PathPart) -> (r: bool)
    ensures
        r == (part_key(*a) == part_key(*b)),
{
    match (a, b) {
        (PathPart::Anchor { bytes: x }, PathPart::Anchor { bytes: y }) => same_bytes(x, y),
        (PathPart::Name { bytes: x, .. }, PathPart::Name { bytes: y, .. }) => same_bytes(x, y),
        _ => false,
    }
}

/// A path is that of the directory or leads into it: it begins with the
/// directory's parts, each of them whole.
pub open spec fn lies_under(path: Seq<(bool, Seq<u8>)>, dir: Seq<(bool, Seq<u8>)>) -> bool {
    dir.len() <= path.len() && path.take(dir.len() as int) == dir
}

/// A path leads into one of the directories.
pub open spec fn lies_under_any(path: CanonicalPath, dirs: Seq<CanonicalPath>) -> bool {
    exists|i: int| 0 <= i < dirs.len() && lies_under(path.keys(), (#[trigger] dirs[i]).keys())
}

/// The path that a directive means: one that is not absolute starts in the
/// working directory.
pub open spec fn resolved_path(working_dir: Seq<char>, raw: Seq<char>, absolute: bool) -> Seq<char> {
    if absolute {
        raw
    } else if working_dir.len() == 0 || working_dir.last() == '/' {
        working_dir + raw
    } else {
        working_dir + "/"@ + raw
    }
}

/// A label on one line.
pub open spec fn flat_label(s: Seq<char>) -> Seq<char> {
    s.map_values(
        |c: char|
            if c == '\r' || c == '\n' {
                ' '
            } else {
                c
            },
    )
}

/// What a warning calls a path.
pub open spec fn attachment_label(path: Seq<char>) -> Seq<char> {
    crate::format::tail(flat_label(path), MAX_LABEL_CHARS as nat)
}

/// What a warning calls a path: one line, its end if it is long.
pub fn sanitize_attachment_label(value: &str) -> (r: String)
    ensures
        r@ == attachment_label(value@),
{
    let cs = chars_of(value);
    let mut flat = String::new();
    let mut i: usize = 0;
    while i < cs.len()
        invariant
            i <= cs.len(),
            cs@ == value@,
            flat@ == flat_label(value@.take(i as int)),
        decreases cs.len() - i,
    {
        let c = cs[i];
        if c == '\r' || c == '\n' {
            flat.push(' ');
        } else {
            flat.push(c);
        }
        i += 1;
        assert(flat@ =~= flat_label(value@.take(i as int)));
    }
    assert(value@.take(value@.len() as int) =~= value@);
    truncate_chars_tail(flat.as_str(), MAX_LABEL_CHARS)
}

// ---------------------------------------------------------------------------
// Loading
// ---------------------------------------------------------------------------

/// A file that an agent asked to attach.
#[derive(Debug, PartialEq, Eq)]
pub struct Requested {
    /// The path as the directive gives it.
    pub path: String,
    /// It has to be an image.
    pub image: bool,
}

/// The files that directives ask for, images first.
pub fn requested_files(directives: &OutputDirectives) -> (r: Vec<Requested>)
    ensures
        r@.len() == directives@.attach_images.len() + directives@.attach_files.len(),
        forall|i: int|
            0 <= i < directives@.attach_images.len() ==> (#[trigger] r@[i]).image && r@[i].path@
                == directives@.attach_images[i],
        forall|i: int|
            directives@.attach_images.len() <= i < r@.len() ==> !(#[trigger] r@[i]).image
                && r@[i].path@ == directives@.attach_files[i - directives@.attach_images.len()],
        request_views(r@) == requests(directives@),
{
    let mut out: Vec<Requested> = Vec::new();
    let images = &directives.attach_images;
    let files = &directives.attach_files;
    let mut i: usize = 0;
    while i < images.len()
        invariant
            i <= images@.len(),
            out@.len() == i,
            images@ == directives.attach_images@,
            forall|j: int|
                0 <= j < i ==> (#[trigger] out@[j]).image && out@[j].path@
                    == directives@.attach_images[j],
        decreases images.len() - i,
    {
        out.push(Requested { path: images[i].clone(), image: true });
        i += 1;
    }
    let mut k: usize = 0;
    while k < files.len()
        invariant
            k <= files@.len(),
            out@.len() == images@.len() + k,
            images@ == directives.attach_images@,
            files@ == directives.attach_files@,
            forall|j: int|
                0 <= j < images@.len() ==> (#[trigger] out@[j]).image && out@[j].path@
                    == directives@.attach_images[j],
            forall|j: int|
                images@.len() <= j < out@.len() ==> !(#[trigger] out@[j]).image && out@[j].path@
                    == directives@.attach_files[j - images@.len()],
        decreases files.len() - k,
    {
        out.push(Requested { path: files[k].clone(), image: false });
        k += 1;
    }
    assert(request_views(out@) =~= requests(directives@));
    out
}

pub open spec fn request_views(requested: Seq<Requested>) -> Seq<(Seq<char>, bool)> {
    requested.map_values(|r: Requested| (r.path@, r.image))
}

/// The paths that directives name, each with whether it has to be an image.
pub open spec fn requests(d: crate::directives::DirectivesView) -> Seq<(Seq<char>, bool)> {
    d.attach_images.map_values(|p: Seq<char>| (p, true)) + d.attach_files.map_values(
        |p: Seq<char>| (p, false),
    )
}

/// Every path that directives name is asked for once: the images in order, then
/// the other files in order.
pub proof fn lemma_every_path_is_asked_for(d: crate::directives::DirectivesView)
    ensures
        requests(d).len() == d.attach_images.len() + d.attach_files.len(),
        forall|i: int|
            0 <= i < d.attach_images.len() ==> requests(d)[i] == (#[trigger] d.attach_images[i], true),
        forall|i: int|
            0 <= i < d.attach_files.len() ==> requests(d)[d.attach_images.len() + i] == (
                #[trigger] d.attach_files[i],
                false,
            ),
{
}

/// A path is allowed exactly if it begins with all the parts of one of the
/// directories.
pub proof fn lemma_which_paths_are_allowed(path: CanonicalPath, dirs: Seq<CanonicalPath>, k: int)
    ensures
        0 <= k < dirs.len() && dirs[k].keys().len() <= path.keys().len() && (forall|i: int|
            0 <= i < dirs[k].keys().len() ==> path.keys()[i] == dirs[k].keys()[i])
            ==> lies_under_any(path, dirs),
        lies_under_any(path, dirs) ==> exists|j: int|
            0 <= j < dirs.len() && (#[trigger] dirs[j]).keys().len() <= path.keys().len()
                && path.keys().take(dirs[j].keys().len() as int) == dirs[j].keys(),
{
    if 0 <= k < dirs.len() {
        lemma_under_is_by_whole_parts(path.keys(), dirs[k].keys(), dirs[k].keys());
    }
}

/// What the file system says of a path: a regular file or not, and its length.
#[derive(Debug, Clone, Copy, PartialEq, Eq, Structural)]
pub struct Metadata {
    pub is_file: bool,
    pub len: u64,
}

/// A canonical path that lies under an allowed directory.
#[derive(Debug)]
pub struct AllowedPath {
    path: CanonicalPath,
}

impl AllowedPath {
    pub closed spec fn path(&self) -> CanonicalPath {
        self.path
    }
}

/// A canonical path under an allowed directory, of a regular file that is not
/// too large.
#[derive(Debug)]
pub struct ReadablePath {
    path: CanonicalPath,
}

impl ReadablePath {
    pub closed spec fn path(&self) -> CanonicalPath {
        self.path
    }
}

/// The rules for outbound files.
#[derive(Debug)]
pub struct OutboundAttachments {
    enabled: bool,
    allowed_dirs: Vec<String>,
    agent_working_dir: String,
    max_bytes: u64,
    max_files: usize,
}

impl Clone for OutboundAttachments {
    fn clone(&self) -> (r: Self)
        ensures
            r.enabled() == self.enabled(),
            r.allowed_dirs() == self.allowed_dirs(),
            r.working_dir() == self.working_dir(),
            r.max_bytes() == self.max_bytes(),
            r.max_files() == self.max_files(),
    {
        OutboundAttachments {
            enabled: self.enabled,
            allowed_dirs: copy_strings(&self.allowed_dirs),
            agent_working_dir: self.agent_working_dir.clone(),
            max_bytes: self.max_bytes,
            max_files: self.max_files,
        }
    }
}

/// How the loading of one file went.
pub type Loaded = Result<OutboundAttachment, AttachmentError>;

/// The noun by which warnings call the files.
pub open spec fn noun(requested: Seq<Requested>) -> Seq<char> {
    if requested.len() > 0 && requested[0].image {
        "image"@
    } else {
        "file"@
    }
}

fn noun_of(requested: &Vec<Requested>) -> (r: &'static str)
    ensures
        r@ == noun(requested@),
{
    if requested.len() > 0 && requested[0].image {
        "image"
    } else {
        "file"
    }
}

/// Tells that one file is not attached.
pub open spec fn skip_warning(request: Requested, error: ErrorView) -> Seq<char> {
    "⚠️ Outbound "@ + (if request.image {
        "image"@
    } else {
        "file"@
    }) + " attachment skipped for `"@ + attachment_label(request.path@) + "`: "@ + error_text(error)
}

/// Tells that attachments are switched off.
pub open spec fn disabled_warning(requested: Seq<Requested>) -> Seq<char> {
    "⚠️ Outbound "@ + noun(requested)
        + " attachment skipped because [attachments].enabled is false."@
}

/// Tells how many files were more than allowed.
pub open spec fn limit_warning(requested: Seq<Requested>, skipped: nat) -> Seq<char> {
    "⚠️ Outbound "@ + noun(requested) + " attachment limit reached; skipped "@
        + crate::text::decimal(skipped) + " file(s)."@
}

/// The files that were loaded, in order.
pub open spec fn loaded_files(outcomes: Seq<Loaded>) -> Seq<FileView>
    decreases outcomes.len(),
{
    if outcomes.len() == 0 {
        Seq::empty()
    } else {
        let front = loaded_files(outcomes.drop_last());
        match outcomes.last() {
            Ok(file) => front.push(file@),
            Err(_) => front,
        }
    }
}

/// The warnings for the files that were not loaded, in order.
pub open spec fn skip_warnings(requested: Seq<Requested>, outcomes: Seq<Loaded>) -> Seq<Seq<char>>
    decreases outcomes.len(),
{
    if outcomes.len() == 0 {
        Seq::empty()
    } else {
        let front = skip_warnings(requested, outcomes.drop_last());
        match outcomes.last() {
            Ok(_) => front,
            Err(e) => front.push(skip_warning(requested[outcomes.len() - 1], e@)),
        }
    }
}

fn skip_warning_text(request: &Requested, error: &AttachmentError) -> (r: String)
    ensures
        r@ == skip_warning(*request, error@),
{
    let mut out = "⚠️ Outbound ".to_owned();
    out.push_str(if request.image {
        "image"
    } else {
        "file"
    });
    out.push_str(" attachment skipped for `");
    out.push_str(sanitize_attachment_label(request.path.as_str()).as_str());
    out.push_str("`: ");
    out.push_str(error.message().as_str());
    out
}

impl OutboundAttachments {
    pub closed spec fn enabled(&self) -> bool {
        self.enabled
    }

    /// The directories from which files may be read.
    pub closed spec fn allowed_dirs(&self) -> Seq<Seq<char>> {
        crate::text::texts(self.allowed_dirs@)
    }

    pub closed spec fn working_dir(&self) -> Seq<char> {
        self.agent_working_dir@
    }

    pub closed spec fn max_bytes(&self) -> u64 {
        self.max_bytes
    }

    pub closed spec fn max_files(&self) -> usize {
        self.max_files
    }

    /// The rules of a configuration. Where it names no directory, files may be
    /// read from the agent's working directory.
    pub fn new(config: AttachmentsConfig, agent_working_dir: String) -> (r: Self)
        ensures
            r.enabled() == config.enabled,
            r.allowed_dirs() == if config.allowed_dirs@.len() == 0 {
                seq![agent_working_dir@]
            } else {
                crate::text::texts(config.allowed_dirs@)
            },
            r.working_dir() == agent_working_dir@,
            r.max_bytes() == config.max_bytes,
            r.max_files() == config.max_files,
            r.allowed_dirs() == dirs_of(
                crate::text::texts(config.allowed_dirs@),
                agent_working_dir@,
            ),
    {
        assert(crate::text::texts(config.allowed_dirs@).len() == config.allowed_dirs@.len());
        let mut allowed_dirs = config.allowed_dirs;
        if allowed_dirs.len() == 0 {
            allowed_dirs = vec![agent_working_dir.clone()];
            assert(crate::text::texts(allowed_dirs@) =~= seq![agent_working_dir@]);
        }
        OutboundAttachments {
            enabled: config.enabled,
            allowed_dirs,
            agent_working_dir,
            max_bytes: config.max_bytes,
            max_files: config.max_files,
        }
    }

    /// The directories from which files may be read.
    pub fn dirs(&self) -> (r: &Vec<String>)
        ensures
            crate::text::texts(r@) == self.allowed_dirs(),
    {
        &self.allowed_dirs
    }

    /// How many of the requested files are tried: none when attachments are
    /// off, and never more than allowed.
    pub open spec fn tried(&self, requested: nat) -> nat {
        if !self.enabled() {
            0
        } else if requested <= self.max_files() {
            requested
        } else {
            self.max_files() as nat
        }
    }

    /// How many of the requested files to try, from the first on.
    pub fn attempts(&self, requested: usize) -> (r: usize)
        ensures
            r == self.tried(requested as nat),
    {
        if !self.enabled {
            0
        } else if requested <= self.max_files {
            requested
        } else {
            self.max_files
        }
    }

    /// The path that a directive means. The caller says whether the path is
    /// absolute by the rules of its file system, and hands over a path whose
    /// parts a slash separates; where it has another form, the caller joins it
    /// with the working directory and hands it over as absolute.
    pub fn resolve_agent_path(&self, raw_path: &str, absolute: bool) -> (r: String)
        ensures
            r@ == resolved_path(self.working_dir(), raw_path@, absolute),
    {
        if absolute {
            return raw_path.to_owned();
        }
        let mut out = self.agent_working_dir.clone();
        let dir = chars_of(self.agent_working_dir.as_str());
        if dir.len() > 0 && dir[dir.len() - 1] != '/' {
            out.push_str("/");
        }
        out.push_str(raw_path);
        out
    }

    /// The working directory, from which relative paths start.
    pub fn agent_working_dir(&self) -> (r: &str)
        ensures
            r@ == self.working_dir(),
    {
        self.agent_working_dir.as_str()
    }

    /// Whether a canonical path lies under one of the allowed directories, as
    /// far as those resolve to canonical paths.
    pub fn ensure_allowed_path(
        &self,
        canonical_file: &CanonicalPath,
        canonical_dirs: &Vec<CanonicalPath>,
    ) -> (r: Result<(), AttachmentError>)
        ensures
            match r {
                Ok(()) => lies_under_any(*canonical_file, canonical_dirs@),
                Err(e) => e@ == ErrorView::Outside && !lies_under_any(
                    *canonical_file,
                    canonical_dirs@,
                ),
            },
    {
        let mut i: usize = 0;
        while i < canonical_dirs.len()
            invariant
                i <= canonical_dirs@.len(),
                forall|j: int|
                    0 <= j < i ==> !lies_under(
                        canonical_file.keys(),
                        (#[trigger] canonical_dirs@[j]).keys(),
                    ),
            decreases canonical_dirs.len() - i,
        {
            if canonical_file.starts_with(&canonical_dirs[i]) {
                assert(lies_under(canonical_file.keys(), canonical_dirs@[i as int].keys()));
                return Ok(());
            }
            i += 1;
        }
        Err(AttachmentError::Outside)
    }

    /// Takes up a file whose path was resolved, or was not, for the reason
    /// given. `candidate` is the path that the directive means, and
    /// `canonical_dirs` are the allowed directories, as far as they resolve.
    pub fn resolved(
        &self,
        candidate: String,
        canonical: Result<CanonicalPath, String>,
        canonical_dirs: &Vec<CanonicalPath>,
    ) -> (r: Result<AllowedPath, AttachmentError>)
        ensures
            match r {
                Ok(path) => canonical is Ok && path.path() == canonical->Ok_0 && lies_under_any(
                    path.path(),
                    canonical_dirs@,
                ),
                Err(e) => match canonical {
                    Ok(c) => e@ == ErrorView::Outside && !lies_under_any(c, canonical_dirs@),
                    Err(reason) => e@ == (ErrorView::Unresolved {
                        path: candidate@,
                        reason: reason@,
                    }),
                },
            },
    {
        match canonical {
            Ok(path) => match self.ensure_allowed_path(&path, canonical_dirs) {
                Ok(()) => Ok(AllowedPath { path }),
                Err(e) => Err(e),
            },
            Err(reason) => Err(AttachmentError::Unresolved { path: candidate, reason }),
        }
    }

    /// Why a path is not read, given its metadata.
    pub open spec fn metadata_error(&self, metadata: Metadata) -> Option<ErrorView> {
        if !metadata.is_file {
            Some(ErrorView::NotAFile)
        } else if metadata.len > self.max_bytes() {
            Some(ErrorView::TooLarge { len: metadata.len, limit: self.max_bytes() })
        } else {
            None
        }
    }

    /// Takes up an allowed path whose metadata was read, or was not.
    pub fn inspected(&self, path: AllowedPath, metadata: Result<Metadata, String>) -> (r: Result<
        ReadablePath,
        AttachmentError,
    >)
        ensures
            match r {
                Ok(p) => metadata is Ok && p.path() == path.path() && self.metadata_error(
                    metadata->Ok_0,
                ) is None,
                Err(e) => match metadata {
                    Ok(m) => self.metadata_error(m) == Some(e@),
                    Err(reason) => e@ == (ErrorView::Io { reason: reason@ }),
                },
            },
    {
        match metadata {
            Ok(m) => if !m.is_file {
                Err(AttachmentError::NotAFile)
            } else if m.len > self.max_bytes {
                Err(AttachmentError::TooLarge { len: m.len, limit: self.max_bytes })
            } else {
                Ok(ReadablePath { path: path.path })
            },
            Err(reason) => Err(AttachmentError::Io { reason }),
        }
    }

    /// Why data that was read is not attached, given how its decoding goes.
    pub open spec fn data_error(
        &self,
        path: CanonicalPath,
        data: Seq<u8>,
        image: bool,
        failure: Option<Seq<char>>,
    ) -> Option<ErrorView> {
        if data.len() > self.max_bytes() {
            Some(ErrorView::TooLarge { len: data.len() as u64, limit: self.max_bytes() })
        } else if image && image_error(data, failure) is Some {
            image_error(data, failure)
        } else if path.name() is None {
            Some(ErrorView::NoFilename)
        } else {
            None
        }
    }

    /// Takes up data that was read, or was not. A file can have grown since its
    /// metadata was read, so its size is tested again.
    pub fn read(&self, path: ReadablePath, data: Result<Vec<u8>, String>, image: bool) -> (r:
        Loaded)
        ensures
            match data {
                Ok(bytes) => {
                    let error = self.data_error(
                        path.path(),
                        bytes@,
                        image,
                        decode_failure(bytes@),
                    );
                    match r {
                        Ok(file) => error is None && file@ == (FileView {
                            filename: path.path().name()->0,
                            data: bytes@,
                        }),
                        Err(e) => error == Some(e@),
                    }
                },
                Err(reason) => r is Err && r->Err_0@ == (ErrorView::Io { reason: reason@ }),
            },
    {
        let bytes = match data {
            Ok(bytes) => bytes,
            Err(reason) => {
                return Err(AttachmentError::Io { reason });
            },
        };
        let len: u64 = bytes.len() as u64;
        if len > self.max_bytes {
            return Err(AttachmentError::TooLarge { len, limit: self.max_bytes });
        }
        if image {
            if let Err(e) = ensure_supported_image(bytes.as_slice()) {
                return Err(e);
            }
        }
        match path.path.file_name() {
            Some(filename) => Ok(OutboundAttachment { filename, data: bytes }),
            None => Err(AttachmentError::NoFilename),
        }
    }

    /// The warnings for a request, given how the files that were tried fared.
    pub open spec fn warnings(&self, requested: Seq<Requested>, outcomes: Seq<Loaded>) -> Seq<
        Seq<char>,
    > {
        if requested.len() == 0 {
            Seq::empty()
        } else if !self.enabled() {
            seq![disabled_warning(requested)]
        } else if requested.len() > self.max_files() {
            skip_warnings(requested, outcomes).push(
                limit_warning(requested, (requested.len() - self.max_files()) as nat),
            )
        } else {
            skip_warnings(requested, outcomes)
        }
    }

    /// The files to upload and the warnings to show, given how the files that
    /// were tried fared.
    pub fn collect(&self, requested: &Vec<Requested>, outcomes: Vec<Loaded>) -> (r: (
        Vec<OutboundAttachment>,
        Vec<String>,
    ))
        requires
            outcomes@.len() == self.tried(requested@.len()),
        ensures
            file_views(r.0@) == loaded_files(outcomes@),
            crate::text::texts(r.1@) == self.warnings(requested@, outcomes@),
    {
        let mut files: Vec<OutboundAttachment> = Vec::new();
        let mut warnings: Vec<String> = Vec::new();
        let ghost all = outcomes@;
        proof {
            assert(file_views(files@) =~= Seq::empty());
            assert(crate::text::texts(warnings@) =~= Seq::empty());
            assert(all.take(0) =~= Seq::empty());
        }
        if requested.len() == 0 {
            assert(all =~= Seq::empty());
            return (files, warnings);
        }
        if !self.enabled {
            assert(all =~= Seq::empty());
            let mut out = "⚠️ Outbound ".to_owned();
            out.push_str(noun_of(requested));
            out.push_str(" attachment skipped because [attachments].enabled is false.");
            warnings.push(out);
            assert(crate::text::texts(warnings@) =~= seq![disabled_warning(requested@)]);
            return (files, warnings);
        }
        let total: usize = requested.len();
        let mut i: usize = 0;
        for outcome in it: outcomes
            invariant
                it.seq() == all,
                total == requested@.len(),
                i == it.index(),
                all.len() <= total,
                file_views(files@) == loaded_files(all.take(it.index() as int)),
                crate::text::texts(warnings@) == skip_warnings(
                    requested@,
                    all.take(it.index() as int),
                ),
        {
            let ghost files_before = files@;
            let ghost warnings_before = warnings@;
            assert(outcome == all[i as int]);
            assert(all.take(i + 1).drop_last() =~= all.take(i as int));
            match outcome {
                Ok(file) => {
                    let ghost view = file@;
                    files.push(file);
                    assert(file_views(files@) =~= file_views(files_before).push(view));
                },
                Err(e) => {
                    let warning = skip_warning_text(&requested[i], &e);
                    let ghost view = warning@;
                    warnings.push(warning);
                    assert(crate::text::texts(warnings@) =~= crate::text::texts(
                        warnings_before,
                    ).push(view));
                },
            }
            i += 1;
        }
        assert(all.take(all.len() as int) =~= all);
        if requested.len() > self.max_files {
            let ghost before = warnings@;
            let skipped: usize = requested.len() - self.max_files;
            let mut out = "⚠️ Outbound ".to_owned();
            out.push_str(noun_of(requested));
            out.push_str(" attachment limit reached; skipped ");
            push_decimal(&mut out, skipped as u64);
            out.push_str(" file(s).");
            let ghost view = out@;
            warnings.push(out);
            assert(crate::text::texts(warnings@) =~= crate::text::texts(before).push(view));
        }
        (files, warnings)
    }

    /// A request for files is never passed over in silence: it brings a file or
    /// a warning.
    pub proof fn lemma_request_is_answered(&self, requested: Seq<Requested>, outcomes: Seq<Loaded>)
        requires
            requested.len() > 0,
            outcomes.len() == self.tried(requested.len()),
        ensures
            loaded_files(outcomes).len() > 0 || self.warnings(requested, outcomes).len() > 0,
    {
        lemma_outcomes_counted(requested, outcomes);
    }

    /// No warning is empty.
    pub proof fn lemma_warnings_speak(&self, requested: Seq<Requested>, outcomes: Seq<Loaded>)
        ensures
            forall|i: int|
                0 <= i < self.warnings(requested, outcomes).len() ==> (#[trigger] self.warnings(
                    requested,
                    outcomes,
                )[i]).len() > 0,
    {
        reveal_strlit("⚠️ Outbound ");
        lemma_skip_warnings_speak(requested, outcomes);
    }

    /// Never more files are uploaded than allowed, and none when attachments
    /// are off.
    pub proof fn lemma_files_are_capped(&self, requested: Seq<Requested>, outcomes: Seq<Loaded>)
        requires
            outcomes.len() == self.tried(requested.len()),
        ensures
            loaded_files(outcomes).len() <= self.max_files(),
            !self.enabled() ==> loaded_files(outcomes).len() == 0,
    {
        lemma_outcomes_counted(requested, outcomes);
    }
}

proof fn lemma_skip_warnings_speak(requested: Seq<Requested>, outcomes: Seq<Loaded>)
    ensures
        forall|i: int|
            0 <= i < skip_warnings(requested, outcomes).len() ==> (#[trigger] skip_warnings(
                requested,
                outcomes,
            )[i]).len() > 0,
    decreases outcomes.len(),
{
    reveal_strlit("⚠️ Outbound ");
    if outcomes.len() > 0 {
        let front = skip_warnings(requested, outcomes.drop_last());
        lemma_skip_warnings_speak(requested, outcomes.drop_last());
        assert forall|i: int| 0 <= i < skip_warnings(requested, outcomes).len() implies (
        #[trigger] skip_warnings(requested, outcomes)[i]).len() > 0 by {
            if i < front.len() {
                assert(skip_warnings(requested, outcomes)[i] == front[i]);
            } else {
                let e = outcomes.last()->Err_0@;
                assert(skip_warnings(requested, outcomes)[i] == skip_warning(
                    requested[outcomes.len() - 1],
                    e,
                ));
            }
        }
    }
}

proof fn lemma_outcomes_counted(requested: Seq<Requested>, outcomes: Seq<Loaded>)
    ensures
        loaded_files(outcomes).len() + skip_warnings(requested, outcomes).len() == outcomes.len(),
    decreases outcomes.len(),
{
    if outcomes.len() > 0 {
        lemma_outcomes_counted(requested, outcomes.drop_last());
    }
}

/// Names are compared whole: a path that differs from a directory in any of the
/// directory's parts does not lie under it, and what lies under a directory lies
/// under all that are above it.
pub proof fn lemma_under_is_by_whole_parts(
    path: Seq<(bool, Seq<u8>)>,
    dir: Seq<(bool, Seq<u8>)>,
    above: Seq<(bool, Seq<u8>)>,
)
    ensures
        lies_under(path, dir) <==> dir.len() <= path.len() && forall|i: int|
            0 <= i < dir.len() ==> path[i] == dir[i],
        lies_under(path, path),
        lies_under(path, dir) && lies_under(dir, above) ==> lies_under(path, above),
{
    assert(path.take(path.len() as int) =~= path);
    if dir.len() <= path.len() {
        let front = path.take(dir.len() as int);
        assert forall|i: int| 0 <= i < dir.len() implies front[i] == path[i] by {}
        if forall|i: int| 0 <= i < dir.len() ==> path[i] == dir[i] {
            assert(front =~= dir);
        }
        if lies_under(path, dir) && lies_under(dir, above) {
            assert(path.take(above.len() as int) =~= dir.take(above.len() as int));
        }
    }
}

// ---------------------------------------------------------------------------
// Uploading
// ---------------------------------------------------------------------------

/// One message with files.
#[derive(Debug, PartialEq, Eq)]
pub struct UploadBatch {
    pub content: String,
    pub files: Vec<OutboundAttachment>,
    pub reply_to: Option<String>,
}

pub struct BatchView {
    pub content: Seq<char>,
    pub files: Seq<FileView>,
    pub reply_to: Option<Seq<char>>,
}

impl View for UploadBatch {
    type V = BatchView;

    open spec fn view(&self) -> BatchView {
        BatchView {
            content: self.content@,
            files: file_views(self.files@),
            reply_to: crate::text::opt_text(self.reply_to),
        }
    }
}

pub open spec fn batch_views(batches: Seq<UploadBatch>) -> Seq<BatchView> {
    batches.map_values(|b: UploadBatch| b@)
}

/// The messages in which files are uploaded: as few as hold them all. The text
/// and the message to reply to go with the first.
pub open spec fn batches(
    files: Seq<FileView>,
    content: Seq<char>,
    reply_to: Option<Seq<char>>,
) -> Seq<BatchView>
    decreases files.len(),
{
    let most = MAX_FILES_PER_MESSAGE as int;
    if files.len() == 0 {
        Seq::empty()
    } else if files.len() <= most {
        seq![BatchView { content, files, reply_to }]
    } else {
        seq![BatchView { content, files: files.take(most), reply_to }] + batches(
            files.skip(most),
            Seq::empty(),
            None,
        )
    }
}

/// The messages in which files are uploaded.
pub fn upload_batches(files: Vec<OutboundAttachment>, content: &str, reply_to: &Option<String>) -> (r:
    Vec<UploadBatch>)
    ensures
        batch_views(r@) == batches(file_views(files@), content@, crate::text::opt_text(*reply_to)),
{
    let ghost all = batches(file_views(files@), content@, crate::text::opt_text(*reply_to));
    let mut out: Vec<UploadBatch> = Vec::new();
    let mut rest = files;
    let mut text = content.to_owned();
    let mut reply = copy_opt(reply_to);
    assert(batch_views(out@) + all =~= all);
    while rest.len() > MAX_FILES_PER_MESSAGE
        invariant
            all == batch_views(out@) + batches(
                file_views(rest@),
                text@,
                crate::text::opt_text(reply),
            ),
        decreases rest.len(),
    {
        let ghost before = out@;
        let ghost left = file_views(rest@);
        let later = rest.split_off(MAX_FILES_PER_MESSAGE);
        let batch = UploadBatch { content: text, files: rest, reply_to: reply };
        proof {
            assert(file_views(batch.files@) =~= left.take(MAX_FILES_PER_MESSAGE as int));
            assert(file_views(later@) =~= left.skip(MAX_FILES_PER_MESSAGE as int));
        }
        let ghost view = batch@;
        out.push(batch);
        rest = later;
        text = String::new();
        reply = None;
        proof {
            assert(batch_views(out@) =~= batch_views(before) + seq![view]);
            assert(text@ =~= Seq::empty());
            let later_views = batches(file_views(rest@), Seq::empty(), None);
            assert(batch_views(out@) + later_views =~= batch_views(before) + (seq![view]
                + later_views));
        }
    }
    if rest.len() > 0 {
        let ghost before = out@;
        let batch = UploadBatch { content: text, files: rest, reply_to: reply };
        let ghost view = batch@;
        out.push(batch);
        assert(batch_views(out@) =~= batch_views(before) + seq![view]);
    } else {
        assert(file_views(rest@) =~= Seq::empty());
        assert(batch_views(out@) + Seq::empty() =~= batch_views(out@));
    }
    out
}

/// The files of all messages, in order.
pub open spec fn uploaded(batches: Seq<BatchView>) -> Seq<FileView>
    decreases batches.len(),
{
    if batches.len() == 0 {
        Seq::empty()
    } else {
        batches[0].files + uploaded(batches.skip(1))
    }
}

/// Every file is uploaded once, in order; no message holds more files than
/// allowed, none is empty, and all but the last are full. Only the first has a text and a message to reply
/// to.
pub proof fn lemma_every_file_is_uploaded(
    files: Seq<FileView>,
    content: Seq<char>,
    reply_to: Option<Seq<char>>,
)
    ensures
        uploaded(batches(files, content, reply_to)) == files,
        forall|i: int|
            0 <= i < batches(files, content, reply_to).len() ==> 0 < (#[trigger] batches(
                files,
                content,
                reply_to,
            )[i]).files.len() <= MAX_FILES_PER_MESSAGE,
        forall|i: int|
            0 <= i < batches(files, content, reply_to).len() - 1 ==> (#[trigger] batches(
                files,
                content,
                reply_to,
            )[i]).files.len() == MAX_FILES_PER_MESSAGE,
        forall|i: int|
            0 < i < batches(files, content, reply_to).len() ==> (#[trigger] batches(
                files,
                content,
                reply_to,
            )[i]).content.len() == 0 && batches(files, content, reply_to)[i].reply_to is None,
        batches(files, content, reply_to).len() > 0 ==> batches(
            files,
            content,
            reply_to,
        )[0].content == content && batches(files, content, reply_to)[0].reply_to == reply_to,
    decreases files.len(),
{
    let most = MAX_FILES_PER_MESSAGE as int;
    let all = batches(files, content, reply_to);
    if files.len() == 0 {
        assert(files =~= Seq::empty());
    } else if files.len() <= most {
        assert(all.skip(1) =~= Seq::empty());
        assert(uploaded(all.skip(1)) =~= Seq::empty());
        assert(files + Seq::empty() =~= files);
    } else {
        let rest = batches(files.skip(most), Seq::empty(), None);
        lemma_every_file_is_uploaded(files.skip(most), Seq::empty(), None);
        assert(all.skip(1) =~= rest);
        assert(files.take(most) + files.skip(most) =~= files);
        assert forall|i: int| 0 < i < all.len() implies (#[trigger] all[i]) == rest[i - 1] by {}
    }
}

// ---------------------------------------------------------------------------
// What is attached and what is told
// ---------------------------------------------------------------------------

/// The files that were loaded, and only those, are uploaded, in order: one that
/// was loaded comes behind those before it, one that was refused changes
/// nothing. Each that was refused is told of, behind those before it.
pub proof fn lemma_each_outcome_counts(
    requested: Seq<Requested>,
    outcomes: Seq<Loaded>,
    file: OutboundAttachment,
    error: AttachmentError,
)
    requires
        outcomes.len() < requested.len(),
    ensures
        loaded_files(Seq::empty()).len() == 0,
        skip_warnings(requested, Seq::empty()).len() == 0,
        loaded_files(outcomes.push(Ok(file))) == loaded_files(outcomes).push(file@),
        loaded_files(outcomes.push(Err(error))) == loaded_files(outcomes),
        skip_warnings(requested, outcomes.push(Ok(file))) == skip_warnings(requested, outcomes),
        skip_warnings(requested, outcomes.push(Err(error))) == skip_warnings(
            requested,
            outcomes,
        ).push(skip_warning(requested[outcomes.len() as int], error@)),
{
    let ok: Seq<Loaded> = outcomes.push(Ok(file));
    let err: Seq<Loaded> = outcomes.push(Err(error));
    assert(ok.drop_last() =~= outcomes);
    assert(err.drop_last() =~= outcomes);
}

/// A warning about a file names it and says why it was refused.
pub proof fn lemma_warning_names_file_and_reason(request: Requested, error: ErrorView)
    ensures
        crate::text::ends(skip_warning(request, error), error_text(error)),
        crate::text::occurs(
            skip_warning(request, error),
            "`"@ + attachment_label(request.path@) + "`: "@,
        ),
        request.image ==> crate::text::begins(
            skip_warning(request, error),
            "⚠️ Outbound image attachment skipped for "@,
        ),
        !request.image ==> crate::text::begins(
            skip_warning(request, error),
            "⚠️ Outbound file attachment skipped for "@,
        ),
{
    reveal_strlit("⚠️ Outbound ");
    reveal_strlit("image");
    reveal_strlit("file");
    reveal_strlit(" attachment skipped for `");
    reveal_strlit("⚠️ Outbound image attachment skipped for ");
    reveal_strlit("⚠️ Outbound file attachment skipped for ");
    reveal_strlit("`: ");
    reveal_strlit("`");
    let w = skip_warning(request, error);
    let e = error_text(error);
    let name = attachment_label(request.path@);
    assert(w.subrange(w.len() - e.len(), w.len() as int) =~= e);
    let pat = "`"@ + name + "`: "@;
    let at = w.len() - e.len() - pat.len();
    assert(w.subrange(at, at + pat.len()) =~= pat);
    assert(crate::text::occurs_at(w, pat, at));
    if request.image {
        let start = "⚠️ Outbound image attachment skipped for "@;
        assert(w.subrange(0, start.len() as int) =~= start);
    } else {
        let start = "⚠️ Outbound file attachment skipped for "@;
        assert(w.subrange(0, start.len() as int) =~= start);
    }
}

/// What is said of each refusal.
pub proof fn lemma_what_is_said_of_errors(
    path: Seq<char>,
    reason: Seq<char>,
    len: u64,
    limit: u64,
)
    ensures
        error_text(ErrorView::Unresolved { path, reason }) == "cannot resolve path "@ + path + ": "@
            + reason,
        error_text(ErrorView::Io { reason }) == reason,
        error_text(ErrorView::Undecodable { reason }) == reason,
        error_text(ErrorView::TooLarge { len, limit }) == "file is "@ + crate::text::decimal(
            len as nat,
        ) + " bytes, over the "@ + crate::text::decimal(limit as nat) + " byte limit"@,
        error_text(ErrorView::Outside)
            == "path is outside attachments.allowed_dirs (default: agent.working_dir)"@,
        error_text(ErrorView::NotAFile) == "path is not a regular file"@,
        error_text(ErrorView::NotAnImage)
            == "file is not a supported image (png, jpg, jpeg, gif, webp)"@,
        error_text(ErrorView::NoFilename) == "path has no valid filename"@,
{
}

impl OutboundAttachments {
    /// Off means that nothing is tried and the user is told once; on, as many are
    /// tried as allowed, and the user is told how many were not.
    pub proof fn lemma_what_is_tried(&self, requested: Seq<Requested>, outcomes: Seq<Loaded>)
        requires
            requested.len() > 0,
        ensures
            !self.enabled() ==> self.tried(requested.len()) == 0 && self.warnings(
                requested,
                outcomes,
            ).len() == 1,
            self.enabled() && requested.len() <= self.max_files() ==> self.tried(requested.len())
                == requested.len() && self.warnings(requested, outcomes) == skip_warnings(
                requested,
                outcomes,
            ),
            self.enabled() && requested.len() > self.max_files() ==> {
                let warnings = self.warnings(requested, outcomes);
                &&& self.tried(requested.len()) == self.max_files()
                &&& warnings.drop_last() == skip_warnings(requested, outcomes)
                &&& warnings.last() == "⚠️ Outbound "@ + noun(requested)
                    + " attachment limit reached; skipped "@ + crate::text::decimal(
                    (requested.len() - self.max_files()) as nat,
                ) + " file(s)."@
            },
            self.warnings(Seq::empty(), outcomes).len() == 0,
            requested[0].image ==> noun(requested) == "image"@,
            !requested[0].image ==> noun(requested) == "file"@,
    {
        if self.enabled() && requested.len() > self.max_files() {
            assert(self.warnings(requested, outcomes).drop_last() =~= skip_warnings(
                requested,
                outcomes,
            ));
        }
    }

    /// A path is read exactly if it is that of a regular file within the size
    /// limit.
    pub proof fn lemma_what_is_read(&self, metadata: Metadata)
        ensures
            self.metadata_error(metadata) is None <==> metadata.is_file && metadata.len
                <= self.max_bytes(),
            !metadata.is_file ==> self.metadata_error(metadata) == Some(ErrorView::NotAFile),
            metadata.is_file && metadata.len > self.max_bytes() ==> self.metadata_error(metadata)
                == Some(ErrorView::TooLarge { len: metadata.len, limit: self.max_bytes() }),
    {
    }

    /// Data is attached exactly if it keeps to the size limit, has a name, and,
    /// where it has to be an image, is one of the four kinds and can be decoded.
    pub proof fn lemma_what_is_attached(
        &self,
        path: CanonicalPath,
        data: Seq<u8>,
        image: bool,
        failure: Option<Seq<char>>,
    )
        ensures
            self.data_error(path, data, image, failure) is None <==> data.len() <= self.max_bytes()
                && path.name() is Some && (image ==> failure is None && (image_kind(data)
                is Png || image_kind(data) is Jpeg || image_kind(data) is Gif || image_kind(data)
                is WebP)),
            data.len() > self.max_bytes() ==> self.data_error(path, data, image, failure)
                is Some && self.data_error(path, data, image, failure)->0 is TooLarge,
            data.len() <= self.max_bytes() && image && image_kind(data) is Unsupported
                ==> self.data_error(path, data, image, failure) == Some(ErrorView::NotAnImage),
    {
    }
}

/// A relative path lies in the working directory: it comes behind it and a
/// slash. An absolute path stays as it is.
pub proof fn lemma_where_paths_start(working_dir: Seq<char>, raw: Seq<char>)
    ensures
        resolved_path(working_dir, raw, true) == raw,
        working_dir.len() > 0 && working_dir.last() != '/' ==> resolved_path(
            working_dir,
            raw,
            false,
        ) == working_dir.push('/') + raw,
        working_dir.len() > 0 && working_dir.last() == '/' ==> resolved_path(
            working_dir,
            raw,
            false,
        ) == working_dir + raw,
{
    reveal_strlit("/");
    assert(working_dir + "/"@ =~= working_dir.push('/'));
}

/// A label keeps the end of a path, at most 160 characters, with line breaks as
/// spaces.
pub proof fn lemma_labels_are_flat_ends(path: Seq<char>)
    ensures
        ({
            let label = attachment_label(path);
            let n = if path.len() <= 160 {
                path.len()
            } else {
                160
            };
            &&& label.len() == n
            &&& forall|i: int|
                0 <= i < n ==> label[i] == {
                    let c = path[path.len() - n + i];
                    if c == '\r' || c == '\n' {
                        ' '
                    } else {
                        c
                    }
                }
        }),
{
}

/// One message carries at most ten files.
pub proof fn lemma_ten_files_to_a_message(files: Seq<FileView>, content: Seq<char>)
    requires
        0 < files.len() <= 10,
    ensures
        batches(files, content, None) == seq![BatchView { content, files, reply_to: None }],
        MAX_FILES_PER_MESSAGE == 10,
{
}

/// What is said where attachments are off.
pub proof fn lemma_what_is_said_when_off(requested: Seq<Requested>)
    requires
        requested.len() > 0,
    ensures
        requested[0].image ==> disabled_warning(requested)
            == "⚠️ Outbound image attachment skipped because [attachments].enabled is false."@,
{
    reveal_strlit("⚠️ Outbound ");
    reveal_strlit("image");
    reveal_strlit(" attachment skipped because [attachments].enabled is false.");
    reveal_strlit("⚠️ Outbound image attachment skipped because [attachments].enabled is false.");
    if requested[0].image {
        assert(disabled_warning(requested)
            =~= "⚠️ Outbound image attachment skipped because [attachments].enabled is false."@);
    }
}

/// The directories from which files may be read, given those that are
/// configured and the working directory.
pub open spec fn dirs_of(configured: Seq<Seq<char>>, working_dir: Seq<char>) -> Seq<Seq<char>> {
    if configured.len() == 0 {
        seq![working_dir]
    } else {
        configured
    }
}

/// Files may be read from the directories that are configured and no others;
/// from the working directory only where none is configured, or where it is.
pub proof fn lemma_where_files_may_lie(configured: Seq<Seq<char>>, working_dir: Seq<char>)
    ensures
        dirs_of(configured, working_dir).len() > 0,
        forall|dir: Seq<char>|
            configured.len() > 0 ==> (dirs_of(configured, working_dir).contains(dir)
                <==> #[trigger] configured.contains(dir)),
        forall|i: int|
            configured.len() == 0 && 0 <= i < dirs_of(configured, working_dir).len() ==> dirs_of(
                configured,
                working_dir,
            )[i] == working_dir,
{
}

} // verus!
