use std::io::Cursor;

use openab::attachments::{
    check_image, ensure_supported_image, requested_files, sanitize_attachment_label,
    upload_batches, AttachmentError, CanonicalPath, ImageKind, Loaded, Metadata,
    OutboundAttachment, OutboundAttachments, PathPart, Requested,
};
use openab::config::AttachmentsConfig;
use openab::directives::parse_output_directives;

fn test_png_bytes() -> Vec<u8> {
    let img = image::RgbImage::new(1, 1);
    let mut buf = Cursor::new(Vec::new());
    img.write_to(&mut buf, image::ImageFormat::Png).unwrap();
    buf.into_inner()
}

fn rules(enabled: bool, allowed_dirs: Vec<String>, max_files: usize) -> OutboundAttachments {
    let cfg = AttachmentsConfig { enabled, allowed_dirs, max_bytes: 1024 * 1024, max_files };
    OutboundAttachments::new(cfg, "/work".to_string())
}

fn image_request(path: &str) -> Requested {
    Requested { path: path.to_string(), image: true }
}

fn name(text: &str) -> PathPart {
    PathPart::Name { bytes: text.as_bytes().to_vec(), text: Some(text.to_string()) }
}

fn parts(path: &str) -> CanonicalPath {
    let mut parts = vec![PathPart::Anchor { bytes: b"/".to_vec() }];
    parts.extend(path.split('/').filter(|p| !p.is_empty()).map(name));
    CanonicalPath { parts }
}

fn all_parts(paths: &[String]) -> Vec<CanonicalPath> {
    paths.iter().map(|p| parts(p)).collect()
}

fn load(rules: &OutboundAttachments, request: &Requested, canonical: &str, data: Vec<u8>) -> Loaded {
    let dirs = all_parts(rules.dirs());
    let candidate = rules.resolve_agent_path(&request.path, request.path.starts_with('/'));
    let path = rules.resolved(candidate, Ok(parts(canonical)), &dirs)?;
    let metadata = Metadata { is_file: true, len: data.len() as u64 };
    let path = rules.inspected(path, Ok(metadata))?;
    rules.read(path, Ok(data), request.image)
}

#[test]
fn outbound_attachments_loads_image_from_allowed_dir() {
    let rules = rules(true, vec!["/out".to_string()], 10);
    let requested = vec![image_request("/out/generated.png")];
    let outcome = load(&rules, &requested[0], "/out/generated.png", test_png_bytes());

    let (files, warnings) = rules.collect(&requested, vec![outcome]);

    assert!(warnings.is_empty(), "unexpected warnings: {warnings:?}");
    assert_eq!(files.len(), 1);
    assert_eq!(files[0].filename, "generated.png");
    assert!(!files[0].data.is_empty());
}

#[test]
fn outbound_attachments_rejects_path_outside_allowed_dir() {
    let rules = rules(true, vec!["/out".to_string()], 10);
    let requested = vec![image_request("/outside/secret.png")];
    let outcome = load(&rules, &requested[0], "/outside/secret.png", test_png_bytes());

    let (files, warnings) = rules.collect(&requested, vec![outcome]);

    assert!(files.is_empty());
    assert_eq!(warnings.len(), 1);
    assert!(warnings[0].contains("outside attachments.allowed_dirs"));
}

#[test]
fn outbound_attachments_relative_path_uses_agent_working_dir() {
    let rules = rules(true, Vec::new(), 10);
    let requested = vec![image_request("relative.png")];
    let path = rules.resolve_agent_path("relative.png", false);
    assert_eq!(path, "/work/relative.png");
    let outcome = load(&rules, &requested[0], &path, test_png_bytes());

    let (files, warnings) = rules.collect(&requested, vec![outcome]);

    assert!(warnings.is_empty(), "unexpected warnings: {warnings:?}");
    assert_eq!(files.len(), 1);
    assert_eq!(files[0].filename, "relative.png");
}

#[test]
fn outbound_attachments_disabled_warns_without_reading() {
    let rules = rules(false, vec!["/out".to_string()], 10);
    let requested = vec![image_request("missing.png")];
    assert_eq!(rules.attempts(requested.len()), 0);

    let (files, warnings) = rules.collect(&requested, Vec::new());

    assert!(files.is_empty());
    assert_eq!(
        warnings,
        vec!["⚠️ Outbound image attachment skipped because [attachments].enabled is false."]
    );
}

#[test]
fn too_many_files_are_told() {
    let rules = rules(true, vec!["/".to_string()], 1);
    let requested = vec![image_request("/a.png"), image_request("/b.png"), image_request("/c.png")];
    assert_eq!(rules.attempts(3), 1);
    let outcome = load(&rules, &requested[0], "/a.png", test_png_bytes());
    let (files, warnings) = rules.collect(&requested, vec![outcome]);
    assert_eq!(files.len(), 1);
    assert_eq!(
        warnings,
        vec!["⚠️ Outbound image attachment limit reached; skipped 2 file(s)."]
    );
    let (files, warnings) = rules.collect(&Vec::new(), Vec::new());
    assert!(files.is_empty() && warnings.is_empty());
}

#[test]
fn each_refusal_has_its_error() {
    let rules = rules(true, vec!["/out".to_string()], 10);
    let request = image_request("gone\n.png");
    let dirs = all_parts(rules.dirs());
    let candidate = rules.resolve_agent_path(&request.path, false);
    let error = rules.resolved(candidate, Err("no such file".to_string()), &dirs).unwrap_err();
    assert_eq!(error.message(), "cannot resolve path /work/gone\n.png: no such file");
    let (_, warnings) = rules.collect(&vec![request], vec![Err(error)]);
    assert_eq!(
        warnings,
        vec![
            "⚠️ Outbound image attachment skipped for `gone .png`: \
             cannot resolve path /work/gone\n.png: no such file"
        ]
    );

    let allowed = || rules.resolved("a".to_string(), Ok(parts("/out/a")), &dirs).unwrap();
    let error = rules.inspected(allowed(), Err("denied".to_string())).unwrap_err();
    assert_eq!(error.message(), "denied");
    let error = rules.inspected(allowed(), Ok(Metadata { is_file: false, len: 0 })).unwrap_err();
    assert_eq!(error, AttachmentError::NotAFile);
    assert_eq!(error.message(), "path is not a regular file");
    let error =
        rules.inspected(allowed(), Ok(Metadata { is_file: true, len: 1_048_577 })).unwrap_err();
    assert_eq!(error.message(), "file is 1048577 bytes, over the 1048576 byte limit");

    let readable =
        || rules.inspected(allowed(), Ok(Metadata { is_file: true, len: 1_048_576 })).unwrap();
    let error = rules.read(readable(), Err("gone".to_string()), true).unwrap_err();
    assert_eq!(error, AttachmentError::Io { reason: "gone".to_string() });
    let error = rules.read(readable(), Ok(vec![0; 1_048_577]), false).unwrap_err();
    assert_eq!(error, AttachmentError::TooLarge { len: 1_048_577, limit: 1_048_576 });
    let error = rules.read(readable(), Ok(b"plain text".to_vec()), true).unwrap_err();
    assert_eq!(
        error.message(),
        "file is not a supported image (png, jpg, jpeg, gif, webp)"
    );
    let file = rules.read(readable(), Ok(b"plain text".to_vec()), false).unwrap();
    assert_eq!(file, OutboundAttachment { filename: "a".to_string(), data: b"plain text".to_vec() });
    let root = vec![parts("/")];
    let mut odd = parts("/out");
    odd.parts.push(PathPart::Name { bytes: vec![0xff], text: None });
    for path in [parts("/"), odd] {
        let path = rules.resolved("a".to_string(), Ok(path), &root).unwrap();
        let path = rules.inspected(path, Ok(Metadata { is_file: true, len: 1 })).unwrap();
        assert_eq!(
            rules.read(path, Ok(Vec::new()), false).unwrap_err().message(),
            "path has no valid filename"
        );
    }
}

#[test]
fn file_below_a_directory_that_is_no_text_is_sent() {
    let rules = rules(true, Vec::new(), 10);
    let odd = || PathPart::Name { bytes: vec![0xff], text: None };
    let mut dir = parts("/");
    dir.parts.push(odd());
    let mut file = parts("/");
    file.parts.push(odd());
    file.parts.push(name("a.csv"));
    let path = rules.resolved("a.csv".to_string(), Ok(file), &vec![dir]).unwrap();
    let path = rules.inspected(path, Ok(Metadata { is_file: true, len: 1 })).unwrap();
    assert_eq!(rules.read(path, Ok(vec![1]), false).unwrap().filename, "a.csv");
}

#[test]
fn drive_paths_are_compared_by_their_parts() {
    let rules = rules(true, Vec::new(), 10);
    let drive = |names: &[&str]| {
        let mut parts = vec![
            PathPart::Anchor { bytes: b"\\\\?\\C:".to_vec() },
            PathPart::Anchor { bytes: b"\\".to_vec() },
        ];
        parts.extend(names.iter().map(|n| name(n)));
        CanonicalPath { parts }
    };
    let dirs = vec![drive(&["out"])];
    assert!(rules.ensure_allowed_path(&drive(&["out", "a.png"]), &dirs).is_ok());
    assert!(rules.ensure_allowed_path(&drive(&["outer", "a.png"]), &dirs).is_err());
    assert_eq!(rules.resolve_agent_path("C:\\out\\a.png", true), "C:\\out\\a.png");
    assert_eq!(drive(&["out", "a.png"]).file_name().as_deref(), Some("a.png"));
}

#[test]
fn broken_images_are_refused() {
    let png = test_png_bytes();
    assert!(ensure_supported_image(&png).is_ok());
    assert!(matches!(
        ensure_supported_image(&png[..20]),
        Err(AttachmentError::Undecodable { .. })
    ));
    assert_eq!(ensure_supported_image(b"BM"), Err(AttachmentError::NotAnImage));
    assert_eq!(ensure_supported_image(b""), Err(AttachmentError::NotAnImage));
    assert!(matches!(
        ensure_supported_image(b"GIF89a"),
        Err(AttachmentError::Undecodable { .. })
    ));
    assert!(matches!(
        ensure_supported_image(b"RIFF1234WEBPVP8 "),
        Err(AttachmentError::Undecodable { .. })
    ));
    assert_eq!(check_image(ImageKind::Gif, None), Ok(()));
    assert_eq!(
        check_image(ImageKind::Jpeg, Some("cut".to_string())),
        Err(AttachmentError::Undecodable { reason: "cut".to_string() })
    );
    assert_eq!(check_image(ImageKind::Unsupported, None), Err(AttachmentError::NotAnImage));
}

#[test]
fn directory_names_are_compared_whole() {
    let rules = rules(true, vec!["/out".to_string()], 10);
    let dirs = vec![parts("/out")];
    assert!(rules.ensure_allowed_path(&parts("/out/a.png"), &dirs).is_ok());
    assert!(rules.ensure_allowed_path(&parts("/out"), &dirs).is_ok());
    assert!(rules.ensure_allowed_path(&parts("/outer/a.png"), &dirs).is_err());
    assert!(rules.ensure_allowed_path(&parts("/a.png"), &vec![parts("/")]).is_ok());
    assert!(rules.ensure_allowed_path(&parts("/out/a.png"), &Vec::new()).is_err());
}

#[test]
fn relative_paths_start_in_the_working_directory() {
    let config = AttachmentsConfig::default();
    let rules = OutboundAttachments::new(config.clone(), "/work/".to_string());
    assert_eq!(rules.resolve_agent_path("a.png", false), "/work/a.png");
    assert_eq!(rules.resolve_agent_path("/a.png", true), "/a.png");
    assert_eq!(rules.agent_working_dir(), "/work/");
    let rules = OutboundAttachments::new(config, String::new());
    assert_eq!(rules.resolve_agent_path("a.png", false), "a.png");
}

#[test]
fn labels_are_short_and_flat() {
    assert_eq!(sanitize_attachment_label("a\r\nb"), "a  b");
    let long = "x".repeat(200) + "end";
    let label = sanitize_attachment_label(&long);
    assert_eq!(label.chars().count(), 160);
    assert!(label.ends_with("xend"));
}

#[test]
fn files_are_asked_for_images_first() {
    let (directives, _) =
        parse_output_directives("[[attach_file:b.docx]]\n[[attach_image:a.png]]\nDone");
    let requested = requested_files(&directives);
    assert_eq!(
        requested,
        vec![
            Requested { path: "a.png".to_string(), image: true },
            Requested { path: "b.docx".to_string(), image: false },
        ]
    );
}

fn files(n: usize) -> Vec<OutboundAttachment> {
    (0..n).map(|i| OutboundAttachment { filename: format!("{i}"), data: Vec::new() }).collect()
}

#[test]
fn uploads_are_split_into_messages() {
    let batches = upload_batches(files(23), "text", &Some("42".to_string()));
    let sizes: Vec<usize> = batches.iter().map(|b| b.files.len()).collect();
    assert_eq!(sizes, vec![10, 10, 3]);
    assert_eq!(batches[0].content, "text");
    assert_eq!(batches[0].reply_to.as_deref(), Some("42"));
    assert_eq!(batches[1].content, "");
    assert_eq!(batches[1].reply_to, None);
    assert_eq!(batches[2].files[2].filename, "22");
    assert_eq!(upload_batches(files(10), "", &None).len(), 1);
    assert!(upload_batches(files(0), "text", &None).is_empty());
}
