use aix::reader::{
    decode_entry, verify_extracted, version_text, AixReader, ReaderError, WidgetInfo,
    WidgetPlacement,
};

struct Member<'a> {
    name: &'a str,
    data: &'a [u8],
    method: u16,
}

fn push16(out: &mut Vec<u8>, v: u16) {
    out.extend_from_slice(&v.to_le_bytes());
}

fn push32(out: &mut Vec<u8>, v: u32) {
    out.extend_from_slice(&v.to_le_bytes());
}

/// Builds a ZIP archive; method 8 entries are deflated, others are stored as given.
fn build_zip(members: &[Member]) -> Vec<u8> {
    let mut out = Vec::new();
    let mut central = Vec::new();
    for m in members {
        let stored = if m.method == 8 {
            miniz_oxide::deflate::compress_to_vec(m.data, 6)
        } else {
            m.data.to_vec()
        };
        let crc = rawzip::crc32(m.data);
        let offset = out.len() as u32;
        push32(&mut out, 0x04034b50);
        push16(&mut out, 20);
        push16(&mut out, 0);
        push16(&mut out, m.method);
        push16(&mut out, 0);
        push16(&mut out, 0);
        push32(&mut out, crc);
        push32(&mut out, stored.len() as u32);
        push32(&mut out, m.data.len() as u32);
        push16(&mut out, m.name.len() as u16);
        push16(&mut out, 0);
        out.extend_from_slice(m.name.as_bytes());
        out.extend_from_slice(&stored);

        push32(&mut central, 0x02014b50);
        push16(&mut central, 20);
        push16(&mut central, 20);
        push16(&mut central, 0);
        push16(&mut central, m.method);
        push16(&mut central, 0);
        push16(&mut central, 0);
        push32(&mut central, crc);
        push32(&mut central, stored.len() as u32);
        push32(&mut central, m.data.len() as u32);
        push16(&mut central, m.name.len() as u16);
        push16(&mut central, 0);
        push16(&mut central, 0);
        push16(&mut central, 0);
        push16(&mut central, 0);
        push32(&mut central, 0);
        push32(&mut central, offset);
        central.extend_from_slice(m.name.as_bytes());
    }
    let central_offset = out.len() as u32;
    out.extend_from_slice(&central);
    push32(&mut out, 0x06054b50);
    push16(&mut out, 0);
    push16(&mut out, 0);
    push16(&mut out, members.len() as u16);
    push16(&mut out, members.len() as u16);
    push32(&mut out, central.len() as u32);
    push32(&mut out, central_offset);
    push16(&mut out, 0);
    out
}

fn stored<'a>(name: &'a str, data: &'a [u8]) -> Member<'a> {
    Member { name, data, method: 0 }
}

#[test]
fn reads_deflated_entries() {
    let data = build_zip(&[Member { name: "app.json", data: br#"{"pages":[]}"#, method: 8 }]);
    let reader = AixReader::new(data).unwrap();
    assert_eq!(reader.read_file("app.json").unwrap(), br#"{"pages":[]}"#);
}

#[test]
fn lists_entries_and_reads_stored_files() {
    let data = build_zip(&[
        stored("app.json", br#"{"pages":["pages/index/index"]}"#),
        stored("VERSION", b"build-7"),
        Member { name: "pages/index/index.wxml", data: b"<view class=\"c\"></view>", method: 8 },
    ]);
    let reader = AixReader::new(data).unwrap();
    let names: Vec<&str> = reader.list().iter().map(|e| e.name.as_str()).collect();
    assert_eq!(names, vec!["app.json", "VERSION", "pages/index/index.wxml"]);
    assert_eq!(reader.list()[1].size, 7);
    assert_eq!(reader.list()[1].compressed_size, 7);
    assert_eq!(reader.get_version().as_deref(), Some("build-7"));
    assert!(reader.has_entry("VERSION"));
    assert!(!reader.has_entry("version"));
    assert_eq!(
        reader.read_file("pages/index/index.wxml").unwrap(),
        b"<view class=\"c\"></view>"
    );
}

#[test]
fn exposes_original_archive_bytes() {
    let data = build_zip(&[stored("app.json", br#"{"pages":[]}"#)]);
    let reader = AixReader::new(data.clone()).unwrap();

    assert_eq!(reader.as_bytes(), data.as_slice());
    assert_eq!(reader.into_bytes(), data);
}

#[test]
fn reports_missing_files() {
    let reader = AixReader::new(build_zip(&[stored("a.txt", b"a")])).unwrap();
    let error = reader.read_file("b.txt").unwrap_err();
    assert!(matches!(&error, ReaderError::NotFound(n) if n == "b.txt"));
    assert_eq!(error.message(), "File not found: b.txt");
    assert_eq!(reader.get_version(), None);
}

#[test]
fn corrupt_manifest_propagates_read_error() {
    let payload = br#"{"format":"aix"}"#;
    let mut data = build_zip(&[stored("META-INF/aix/package.json", payload)]);
    let offset = data
        .windows(payload.len())
        .position(|window| window == payload)
        .unwrap();
    data[offset] ^= 1;

    let reader = AixReader::new(data).unwrap();
    let error = reader.read_file("META-INF/aix/package.json").unwrap_err();
    assert!(error.message().contains("Failed to verify"));
}

#[test]
fn refuses_duplicate_entries_and_non_archives() {
    let data = build_zip(&[stored("a.txt", b"1"), stored("a.txt", b"2")]);
    let error = AixReader::new(data).unwrap_err();
    assert_eq!(error.message(), "Duplicate zip entry: a.txt");
    assert!(matches!(AixReader::new(b"not a zip".to_vec()), Err(ReaderError::Open(_))));
}

#[test]
fn refuses_unsupported_compression() {
    let data = build_zip(&[Member { name: "x.bin", data: b"xyz", method: 12 }]);
    let reader = AixReader::new(data).unwrap();
    let error = reader.read_file("x.bin").unwrap_err();
    assert!(matches!(&error, ReaderError::Unsupported(n, 12) if n == "x.bin"));
    assert_eq!(error.message(), "Unsupported compression for x.bin: 12 (BZIP2)");
}

fn clock_widget() -> WidgetInfo {
    WidgetInfo {
        path: "widgets/clock/index".to_string(),
        family: "1x1".to_string(),
        placement: WidgetPlacement::default(),
    }
}

#[test]
fn returns_declared_widgets_when_entries_exist() {
    let reader = AixReader::new(build_zip(&[
        stored("app.json", br#"{"pages":[],"widgets":[{"path":"widgets/clock/index","family":"1x1"}]}"#),
        stored("widgets/clock/index.ink", b"<widget></widget>"),
    ]))
    .unwrap();

    assert_eq!(
        reader.get_widgets(vec![clock_widget()]).unwrap(),
        vec![WidgetInfo {
            path: "widgets/clock/index".to_string(),
            family: "1x1".to_string(),
            placement: WidgetPlacement::Persistent,
        }]
    );
}

#[test]
fn rejects_widget_with_missing_entry() {
    let reader = AixReader::new(build_zip(&[stored(
        "app.json",
        br#"{"pages":[],"widgets":[{"path":"widgets/clock/index","family":"1x1"}]}"#,
    )]))
    .unwrap();

    assert_eq!(
        reader.get_widgets(vec![clock_widget()]).unwrap_err().message(),
        "Widget entry not found: widgets/clock/index.ink"
    );
}

#[test]
fn accepts_an_empty_widget_list() {
    let reader = AixReader::new(build_zip(&[stored("app.json", br#"{"pages":[]}"#)])).unwrap();
    assert!(reader.get_widgets(Vec::new()).unwrap().is_empty());
}

#[test]
fn decodes_and_verifies_extracted_data() {
    let packed = miniz_oxide::deflate::compress_to_vec(b"hello hello hello", 6);
    assert_eq!(decode_entry("h", 8, &packed, 64).unwrap(), b"hello hello hello");
    assert!(matches!(decode_entry("h", 8, &packed, 4), Err(ReaderError::Extract(_, _))));
    assert_eq!(decode_entry("s", 0, b"raw", 0).unwrap(), b"raw");
    let crc = rawzip::crc32(b"abc");
    assert_eq!(verify_extracted("f", b"abc".to_vec(), crc, 3).unwrap(), b"abc");
    assert!(matches!(
        verify_extracted("f", b"abc".to_vec(), crc, 4),
        Err(ReaderError::SizeMismatch(_, 4, 3))
    ));
    assert!(matches!(
        verify_extracted("f", b"abd".to_vec(), crc, 3),
        Err(ReaderError::ChecksumMismatch(_, _, _))
    ));
}

#[test]
fn normalizes_entry_names() {
    let reader = AixReader::new(build_zip(&[
        stored("dir\\file.txt", b"x"),
        stored("./top.txt", b"y"),
    ]))
    .unwrap();
    let names: Vec<&str> = reader.list().iter().map(|e| e.name.as_str()).collect();
    assert_eq!(names, vec!["dir/file.txt", "top.txt"]);
    assert_eq!(reader.read_file("dir/file.txt").unwrap(), b"x");
    let clash = build_zip(&[stored("a/b.txt", b"1"), stored("a\\b.txt", b"2")]);
    assert_eq!(
        AixReader::new(clash).unwrap_err().message(),
        "Duplicate zip entry: a/b.txt"
    );
}

#[test]
fn turns_version_reads_into_identifiers() {
    assert_eq!(version_text(Ok(b"build-9".to_vec())).as_deref(), Some("build-9"));
    assert_eq!(version_text(Ok(vec![0xff, 0xfe])), None);
    assert_eq!(version_text(Err(ReaderError::NotFound("VERSION".to_string()))), None);
}

#[test]
fn reports_entries_whose_data_cannot_be_located() {
    let mut data = build_zip(&[stored("a.txt", b"abc"), stored("b.txt", b"xyz")]);
    data[0] ^= 0xff;
    let reader = AixReader::new(data).unwrap();
    let error = reader.read_file("a.txt").unwrap_err();
    assert!(matches!(&error, ReaderError::Locate(n, _) if n == "a.txt"));
    assert!(error.message().starts_with("Failed to locate a.txt: "));
    assert_eq!(reader.read_file("b.txt").unwrap(), b"xyz");
}
