use rustydav::file::parse_xml;
use rustydav::{parse_events, FileInfo, XmlEvent};

fn document(entries: &[String]) -> String {
    let mut doc = String::from(
        "<?xml version=\"1.0\" encoding=\"utf-8\"?>\n<D:multistatus xmlns:D=\"DAV:\" xmlns:lp1=\"DAV:\">\n",
    );
    for e in entries {
        doc.push_str(e);
    }
    doc.push_str("</D:multistatus>\n");
    doc
}

fn entry(href: &str, props: &str) -> String {
    format!(
        "<D:response>\n<D:href>{}</D:href>\n<D:propstat>\n<D:prop>\n{}</D:prop>\n<D:status>HTTP/1.1 200 OK</D:status>\n</D:propstat>\n</D:response>\n",
        href, props
    )
}

fn only(files: Vec<FileInfo>) -> FileInfo {
    assert_eq!(files.len(), 1);
    files.into_iter().next().unwrap()
}

#[test]
fn entries_come_back_in_document_order() {
    let doc = document(&[
        entry("/remote/one.txt", ""),
        entry("/remote/two/", ""),
        entry("/remote/three.tar.gz", "<lp1:getcontentlength>12</lp1:getcontentlength>\n"),
    ]);
    let files = parse_xml(&doc).unwrap();
    assert_eq!(files.len(), 3);
    assert_eq!(files[0].path, "/remote/one.txt");
    assert_eq!(files[1].path, "/remote/two/");
    assert_eq!(files[2].path, "/remote/three.tar.gz");
    assert_eq!(files[2].file_type, "gz");
    assert_eq!(files[2].size, 12);
}

#[test]
fn name_and_type_from_path() {
    let f = only(parse_xml(&document(&[entry("/a/b/c/report.final.pdf", "")])).unwrap());
    assert_eq!(f.name, "report.final.pdf");
    assert_eq!(f.file_type, "pdf");
}

#[test]
fn trailing_slash_gives_empty_name() {
    let f = only(parse_xml(&document(&[entry("/a/b/dir/", "")])).unwrap());
    assert_eq!(f.path, "/a/b/dir/");
    assert_eq!(f.name, "");
    assert_eq!(f.file_type, "");
}

#[test]
fn path_without_slash_is_its_own_name() {
    let f = only(parse_xml(&document(&[entry("notes.md", "")])).unwrap());
    assert_eq!(f.name, "notes.md");
    assert_eq!(f.file_type, "md");
}

#[test]
fn name_without_dot_has_empty_type() {
    let f = only(parse_xml(&document(&[entry("/docs/README", "")])).unwrap());
    assert_eq!(f.name, "README");
    assert_eq!(f.file_type, "");
}

#[test]
fn entry_without_length_is_a_directory() {
    let f = only(parse_xml(&document(&[entry("/a/dir/", "")])).unwrap());
    assert!(f.is_dir);
    assert_eq!(f.size, 0);
}

#[test]
fn entry_with_length_is_a_file() {
    let props = "<lp1:getcontentlength>4096</lp1:getcontentlength>\n";
    let f = only(parse_xml(&document(&[entry("/a/file.bin", props)])).unwrap());
    assert!(!f.is_dir);
    assert_eq!(f.size, 4096);
}

#[test]
fn zero_length_is_still_a_file() {
    let props = "<lp1:getcontentlength>0</lp1:getcontentlength>\n";
    let f = only(parse_xml(&document(&[entry("/a/empty.txt", props)])).unwrap());
    assert!(!f.is_dir);
    assert_eq!(f.size, 0);
}

#[test]
fn largest_length_is_read() {
    let props = "<lp1:getcontentlength>18446744073709551615</lp1:getcontentlength>\n";
    let f = only(parse_xml(&document(&[entry("/big", props)])).unwrap());
    assert_eq!(f.size, u64::MAX);
}

#[test]
fn length_with_plus_sign_is_read() {
    let props = "<lp1:getcontentlength>+7</lp1:getcontentlength>\n";
    let f = only(parse_xml(&document(&[entry("/seven", props)])).unwrap());
    assert_eq!(f.size, 7);
}

#[test]
fn non_numeric_length_fails_the_parse() {
    let props = "<lp1:getcontentlength>abc</lp1:getcontentlength>\n";
    let doc = document(&[entry("/a/ok/", ""), entry("/a/bad.txt", props)]);
    let r = parse_xml(&doc);
    assert_eq!(r.unwrap_err(), "Failed to parse size");
}

#[test]
fn length_too_large_fails_the_parse() {
    let props = "<lp1:getcontentlength>18446744073709551616</lp1:getcontentlength>\n";
    assert!(parse_xml(&document(&[entry("/huge", props)])).is_err());
}

#[test]
fn negative_length_fails_the_parse() {
    let props = "<lp1:getcontentlength>-1</lp1:getcontentlength>\n";
    assert!(parse_xml(&document(&[entry("/neg", props)])).is_err());
}

#[test]
fn empty_document_gives_empty_listing() {
    assert_eq!(parse_xml("").unwrap().len(), 0);
    assert_eq!(parse_xml(&document(&[])).unwrap().len(), 0);
}

#[test]
fn unclosed_entry_at_end_is_left_out() {
    let mut doc = String::from("<D:multistatus xmlns:D=\"DAV:\">\n");
    doc.push_str(&entry("/kept.txt", ""));
    doc.push_str("<D:response>");
    let files = parse_xml(&doc).unwrap();
    assert_eq!(files.len(), 1);
    assert_eq!(files[0].path, "/kept.txt");
    assert_eq!(parse_xml("<D:response>").unwrap().len(), 0);
}

#[test]
fn repeated_property_last_wins() {
    let props = "<lp1:creationdate>first</lp1:creationdate>\n\
                 <lp1:getlastmodified>early</lp1:getlastmodified>\n\
                 <lp1:creationdate>second</lp1:creationdate>\n\
                 <lp1:getlastmodified>late</lp1:getlastmodified>\n\
                 <lp1:getcontentlength>1</lp1:getcontentlength>\n\
                 <lp1:getcontentlength>2</lp1:getcontentlength>\n";
    let f = only(parse_xml(&document(&[entry("/x", props)])).unwrap());
    assert_eq!(f.create_date, "second");
    assert_eq!(f.modified_date, "late");
    assert_eq!(f.size, 2);
}

#[test]
fn dates_are_kept_as_written() {
    let props = "<lp1:creationdate>2020-01-01T00:00:00Z</lp1:creationdate>\n\
                 <lp1:getlastmodified>Wed, 01 Jan 2020 00:00:00 GMT</lp1:getlastmodified>\n";
    let f = only(parse_xml(&document(&[entry("/d.txt", props)])).unwrap());
    assert_eq!(f.create_date, "2020-01-01T00:00:00Z");
    assert_eq!(f.modified_date, "Wed, 01 Jan 2020 00:00:00 GMT");
}

#[test]
fn other_prefixes_are_not_recognised() {
    let doc = "<a:multistatus xmlns:a=\"DAV:\"><a:response><a:href>/x</a:href></a:response></a:multistatus>";
    assert_eq!(parse_xml(doc).unwrap().len(), 0);
}

#[test]
fn malformed_document_fails() {
    let doc = "<D:multistatus><D:response><D:href>/x</D:href></D:responze></D:multistatus>";
    assert!(parse_xml(doc).is_err());
}

#[test]
fn events_of_one_entry() {
    let events = vec![
        XmlEvent::Open("D:multistatus".to_string()),
        XmlEvent::Open("D:response".to_string()),
        XmlEvent::Open("D:href".to_string()),
        XmlEvent::Text("/a/b/c/report.final.pdf".to_string()),
        XmlEvent::Open("lp1:getcontentlength".to_string()),
        XmlEvent::Text("4096".to_string()),
        XmlEvent::Close("D:response".to_string()),
        XmlEvent::End,
    ];
    let f = only(parse_events(events).unwrap());
    assert_eq!(f.name, "report.final.pdf");
    assert_eq!(f.file_type, "pdf");
    assert_eq!(f.size, 4096);
    assert!(!f.is_dir);
}

#[test]
fn events_text_without_property_is_ignored() {
    let events = vec![
        XmlEvent::Open("D:response".to_string()),
        XmlEvent::Open("D:status".to_string()),
        XmlEvent::Text("HTTP/1.1 200 OK".to_string()),
        XmlEvent::Close("D:response".to_string()),
    ];
    let f = only(parse_events(events).unwrap());
    assert_eq!(f.path, "");
    assert!(f.is_dir);
}

#[test]
fn events_bad_size_fails() {
    let events = vec![
        XmlEvent::Open("D:response".to_string()),
        XmlEvent::Close("D:response".to_string()),
        XmlEvent::Open("D:response".to_string()),
        XmlEvent::Open("lp1:getcontentlength".to_string()),
        XmlEvent::Text("abc".to_string()),
        XmlEvent::Close("D:response".to_string()),
    ];
    assert_eq!(parse_events(events).unwrap_err(), "Failed to parse size");
}

#[test]
fn events_malformed_fails() {
    let events = vec![
        XmlEvent::Open("D:response".to_string()),
        XmlEvent::Close("D:response".to_string()),
        XmlEvent::Malformed("bad".to_string()),
    ];
    assert_eq!(parse_events(events).unwrap_err(), "bad");
}

#[test]
fn events_unclosed_entry_is_dropped() {
    let events = vec![
        XmlEvent::Open("D:response".to_string()),
        XmlEvent::Close("D:response".to_string()),
        XmlEvent::Open("D:response".to_string()),
        XmlEvent::End,
    ];
    assert_eq!(parse_events(events).unwrap().len(), 1);
    assert_eq!(parse_events(Vec::new()).unwrap().len(), 0);
}
