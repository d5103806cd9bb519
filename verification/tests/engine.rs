use docxtools::attrs::Rule;
use docxtools::error::DocxError;
use docxtools::pattern::Matcher;
use docxtools::plan::ReplacementPlan;
use docxtools::reconstruct::RunCoord;
use docxtools::stream::read_events;
use docxtools::xml::{write_event, XmlEvent};
use docxtools::xml_util::XMLUtil;

const DOC: &str = "<?xml version=\"1.0\" encoding=\"UTF-8\"?>\n<!DOCTYPE note>\n<!-- a comment -->\n\
<w:document xmlns:w=\"http://schemas.openxmlformats.org/wordprocessingml/2006/main\"><?pi data?><w:body>\
<w:p><w:r><w:t>One</w:t></w:r><w:r><w:br/><w:t xml:space=\"preserve\"> &amp; two</w:t><w:t></w:t><w:t> </w:t></w:r></w:p>\
<w:p><w:r><w:rPr/></w:r></w:p>\
<w:tbl><w:p><w:r><w:t><![CDATA[not text]]>three</w:t><w:br></w:br><w:t>four</w:t></w:r></w:p></w:tbl>\
<w:t>outside</w:t>\
</w:body></w:document>\n";

#[test]
fn reading_gives_paragraphs_and_coordinates() {
    let read = XMLUtil::get_replace_text(DOC.as_bytes(), "a.docx", &ReplacementPlan::new()).unwrap();
    assert_eq!(read.paras, vec!["One\n & two ", "three\nfour"]);
    assert_eq!(
        read.coords,
        vec![
            RunCoord { para: 0, offset: 0, len: 3 },
            RunCoord { para: 0, offset: 4, len: 6 },
            RunCoord { para: 0, offset: 10, len: 1 },
            RunCoord { para: 1, offset: 0, len: 5 },
            RunCoord { para: 1, offset: 6, len: 4 },
        ]
    );
    assert!(!read.changed);
    assert!(read.log.is_empty());
    assert_eq!(String::from_utf8(read.output).unwrap(), DOC);
}

#[test]
fn reading_twice_gives_the_same() {
    let first = XMLUtil::get_replace_text(DOC.as_bytes(), "a.docx", &ReplacementPlan::new()).unwrap();
    let second = XMLUtil::get_replace_text(DOC.as_bytes(), "a.docx", &ReplacementPlan::new()).unwrap();
    assert_eq!(first.paras, second.paras);
    assert_eq!(first.coords, second.coords);
    assert_eq!(first.output, second.output);
    assert!(!first.changed && !second.changed);
}

#[test]
fn paragraphs_are_as_long_as_their_runs_and_separators() {
    let read = XMLUtil::get_replace_text(DOC.as_bytes(), "a.docx", &ReplacementPlan::new()).unwrap();
    let runs = ["One", " & two", " ", "three", "four"];
    let separators = [1, 1];
    for (para, text) in read.paras.iter().enumerate() {
        let mut sum = separators[para];
        for (id, coord) in read.coords.iter().enumerate() {
            if coord.para == para {
                sum += runs[id].chars().count();
                let at: String = text.chars().skip(coord.offset).take(runs[id].chars().count()).collect();
                assert_eq!(at, runs[id]);
            }
        }
        assert_eq!(sum, text.chars().count());
    }

    let mut plan = ReplacementPlan::new();
    XMLUtil::replace_within_tag(&mut plan, 1, " & two", 1, 2, "<and>");
    XMLUtil::replace_within_tag(&mut plan, 3, "three", 0, 5, "");
    let written = XMLUtil::get_replace_text(DOC.as_bytes(), "a.docx", &plan).unwrap();
    assert!(written.changed);
    assert_eq!(written.paras, vec!["One\n <and> two ", "\nfour"]);
    assert_eq!(written.paras[0].chars().count(), 3 + 1 + 10 + 1);
    assert_eq!(written.paras[1].chars().count(), 0 + 1 + 4);
    assert_eq!(written.coords[1], RunCoord { para: 0, offset: 4, len: 10 });
    assert_eq!(written.coords[2], RunCoord { para: 0, offset: 14, len: 1 });
    assert_eq!(written.coords[3], RunCoord { para: 1, offset: 0, len: 0 });
    assert_eq!(written.coords[4], RunCoord { para: 1, offset: 1, len: 4 });
    assert_eq!(written.log, vec!["a.docx:  & two\n->  <and> two", "a.docx: three\n-> "]);
    let out = String::from_utf8(written.output).unwrap();
    assert_eq!(
        out,
        DOC.replace(" &amp; two", " &lt;and&gt; two").replace("<![CDATA[not text]]>three", "<![CDATA[not text]]>")
    );
}

#[test]
fn plan_for_no_run_still_asks_for_writing() {
    let mut plan = ReplacementPlan::new();
    XMLUtil::replace_within_tag(&mut plan, 99, "abc", 0, 1, "x");
    let written = XMLUtil::get_replace_text(DOC.as_bytes(), "a.docx", &plan).unwrap();
    assert!(written.changed);
    assert_eq!(String::from_utf8(written.output).unwrap(), DOC);
}

#[test]
fn fault_offset_is_reported() {
    let xml = "<a><b>text</a>";
    match XMLUtil::get_replace_text(xml.as_bytes(), "a.docx", &ReplacementPlan::new()) {
        Err(DocxError::MalformedMarkup { offset }) => assert_eq!(offset, 14),
        _ => panic!("expected malformed markup"),
    }
    match read_events(b"<a><b></b") {
        Err(DocxError::MalformedMarkup { offset }) => assert_eq!(offset, 9),
        _ => panic!("expected malformed markup"),
    }
}

#[test]
fn text_that_is_not_utf8_is_reported() {
    let mut xml = b"<w:p xmlns:w=\"http://schemas.openxmlformats.org/wordprocessingml/2006/main\"><w:t>".to_vec();
    xml.extend_from_slice(&[0x61, 0xff, 0x62]);
    xml.extend_from_slice(b"</w:t></w:p>");
    assert!(matches!(
        XMLUtil::get_replace_text(&xml, "a.docx", &ReplacementPlan::new()),
        Err(DocxError::MalformedMarkup { .. })
    ));
    let mut outside = b"<w:p xmlns:w=\"http://schemas.openxmlformats.org/wordprocessingml/2006/main\"><w:x>".to_vec();
    outside.extend_from_slice(&[0x61, 0xff, 0x62]);
    outside.extend_from_slice(b"</w:x></w:p>");
    let read = XMLUtil::get_replace_text(&outside, "a.docx", &ReplacementPlan::new()).unwrap();
    assert!(read.paras.is_empty());
    assert_eq!(read.output, outside);
}

#[test]
fn events_are_written_as_they_were_read() {
    let events = read_events(DOC.as_bytes()).unwrap();
    let mut out = Vec::new();
    for event in &events {
        write_event(&mut out, event);
    }
    assert_eq!(String::from_utf8(out).unwrap(), DOC);
    assert!(matches!(&events[0], XmlEvent::Decl(c) if c == b"xml version=\"1.0\" encoding=\"UTF-8\""));
    assert!(matches!(&events[2], XmlEvent::DocType(c) if c == b"note"));
    assert!(matches!(&events[4], XmlEvent::Comment(c) if c == b" a comment "));
    assert!(matches!(&events[6], XmlEvent::Start(10, c) if c.starts_with(b"w:document xmlns:w=")));
    assert!(matches!(&events[7], XmlEvent::PI(c) if c == b"pi data"));
    assert_eq!(events[6].name(), b"w:document");
    assert!(events.iter().any(|e| matches!(e, XmlEvent::CData(c) if c == b"not text")));
    assert!(events.iter().any(|e| matches!(e, XmlEvent::Empty(4, c) if c == b"w:br")));
    assert!(events.iter().any(|e| matches!(e, XmlEvent::End(c) if c == b"w:body")));
}

#[test]
fn attributes_are_rewritten_by_a_pattern() {
    let xml = "<Relationships><Relationship Id='r1' Target=\"http://a.example/x?y=1&amp;z=2\" Other=\"a.example\"/>\
<Relationship Id=\"r2\" Target=\"b.example\">text a.example</Relationship><?keep a.example?></Relationships>";
    let regex = Matcher::new("(a)\\.example").unwrap();
    let rewrite =
        XMLUtil::snr_change_attribute(xml.as_bytes(), Some("Target"), &regex, "${1}a.org", "d.docx").unwrap();
    assert!(rewrite.changed);
    assert_eq!(
        String::from_utf8(rewrite.output).unwrap(),
        "<Relationships><Relationship Id=\"r1\" Target=\"http://aa.org/x?y=1&amp;z=2\" Other=\"a.example\"/>\
<Relationship Id=\"r2\" Target=\"b.example\">text a.example</Relationship><?keep a.example?></Relationships>"
    );
    assert_eq!(rewrite.lines, vec!["d.docx: Target=http://a.example/x?y=1&amp;z=2"]);

    let all = XMLUtil::snr_change_attribute(xml.as_bytes(), None, &regex, "${1}a.org", "d.docx").unwrap();
    assert_eq!(
        String::from_utf8(all.output).unwrap(),
        "<Relationships><Relationship Id=\"r1\" Target=\"http://aa.org/x?y=1&amp;z=2\" Other=\"aa.org\"/>\
<Relationship Id=\"r2\" Target=\"b.example\">text a.example</Relationship><?keep a.example?></Relationships>"
    );
    assert_eq!(
        all.lines,
        vec!["d.docx: Target=http://a.example/x?y=1&amp;z=2", "d.docx: Other=a.example"]
    );

    let same = Matcher::new("^b\\.example$").unwrap();
    let kept = XMLUtil::snr_change_attribute(xml.as_bytes(), Some("Target"), &same, "b.example", "d.docx").unwrap();
    assert!(kept.changed);
    assert_eq!(kept.lines, vec!["d.docx: Target=b.example"]);

    let id = Matcher::new("r1").unwrap();
    let untouched = XMLUtil::snr_change_attribute(xml.as_bytes(), Some("Target"), &id, "x", "d.docx").unwrap();
    assert!(!untouched.changed);
    assert!(untouched.lines.is_empty());
    assert_eq!(String::from_utf8(untouched.output).unwrap(), xml);
}

#[test]
fn one_attribute_is_rewritten_by_name() {
    let update = XMLUtil::update_attributes(
        8,
        b"w:pStyle w:val=\"Heading1\" w:other='Heading1' val=\"Heading1\"",
        Some(b"w:val"),
        &Rule::Exact("Heading1", "Heading3"),
        "d.docx",
    );
    assert!(update.changed);
    assert_eq!(
        String::from_utf8(update.content).unwrap(),
        "w:pStyle w:val=\"Heading3\" w:other=\"Heading1\" val=\"Heading1\""
    );
    assert_eq!(update.lines, vec!["d.docx: w:val=Heading1"]);

    let none = XMLUtil::update_any_attribute(4, b"w:jc w:val='left'", &Rule::Exact("right", "left"), "d.docx");
    assert!(!none.changed);
    assert_eq!(none.content, b"w:jc w:val='left'");
    assert!(none.lines.is_empty());
}

#[test]
fn style_is_renamed_only_on_paragraph_styles() {
    let xml = "<x:document xmlns:x=\"http://schemas.openxmlformats.org/wordprocessingml/2006/main\" xmlns:o=\"urn:other\">\
<x:pStyle x:val=\"A\"/><o:pStyle o:val=\"A\"/><x:rStyle x:val=\"A\"/><x:pStyle o:val=\"A\" x:val=\"B\"/><x:pStyle val=\"A\"/></x:document>";
    let rewrite = XMLUtil::style_change(xml.as_bytes(), "d.docx", "A", "Z").unwrap();
    assert!(rewrite.changed);
    assert_eq!(
        String::from_utf8(rewrite.output).unwrap(),
        xml.replacen("<x:pStyle x:val=\"A\"/>", "<x:pStyle x:val=\"Z\"/>", 1)
    );
    let kept = XMLUtil::style_change(xml.as_bytes(), "d.docx", "C", "Z").unwrap();
    assert!(!kept.changed);
    assert_eq!(String::from_utf8(kept.output).unwrap(), xml);
}

const NS: &str = "xmlns:w=\"http://schemas.openxmlformats.org/wordprocessingml/2006/main\"";

#[test]
fn paragraph_started_anew_drops_what_was_read() {
    let xml = format!(
        "<w:body {}><w:p><w:r><w:t>outer</w:t></w:r><w:r><w:pict><w:p><w:r><w:t>inner text</w:t></w:r></w:p></w:pict></w:r>\
<w:r><w:t>rest</w:t></w:r></w:p><w:p><w:r><w:t>next</w:t></w:r></w:p></w:body>",
        NS
    );
    let read = XMLUtil::get_replace_text(xml.as_bytes(), "a.docx", &ReplacementPlan::new()).unwrap();
    assert_eq!(read.paras, vec!["inner text", "next"]);
    assert_eq!(
        read.coords,
        vec![
            RunCoord { para: usize::MAX, offset: 0, len: 5 },
            RunCoord { para: 0, offset: 0, len: 10 },
            RunCoord { para: 1, offset: 0, len: 4 },
        ]
    );
    let regex = Matcher::new("[a-z]+").unwrap();
    let written = XMLUtil::replace_text(xml.as_bytes(), "a.docx", &regex, "X").unwrap().unwrap();
    assert_eq!(
        String::from_utf8(written.output).unwrap(),
        xml.replace("inner text", "X X").replace("next", "X")
    );
}

#[test]
fn empty_text_element_opens_a_run() {
    let xml = format!(
        "<w:p {}><w:r><w:t/></w:r><w:r><w:fldChar/><w:instrText>PAGE</w:instrText></w:r><w:r><w:t>1</w:t></w:r>\
<w:r><w:instrText>after</w:instrText></w:r></w:p>",
        NS
    );
    let read = XMLUtil::get_replace_text(xml.as_bytes(), "a.docx", &ReplacementPlan::new()).unwrap();
    assert_eq!(read.paras, vec!["PAGE1"]);
    assert_eq!(
        read.coords,
        vec![RunCoord { para: 0, offset: 0, len: 4 }, RunCoord { para: 0, offset: 4, len: 1 }]
    );
}

#[test]
fn line_breaks_count_wherever_they_stand() {
    let xml = format!(
        "<w:body {}><w:br/><w:p><w:br/><w:r><w:t>a</w:t><w:br></w:br></w:r></w:p><w:br/><w:p/><w:p></w:p></w:body>",
        NS
    );
    let read = XMLUtil::get_replace_text(xml.as_bytes(), "a.docx", &ReplacementPlan::new()).unwrap();
    assert_eq!(read.paras, vec!["\na\n"]);
    assert_eq!(read.coords, vec![RunCoord { para: 0, offset: 1, len: 1 }]);
}

#[test]
fn run_before_a_line_break_keeps_to_its_own_text() {
    let xml = format!("<w:document {}><w:p><w:r><w:t>ab</w:t><w:br/><w:t>cd</w:t></w:r></w:p></w:document>", NS);
    let regex = Matcher::new("a").unwrap();
    let written = XMLUtil::replace_text(xml.as_bytes(), "a.docx", &regex, "X").unwrap().unwrap();
    assert_eq!(String::from_utf8(written.output).unwrap(), xml.replace("ab", "Xb"));
    assert_eq!(written.paras, vec!["Xb\ncd"]);
    assert_eq!(written.log, vec!["a.docx: ab\n-> Xb"]);

    let both = Matcher::new("[bd]").unwrap();
    let written = XMLUtil::replace_text(xml.as_bytes(), "a.docx", &both, "YY").unwrap().unwrap();
    assert_eq!(String::from_utf8(written.output).unwrap(), xml.replace("ab", "aYY").replace("cd", "cYY"));
    assert_eq!(written.paras, vec!["aYY\ncYY"]);
}

#[test]
fn match_over_a_line_separator_changes_nothing() {
    let xml = format!("<w:p {}><w:r><w:t>ab</w:t><w:br/><w:t>cd</w:t></w:r></w:p>", NS);
    let across = Matcher::new("b\\sc").unwrap();
    assert!(XMLUtil::replace_text(xml.as_bytes(), "a.docx", &across, "-").unwrap().is_none());
    let separator = Matcher::new("\\s").unwrap();
    assert!(XMLUtil::replace_text(xml.as_bytes(), "a.docx", &separator, "-").unwrap().is_none());
    let mixed = Matcher::new("b\\sc|d").unwrap();
    let written = XMLUtil::replace_text(xml.as_bytes(), "a.docx", &mixed, "-").unwrap().unwrap();
    assert_eq!(String::from_utf8(written.output).unwrap(), xml.replace("cd", "c-"));
}

#[test]
fn paragraph_without_text_is_dropped_on_writing() {
    let xml = format!("<w:body {}><w:p><w:r><w:t>gone</w:t></w:r></w:p><w:p><w:r><w:t>kept</w:t></w:r></w:p></w:body>", NS);
    let regex = Matcher::new("gone").unwrap();
    let written = XMLUtil::replace_text(xml.as_bytes(), "a.docx", &regex, "").unwrap().unwrap();
    assert_eq!(written.paras, vec!["kept"]);
    assert_eq!(
        written.coords,
        vec![
            RunCoord { para: usize::MAX, offset: 0, len: 0 },
            RunCoord { para: 0, offset: 0, len: 4 },
        ]
    );
    assert_eq!(String::from_utf8(written.output).unwrap(), xml.replace("gone", ""));
}

#[test]
fn tag_that_is_not_utf8_is_reported() {
    let mut xml = b"<Relationships><Relationship Id=\"r1\" Other=\"".to_vec();
    xml.extend_from_slice(&[0x61, 0xff, 0x62]);
    xml.extend_from_slice(b"\" Target=\"a.example\"/></Relationships>");
    let regex = Matcher::new("example").unwrap();
    match XMLUtil::snr_change_attribute(&xml, Some("Target"), &regex, "org", "d.docx") {
        Err(DocxError::MalformedMarkup { offset }) => assert_eq!(offset as usize, xml.len() - 16),
        _ => panic!("expected malformed markup"),
    }
    assert!(matches!(read_events(&xml), Err(DocxError::MalformedMarkup { .. })));
    assert!(matches!(
        XMLUtil::get_replace_text(&xml, "d.docx", &ReplacementPlan::new()),
        Err(DocxError::MalformedMarkup { .. })
    ));
    assert!(matches!(XMLUtil::style_change(&xml, "d.docx", "A", "B"), Err(DocxError::MalformedMarkup { .. })));
    assert!(matches!(XMLUtil::get_content_types(&xml), Err(DocxError::MalformedMarkup { .. })));
    assert!(matches!(XMLUtil::get_all_styles(&xml), Err(DocxError::MalformedMarkup { .. })));
}

#[test]
fn written_paragraphs_are_the_read_ones_with_the_matches_replaced() {
    let xml = format!(
        "<w:body {}><w:p><w:r><w:t>ab</w:t></w:r><w:r><w:t>cd</w:t><w:t>ef</w:t></w:r></w:p>\
<w:p><w:r><w:t>ab</w:t><w:br/><w:t>cd</w:t></w:r></w:p>\
<w:p><w:r><w:t>bc</w:t></w:r></w:p></w:body>",
        NS
    );
    let read = XMLUtil::get_replace_text(xml.as_bytes(), "a.docx", &ReplacementPlan::new()).unwrap();
    assert_eq!(read.paras, vec!["abcdef", "ab\ncd", "bc"]);

    let regex = Matcher::new("bc|de|b\\sc").unwrap();
    let written = XMLUtil::replace_text(xml.as_bytes(), "a.docx", &regex, "__").unwrap().unwrap();
    assert_eq!(written.paras, vec!["a____f", "ab\ncd", "__"]);
    let again = XMLUtil::get_replace_text(&written.output, "a.docx", &ReplacementPlan::new()).unwrap();
    assert_eq!(again.paras, written.paras);

    let emptied = XMLUtil::replace_text(xml.as_bytes(), "a.docx", &regex, "").unwrap().unwrap();
    assert_eq!(emptied.paras, vec!["af", "ab\ncd"]);
}

#[test]
fn coordinates_are_in_order() {
    let read = XMLUtil::get_replace_text(DOC.as_bytes(), "a.docx", &ReplacementPlan::new()).unwrap();
    let placed: Vec<&RunCoord> = read.coords.iter().filter(|c| c.para != usize::MAX).collect();
    assert_eq!(placed.len(), 5);
    for pair in placed.windows(2) {
        let (first, second) = (pair[0], pair[1]);
        assert!(
            first.para < second.para
                || (first.para == second.para && first.offset + first.len <= second.offset)
        );
    }
}
