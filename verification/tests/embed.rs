use terminal_svg::embed::{
    attr_value, decode_payload, element_text, embed, extract, extract_parts, has_source_marker,
    sniff_kind, trim, trim_start, xml_text_escape, xml_text_unescape, EmbedError, EmbeddedSource,
    SniffedKind, SourceKind,
};

fn any_options(_: &str) -> bool {
    true
}

fn sample() -> EmbeddedSource {
    EmbeddedSource {
        kind: SourceKind::Cast,
        data: br#"{"version": 2, "width": 80, "height": 24}
[0.1, "o", "hi"]
"#
        .to_vec(),
        options: r#"{"theme":"nord","no-shadow":true,"speed":2.0}"#.to_string(),
    }
}

#[test]
fn embed_extract_round_trips_byte_exact() {
    let svg = "<svg xmlns=\"http://www.w3.org/2000/svg\" viewBox=\"0 0 10 10\">\n<rect/>\n</svg>";
    let source = sample();
    let embedded = embed(svg, &source);
    // Rendering content is untouched around the metadata block.
    assert!(embedded.starts_with("<svg xmlns=\"http://www.w3.org/2000/svg\" viewBox=\"0 0 10 10\">"));
    assert!(embedded.ends_with("<rect/>\n</svg>"));

    let back = extract(&embedded, any_options).unwrap().expect("source found");
    assert_eq!(back.kind, SourceKind::Cast);
    assert_eq!(back.data, source.data);
    assert_eq!(back.options, source.options);
}

#[test]
fn embedding_is_deterministic() {
    let svg = "<svg viewBox=\"0 0 1 1\"></svg>";
    assert_eq!(embed(svg, &sample()), embed(svg, &sample()));
}

#[test]
fn foreign_svg_extracts_none() {
    assert!(extract("<svg><rect/></svg>", any_options).unwrap().is_none());
    assert!(extract("not svg at all", any_options).unwrap().is_none());
}

#[test]
fn options_with_xml_hostile_title_survive() {
    let mut source = sample();
    source.kind = SourceKind::Ansi;
    source.options = r#"{"title":"a <b> & \"c\" &lt;"}"#.to_string();
    let embedded = embed("<svg></svg>", &source);
    let back = extract(&embedded, any_options).unwrap().unwrap();
    assert_eq!(back.options, r#"{"title":"a <b> & \"c\" &lt;"}"#);
    assert_eq!(back.kind, SourceKind::Ansi);
}

#[test]
fn truncated_block_is_an_error_not_none() {
    let embedded = embed("<svg></svg>", &sample());
    let truncated = &embedded[..embedded.len() - 30];
    assert!(extract(truncated, any_options).is_err());
}

#[test]
fn block_goes_right_after_the_opening_tag() {
    let embedded = embed("<?xml?><svg a=\"1\"><g/></svg>", &sample());
    assert!(embedded.starts_with("<?xml?><svg a=\"1\">\n<metadata id=\"terminal-svg-source\">"));
    assert!(embedded.ends_with("</metadata><g/></svg>"));
    // Without an <svg> tag the block goes first.
    let bare = embed("plain", &sample());
    assert!(bare.starts_with("\n<metadata id=\"terminal-svg-source\">"));
    assert!(bare.ends_with("</metadata>plain"));
}

#[test]
fn source_kinds_name_their_extension() {
    assert_eq!(SourceKind::Cast.extension(), "cast");
    assert_eq!(SourceKind::Ansi.extension(), "ansi");
    assert_eq!(SourceKind::Ansi.as_str(), "ansi");
}

#[test]
fn escaping_handles_only_amp_and_lt() {
    assert_eq!(xml_text_escape("a<b>&c"), "a&lt;b>&amp;c");
    assert_eq!(xml_text_unescape("a&lt;b>&amp;c"), "a<b>&c");
    assert_eq!(xml_text_unescape(&xml_text_escape("&lt; &amp;lt;")), "&lt; &amp;lt;");
}

#[test]
fn elements_and_attributes_are_found_by_name() {
    let block = "<x kind=\"ansi\"><tsvg:options a=\"1\">{}</tsvg:options>";
    assert_eq!(attr_value(block, "kind").as_deref(), Some("ansi"));
    assert_eq!(attr_value(block, "size"), None);
    assert_eq!(element_text(block, "tsvg:options").as_deref(), Some("{}"));
    assert_eq!(element_text(block, "tsvg:data"), None);
}

fn block(kind: &str, options: &str, data: &str) -> String {
    format!(
        "<svg><metadata id=\"terminal-svg-source\"><tsvg:source kind=\"{kind}\">{options}{data}</tsvg:source></metadata></svg>"
    )
}

#[test]
fn every_malformed_block_has_its_error() {
    let opts = "<tsvg:options>{}</tsvg:options>";
    assert!(matches!(
        extract("<metadata id=\"terminal-svg-source\"><x/>", any_options),
        Err(EmbedError::Unterminated)
    ));
    assert!(matches!(
        extract(&block("svgz", opts, ""), any_options),
        Err(EmbedError::UnknownKind(k)) if k == "svgz"
    ));
    assert!(matches!(
        extract("<metadata id=\"terminal-svg-source\"></metadata>", any_options),
        Err(EmbedError::NoKind)
    ));
    assert!(matches!(extract(&block("cast", "", ""), any_options), Err(EmbedError::NoOptions)));
    assert!(matches!(extract(&block("cast", opts, ""), any_options), Err(EmbedError::NoData)));
    assert!(matches!(
        extract(&block("cast", opts, "<tsvg:data>!!!</tsvg:data>"), any_options),
        Err(EmbedError::BadBase64)
    ));
    assert!(matches!(
        extract(&block("cast", opts, "<tsvg:data>AAAA</tsvg:data>"), any_options),
        Err(EmbedError::BadDeflate)
    ));
}

#[test]
fn parts_come_before_the_payload() {
    let parts = extract_parts(&block("ansi", "<tsvg:options>{&lt;}</tsvg:options>", ""))
        .unwrap()
        .unwrap();
    assert_eq!(parts.kind, SourceKind::Ansi);
    assert_eq!(parts.options, "{<}");
    assert!(parts.data.is_none());
    assert!(matches!(decode_payload(None), Err(EmbedError::NoData)));
}

#[test]
fn payload_text_is_trimmed_before_decoding() {
    let embedded = embed("<svg></svg>", &sample());
    let parts = extract_parts(&embedded).unwrap().unwrap();
    let padded = format!("\n  {}\t\n", parts.data.unwrap());
    assert_eq!(decode_payload(Some(&padded)).unwrap(), sample().data);
    assert_eq!(trim("  a b \n"), "a b");
    assert_eq!(trim_start("\u{3000} x "), "x ");
}

#[test]
fn marker_sniff_and_kind_sniff() {
    assert!(has_source_marker("..id=\"terminal-svg-source\".."));
    assert!(!has_source_marker("<svg></svg>"));
    assert_eq!(sniff_kind("<?xml version=\"1.0\"?>", false), SniffedKind::Svg);
    assert_eq!(sniff_kind("<svg>", false), SniffedKind::Svg);
    assert_eq!(sniff_kind("{\"version\": 2}", true), SniffedKind::Cast);
    assert_eq!(sniff_kind("{not a cast", false), SniffedKind::Ansi);
    assert_eq!(sniff_kind("\x1b[31mred", false), SniffedKind::Ansi);
}

#[test]
fn options_are_checked_before_the_payload() {
    let braces = |o: &str| o.starts_with('{');
    let bad_both = block("cast", "<tsvg:options>not json</tsvg:options>", "<tsvg:data>!!!</tsvg:data>");
    assert!(matches!(extract(&bad_both, braces), Err(EmbedError::BadOptions(o)) if o == "not json"));
    let good_opts = block("cast", "<tsvg:options>{}</tsvg:options>", "<tsvg:data>!!!</tsvg:data>");
    assert!(matches!(extract(&good_opts, braces), Err(EmbedError::BadBase64)));
    let embedded = embed("<svg></svg>", &sample());
    assert!(matches!(extract(&embedded, |_: &str| false), Err(EmbedError::BadOptions(_))));
}
