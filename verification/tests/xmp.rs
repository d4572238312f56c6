//! Decoding XMP.
use omni_meta::codecs::xmp::decode;
use omni_meta::{Limits, WarnKind, Warning, XmpProperty};

fn run(packet: &[u8]) -> (Vec<XmpProperty>, Vec<Warning>) {
    let mut out = Vec::new();
    let mut warns = Vec::new();
    decode(packet, &mut out, &mut warns, &Limits::default());
    (out, warns)
}

fn find<'a>(props: &'a [XmpProperty], prefix: &str, name: &str) -> Option<&'a str> {
    props
        .iter()
        .find(|p| p.prefix == prefix && p.name == name)
        .map(|p| p.value.as_str())
}

#[test]
fn attribute_form() {
    let pkt = br#"<rdf:Description rdf:about="" xmlns:tiff="ns" tiff:Make="Acme" tiff:Orientation="6"/>"#;
    let (props, warns) = run(pkt);
    assert!(warns.is_empty());
    assert_eq!(find(&props, "tiff", "Make"), Some("Acme"));
    assert_eq!(find(&props, "tiff", "Orientation"), Some("6"));

    assert!(find(&props, "rdf", "about").is_none());
    assert!(find(&props, "xmlns", "tiff").is_none());
}

#[test]
fn element_form_leaf() {
    let pkt = br#"<rdf:Description><tiff:Model>X100</tiff:Model></rdf:Description>"#;
    let (props, _) = run(pkt);
    assert_eq!(find(&props, "tiff", "Model"), Some("X100"));
}

#[test]
fn rdf_alt_takes_first_li() {
    let pkt = br#"<dc:description><rdf:Alt><rdf:li xml:lang="x-default">hello</rdf:li><rdf:li xml:lang="fr">bonjour</rdf:li></rdf:Alt></dc:description>"#;
    let (props, _) = run(pkt);
    let vals: Vec<&str> = props
        .iter()
        .filter(|p| p.prefix == "dc" && p.name == "description")
        .map(|p| p.value.as_str())
        .collect();
    assert_eq!(vals, vec!["hello"]);
}

#[test]
fn decodes_basic_entities() {
    let pkt = br#"<rdf:Description dc:rights="a &amp; b &lt;c&gt;"/>"#;
    let (props, _) = run(pkt);
    assert_eq!(find(&props, "dc", "rights"), Some("a & b <c>"));
}

#[test]
fn invalid_utf8_warns_and_returns_empty() {
    let (props, warns) = run(&[0xFF, 0xFE, 0x00]);
    assert!(props.is_empty());
    assert_eq!(warns.len(), 1);
    assert_eq!(warns[0].kind, WarnKind::Truncated);
}

#[test]
fn max_tags_caps_output() {
    let pkt = br#"<rdf:Description a:one="1" a:two="2" a:three="3"/>"#;
    let mut out = Vec::new();
    let mut warns = Vec::new();
    let limits = Limits { max_tags: 2, ..Limits::default() };
    decode(pkt, &mut out, &mut warns, &limits);
    assert_eq!(out.len(), 2);
}

#[test]
fn truncated_tag_does_not_panic() {
    let (props, _warns) = run(b"<tiff:Make");
    assert!(props.is_empty());
}

#[test]
fn oversized_packet_rejected() {
    let limits = Limits { max_payload_bytes: 16, ..Limits::default() };

    let pkt = b"<rdf:Description tiff:Make=\"Acme\"/>";
    assert!(pkt.len() > 16);
    let mut out = Vec::new();
    let mut warns = Vec::new();
    decode(pkt, &mut out, &mut warns, &limits);
    assert!(out.is_empty(), "oversized packet must produce no props");
    assert_eq!(warns.len(), 1);
    assert_eq!(warns[0].kind, WarnKind::Truncated);
    assert_eq!(warns[0].offset, 0);
}

#[test]
fn deep_nesting_does_not_oom() {
    let mut pkt = Vec::new();
    for _ in 0..500 {
        pkt.extend_from_slice(b"<a:b>");
    }

    let (_, _) = run(&pkt);
}
