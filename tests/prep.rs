use rotund::prep::{
    Capsif, CapsifyIterator, UnCapsif, UnCapsifyIterator, XmlTerminator, XmlUnterminator,
    XmlutIterator, XmltIterator,
};

#[test]
fn capsify_uncapsify() {
    let input = b"this is a Test for Capsif. Are capS escaped correctlY?".to_vec();
    let capsified: Vec<u8> = input.clone().capsify(b'^');
    assert_eq!("this is a ^test for ^capsif. ^are cap^s escaped correctl^y?", String::from_utf8_lossy(&capsified));
    let output: Vec<u8> = capsified.uncapsify(b'^').unwrap();
    assert_eq!(String::from_utf8_lossy(&input), String::from_utf8_lossy(&output));
}

#[test]
fn xml_terminate_unterminate() {
    let input = b"this<page> is a Test for <title>XMLT</title>. <one tag><another tag/>It removes<third tg 2start>closing xml environments by an</third>escape character.</one></page>".to_vec();
    let xml_terminated: Vec<u8> = input.clone().xml_terminate(b'+').unwrap();
    assert_eq!("this<page> is a Test for <title>XMLT+. <one tag><another tag/>It removes<third tg 2start>closing xml environments by an+escape character.++", String::from_utf8_lossy(&xml_terminated));
    let output: Vec<u8> = xml_terminated.xml_unterminate(b'+').unwrap();
    assert_eq!(String::from_utf8_lossy(&input), String::from_utf8_lossy(&output));
}

#[test]
fn uncapsify_rejects_cut_escape() {
    assert_eq!(UnCapsif::new(b'^').apply(b"ab^"), None);
    assert_eq!(UnCapsif::new(b'^').apply(&[b'^', 10]), None);
    assert_eq!(UnCapsif::new(b'^').apply(b"^a"), Some(b"A".to_vec()));
}

#[test]
fn capsify_struct_form() {
    assert_eq!(Capsif::new(b'#').apply(b"AbZ"), b"#ab#z".to_vec());
}

#[test]
fn xml_terminate_rejects_malformed() {
    let t = XmlTerminator::new(b'+');
    assert_eq!(t.apply(b"<a>text</b>"), None);
    assert_eq!(t.apply(b"text</a>"), None);
    assert_eq!(t.apply(b"<a"), None);
    assert_eq!(t.apply(b"<>"), None);
    assert_eq!(t.apply(b"<a x=1><b/></a>"), Some(b"<a x=1><b/>+".to_vec()));
}

#[test]
fn xml_unterminate_needs_open_element() {
    let u = XmlUnterminator::new(b'+');
    assert_eq!(u.apply(b"no element+"), None);
    assert_eq!(u.apply(b"<a b><c>x++"), Some(b"<a b><c>x</c></a>".to_vec()));
}
