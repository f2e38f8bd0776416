use yafr::codec::decode_links;
use yafr::codec::decode_opt_content;
use yafr::codec::decode_opt_text;
use yafr::codec::decode_persons;
use yafr::codec::encode_links;
use yafr::codec::encode_opt_content;
use yafr::codec::encode_opt_text;
use yafr::codec::encode_persons;
use yafr::media::MediaType;
use yafr::types::Content;
use yafr::types::Link;
use yafr::types::Person;
use yafr::types::Text;

fn full_link() -> Link {
    Link {
        href: "https://example.org/a;b=c|d\\e".to_string(),
        rel: Some("alternate".to_string()),
        media_type: Some("text/html".to_string()),
        href_lang: Some("en".to_string()),
        title: Some("A | strange; title=yes".to_string()),
        length: Some(123456789),
    }
}

fn bare_link() -> Link {
    Link {
        href: "https://example.org/".to_string(),
        rel: None,
        media_type: None,
        href_lang: None,
        title: None,
        length: None,
    }
}

#[test]
fn link_round_trip_full() {
    let l = full_link();
    let col = encode_links(&vec![full_link()]);
    let back = decode_links(col.as_str()).unwrap();
    assert_eq!(back.len(), 1);
    assert_eq!(back[0].href, l.href);
    assert_eq!(back[0].rel, l.rel);
    assert_eq!(back[0].media_type, l.media_type);
    assert_eq!(back[0].href_lang, l.href_lang);
    assert_eq!(back[0].title, l.title);
    assert_eq!(back[0].length, l.length);
}

#[test]
fn link_round_trip_all_optional_absent() {
    let l = bare_link();
    let col = encode_links(&vec![bare_link()]);
    let back = decode_links(col.as_str()).unwrap();
    assert_eq!(back.len(), 1);
    assert_eq!(back[0].href, l.href);
    assert_eq!(back[0].rel, None);
    assert_eq!(back[0].media_type, None);
    assert_eq!(back[0].href_lang, None);
    assert_eq!(back[0].title, None);
    assert_eq!(back[0].length, None);
}

#[test]
fn empty_link_list_round_trip() {
    let col = encode_links(&Vec::new());
    assert_eq!(col, "");
    let back = decode_links("").unwrap();
    assert_eq!(back.len(), 0);
}

#[test]
fn person_round_trip() {
    let p = Person {
        name: "Ada; Lovelace".to_string(),
        uri: Some("https://example.org/ada".to_string()),
        email: None,
    };
    let col = encode_persons(&vec![Person {
        name: p.name.clone(),
        uri: p.uri.clone(),
        email: p.email.clone(),
    }]);
    let back = decode_persons(col.as_str()).unwrap();
    assert_eq!(back.len(), 1);
    assert_eq!(back[0].name, p.name);
    assert_eq!(back[0].uri, p.uri);
    assert_eq!(back[0].email, p.email);
}

#[test]
fn person_list_order_kept() {
    let ps = vec![
        Person { name: "a".to_string(), uri: None, email: None },
        Person { name: "b".to_string(), uri: None, email: Some("b@example.org".to_string()) },
        Person { name: "c".to_string(), uri: None, email: None },
    ];
    let col = encode_persons(&ps);
    let back = decode_persons(col.as_str()).unwrap();
    assert_eq!(back.len(), 3);
    assert_eq!(back[0].name, "a");
    assert_eq!(back[1].name, "b");
    assert_eq!(back[1].email, Some("b@example.org".to_string()));
    assert_eq!(back[2].name, "c");
}

#[test]
fn text_round_trip() {
    let t = Text {
        content_type: MediaType::parse("text/html").unwrap(),
        src: Some("https://example.org/t".to_string()),
        content: "<p>hi; there=now</p>".to_string(),
    };
    let col = encode_opt_text(&Some(t));
    let back = decode_opt_text(col.as_str()).unwrap().unwrap();
    assert_eq!(back.content_type.as_str(), "text/html");
    assert_eq!(back.src, Some("https://example.org/t".to_string()));
    assert_eq!(back.content, "<p>hi; there=now</p>");
}

#[test]
fn absent_text_round_trip() {
    let col = encode_opt_text(&None);
    assert_eq!(col, "");
    let back = decode_opt_text("").unwrap();
    assert!(back.is_none());
}

#[test]
fn content_round_trip_with_nested_link() {
    let c = Content {
        body: Some("the body".to_string()),
        content_type: MediaType::parse("application/xhtml+xml").unwrap(),
        length: Some(42),
        src: Some(full_link()),
    };
    let col = encode_opt_content(&Some(c));
    let back = decode_opt_content(col.as_str()).unwrap().unwrap();
    assert_eq!(back.body, Some("the body".to_string()));
    assert_eq!(back.content_type.as_str(), "application/xhtml+xml");
    assert_eq!(back.length, Some(42));
    let src = back.src.unwrap();
    assert_eq!(src.href, full_link().href);
    assert_eq!(src.title, full_link().title);
    assert_eq!(src.length, Some(123456789));
}

#[test]
fn content_round_trip_all_optional_absent() {
    let c = Content {
        body: None,
        content_type: MediaType::parse("text/plain").unwrap(),
        length: None,
        src: None,
    };
    let col = encode_opt_content(&Some(c));
    let back = decode_opt_content(col.as_str()).unwrap().unwrap();
    assert_eq!(back.body, None);
    assert_eq!(back.content_type.as_str(), "text/plain");
    assert_eq!(back.length, None);
    assert!(back.src.is_none());
}

#[test]
fn malformed_column_is_a_decode_error() {
    assert!(decode_links("not a record").is_err());
    assert!(decode_persons("n").is_err());
    assert!(decode_opt_text("m=text/plain").is_err());
    assert!(decode_opt_text("c=content only, no media type...").is_err());
}

#[test]
fn missing_required_field_is_a_decode_error() {
    assert!(decode_links("r=-").is_err());
    assert!(decode_persons("u=-;e=-").is_err());
}

#[test]
fn bad_media_type_is_a_decode_error_not_a_default() {
    assert!(decode_opt_text("m=not a mime at all;s=-;c=x").is_err());
}

#[test]
fn unknown_field_keys_are_skipped() {
    let col = encode_opt_text(&Some(Text {
        content_type: MediaType::parse("text/plain").unwrap(),
        src: None,
        content: "x".to_string(),
    }));
    let with_future_field = format!("z=whatever;{}", col);
    let back = decode_opt_text(with_future_field.as_str()).unwrap().unwrap();
    assert_eq!(back.content, "x");
}

#[test]
fn media_type_is_canonicalized_by_its_grammar() {
    let m = MediaType::parse("TEXT/HTML").unwrap();
    assert_eq!(m.as_str(), "text/html");
    assert!(MediaType::parse("definitely not a media type").is_none());
}
