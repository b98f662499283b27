use accept_header::error::Error;
use accept_header::{Accept, MediaType, Mime};

fn mime_of(s: &str) -> Mime {
    MediaType::from_str(s).unwrap().mime
}

#[test]
fn valid_media_type_should_be_parsed() {
    let t1: MediaType = MediaType::from_str("text/html; q= 0.5 ").unwrap();
    let t2: MediaType = MediaType::from_str("application/json").unwrap();
    let t3 = MediaType::from_str("*/*; q=0.7").unwrap();
    assert_eq!(t1.mime, mime_of("text/html"));
    assert_eq!(t1.mime.type_(), mime::TEXT.as_str());
    assert_eq!(t1.mime.subtype(), mime::HTML.as_str());
    assert_eq!(t2.mime.type_(), mime::APPLICATION.as_str());
    assert_eq!(t2.mime.subtype(), mime::JSON.as_str());
    assert_eq!(t1.weight, Some(500));
    assert_eq!(t2.weight, None);
    assert_eq!(t3.mime.type_(), mime::STAR.as_str());
}

#[test]
fn invalid_media_type_should_be_rejected() {
    let t1 = MediaType::from_str("text/html; q=-0.5");
    let t2 = MediaType::from_str("text/html; q=1.5");
    let t3 = MediaType::from_str("text/html; q=abcd");

    assert!(t1.is_err());
    assert_eq!(t2.unwrap_err().message(), "Weight should be 0.0-1.0. Got 1.5");
    assert_eq!(t3.unwrap_err().message(), "Invalid weight: abcd");
}

#[test]
fn media_type_should_be_comparable() {
    let t1: MediaType = MediaType::from_str("text/html; q= 0.5 ").unwrap();
    let t2: MediaType = MediaType::from_str("application/json").unwrap();
    let t3: MediaType = MediaType::from_str("text/html").unwrap();
    assert!(t1 > t2);
    assert!(t1 > t3);
    assert!(t2 < t1);
    assert!(t2 != t3);
    assert!(t3 < t1);
}

#[test]
fn media_type_to_string_should_work() {
    let t1: MediaType = MediaType::from_str("text/html; q= 0.5 ").unwrap();
    let t2: MediaType = MediaType::from_str("application/json").unwrap();
    let t3: MediaType = MediaType::from_str("text/html").unwrap();
    assert_eq!(t1.to_string(), "text/html;q=0.5");
    assert_eq!(t2.to_string(), "application/json");
    assert_eq!(t3.to_string(), "text/html");
}

#[test]
fn accept_should_be_parsed_and_sorted() {
    let accept = Accept::from_str(
        "application/json, text/html;q=0.9, text/plain;q=0.8, */*;q=0.7, */*;q=0.6",
    )
    .unwrap();

    assert_eq!(accept.wildcard, Some(MediaType::from_str("*/*; q=0.6").unwrap()));
    assert_eq!(accept.types.len(), 3);
    // The last wildcard's weight cascades onto the unweighted entry, which
    // then sorts below the explicitly weighted ones.
    assert_eq!(accept.types[0].mime, mime_of("text/html"));
    assert_eq!(accept.types[0].weight, Some(900));
    assert_eq!(accept.types[1].mime, mime_of("text/plain"));
    assert_eq!(accept.types[1].weight, Some(800));
    assert_eq!(accept.types[2].mime, mime_of("application/json"));
    assert_eq!(accept.types[2].weight, Some(600));
}

#[test]
fn content_negotiation_should_work() {
    let accept = Accept::from_str("application/json, text/html;q=0.9, text/plain;q=0.8, */*;q=0.7")
        .unwrap();

    let available = vec![mime_of("text/html"), mime_of("application/json")];

    let negotiated = accept.negotiate(&available).unwrap();

    // text/html carries the highest priority after the cascade.
    assert_eq!(negotiated, mime_of("text/html"));

    let available = vec![mime_of("application/xml")];
    let negotiated = accept.negotiate(&available).unwrap();
    assert_eq!(negotiated, mime_of("application/xml"));
}

#[test]
fn content_negotiation_should_fail_if_no_available() {
    let accept = Accept::from_str("application/json,text/html;q=0.9,text/plain;q=0.8").unwrap();

    let available = vec![mime_of("application/xml")];
    let negotiated = accept.negotiate(&available);
    assert_eq!(negotiated, Err(Error::NotAcceptable));
}

#[test]
fn accept_to_string_should_work() {
    let accept =
        Accept::from_str("application/json, text/plain;q=0.8, text/html;q=0.9, */*;q=0.7,*/*;q=0.6")
            .unwrap();

    assert_eq!(
        accept.to_string(),
        "text/html;q=0.9, text/plain;q=0.8, application/json;q=0.6, */*;q=0.6"
    );
}

#[test]
fn no_weight_section_means_absent_weight() {
    let t = MediaType::from_str("image/png").unwrap();
    assert_eq!(t.weight, None);
    // A `;` section that does not start with `q=` is ignored, not an error.
    let t = MediaType::from_str("image/png; charset=utf-8").unwrap();
    assert_eq!(t.weight, None);
}

#[test]
fn weights_parse_across_the_range() {
    assert_eq!(MediaType::from_str("a/b;q=0").unwrap().weight, Some(0));
    assert_eq!(MediaType::from_str("a/b;q=1").unwrap().weight, Some(1000));
    assert_eq!(MediaType::from_str("a/b;q=1.000").unwrap().weight, Some(1000));
    assert_eq!(MediaType::from_str("a/b;q=0.25").unwrap().weight, Some(250));
    assert_eq!(MediaType::from_str("a/b;q=.5").unwrap().weight, Some(500));
    assert_eq!(MediaType::from_str("a/b;q=0.999").unwrap().weight, Some(999));
}

#[test]
fn out_of_range_weights_are_rejected() {
    let e = MediaType::from_str("a/b;q=-0.5").unwrap_err();
    assert_eq!(e.message(), "Weight should be 0.0-1.0. Got -0.5");
    let e = MediaType::from_str("a/b;q=2").unwrap_err();
    assert_eq!(e.message(), "Weight should be 0.0-1.0. Got 2");
    let e = MediaType::from_str("a/b;q=01.50").unwrap_err();
    assert_eq!(e.message(), "Weight should be 0.0-1.0. Got 1.5");
}

#[test]
fn non_numeric_weights_are_rejected() {
    let e = MediaType::from_str("a/b;q=").unwrap_err();
    assert_eq!(e.message(), "Invalid weight: ");
    let e = MediaType::from_str("a/b;q=1e-1").unwrap_err();
    assert_eq!(e.message(), "Invalid weight: 1e-1");
    let e = MediaType::from_str("a/b;q=0..5").unwrap_err();
    assert_eq!(e.message(), "Invalid weight: 0..5");
}

#[test]
fn invalid_mime_reports_the_segment() {
    let e = MediaType::from_str("no-slash").unwrap_err();
    assert_eq!(e.message(), "Invalid media type: no-slash");
    let e = Accept::from_str("text/html, bad segment").unwrap_err();
    assert_eq!(e.message(), "Invalid media type: bad segment");
}

#[test]
fn parse_sorts_per_the_cascade_example() {
    let accept =
        Accept::from_str("application/json, text/html;q=0.9, text/plain;q=0.8, */*;q=0.7").unwrap();
    assert_eq!(accept.wildcard, Some(MediaType::from_str("*/*;q=0.7").unwrap()));
    assert_eq!(accept.types.len(), 3);
    assert_eq!(accept.types[0].mime, mime_of("text/html"));
    assert_eq!(accept.types[0].weight, Some(900));
    assert_eq!(accept.types[1].mime, mime_of("text/plain"));
    assert_eq!(accept.types[1].weight, Some(800));
    assert_eq!(accept.types[2].mime, mime_of("application/json"));
    assert_eq!(accept.types[2].weight, Some(700));
}

#[test]
fn formatted_output_parses_back_to_the_same_accept() {
    let accept =
        Accept::from_str("application/json, text/plain;q=0.8, text/html;q=0.9, */*;q=0.7,*/*;q=0.6")
            .unwrap();
    let rendered = accept.to_string();
    let reparsed = Accept::from_str(rendered.as_str()).unwrap();
    assert_eq!(reparsed, accept);
    assert_eq!(reparsed.to_string(), rendered);
}

#[test]
fn accept_from_mime_holds_one_entry() {
    let a = Accept::from(mime_of("text/html"));
    assert!(a.wildcard.is_none());
    assert_eq!(a.types.len(), 1);
    assert_eq!(a.types[0].mime, mime_of("text/html"));
    assert_eq!(a.types[0].weight, None);
}

#[test]
fn ties_keep_input_order() {
    let accept = Accept::from_str("a/b;q=0.5, c/d;q=0.5, e/f;q=0.8").unwrap();
    assert_eq!(accept.types[0].mime, mime_of("e/f"));
    assert_eq!(accept.types[1].mime, mime_of("a/b"));
    assert_eq!(accept.types[2].mime, mime_of("c/d"));
}

#[test]
fn unweighted_entries_outrank_weighted_ones_without_a_wildcard() {
    // Without a wildcard weight there is nothing to cascade: an absent
    // weight sorts as the full default weight.
    let accept = Accept::from_str("a/b;q=0.9, c/d").unwrap();
    assert_eq!(accept.types[0].mime, mime_of("c/d"));
    assert_eq!(accept.types[0].weight, None);
    assert_eq!(accept.types[1].mime, mime_of("a/b"));
}

#[test]
fn wildcard_fallback_picks_the_first_available() {
    let accept = Accept::from_str("a/b;q=0.5, */*;q=0.1").unwrap();
    let available = vec![mime_of("x/y"), mime_of("z/w")];
    assert_eq!(accept.negotiate(&available).unwrap(), mime_of("x/y"));
    // A wildcard cannot help when nothing is available.
    let empty: Vec<Mime> = Vec::new();
    assert_eq!(accept.negotiate(&empty), Err(Error::NotAcceptable));
}

#[test]
fn not_acceptable_message() {
    let accept = Accept::from_str("a/b").unwrap();
    let empty: Vec<Mime> = Vec::new();
    let e = accept.negotiate(&empty).unwrap_err();
    assert_eq!(e, Error::NotAcceptable);
    assert_eq!(e.message(), "Not acceptable");
}

#[test]
fn media_type_equals_bare_mime_ignoring_weight() {
    let t = MediaType::from_str("text/html;q=0.5").unwrap();
    assert!(t == mime_of("text/html"));
    assert!(t != mime_of("text/plain"));
}

#[test]
fn mime_values_are_lowercased_by_the_parser() {
    let t = MediaType::from_str("TEXT/HTML").unwrap();
    assert_eq!(t.mime.to_string(), "text/html");
    assert_eq!(t.mime, mime_of("text/html"));
}
