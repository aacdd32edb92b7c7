use desktop_utils::content::Content;

fn sample() -> Content {
    Content::Concatenation(vec![
        Content::Tag {
            prefix: "<b>".to_string(),
            suffix: "</b>".to_string(),
            content: Box::new(Content::Raw("hello".to_string())),
        },
        Content::Raw(" world".to_string()),
    ])
}

fn shown(c: &Content, limit: usize) -> (String, usize) {
    let mut out = String::new();
    let n = c.write(&mut out, limit);
    (out, n)
}

#[test]
fn len_counts_visible_characters() {
    assert_eq!(sample().len(), 11);
    assert_eq!(Content::Raw("héllo".to_string()).len(), 5);
    assert_eq!(Content::Concatenation(vec![]).len(), 0);
}

#[test]
fn write_cuts_at_the_limit() {
    assert_eq!(shown(&sample(), 7), ("<b>hello</b> w".to_string(), 7));
    assert_eq!(shown(&sample(), 2), ("<b>he</b>".to_string(), 2));
}

#[test]
fn write_stops_after_the_part_that_uses_the_limit() {
    assert_eq!(shown(&sample(), 5), ("<b>hello</b>".to_string(), 5));
}

#[test]
fn write_with_zero_limit_writes_nothing() {
    assert_eq!(shown(&sample(), 0), (String::new(), 0));
    let tag = Content::Tag {
        prefix: "[".to_string(),
        suffix: "]".to_string(),
        content: Box::new(Content::Raw(String::new())),
    };
    assert_eq!(shown(&tag, 0), (String::new(), 0));
    assert_eq!(shown(&tag, 1), ("[]".to_string(), 0));
}

#[test]
fn write_saturates_above_the_length() {
    let full = ("<b>hello</b> world".to_string(), 11);
    assert_eq!(shown(&sample(), 11), full);
    assert_eq!(shown(&sample(), 12), full);
    assert_eq!(shown(&sample(), 1000), full);
}

#[test]
fn write_counts_characters_not_bytes() {
    let c = Content::Raw("żółw".to_string());
    assert_eq!(shown(&c, 2), ("żó".to_string(), 2));
}

#[test]
fn write_appends_to_what_is_there() {
    let mut out = "> ".to_string();
    let n = sample().write(&mut out, 3);
    assert_eq!(out, "> <b>hel</b>");
    assert_eq!(n, 3);
}
