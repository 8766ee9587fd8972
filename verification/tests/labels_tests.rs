use patchsplit::labels::LabelMap;

fn b(s: &str) -> Vec<u8> {
    s.as_bytes().to_vec()
}

#[test]
fn parse_single_pair() {
    let map = LabelMap::parse(&b("catA cats\n"));
    assert_eq!(map.len(), 1);
    assert_eq!(map.get(&b("catA")), Some(b("cats")));
    assert_eq!(map.get(&b("dogB")), None);
}

#[test]
fn later_line_overrides_earlier_key() {
    let map = LabelMap::parse(&b("a x\nb y\na z\n"));
    assert_eq!(map.len(), 3);
    assert_eq!(map.get(&b("a")), Some(b("z")));
    assert_eq!(map.get(&b("b")), Some(b("y")));
}

#[test]
fn lines_without_two_tokens_contribute_nothing() {
    let map = LabelMap::parse(&b("only\n\nk v\n   \n"));
    assert_eq!(map.len(), 1);
    assert_eq!(map.get(&b("only")), None);
    assert_eq!(map.get(&b("k")), Some(b("v")));
}

#[test]
fn tabs_and_extra_spaces_separate_tokens() {
    let map = LabelMap::parse(&b("alpha\t\tfirst\n  beta   second  extra\n"));
    assert_eq!(map.get(&b("alpha")), Some(b("first")));
    assert_eq!(map.get(&b("beta")), Some(b("second")));
}

#[test]
fn carriage_returns_are_whitespace() {
    let map = LabelMap::parse(&b("k v\r\nm w\r\n"));
    assert_eq!(map.get(&b("k")), Some(b("v")));
    assert_eq!(map.get(&b("m")), Some(b("w")));
}

#[test]
fn missing_final_newline_still_parses() {
    let map = LabelMap::parse(&b("k v"));
    assert_eq!(map.get(&b("k")), Some(b("v")));
}

#[test]
fn empty_content_yields_empty_map() {
    let map = LabelMap::parse(&b(""));
    assert_eq!(map.len(), 0);
    assert_eq!(map.get(&b("k")), None);
}
