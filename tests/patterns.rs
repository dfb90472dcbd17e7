use genator::Parser;

fn all(pattern: &str) -> Vec<String> {
    let parser = Parser::new(pattern);
    let mut it = parser.iter();
    let mut out = Vec::new();
    while let Some(s) = it.next() {
        out.push(s);
    }
    out
}

#[test]
fn ascending_range_expands_in_order() {
    assert_eq!(all("[a-c]"), vec!["a", "b", "c"]);
}

#[test]
fn descending_range_adds_both_ends() {
    assert_eq!(all("[c-a]"), vec!["c", "a"]);
}

#[test]
fn three_mandatory_copies() {
    let got = all("[ab;3]");
    assert_eq!(got.len(), 8);
    assert_eq!(got, vec!["aaa", "baa", "aba", "bba", "aab", "bab", "abb", "bbb"]);
    assert!(got.iter().all(|s| s.len() == 3));
}

#[test]
fn mandatory_then_optional_copy() {
    let got = all("[ab;1-2]");
    assert_eq!(got, vec!["aa", "ba", "ab", "bb", "a", "b"]);
    assert!(got.iter().all(|s| s.len() == 1 || s.len() == 2));
}

#[test]
fn alternation_group() {
    assert_eq!(all("(cat|dog)"), vec!["cat", "dog"]);
}

#[test]
fn pure_literal_has_one_combination() {
    let parser = Parser::new("hello");
    let it = parser.iter();
    assert_eq!(it.combs(), Some(1));
    assert_eq!(all("hello"), vec!["hello"]);
}

#[test]
fn back_reference_mirrors_its_slot() {
    assert_eq!(all("[ab]-{0}"), vec!["a-a", "b-b"]);
    let parser = Parser::new("[ab]-{0}");
    assert_eq!(parser.iter().combs(), Some(2));
}

#[test]
fn back_reference_counts_selectable_slots_only() {
    assert_eq!(all("(x|y)[12]{0}"), vec!["x1x", "y1y", "x2x", "y2y"]);
    assert_eq!(all("(x|y)[12]{1}"), vec!["x11", "y11", "x22", "y22"]);
    let parser = Parser::new("(x|y)[12]{0}{1}");
    assert_eq!(parser.iter().combs(), Some(4));
}

#[test]
fn forward_reference_is_dropped() {
    assert_eq!(all("{0}[ab]"), vec!["a", "b"]);
    assert_eq!(all("[ab]{1}"), vec!["a", "b"]);
}

#[test]
fn malformed_reference_is_dropped() {
    assert_eq!(all("{ab}x"), vec!["x"]);
    assert_eq!(all("[ab]{}x"), vec!["ax", "bx"]);
}

#[test]
fn overflow_is_reported() {
    let parser = Parser::new("[a-z;7]");
    assert_eq!(parser.iter().combs(), None);
}

#[test]
fn limit_is_configurable() {
    let parser = Parser::new("[abc;2]");
    assert_eq!(parser.iter_with_limit(9).combs(), Some(9));
    assert_eq!(parser.iter_with_limit(8).combs(), None);
    assert_eq!(parser.iter_with_limit(0).combs(), None);
}

#[test]
fn count_with_optional_slots() {
    let parser = Parser::new("[ab;1-2](x|y)");
    assert_eq!(parser.iter().combs(), Some(12));
}

#[test]
fn empty_constructs_emit_nothing() {
    assert_eq!(all("a[]b"), vec!["ab"]);
    assert_eq!(all("a()b"), vec!["ab"]);
    assert_eq!(all("[;3]x"), vec!["x"]);
}

#[test]
fn empty_pattern_has_one_empty_combination() {
    assert_eq!(all(""), vec![""]);
}

#[test]
fn single_alternative_group_is_optional() {
    assert_eq!(all("(x)"), vec!["x", ""]);
}

#[test]
fn zero_count_is_one_optional_copy() {
    assert_eq!(all("[xy;0]"), vec!["x", "y", ""]);
}

#[test]
fn unparseable_suffix_is_one_mandatory_copy() {
    assert_eq!(all("[ab;x]"), vec!["a", "b"]);
    assert_eq!(all("[ab;256]"), vec!["a", "b"]);
}

#[test]
fn descending_count_range_has_no_optional_copies() {
    assert_eq!(all("[ab;2-1]"), vec!["aa", "ba", "ab", "bb"]);
}

#[test]
fn unterminated_bracket_is_literal() {
    assert_eq!(all("ab[cd"), vec!["ab[cd"]);
    assert_eq!(all("x(a|b"), vec!["x(a|b"]);
    assert_eq!(all("[ab](c"), vec!["a(c", "b(c"]);
}

#[test]
fn closers_outside_constructs_are_literal() {
    assert_eq!(all("a]b)c}"), vec!["a]b)c}"]);
}

#[test]
fn class_alternatives_are_deduplicated() {
    assert_eq!(all("[aab]"), vec!["a", "b"]);
    assert_eq!(all("[a-cb]"), vec!["a", "b", "c"]);
}

#[test]
fn hyphen_at_an_edge_is_literal() {
    assert_eq!(all("[-a]"), vec!["-", "a"]);
    assert_eq!(all("[a-]"), vec!["a", "-"]);
}

#[test]
fn hyphen_between_symbols_is_literal() {
    assert_eq!(all("[!-#]"), vec!["!", "-", "#"]);
}

#[test]
fn alternation_keeps_repeats_and_empty_pieces() {
    assert_eq!(all("(a|a)"), vec!["a", "a"]);
    assert_eq!(all("(a|)"), vec!["a", ""]);
}

#[test]
fn literal_text_around_slots() {
    assert_eq!(all("id-[0-2]!"), vec!["id-0!", "id-1!", "id-2!"]);
}

#[test]
fn chained_ranges_share_their_ends() {
    assert_eq!(all("[a-c-e]"), vec!["a", "b", "c", "d", "e"]);
    assert_eq!(all("[e-c-a]"), vec!["e", "c", "a"]);
}

#[test]
fn span_start_may_be_padded() {
    assert_eq!(all("[ab; 1-2]"), vec!["aa", "ba", "ab", "bb", "a", "b"]);
    assert_eq!(all("[ab;\t1 -2]"), vec!["aa", "ba", "ab", "bb", "a", "b"]);
}

#[test]
fn span_end_is_not_trimmed() {
    assert_eq!(all("[ab;1- 2]"), vec!["a", "b"]);
}

#[test]
fn counts_may_carry_a_plus_sign() {
    assert_eq!(all("[ab;+3]").len(), 8);
    assert_eq!(all("[ab;1-+2]"), vec!["aa", "ba", "ab", "bb", "a", "b"]);
    assert_eq!(all("[ab;++3]"), vec!["a", "b"]);
}
