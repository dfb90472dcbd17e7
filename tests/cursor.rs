use genator::{Parser, MAX_COMBINATION};

#[test]
fn advances_plus_first_equal_count() {
    for pattern in ["[ab;1-2](x|y)", "hello", "[a-c][0-1]{0}", "(p|q|r)[xy;0]"] {
        let parser = Parser::new(pattern);
        let mut it = parser.iter();
        let count = it.combs().unwrap();
        let mut trues = 0usize;
        for _ in 0..(count + 5) {
            if it.advance() {
                trues += 1;
            }
        }
        assert_eq!(trues + 1, count);
    }
}

#[test]
fn advance_stays_exhausted() {
    let parser = Parser::new("[ab]");
    let mut it = parser.iter();
    assert!(it.advance());
    assert!(!it.advance());
    assert!(!it.advance());
    assert_eq!(it.next(), None);
}

#[test]
fn pure_literal_first_advance_reports_exhaustion() {
    let parser = Parser::new("hello");
    let mut it = parser.iter();
    assert_eq!(it.get(), "hello");
    assert!(!it.advance());
}

#[test]
fn render_is_idempotent() {
    let parser = Parser::new("[ab](x|yz)");
    let mut it = parser.iter();
    assert_eq!(it.get(), "ax");
    assert_eq!(it.get(), "ax");
    assert!(it.advance());
    assert_eq!(it.get(), "bx");
    assert_eq!(it.get(), "bx");
}

#[test]
fn fresh_cursor_repeats_the_enumeration() {
    let parser = Parser::new("[ab;1-2](x|y){0}");
    let collect = |p: &Parser| {
        let mut it = p.iter();
        let mut out = Vec::new();
        while let Some(s) = it.next() {
            out.push(s);
        }
        out
    };
    let first = collect(&parser);
    let second = collect(&parser);
    assert_eq!(first.len(), 12);
    assert_eq!(first, second);
}

#[test]
fn first_slot_varies_fastest() {
    let parser = Parser::new("[ab][xy]");
    let mut it = parser.iter();
    let mut seen = vec![it.get()];
    while it.advance() {
        seen.push(it.get());
    }
    assert_eq!(seen, vec!["ax", "bx", "ay", "by"]);
}

#[test]
fn reference_adds_no_factor() {
    let with = Parser::new("[abc]-{0}-{0}");
    let without = Parser::new("[abc]--");
    assert_eq!(with.iter().combs(), without.iter().combs());
    let mut it = with.iter();
    while let Some(s) = it.next() {
        let b = s.as_bytes();
        assert_eq!(b[0], b[2]);
        assert_eq!(b[0], b[4]);
    }
}

#[test]
fn default_limit_is_two_to_the_thirtieth() {
    assert_eq!(MAX_COMBINATION, 1 << 30);
    let parser = Parser::new("[ab;30]");
    assert_eq!(parser.iter().combs(), Some(1 << 30));
    let parser = Parser::new("[ab;31]");
    assert_eq!(parser.iter().combs(), None);
}

#[test]
fn appended_reference_keeps_the_count() {
    for (base, digit) in [("[ab](x|y|z)", 0), ("[ab](x|y|z)", 1), ("a[0-9]b", 0), ("[ab;2]", 5)] {
        let extended = format!("{base}{{{digit}}}");
        let p1 = Parser::new(base);
        let p2 = Parser::new(&extended);
        assert_eq!(p2.iter().combs(), p1.iter().combs());
    }
}

#[test]
fn fresh_cursor_ignores_earlier_cursors() {
    let parser = Parser::new("[ab](x|y)");
    let mut earlier = parser.iter();
    let first = earlier.get();
    let mut seen = Vec::new();
    while let Some(s) = earlier.next() {
        seen.push(s);
    }
    assert!(!earlier.advance());
    let mut again = parser.iter();
    assert_eq!(again.get(), first);
    let mut relisted = Vec::new();
    while let Some(s) = again.next() {
        relisted.push(s);
    }
    assert_eq!(relisted, seen);
    assert_eq!(earlier.next(), None);
}
