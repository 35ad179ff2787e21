use neon_lsp::sort::{sort, sort_dedup};
use neon_lsp::syntax::Span;
use neon_lsp::text::{
    begins_with, chars_of, cut, decimal, join, lists_before, same_names, same_text, text_of, trim,
    white,
};
use neon_lsp::utf::{units_of, width_of};

fn names(parts: &[&str]) -> Vec<String> {
    parts.iter().map(|p| p.to_string()).collect()
}

#[test]
fn white_space_is_what_unicode_says() {
    for c in '\u{0}'..=char::MAX {
        assert_eq!(white(c), c.is_whitespace(), "{c:?}");
    }
}

#[test]
fn trimming_takes_white_space_off_both_ends() {
    assert_eq!(trim("  a b\t\n"), "a b");
    assert_eq!(trim("\u{3000}é\u{a0}"), "é");
    assert_eq!(trim(" \n "), "");
    assert_eq!(trim(""), "");
}

#[test]
fn texts_are_compared_whole() {
    assert!(same_text("é🙂", "é🙂"));
    assert!(!same_text("é", "e"));
    assert!(!same_text("ab", "abc"));
    assert!(same_text("", ""));
}

#[test]
fn a_text_is_its_characters() {
    let chars = chars_of("aé🙂");
    assert_eq!(chars, vec!['a', 'é', '🙂']);
    assert_eq!(text_of(&chars, 1, 3), "é🙂");
    assert_eq!(text_of(&chars, 2, 2), "");
}

#[test]
fn a_cut_is_the_text_between_two_boundaries() {
    assert_eq!(cut("aé🙂b", 1, 7), "é🙂");
    assert_eq!(cut("aé🙂b", 3, 3), "");
    assert_eq!(cut("aé🙂b", 0, 8), "aé🙂b");
}

#[test]
fn joining_puts_the_separator_between() {
    assert_eq!(join(&names(&["a", "b", "c"]), "::"), "a::b::c");
    assert_eq!(join(&names(&["a"]), "::"), "a");
    assert_eq!(join(&names(&[]), "::"), "");
}

#[test]
fn names_are_compared_one_by_one() {
    assert!(same_names(&names(&["std", "io"]), &names(&["std", "io"])));
    assert!(!same_names(&names(&["std", "io"]), &names(&["stdio"])));
    assert!(begins_with(&names(&["std", "io"]), &names(&["std"])));
    assert!(begins_with(&names(&["std"]), &names(&[])));
    assert!(!begins_with(&names(&["std"]), &names(&["std", "io"])));
}

#[test]
fn numbers_are_written_in_decimal() {
    for n in [0usize, 7, 10, 42, 999, 1000, usize::MAX] {
        assert_eq!(decimal(n), n.to_string());
    }
}

#[test]
fn texts_list_in_the_order_of_their_bytes() {
    let words = ["", "Z", "a", "a/b", "ab", "é", "🙂"];
    for a in words {
        for b in words {
            assert_eq!(lists_before(a, b), a <= b, "{a:?} {b:?}");
        }
    }
}

#[test]
fn a_character_is_as_wide_as_its_first_byte_says() {
    for c in ['a', 'é', '€', '🙂'] {
        let first = c.to_string().as_bytes()[0];
        assert_eq!(width_of(first), c.len_utf8());
        assert_eq!(units_of(first), c.len_utf16());
    }
}

#[test]
fn sorting_spans_goes_by_start_then_end() {
    let mut spans = vec![
        Span { start: 4, end: 6 },
        Span { start: 1, end: 9 },
        Span { start: 1, end: 2 },
        Span { start: 4, end: 6 },
    ];
    sort(&mut spans);
    assert_eq!(spans[0], Span { start: 1, end: 2 });
    assert_eq!(spans[1], Span { start: 1, end: 9 });
    assert_eq!(spans[2], spans[3]);
}

#[test]
fn a_listing_is_in_order_and_has_each_once() {
    let a = Span { start: 4, end: 6 };
    let b = Span { start: 1, end: 2 };
    assert_eq!(sort_dedup(vec![a, b, a, b, a]), vec![b, a]);
    // What is listed does not depend on the order it came in.
    assert_eq!(sort_dedup(vec![b, a]), sort_dedup(vec![a, a, b]));
    assert_eq!(sort_dedup(Vec::<Span>::new()), Vec::<Span>::new());
}
