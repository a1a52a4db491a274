use landau::ui::{default_calc_all_len, default_calc_all_step, escape_html, parse_word};

#[test]
fn escapes_the_five_html_characters() {
    assert_eq!(escape_html("a<b & 'c'\"d>"), "a&lt;b &amp; &#39;c&#39;&quot;d&gt;");
    assert_eq!(escape_html("plain text ž"), "plain text ž");
    assert_eq!(escape_html(""), "");
}

#[test]
fn words_with_separators() {
    assert_eq!(parse_word("1,2,3,4"), vec![1, 2, 3, 4]);
    assert_eq!(parse_word("1 2 3 4"), vec![1, 2, 3, 4]);
    assert_eq!(parse_word(" 1, 2,,x 300 +4 "), vec![1, 2, 4]);
    assert_eq!(parse_word("1\t2, 3"), vec![1, 2, 3]);
    assert_eq!(parse_word("255,256,-1"), vec![255]);
    assert_eq!(parse_word(","), Vec::<u8>::new());
}

#[test]
fn words_without_separators() {
    assert_eq!(parse_word("1234"), vec![1, 2, 3, 4]);
    assert_eq!(parse_word("12a3"), vec![1, 2, 3]);
    assert_eq!(parse_word("1\t2"), vec![1, 2]);
    assert_eq!(parse_word(""), Vec::<u8>::new());
}

#[test]
fn sweep_defaults() {
    assert_eq!(default_calc_all_len(), 3);
    assert_eq!(default_calc_all_step(), 1);
}

#[test]
fn law_escaped_text_has_no_markup() {
    for s in ["<script>alert('x')</script>", "a \"quoted\" & 'single'", "<<>>", "no markup"] {
        let e = escape_html(s);
        assert!(!e.contains('<') && !e.contains('>') && !e.contains('"') && !e.contains('\''));
    }
}
