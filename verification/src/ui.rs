//! Text handling of the web interface: reading a word typed by the user and
//! escaping text for HTML.
use vstd::prelude::*;
use vstd::string::{StrSliceExecFns, StringExecFns};

verus! {

/// The default accuracy `n` of a plot: lattice step `2^-n`.
pub const DEFAULT_PLOT_ACC_N: i32 = 7;

/// The default word length of a sweep over all words.
pub const DEFAULT_CALC_ALL_LEN: usize = 3;

/// The default step of a sweep over all words.
pub const DEFAULT_CALC_ALL_STEP: i32 = 1;

/// The word length a sweep uses when the form gives none.
pub fn default_calc_all_len() -> (r: usize)
    ensures
        r == DEFAULT_CALC_ALL_LEN,
{
    DEFAULT_CALC_ALL_LEN
}

/// The step a sweep uses when the form gives none.
pub fn default_calc_all_step() -> (r: i32)
    ensures
        r == DEFAULT_CALC_ALL_STEP,
{
    DEFAULT_CALC_ALL_STEP
}

/// What a character becomes in HTML text: the five characters with a
/// meaning in HTML become their entities, every other character stays.
pub open spec fn escape_char(c: char) -> Seq<char> {
    if c == '&' {
        seq!['&', 'a', 'm', 'p', ';']
    } else if c == '<' {
        seq!['&', 'l', 't', ';']
    } else if c == '>' {
        seq!['&', 'g', 't', ';']
    } else if c == '"' {
        seq!['&', 'q', 'u', 'o', 't', ';']
    } else if c == '\'' {
        seq!['&', '#', '3', '9', ';']
    } else {
        seq![c]
    }
}

/// `s` with every character escaped for HTML.
pub open spec fn escaped(s: Seq<char>) -> Seq<char>
    decreases s.len(),
{
    if s.len() == 0 {
        Seq::empty()
    } else {
        escaped(s.drop_last()) + escape_char(s.last())
    }
}

/// A character that HTML reads as markup or as a quote.
pub open spec fn is_markup(c: char) -> bool {
    c == '<' || c == '>' || c == '"' || c == '\''
}

/// Escaped text holds no markup or quote character.
pub proof fn law_escaped_has_no_markup(s: Seq<char>)
    ensures
        forall|i: int| 0 <= i < escaped(s).len() ==> !is_markup(#[trigger] escaped(s)[i]),
    decreases s.len(),
{
    if s.len() > 0 {
        law_escaped_has_no_markup(s.drop_last());
        let p = escaped(s.drop_last());
        let e = escape_char(s.last());
        assert forall|i: int| 0 <= i < escaped(s).len() implies !is_markup(#[trigger] escaped(s)[i]) by {
            if i >= p.len() {
                assert(escaped(s)[i] == e[i - p.len()]);
            } else {
                assert(escaped(s)[i] == p[i]);
            }
        }
    }
}

/// `String::push`: appends one character.
#[verifier::external_body]
fn push_char(s: &mut String, c: char)
    ensures
        final(s)@ == old(s)@.push(c),
{
    s.push(c);
}

/// `s` with `&`, `<`, `>`, `"` and `'` replaced by their HTML entities.
pub fn escape_html(s: &str) -> (r: String)
    ensures
        r@ == escaped(s@),
{
    broadcast use vstd::string::axiom_spec_iter;
    let mut out = String::new();
    for ch in it: s.chars()
        invariant
            it.seq() == s@,
            out@ == escaped(s@.take(it.index() as int)),
    {
        let ghost i = it.index() as int;
        let ghost t = s@.take(i + 1);
        assert(t.drop_last() == s@.take(i));
        assert(t.last() == ch);
        assert(escaped(t) == escaped(s@.take(i)) + escape_char(ch));
        proof {
            reveal_strlit("&amp;");
            reveal_strlit("&lt;");
            reveal_strlit("&gt;");
            reveal_strlit("&quot;");
            reveal_strlit("&#39;");
        }
        assert("&amp;"@ == seq!['&', 'a', 'm', 'p', ';']);
        assert("&lt;"@ == seq!['&', 'l', 't', ';']);
        assert("&gt;"@ == seq!['&', 'g', 't', ';']);
        assert("&quot;"@ == seq!['&', 'q', 'u', 'o', 't', ';']);
        assert("&#39;"@ == seq!['&', '#', '3', '9', ';']);
        if ch == '&' {
            out.append("&amp;");
        } else if ch == '<' {
            out.append("&lt;");
        } else if ch == '>' {
            out.append("&gt;");
        } else if ch == '"' {
            out.append("&quot;");
        } else if ch == '\'' {
            out.append("&#39;");
        } else {
            push_char(&mut out, ch);
        }
    }
    assert(s@.take(s@.len() as int) == s@);
    out
}

/// The Unicode `White_Space` property: the 25 code points U+0009 to U+000D,
/// U+0020, U+0085, U+00A0, U+1680, U+2000 to U+200A, U+2028, U+2029, U+202F,
/// U+205F and U+3000.
pub open spec fn white_space(c: char) -> bool {
    let n = c as int;
    ||| 0x09 <= n <= 0x0D
    ||| n == 0x20
    ||| n == 0x85
    ||| n == 0xA0
    ||| n == 0x1680
    ||| 0x2000 <= n <= 0x200A
    ||| n == 0x2028
    ||| n == 0x2029
    ||| n == 0x202F
    ||| n == 0x205F
    ||| n == 0x3000
}

/// `char::is_whitespace`, which std documents as the Unicode `White_Space`
/// property.
#[verifier::external_body]
fn is_whitespace(c: char) -> (r: bool)
    ensures
        r == white_space(c),
{
    c.is_whitespace()
}

/// A separator between the numbers of a word: a comma or white space.
pub open spec fn is_separator(c: char) -> bool {
    c == ',' || white_space(c)
}

/// The fields of `s` between separators, as `str::split` gives them: one
/// more than there are separators, empty ones included.
pub open spec fn fields(s: Seq<char>) -> Seq<Seq<char>>
    decreases s.len(),
{
    if s.len() == 0 {
        seq![Seq::empty()]
    } else {
        let f = fields(s.drop_last());
        if is_separator(s.last()) {
            f.push(Seq::empty())
        } else {
            f.update(f.len() - 1, f.last().push(s.last()))
        }
    }
}

/// There is always at least one field.
proof fn lemma_fields_len(s: Seq<char>)
    ensures
        fields(s).len() >= 1,
    decreases s.len(),
{
    if s.len() > 0 {
        lemma_fields_len(s.drop_last());
    }
}

/// An ASCII decimal digit.
pub open spec fn is_digit(c: char) -> bool {
    '0' <= c <= '9'
}

/// The value of the decimal digits `d`.
pub open spec fn digits_value(d: Seq<char>) -> int
    decreases d.len(),
{
    if d.len() == 0 {
        0
    } else {
        digits_value(d.drop_last()) * 10 + (d.last() as int - '0' as int)
    }
}

/// What `u8::from_str` gives for `t`: the value of an optional `+` followed
/// by one or more ASCII digits, when it is at most 255; otherwise nothing.
pub open spec fn parsed_u8(t: Seq<char>) -> Option<u8> {
    let d = if t.len() > 0 && t[0] == '+' {
        t.drop_first()
    } else {
        t
    };
    if d.len() > 0 && (forall|i: int| 0 <= i < d.len() ==> is_digit(#[trigger] d[i])) && digits_value(d)
        <= 255 {
        Some(digits_value(d) as u8)
    } else {
        None
    }
}

/// `str::parse::<u8>`, with the error dropped.
#[verifier::external_body]
fn parse_u8(s: &str) -> (r: Option<u8>)
    ensures
        r == parsed_u8(s@),
{
    s.parse::<u8>().ok()
}

/// The numbers of the non-empty fields that parse as a `u8`, in order.
pub open spec fn parsed_fields(fs: Seq<Seq<char>>) -> Seq<u8>
    decreases fs.len(),
{
    if fs.len() == 0 {
        Seq::empty()
    } else {
        let prev = parsed_fields(fs.drop_last());
        let f = fs.last();
        if f.len() > 0 && parsed_u8(f) is Some {
            prev.push(parsed_u8(f)->0)
        } else {
            prev
        }
    }
}

/// The values of the decimal digits of `s`, in order; other characters are skipped.
pub open spec fn digit_values(s: Seq<char>) -> Seq<u8>
    decreases s.len(),
{
    if s.len() == 0 {
        Seq::empty()
    } else {
        let prev = digit_values(s.drop_last());
        if is_digit(s.last()) {
            prev.push((s.last() as int - '0' as int) as u8)
        } else {
            prev
        }
    }
}

/// A word as typed: numbers separated by commas or white space when the
/// text holds a comma or a space (`"1,2,3,4"`), otherwise one digit per letter (`"1234"`).
pub open spec fn word_of(s: Seq<char>) -> Seq<u8> {
    if s.contains(',') || s.contains(' ') {
        parsed_fields(fields(s))
    } else {
        digit_values(s)
    }
}

/// Reads a word typed as `"1,2,3,4"`, `"1 2 3 4"` or `"1234"`: with a comma or
/// a space present, the fields between commas and white space that parse as
/// numbers; otherwise the decimal digits, one letter each.
pub fn parse_word(input: &str) -> (r: Vec<u8>)
    ensures
        r@ == word_of(input@),
{
    broadcast use vstd::string::axiom_spec_iter;
    let ghost s = input@;
    let mut split = false;
    for c in it: input.chars()
        invariant
            it.seq() == s,
            s == input@,
            split == (s.take(it.index() as int).contains(',') || s.take(it.index() as int).contains(' ')),
    {
        proof {
            let i = it.index() as int;
            let t = s.take(i + 1);
            assert(t == s.take(i).push(c));
            if s.take(i).contains(',') {
                let k = choose|k: int| 0 <= k < i && s.take(i)[k] == ',';
                assert(t[k] == ',');
            }
            if s.take(i).contains(' ') {
                let k = choose|k: int| 0 <= k < i && s.take(i)[k] == ' ';
                assert(t[k] == ' ');
            }
            if c == ',' {
                assert(t[i] == ',');
            }
            if c == ' ' {
                assert(t[i] == ' ');
            }
            if t.contains(',') && c != ',' {
                let k = choose|k: int| 0 <= k < i + 1 && t[k] == ',';
                assert(s.take(i)[k] == ',');
            }
            if t.contains(' ') && c != ' ' {
                let k = choose|k: int| 0 <= k < i + 1 && t[k] == ' ';
                assert(s.take(i)[k] == ' ');
            }
        }
        if c == ',' || c == ' ' {
            split = true;
        }
    }
    assert(s.take(s.len() as int) == s);
    let mut out: Vec<u8> = Vec::new();
    if split {
        // the field read so far
        let mut field = String::new();
        for c in it: input.chars()
            invariant
                it.seq() == s,
                s == input@,
                out@ == parsed_fields(fields(s.take(it.index() as int)).drop_last()),
                fields(s.take(it.index() as int)).last() == field@,
        {
            let sep = c == ',' || is_whitespace(c);
            let ghost i = it.index() as int;
            proof {
                let t = s.take(i + 1);
                assert(t.drop_last() == s.take(i));
                assert(t.last() == c);
                lemma_fields_len(s.take(i));
                lemma_fields_len(t);
            }
            if sep {
                let text = field.as_str();
                if text.unicode_len() > 0 {
                    if let Some(v) = parse_u8(text) {
                        out.push(v);
                    }
                }
                proof {
                    let f = fields(s.take(i));
                    assert(fields(s.take(i + 1)) == f.push(Seq::empty()));
                    assert(fields(s.take(i + 1)).drop_last() == f);
                }
                field = String::new();
            } else {
                proof {
                    let f = fields(s.take(i));
                    let g = f.update(f.len() - 1, f.last().push(c));
                    assert(fields(s.take(i + 1)) == g);
                    assert(g.drop_last() =~= f.drop_last());
                    assert(g.last() == f.last().push(c));
                }
                push_char(&mut field, c);
            }
        }
        let text = field.as_str();
        if text.unicode_len() > 0 {
            if let Some(v) = parse_u8(text) {
                out.push(v);
            }
        }
        proof {
            lemma_fields_len(s);
        }
    } else {
        for c in it: input.chars()
            invariant
                it.seq() == s,
                s == input@,
                out@ == digit_values(s.take(it.index() as int)),
        {
            proof {
                let i = it.index() as int;
                let t = s.take(i + 1);
                assert(t.drop_last() == s.take(i));
                assert(t.last() == c);
            }
            if '0' <= c && c <= '9' {
                out.push(((c as u32) - ('0' as u32)) as u8);
            }
        }
    }
    out
}

} // verus!
