use vstd::prelude::*;
use vstd::std_specs::iter::IteratorSpec;
use vstd::string::*;
use crate::codec::push_char;

verus! {

/// The HTML that the markdown crate produces for a text.
pub uninterp spec fn markdown_html(text: Seq<char>) -> Seq<char>;

/// Relies on `markdown::to_html`: CommonMark to HTML with the crate's default
/// options, under which raw HTML in the input is escaped rather than passed
/// through. The result depends on the text alone.
#[verifier::external_body]
fn markdown_to_html(text: &str) -> (r: String)
    ensures
        r@ == markdown_html(text@),
{
    markdown::to_html(text)
}

/// `c` is the ASCII letter `lower` in either case.
pub open spec fn is_letter(c: char, lower: char) -> bool {
    c == lower || c as u32 == lower as u32 - 32
}

/// A script tag opens at `i`: `<` and then `script` in any case.
pub open spec fn opens_script(s: Seq<char>, i: int) -> bool {
    &&& 0 <= i
    &&& i + 7 <= s.len()
    &&& s[i] == '<'
    &&& is_letter(s[i + 1], 's')
    &&& is_letter(s[i + 2], 'c')
    &&& is_letter(s[i + 3], 'r')
    &&& is_letter(s[i + 4], 'i')
    &&& is_letter(s[i + 5], 'p')
    &&& is_letter(s[i + 6], 't')
}

/// A character of a tag name in standard markdown output.
pub open spec fn is_name_char(c: char) -> bool {
    ('a' <= c && c <= 'z') || ('0' <= c && c <= '9')
}

/// A character that ends a tag name.
pub open spec fn is_tag_end(c: char) -> bool {
    c == ' ' || c == '>' || c == '/' || c == '\n'
}

/// Where the tag name starts in text that begins with `<` or `</`.
pub open spec fn name_start(w: Seq<char>) -> int {
    if w.len() > 1 && w[1] == '/' {
        2
    } else {
        1
    }
}

/// `w[a..b]` names a tag that standard markdown output uses: p, a, h1 to h6,
/// ul, ol, li, em, hr, br, pre, img, code, strong, blockquote.
pub open spec fn allowed_name(w: Seq<char>, a: int, b: int) -> bool {
    ||| b - a == 1 && (w[a] == 'p' || w[a] == 'a')
    ||| b - a == 2 && ((w[a] == 'h' && '1' <= w[a + 1] && w[a + 1] <= '6') || (w[a] == 'u' && w[a + 1]
        == 'l') || (w[a] == 'o' && w[a + 1] == 'l') || (w[a] == 'l' && w[a + 1] == 'i') || (w[a] == 'e'
        && w[a + 1] == 'm') || (w[a] == 'h' && w[a + 1] == 'r') || (w[a] == 'b' && w[a + 1] == 'r'))
    ||| b - a == 3 && ((w[a] == 'p' && w[a + 1] == 'r' && w[a + 2] == 'e') || (w[a] == 'i' && w[a + 1]
        == 'm' && w[a + 2] == 'g'))
    ||| b - a == 4 && w[a] == 'c' && w[a + 1] == 'o' && w[a + 2] == 'd' && w[a + 3] == 'e'
    ||| b - a == 6 && w[a] == 's' && w[a + 1] == 't' && w[a + 2] == 'r' && w[a + 3] == 'o' && w[a + 4]
        == 'n' && w[a + 5] == 'g'
    ||| b - a == 10 && w[a] == 'b' && w[a + 1] == 'l' && w[a + 2] == 'o' && w[a + 3] == 'c' && w[a + 4]
        == 'k' && w[a + 5] == 'q' && w[a + 6] == 'u' && w[a + 7] == 'o' && w[a + 8] == 't' && w[a + 9]
        == 'e'
}

/// The tag name that starts `w` ends at `b` and is an allowed name.
pub open spec fn tag_ends_at(w: Seq<char>, b: int) -> bool {
    let a = name_start(w);
    &&& a < b <= a + 10
    &&& b < w.len()
    &&& forall|k: int| a <= k < b ==> is_name_char(#[trigger] w[k])
    &&& is_tag_end(w[b])
    &&& allowed_name(w, a, b)
}

/// `w` begins with an opening or closing tag of standard markdown output.
pub open spec fn starts_standard_tag(w: Seq<char>) -> bool {
    w.len() > 0 && w[0] == '<' && exists|b: int| #[trigger] tag_ends_at(w, b)
}

/// `w` begins with a `<` that opens no standard tag.
pub open spec fn escaped_here(w: Seq<char>) -> bool {
    w.len() > 0 && w[0] == '<' && !starts_standard_tag(w)
}

/// The text with every `<` that opens no standard tag written as `&lt;`.
pub open spec fn sanitized(s: Seq<char>) -> Seq<char>
    decreases s.len(),
{
    if s.len() == 0 {
        seq![]
    } else if escaped_here(s) {
        seq!['&', 'l', 't', ';'] + sanitized(s.drop_first())
    } else {
        seq![s[0]] + sanitized(s.drop_first())
    }
}

proof fn lemma_tag_transfer(w1: Seq<char>, w2: Seq<char>, b: int)
    requires
        tag_ends_at(w1, b),
        b < w2.len(),
        forall|k: int| 0 <= k <= b ==> #[trigger] w1[k] == w2[k],
    ensures
        tag_ends_at(w2, b),
{
    assert(w1[1] == w2[1]);
    let a = name_start(w1);
    assert forall|k: int| a <= k < b implies is_name_char(#[trigger] w2[k]) by {
        assert(w1[k] == w2[k]);
    }
    assert(w1[b] == w2[b]);
}

/// Where the first `k` characters of `t` hold no `<`, sanitizing copies them.
proof fn lemma_sanitized_copies(t: Seq<char>, k: int)
    requires
        0 <= k <= t.len(),
        forall|m: int| 0 <= m < k ==> #[trigger] t[m] != '<',
    ensures
        k <= sanitized(t).len(),
        forall|m: int| 0 <= m < k ==> #[trigger] sanitized(t)[m] == t[m],
    decreases k,
{
    if k > 0 {
        let r = t.drop_first();
        assert(t[0] != '<');
        assert(sanitized(t) == seq![t[0]] + sanitized(r));
        assert forall|m: int| 0 <= m < k - 1 implies #[trigger] r[m] != '<' by {
            assert(r[m] == t[m + 1]);
        }
        lemma_sanitized_copies(r, k - 1);
        assert forall|m: int| 0 <= m < k implies #[trigger] sanitized(t)[m] == t[m] by {
            if m > 0 {
                assert(sanitized(t)[m] == sanitized(r)[m - 1]);
                assert(t[m] == r[m - 1]);
            }
        }
    }
}

/// Every `<` left in sanitized text opens a tag of standard markdown output.
pub proof fn law_sanitized_tags(s: Seq<char>)
    ensures
        forall|j: int|
            0 <= j < sanitized(s).len() && #[trigger] sanitized(s)[j] == '<' ==> starts_standard_tag(
                sanitized(s).subrange(j, sanitized(s).len() as int),
            ),
    decreases s.len(),
{
    if s.len() > 0 {
        let r = s.drop_first();
        law_sanitized_tags(r);
        let out = sanitized(s);
        let head = if escaped_here(s) { seq!['&', 'l', 't', ';'] } else { seq![s[0]] };
        assert(out == head + sanitized(r));
        assert forall|j: int| 0 <= j < out.len() && #[trigger] out[j] == '<' implies starts_standard_tag(
            out.subrange(j, out.len() as int),
        ) by {
            if j >= head.len() {
                let j2 = j - head.len();
                assert(out[j] == sanitized(r)[j2]);
                assert(out.subrange(j, out.len() as int) =~= sanitized(r).subrange(
                    j2,
                    sanitized(r).len() as int,
                ));
            } else if escaped_here(s) {
                assert(out[j] == head[j]);
            } else {
                assert(j == 0);
                assert(s[0] == '<');
                assert(starts_standard_tag(s));
                let b = choose|b: int| #[trigger] tag_ends_at(s, b);
                let a = name_start(s);
                assert forall|m: int| 0 <= m < b implies #[trigger] r[m] != '<' by {
                    assert(r[m] == s[m + 1]);
                    if m + 1 < a {
                        assert(s[1] == '/');
                    } else if m + 1 < b {
                        assert(is_name_char(s[m + 1]));
                    } else {
                        assert(is_tag_end(s[b]));
                    }
                }
                lemma_sanitized_copies(r, b);
                assert forall|k: int| 0 <= k <= b implies #[trigger] s[k] == out[k] by {
                    if k > 0 {
                        assert(out[k] == sanitized(r)[k - 1]);
                        assert(s[k] == r[k - 1]);
                    }
                }
                lemma_tag_transfer(s, out, b);
                assert(out.subrange(0, out.len() as int) =~= out);
            }
        }
    }
}

fn chars_of(s: &str) -> (r: Vec<char>)
    ensures
        r@ == s@,
{
    broadcast use vstd::string::group_string_axioms;
    let mut out: Vec<char> = Vec::new();
    let mut it = s.chars();
    loop
        invariant
            out@.len() <= s@.len(),
            it.remaining() == s@.subrange(out@.len() as int, s@.len() as int),
            out@ == s@.take(out@.len() as int),
        ensures
            out@ == s@,
        decreases s@.len() - out@.len(),
    {
        match it.next() {
            Some(c) => {
                let ghost k = out@.len() as int;
                out.push(c);
                proof {
                    assert(out@ =~= s@.take(k + 1));
                    assert(it.remaining() =~= s@.subrange(k + 1, s@.len() as int));
                }
            },
            None => {
                proof {
                    assert(s@.take(out@.len() as int) =~= s@);
                }
                break;
            },
        }
    }
    out
}

fn allowed_at(cs: &Vec<char>, a: usize, b: usize) -> (r: bool)
    requires
        a < b <= a + 10,
        b <= cs@.len(),
    ensures
        r == allowed_name(cs@, a as int, b as int),
{
    let n = b - a;
    if n == 1 {
        cs[a] == 'p' || cs[a] == 'a'
    } else if n == 2 {
        (cs[a] == 'h' && '1' <= cs[a + 1] && cs[a + 1] <= '6') || (cs[a] == 'u' && cs[a + 1] == 'l')
            || (cs[a] == 'o' && cs[a + 1] == 'l') || (cs[a] == 'l' && cs[a + 1] == 'i') || (cs[a] == 'e'
            && cs[a + 1] == 'm') || (cs[a] == 'h' && cs[a + 1] == 'r') || (cs[a] == 'b' && cs[a + 1]
            == 'r')
    } else if n == 3 {
        (cs[a] == 'p' && cs[a + 1] == 'r' && cs[a + 2] == 'e') || (cs[a] == 'i' && cs[a + 1] == 'm'
            && cs[a + 2] == 'g')
    } else if n == 4 {
        cs[a] == 'c' && cs[a + 1] == 'o' && cs[a + 2] == 'd' && cs[a + 3] == 'e'
    } else if n == 6 {
        cs[a] == 's' && cs[a + 1] == 't' && cs[a + 2] == 'r' && cs[a + 3] == 'o' && cs[a + 4] == 'n'
            && cs[a + 5] == 'g'
    } else if n == 10 {
        cs[a] == 'b' && cs[a + 1] == 'l' && cs[a + 2] == 'o' && cs[a + 3] == 'c' && cs[a + 4] == 'k'
            && cs[a + 5] == 'q' && cs[a + 6] == 'u' && cs[a + 7] == 'o' && cs[a + 8] == 't' && cs[a + 9]
            == 'e'
    } else {
        false
    }
}

fn name_char(c: char) -> (r: bool)
    ensures
        r == is_name_char(c),
{
    ('a' <= c && c <= 'z') || ('0' <= c && c <= '9')
}

/// Whether a standard tag opens at `i`.
fn standard_tag_here(cs: &Vec<char>, i: usize) -> (r: bool)
    requires
        i < cs@.len(),
    ensures
        r == starts_standard_tag(cs@.subrange(i as int, cs@.len() as int)),
{
    let n = cs.len();
    let ghost w = cs@.subrange(i as int, n as int);
    if cs[i] != '<' {
        return false;
    }
    let a: usize = if i + 1 < n && cs[i + 1] == '/' { i + 2 } else { i + 1 };
    proof {
        assert(name_start(w) == a - i);
    }
    let mut b: usize = a;
    while b < n && b - a < 11 && name_char(cs[b])
        invariant
            a <= b <= n,
            b <= a + 11,
            n == cs@.len(),
            forall|k: int| a <= k < b ==> is_name_char(#[trigger] cs@[k]),
        decreases n - b,
    {
        b = b + 1;
    }
    let ok = b > a && b - a <= 10 && b < n && (cs[b] == ' ' || cs[b] == '>' || cs[b] == '/' || cs[b]
        == '\n') && allowed_at(cs, a, b);
    proof {
        let bb = b - i;
        if ok {
            assert forall|k: int| a - i <= k < bb implies is_name_char(#[trigger] w[k]) by {
                assert(w[k] == cs@[k + i]);
            }
            assert(tag_ends_at(w, bb));
        } else if starts_standard_tag(w) {
            let c = choose|c: int| #[trigger] tag_ends_at(w, c);
            let ci = c + i;
            assert(w[c] == cs@[ci]);
            if ci < b {
                assert(is_name_char(cs@[ci]));
            } else if ci > b {
                assert(w[b - i] == cs@[b as int]);
                assert(is_name_char(w[b - i]));
            } else {
                assert forall|k: int| 0 <= k < 10 implies #[trigger] w[a - i + k] == cs@[a + k] by {}
            }
        }
    }
    ok
}

/// Writes every `<` of `h` that opens no tag of standard markdown output as
/// `&lt;`, so that only those tags remain.
pub fn sanitize_html(h: &str) -> (r: String)
    ensures
        r@ == sanitized(h@),
{
    let cs = chars_of(h);
    let n = cs.len();
    let mut out = String::new();
    let mut i: usize = 0;
    proof {
        assert(cs@.subrange(0, n as int) =~= cs@);
        assert(out@ + sanitized(cs@) =~= sanitized(cs@));
    }
    while i < n
        invariant
            n == cs@.len(),
            cs@ == h@,
            i <= n,
            sanitized(cs@) == out@ + sanitized(cs@.subrange(i as int, n as int)),
        decreases n - i,
    {
        let ghost t = cs@.subrange(i as int, n as int);
        proof {
            assert(t.drop_first() =~= cs@.subrange(i + 1, n as int));
        }
        if cs[i] == '<' && !standard_tag_here(&cs, i) {
            let ghost before = out@;
            push_char(&mut out, '&');
            push_char(&mut out, 'l');
            push_char(&mut out, 't');
            push_char(&mut out, ';');
            proof {
                assert(out@ =~= before + seq!['&', 'l', 't', ';']);
                assert(before + sanitized(t) =~= out@ + sanitized(t.drop_first()));
            }
        } else {
            let ghost before = out@;
            push_char(&mut out, cs[i]);
            proof {
                assert(before + sanitized(t) =~= out@ + sanitized(t.drop_first()));
            }
        }
        i = i + 1;
    }
    proof {
        assert(cs@.subrange(n as int, n as int) =~= Seq::<char>::empty());
        assert(out@ + Seq::<char>::empty() =~= out@);
    }
    out
}

/// HTML whose last block ends in a line ending, as standard markdown output
/// does: a line ending is added unless the text is empty or has one.
pub open spec fn terminated(h: Seq<char>) -> Seq<char> {
    if h.len() > 0 && h.last() != '\n' {
        h.push('\n')
    } else {
        h
    }
}

/// What `render` returns for a text.
pub open spec fn rendered(text: Seq<char>) -> Seq<char> {
    terminated(sanitized(markdown_html(text)))
}

/// Ends a piece of HTML with a line ending where it lacks one.
pub fn terminate_html(h: String) -> (r: String)
    ensures
        r@ == terminated(h@),
{
    let n = h.as_str().unicode_len();
    if n > 0 && h.as_str().get_char(n - 1) != '\n' {
        proof {
            reveal_strlit("\n");
        }
        let r = h.concat("\n");
        proof {
            assert(r@ =~= h@.push('\n'));
        }
        r
    } else {
        h
    }
}

/// Renders markdown text to HTML. Pure: the result depends on the text alone.
/// Any `<` that opens no tag of standard markdown output is escaped.
pub fn render(text: &str) -> (r: String)
    ensures
        r@ == rendered(text@),
{
    let html = markdown_to_html(text);
    terminate_html(sanitize_html(html.as_str()))
}

/// Rendering is deterministic: equal texts give identical HTML.
pub proof fn law_render_deterministic(a: Seq<char>, b: Seq<char>)
    requires
        a == b,
    ensures
        rendered(a) == rendered(b),
{
}


/// Every `<` in rendered HTML opens a tag of standard markdown output, so no
/// script tag opens anywhere in it, whatever the text.
pub proof fn law_render_only_standard_tags(text: Seq<char>)
    ensures
        forall|j: int|
            0 <= j < rendered(text).len() && #[trigger] rendered(text)[j] == '<' ==> starts_standard_tag(
                rendered(text).subrange(j, rendered(text).len() as int),
            ),
        forall|j: int| !opens_script(rendered(text), j),
{
    let h = sanitized(markdown_html(text));
    law_sanitized_tags(markdown_html(text));
    let out = rendered(text);
    assert forall|j: int| 0 <= j < out.len() && #[trigger] out[j] == '<' implies starts_standard_tag(
        out.subrange(j, out.len() as int),
    ) by {
        if h.len() > 0 && h.last() != '\n' {
            assert(out == h.push('\n'));
            assert(j < h.len());
            assert(out[j] == h[j]);
            let wh = h.subrange(j, h.len() as int);
            let wo = out.subrange(j, out.len() as int);
            let b = choose|b: int| #[trigger] tag_ends_at(wh, b);
            assert forall|k: int| 0 <= k <= b implies #[trigger] wh[k] == wo[k] by {}
            lemma_tag_transfer(wh, wo, b);
        }
    }
    assert forall|j: int| !opens_script(out, j) by {
        if opens_script(out, j) {
            let w = out.subrange(j, out.len() as int);
            assert(out[j] == '<');
            assert(starts_standard_tag(w));
            let b = choose|b: int| #[trigger] tag_ends_at(w, b);
            assert(w[1] == out[j + 1]);
            assert(w[2] == out[j + 2]);
        }
    }
}

} // verus!
